//! IPv4 addresses, as plain values.
use vstd::prelude::*;

use crate::text;
use crate::text::{all_digits, decimal, digits_value, split};

verus! {

/// An IPv4 address: its four octets.
#[derive(Debug, Clone, Copy, PartialEq, Eq, PartialOrd, Ord, Hash, Structural)]
pub struct Ipv4Addr {
    pub a: u8,
    pub b: u8,
    pub c: u8,
    pub d: u8,
}

/// An IPv4 address and a port.
#[derive(Debug, Clone, Copy, PartialEq, Eq, PartialOrd, Ord, Hash, Structural)]
pub struct SocketAddrV4 {
    pub ip: Ipv4Addr,
    pub port: u16,
}

/// What one of the four parts of an address says: one to three decimal digits, at most 255,
/// with no zero in front of another digit.
pub open spec fn parse_octet(s: Seq<char>) -> Option<u8> {
    if 1 <= s.len() <= 3 && all_digits(s) && (s.len() > 1 ==> s[0] != '0') && digits_value(s)
        <= 255 {
        Some(digits_value(s) as u8)
    } else {
        None
    }
}

/// The address that a text says: four octets with dots between them.
pub open spec fn parse_ipv4(s: Seq<char>) -> Option<Ipv4Addr> {
    let parts = split(s, '.');
    if parts.len() != 4 {
        None
    } else {
        match (
            parse_octet(parts[0]),
            parse_octet(parts[1]),
            parse_octet(parts[2]),
            parse_octet(parts[3]),
        ) {
            (Some(a), Some(b), Some(c), Some(d)) => Some(Ipv4Addr { a, b, c, d }),
            _ => None,
        }
    }
}

/// The octets of an address with dots between them.
pub open spec fn ipv4_text(ip: Ipv4Addr) -> Seq<char> {
    decimal(ip.a as nat) + "."@ + decimal(ip.b as nat) + "."@ + decimal(ip.c as nat) + "."@
        + decimal(ip.d as nat)
}

/// An address, a colon and the port.
pub open spec fn socket_text(at: SocketAddrV4) -> Seq<char> {
    ipv4_text(at.ip) + ":"@ + decimal(at.port as nat)
}

fn octet(v: &[char]) -> (r: Option<u8>)
    ensures
        r == parse_octet(v@),
{
    if v.len() == 0 || v.len() > 3 || (v.len() > 1 && v[0] == '0') {
        return None;
    }
    match text::digits_number(v, 255) {
        Some(n) => Some(n as u8),
        None => None,
    }
}

impl Ipv4Addr {
    pub fn new(a: u8, b: u8, c: u8, d: u8) -> (r: Self)
        ensures
            r == (Ipv4Addr { a, b, c, d }),
    {
        Ipv4Addr { a, b, c, d }
    }

    /// The address that a text says.
    pub fn parse_chars(v: &[char]) -> (r: Option<Ipv4Addr>)
        ensures
            r == parse_ipv4(v@),
    {
        let parts = text::pieces(v, '.');
        let ghost all = text::all_views(parts@);
        if parts.len() != 4 {
            return None;
        }
        assert(all[0] == parts@[0]@ && all[1] == parts@[1]@ && all[2] == parts@[2]@ && all[3]
            == parts@[3]@);
        let a = octet(parts[0].as_slice());
        let b = octet(parts[1].as_slice());
        let c = octet(parts[2].as_slice());
        let d = octet(parts[3].as_slice());
        match (a, b, c, d) {
            (Some(a), Some(b), Some(c), Some(d)) => Some(Ipv4Addr { a, b, c, d }),
            _ => None,
        }
    }

    /// The address that a text says.
    pub fn parse(s: &str) -> (r: Option<Ipv4Addr>)
        ensures
            r == parse_ipv4(s@),
    {
        let v = text::chars(s);
        Ipv4Addr::parse_chars(v.as_slice())
    }

    /// The octets with dots between them.
    pub fn to_text(self) -> (r: String)
        ensures
            r@ == ipv4_text(self),
    {
        let mut out = text::decimal_text(self.a as u64);
        out.append(".");
        out.append(text::decimal_text(self.b as u64).as_str());
        out.append(".");
        out.append(text::decimal_text(self.c as u64).as_str());
        out.append(".");
        out.append(text::decimal_text(self.d as u64).as_str());
        out
    }
}

impl SocketAddrV4 {
    pub fn new(ip: Ipv4Addr, port: u16) -> (r: Self)
        ensures
            r == (SocketAddrV4 { ip, port }),
    {
        SocketAddrV4 { ip, port }
    }

    /// The address, a colon and the port.
    pub fn to_text(self) -> (r: String)
        ensures
            r@ == socket_text(self),
    {
        let mut out = self.ip.to_text();
        out.append(":");
        out.append(text::decimal_text(self.port as u64).as_str());
        out
    }
}

proof fn lemma_octet_reads_back(n: u8)
    ensures
        parse_octet(decimal(n as nat)) == Some(n),
        forall|c: char| decimal(n as nat).contains(c) ==> text::is_digit(c),
{
    let s = decimal(n as nat);
    text::lemma_decimal_reads_back(n as nat);
    reveal_with_fuel(decimal, 3);
    assert forall|c: char| s.contains(c) implies text::is_digit(c) by {
        let j = s.index_of(c);
        assert(text::is_digit(s[j]));
    }
    if n >= 100 {
        assert(s.len() == 3);
        assert(s[0] == text::digit_char((n / 100) as nat));
    } else if n >= 10 {
        assert(s.len() == 2);
        assert(s[0] == text::digit_char((n / 10) as nat));
    } else {
        assert(s.len() == 1);
    }
}

/// Reading an address's text gives the address back.
pub proof fn law_address_text_reads_back(ip: Ipv4Addr)
    ensures
        parse_ipv4(ipv4_text(ip)) == Some(ip),
{
    reveal_strlit(".");
    assert("."@ =~= seq!['.']);
    lemma_octet_reads_back(ip.a);
    lemma_octet_reads_back(ip.b);
    lemma_octet_reads_back(ip.c);
    lemma_octet_reads_back(ip.d);
    let (a, b, c, d) = (
        decimal(ip.a as nat),
        decimal(ip.b as nat),
        decimal(ip.c as nat),
        decimal(ip.d as nat),
    );
    text::lemma_split_none(a, '.');
    text::lemma_split_last(a, '.', b);
    text::lemma_split_last(a + "."@ + b, '.', c);
    text::lemma_split_last(a + "."@ + b + "."@ + c, '.', d);
    let parts = split(ipv4_text(ip), '.');
    assert(parts =~= seq![a].push(b).push(c).push(d));
}

proof fn lemma_digits_are_some(s: Seq<char>)
    requires
        s.len() > 0 && all_digits(s) && s[0] != '0',
    ensures
        digits_value(s) > 0,
    decreases s.len(),
{
    assert(text::is_digit(s[0]));
    let c: char = s[0];
    let u: u32 = c as u32;
    vstd::utf8::char_u32_cast(c, u);
    assert(c as u32 != 0x30) by {
        if c as u32 == 0x30 {
            vstd::utf8::char_u32_cast('0', 0x30u32);
        }
    }
    if s.len() > 1 {
        let less = s.drop_last();
        assert forall|i: int| 0 <= i < less.len() implies text::is_digit(#[trigger] less[i]) by {
            assert(less[i] == s[i]);
        }
        lemma_digits_are_some(less);
    } else {
        assert(s.drop_last() =~= Seq::<char>::empty());
    }
}

proof fn lemma_digits_write_back(s: Seq<char>)
    requires
        s.len() > 0 && all_digits(s) && (s.len() > 1 ==> s[0] != '0'),
    ensures
        decimal(digits_value(s)) == s,
    decreases s.len(),
{
    let less = s.drop_last();
    let c: char = s.last();
    assert(text::is_digit(s[s.len() - 1]));
    let u: u32 = c as u32;
    vstd::utf8::char_u32_cast(c, u);
    assert(text::digit_char((c as nat - 0x30) as nat) == c);
    if s.len() == 1 {
        assert(less =~= Seq::<char>::empty());
        assert(digits_value(less) == 0);
        assert(digits_value(s) == (c as nat - 0x30) as nat);
        assert(decimal(digits_value(s)) =~= seq![c]);
        assert(s =~= seq![c]);
    } else {
        assert forall|i: int| 0 <= i < less.len() implies text::is_digit(#[trigger] less[i]) by {
            assert(less[i] == s[i]);
        }
        lemma_digits_are_some(less);
        lemma_digits_write_back(less);
        let n = digits_value(s);
        let m = digits_value(less);
        let d: nat = (n - 10 * m) as nat;
        assert(n >= 10 && n / 10 == m && n % 10 == d);
        assert(decimal(n) =~= s);
    }
}

/// Only an address's own text is read as the address: four numbers up to 255 without zeros in
/// front, three dots between them, and nothing else.
pub proof fn law_nothing_else_reads_as_an_address(s: Seq<char>)
    ensures
        parse_ipv4(s) matches Some(ip) ==> s == ipv4_text(ip),
{
    match parse_ipv4(s) {
        Some(ip) => {
            let p = split(s, '.');
            lemma_digits_write_back(p[0]);
            lemma_digits_write_back(p[1]);
            lemma_digits_write_back(p[2]);
            lemma_digits_write_back(p[3]);
            text::law_pieces_join_to_the_whole(s, '.');
            reveal_strlit(".");
            assert("."@ =~= seq!['.']);
            let dot = seq!['.'];
            let p3 = p.drop_first().drop_first().drop_first();
            let p2 = p.drop_first().drop_first();
            let p1 = p.drop_first();
            assert(text::joined_by(p3, dot) =~= p[3]);
            assert(text::joined_by(p2, dot) =~= p[2] + dot + p[3]);
            assert(text::joined_by(p1, dot) =~= p[1] + dot + (p[2] + dot + p[3]));
            assert(text::joined_by(p, dot) =~= p[0] + dot + (p[1] + dot + (p[2] + dot + p[3])));
            assert(s =~= ipv4_text(ip));
        },
        None => {},
    }
}

} // verus!
