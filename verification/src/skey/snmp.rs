//! SNMPv1 over UDP/161, in the dialect `brscan-skey` speaks.
//!
//! Two PDU types, one transport, no MIB parsing and no v3 crypto. Three places depart
//! from the RFC, because the peer does:
//!
//! - The varbind value is always an OCTET STRING, even in a `GetRequest`, which therefore
//!   carries a zero-length octet string. [`Value::Null`] exists only so that a response
//!   using it decodes.
//! - Lengths are bounded by `u16`: the widest form is `82 hi lo`, and [`Message::encode`]
//!   refuses anything longer.
//! - Only version 1 is spoken.
//!
//! [`encode_message`] says what the bytes of a message are, [`decode_message`] what a
//! datagram says; [`law_decode_undoes_encode`] and [`law_prefixes_are_errors`] tie the two
//! together.
use vstd::prelude::*;
use vstd::slice::{slice_subrange, slice_to_vec};
use vstd::utf8::encode_utf8;

use crate::text;
use crate::text::{decimal, hex_byte, signed_decimal};

verus! {

/// Where SNMP lives.
pub const SNMP_PORT: u16 = 161;

/// The community `brscan-skey` uses when its config names none, which is how it ships.
pub const DEFAULT_COMMUNITY: &'static str = "internal";

/// Where the counter of request ids starts; the first request carries one more.
pub const FIRST_REQUEST_ID: i32 = 200;

/// Longest message the encoder will produce.
pub const MAX_ENCODED_LEN: usize = 65535;

/// BER tag of an INTEGER.
pub const TAG_INTEGER: u8 = 0x02;

/// BER tag of an OCTET STRING.
pub const TAG_OCTET_STRING: u8 = 0x04;

/// BER tag of a NULL.
pub const TAG_NULL: u8 = 0x05;

/// BER tag of an OBJECT IDENTIFIER.
pub const TAG_OID: u8 = 0x06;

/// BER tag of a SEQUENCE.
pub const TAG_SEQUENCE: u8 = 0x30;

/// PDU tags are context-specific and constructed: this plus the code of the kind.
pub const TAG_PDU_BASE: u8 = 0xa0;

// ---------------------------------------------------------------------------- errors

/// Everything that can go wrong encoding or decoding a message.
#[derive(Debug, Clone, PartialEq, Eq)]
pub enum SnmpError {
    /// The input ended in the middle of a tag, a length, or a value.
    Truncated { needed: usize, available: usize },
    /// A tag was not the one the grammar requires at that position.
    UnexpectedTag { expected: u8, found: u8 },
    /// The PDU tag was not `0xA0..=0xA5`.
    UnknownPdu(u8),
    /// An indefinite length (`0x80`), or a long form wider than four bytes.
    UnsupportedLength(u8),
    /// A length field that claims more bytes than the enclosing value has.
    LengthOverrun { claimed: usize, available: usize },
    /// An INTEGER wider than four bytes, or of zero width.
    IntegerWidth(usize),
    /// A version field other than that of version 1.
    UnsupportedVersion(i32),
    /// Fewer than two arcs, a second arc that the first octet cannot hold, or octets that
    /// are no arcs.
    BadOid(String),
    /// The message would exceed what two length octets can express.
    TooLong(usize),
    /// Trailing bytes after a complete message.
    TrailingBytes(usize),
}

/// What an [`SnmpError`] says.
pub enum SnmpErrorView {
    Truncated { needed: nat, available: nat },
    UnexpectedTag { expected: u8, found: u8 },
    UnknownPdu(u8),
    UnsupportedLength(u8),
    LengthOverrun { claimed: nat, available: nat },
    IntegerWidth(nat),
    UnsupportedVersion(i32),
    BadOid(Seq<char>),
    TooLong(nat),
    TrailingBytes(nat),
}

impl View for SnmpError {
    type V = SnmpErrorView;

    open spec fn view(&self) -> SnmpErrorView {
        match *self {
            SnmpError::Truncated { needed, available } => SnmpErrorView::Truncated {
                needed: needed as nat,
                available: available as nat,
            },
            SnmpError::UnexpectedTag { expected, found } => SnmpErrorView::UnexpectedTag {
                expected,
                found,
            },
            SnmpError::UnknownPdu(tag) => SnmpErrorView::UnknownPdu(tag),
            SnmpError::UnsupportedLength(first) => SnmpErrorView::UnsupportedLength(first),
            SnmpError::LengthOverrun { claimed, available } => SnmpErrorView::LengthOverrun {
                claimed: claimed as nat,
                available: available as nat,
            },
            SnmpError::IntegerWidth(width) => SnmpErrorView::IntegerWidth(width as nat),
            SnmpError::UnsupportedVersion(version) => SnmpErrorView::UnsupportedVersion(version),
            SnmpError::BadOid(detail) => SnmpErrorView::BadOid(detail@),
            SnmpError::TooLong(len) => SnmpErrorView::TooLong(len as nat),
            SnmpError::TrailingBytes(count) => SnmpErrorView::TrailingBytes(count as nat),
        }
    }
}

/// The sentence an error is reported with.
pub open spec fn error_text(e: SnmpErrorView) -> Seq<char> {
    match e {
        SnmpErrorView::Truncated { needed, available } => "truncated SNMP message: "@ + decimal(
            needed,
        ) + " bytes needed, "@ + decimal(available) + " available"@,
        SnmpErrorView::UnexpectedTag { expected, found } => "expected BER tag "@ + hex_byte(
            expected,
        ) + ", found "@ + hex_byte(found),
        SnmpErrorView::UnknownPdu(tag) => "unknown SNMP PDU tag "@ + hex_byte(tag),
        SnmpErrorView::UnsupportedLength(first) => "unsupported BER length form "@ + hex_byte(
            first,
        ),
        SnmpErrorView::LengthOverrun { claimed, available } => "BER length claims "@ + decimal(
            claimed,
        ) + " bytes, "@ + decimal(available) + " available"@,
        SnmpErrorView::IntegerWidth(width) => "unsupported INTEGER width "@ + decimal(width),
        SnmpErrorView::UnsupportedVersion(version) => "unsupported SNMP version field "@
            + signed_decimal(version as int) + "; only v1 (0) is spoken"@,
        SnmpErrorView::BadOid(detail) => "invalid object identifier: "@ + detail,
        SnmpErrorView::TooLong(len) => "encoded message is "@ + decimal(len)
            + " bytes; brscan-skey's encoder cannot express more than 65535"@,
        SnmpErrorView::TrailingBytes(count) => decimal(count)
            + " bytes left over after the SNMP message"@,
    }
}

impl SnmpError {
    /// The sentence this error is reported with.
    pub fn to_text(&self) -> (r: String)
        ensures
            r@ == error_text(self@),
    {
        match self {
            SnmpError::Truncated { needed, available } => {
                let mut out = "truncated SNMP message: ".to_owned();
                out.append(text::decimal_text(*needed as u64).as_str());
                out.append(" bytes needed, ");
                out.append(text::decimal_text(*available as u64).as_str());
                out.append(" available");
                out
            },
            SnmpError::UnexpectedTag { expected, found } => {
                let mut out = "expected BER tag ".to_owned();
                out.append(text::hex_text(*expected).as_str());
                out.append(", found ");
                out.append(text::hex_text(*found).as_str());
                out
            },
            SnmpError::UnknownPdu(tag) => {
                let mut out = "unknown SNMP PDU tag ".to_owned();
                out.append(text::hex_text(*tag).as_str());
                out
            },
            SnmpError::UnsupportedLength(first) => {
                let mut out = "unsupported BER length form ".to_owned();
                out.append(text::hex_text(*first).as_str());
                out
            },
            SnmpError::LengthOverrun { claimed, available } => {
                let mut out = "BER length claims ".to_owned();
                out.append(text::decimal_text(*claimed as u64).as_str());
                out.append(" bytes, ");
                out.append(text::decimal_text(*available as u64).as_str());
                out.append(" available");
                out
            },
            SnmpError::IntegerWidth(width) => {
                let mut out = "unsupported INTEGER width ".to_owned();
                out.append(text::decimal_text(*width as u64).as_str());
                out
            },
            SnmpError::UnsupportedVersion(version) => {
                let mut out = "unsupported SNMP version field ".to_owned();
                out.append(text::signed_text(*version).as_str());
                out.append("; only v1 (0) is spoken");
                out
            },
            SnmpError::BadOid(detail) => {
                let mut out = "invalid object identifier: ".to_owned();
                out.append(detail.as_str());
                out
            },
            SnmpError::TooLong(len) => {
                let mut out = "encoded message is ".to_owned();
                out.append(text::decimal_text(*len as u64).as_str());
                out.append(" bytes; brscan-skey's encoder cannot express more than 65535");
                out
            },
            SnmpError::TrailingBytes(count) => {
                let mut out = text::decimal_text(*count as u64);
                out.append(" bytes left over after the SNMP message");
                out
            },
        }
    }
}

// -------------------------------------------------------------------- BER: the bytes

/// The octets of a length: the narrowest of the short form, `81 xx` and `82 hi lo`. A
/// length past two octets keeps its low sixteen bits; the encoder refuses such a message.
pub open spec fn len_bytes(n: nat) -> Seq<u8> {
    if n <= 0x7f {
        seq![n as u8]
    } else if n <= 0xff {
        seq![0x81u8, n as u8]
    } else {
        seq![0x82u8, ((n / 256) % 256) as u8, (n % 256) as u8]
    }
}

/// A tag, the length of `content`, and `content`.
pub open spec fn tlv(tag: u8, content: Seq<u8>) -> Seq<u8> {
    seq![tag] + len_bytes(content.len()) + content
}

/// The fewest octets that hold `v` in two's complement.
pub open spec fn integer_width(v: int) -> nat {
    if -0x80 <= v < 0x80 {
        1
    } else if -0x8000 <= v < 0x8000 {
        2
    } else if -0x80_0000 <= v < 0x80_0000 {
        3
    } else {
        4
    }
}

/// `v` in two's complement over the fewest octets, most significant first.
pub open spec fn integer_content(v: int) -> Seq<u8> {
    let b0 = (v % 0x100) as u8;
    let b1 = ((v / 0x100) % 0x100) as u8;
    let b2 = ((v / 0x1_0000) % 0x100) as u8;
    let b3 = ((v / 0x100_0000) % 0x100) as u8;
    if integer_width(v) == 1 {
        seq![b0]
    } else if integer_width(v) == 2 {
        seq![b1, b0]
    } else if integer_width(v) == 3 {
        seq![b2, b1, b0]
    } else {
        seq![b3, b2, b1, b0]
    }
}

/// The number that octets say in two's complement.
pub open spec fn integer_value(c: Seq<u8>) -> int
    decreases c.len(),
{
    if c.len() <= 1 {
        if c[0] < 0x80 {
            c[0] as int
        } else {
            c[0] as int - 0x100
        }
    } else {
        integer_value(c.drop_last()) * 0x100 + c.last()
    }
}

/// All but the last group of an arc in base 128, each with its continuation bit.
pub open spec fn arc_head(n: nat) -> Seq<u8>
    decreases n,
{
    if n == 0 {
        seq![]
    } else {
        arc_head(n / 128).push((0x80 + n % 128) as u8)
    }
}

/// An arc in base 128, most significant group first.
pub open spec fn arc_bytes(n: nat) -> Seq<u8> {
    arc_head(n / 128).push((n % 128) as u8)
}

/// Several arcs in base 128, one after the other.
pub open spec fn arcs_bytes(arcs: Seq<u32>) -> Seq<u8>
    decreases arcs.len(),
{
    if arcs.len() == 0 {
        seq![]
    } else {
        arc_bytes(arcs[0] as nat) + arcs_bytes(arcs.drop_first())
    }
}

/// Whether the first two arcs pack into one octet from which they can be recovered.
pub open spec fn valid_oid(arcs: Seq<u32>) -> bool {
    arcs.len() >= 2 && arcs[0] <= 2 && arcs[1] < 40
}

/// The content octets of an object identifier.
pub open spec fn oid_content(arcs: Seq<u32>) -> Seq<u8> {
    seq![(40 * arcs[0] + arcs[1]) as u8] + arcs_bytes(arcs.skip(2))
}

/// Appends the octets of a length.
pub fn encode_len(len: usize, out: &mut Vec<u8>)
    ensures
        final(out)@ == old(out)@ + len_bytes(len as nat),
{
    if len <= 0x7f {
        out.push(len as u8);
    } else if len <= 0xff {
        out.push(0x81);
        out.push(len as u8);
    } else {
        out.push(0x82);
        out.push(((len / 256) % 256) as u8);
        out.push((len % 256) as u8);
    }
    assert(out@ =~= old(out)@ + len_bytes(len as nat));
}

/// Appends bytes.
fn push_all(bytes: &[u8], out: &mut Vec<u8>)
    ensures
        final(out)@ == old(out)@ + bytes@,
{
    let mut copy = slice_to_vec(bytes);
    out.append(&mut copy);
}

/// Appends a tag, the length of `content`, and `content`.
fn push_tlv(tag: u8, content: &[u8], out: &mut Vec<u8>)
    ensures
        final(out)@ == old(out)@ + tlv(tag, content@),
{
    out.push(tag);
    encode_len(content.len(), out);
    push_all(content, out);
    assert(out@ =~= old(out)@ + tlv(tag, content@));
}

/// Appends a constructed value, unless its content is longer than a length can say.
fn push_constructed(tag: u8, content: &[u8], out: &mut Vec<u8>) -> (r: Result<(), SnmpError>)
    ensures
        if content@.len() > MAX_ENCODED_LEN {
            &&& r matches Err(e)
            &&& e@ == SnmpErrorView::TooLong(content@.len())
            &&& final(out)@ == old(out)@
        } else {
            r is Ok && final(out)@ == old(out)@ + tlv(tag, content@)
        },
{
    if content.len() > MAX_ENCODED_LEN {
        return Err(SnmpError::TooLong(content.len()));
    }
    push_tlv(tag, content, out);
    Ok(())
}

/// Adding two to the power of thirty-two leaves the low four octets of a number alone.
proof fn lemma_low_octets(v: int, b: int)
    requires
        b == v || b == v + 0x1_0000_0000,
    ensures
        b % 0x100 == v % 0x100,
        (b / 0x100) % 0x100 == (v / 0x100) % 0x100,
        (b / 0x1_0000) % 0x100 == (v / 0x1_0000) % 0x100,
        (b / 0x100_0000) % 0x100 == (v / 0x100_0000) % 0x100,
{
    if b != v {
        assert(b / 0x100 == v / 0x100 + 0x100_0000);
        assert(b / 0x1_0000 == v / 0x1_0000 + 0x1_0000);
        assert(b / 0x100_0000 == v / 0x100_0000 + 0x100);
    }
}

/// Appends an integer under `tag`: minimal two's complement, one to four octets.
pub fn encode_integer(tag: u8, value: i32, out: &mut Vec<u8>)
    ensures
        final(out)@ == old(out)@ + tlv(tag, integer_content(value as int)),
{
    let wide: i64 = if value < 0 {
        value as i64 + 0x1_0000_0000
    } else {
        value as i64
    };
    let bits: u32 = wide as u32;
    let b0: u8 = (bits % 0x100) as u8;
    let b1: u8 = ((bits / 0x100) % 0x100) as u8;
    let b2: u8 = ((bits / 0x1_0000) % 0x100) as u8;
    let b3: u8 = ((bits / 0x100_0000) % 0x100) as u8;
    let mut content: Vec<u8> = Vec::new();
    if -0x80 <= value && value < 0x80 {
        content.push(b0);
    } else if -0x8000 <= value && value < 0x8000 {
        content.push(b1);
        content.push(b0);
    } else if -0x80_0000 <= value && value < 0x80_0000 {
        content.push(b2);
        content.push(b1);
        content.push(b0);
    } else {
        content.push(b3);
        content.push(b2);
        content.push(b1);
        content.push(b0);
    }
    proof {
        lemma_low_octets(value as int, bits as int);
        assert(content@ =~= integer_content(value as int));
    }
    push_tlv(tag, content.as_slice(), out);
}

fn push_arc_head(n: u32, out: &mut Vec<u8>)
    ensures
        final(out)@ == old(out)@ + arc_head(n as nat),
    decreases n,
{
    if n == 0 {
        assert(out@ =~= old(out)@ + arc_head(n as nat));
    } else {
        push_arc_head(n / 128, out);
        out.push((0x80 + n % 128) as u8);
        assert(out@ =~= old(out)@ + arc_head(n as nat));
    }
}

/// Appends an arc in base 128.
pub fn encode_base128(arc: u32, out: &mut Vec<u8>)
    ensures
        final(out)@ == old(out)@ + arc_bytes(arc as nat),
{
    push_arc_head(arc / 128, out);
    out.push((arc % 128) as u8);
    assert(out@ =~= old(out)@ + arc_bytes(arc as nat));
}

// -------------------------------------------------------------------- BER: reading

/// What is read off the front of bytes: the value, and what is left.
pub type Read<T> = Result<(T, Seq<u8>), SnmpErrorView>;

/// The number that octets say, most significant first.
pub open spec fn unsigned_value(c: Seq<u8>) -> nat
    decreases c.len(),
{
    if c.len() == 0 {
        0
    } else {
        unsigned_value(c.drop_last()) * 256 + c.last() as nat
    }
}

/// A length off the front of `s`.
pub open spec fn read_len(s: Seq<u8>) -> Read<nat> {
    if s.len() == 0 {
        Err(SnmpErrorView::Truncated { needed: 1, available: 0 })
    } else if s[0] < 0x80 {
        Ok((s[0] as nat, s.skip(1)))
    } else {
        let width = s[0] - 0x80;
        if width == 0 || width > 4 {
            Err(SnmpErrorView::UnsupportedLength(s[0]))
        } else if s.len() - 1 < width {
            Err(SnmpErrorView::Truncated { needed: width as nat, available: (s.len() - 1) as nat })
        } else {
            Ok((unsigned_value(s.subrange(1, 1 + width)), s.skip(1 + width)))
        }
    }
}

/// A tag, a length and that many bytes off the front of `s`.
pub open spec fn read_any(s: Seq<u8>) -> Read<(u8, Seq<u8>)> {
    if s.len() == 0 {
        Err(SnmpErrorView::Truncated { needed: 1, available: 0 })
    } else {
        match read_len(s.skip(1)) {
            Err(e) => Err(e),
            Ok((len, rest)) => if len > rest.len() {
                Err(SnmpErrorView::LengthOverrun { claimed: len, available: rest.len() })
            } else {
                Ok(((s[0], rest.take(len as int)), rest.skip(len as int)))
            },
        }
    }
}

/// The content of a value that must carry `expected` as its tag.
pub open spec fn read_tagged(s: Seq<u8>, expected: u8) -> Read<Seq<u8>> {
    match read_any(s) {
        Err(e) => Err(e),
        Ok(((tag, content), rest)) => if tag != expected {
            Err(SnmpErrorView::UnexpectedTag { expected, found: tag })
        } else {
            Ok((content, rest))
        },
    }
}

/// The integer that content octets say: one to four of them.
pub open spec fn integer_of(c: Seq<u8>) -> Result<int, SnmpErrorView> {
    if c.len() == 0 || c.len() > 4 {
        Err(SnmpErrorView::IntegerWidth(c.len()))
    } else {
        Ok(integer_value(c))
    }
}

/// An INTEGER off the front of `s`.
pub open spec fn read_integer(s: Seq<u8>) -> Read<int> {
    match read_tagged(s, TAG_INTEGER) {
        Err(e) => Err(e),
        Ok((content, rest)) => match integer_of(content) {
            Err(e) => Err(e),
            Ok(v) => Ok((v, rest)),
        },
    }
}

/// The arcs that octets say in base 128, where `arc` holds the groups already read of an
/// arc that is still open.
pub open spec fn read_arcs(c: Seq<u8>, arc: nat, open: bool) -> Result<Seq<u32>, Seq<char>>
    decreases c.len(),
{
    if c.len() == 0 {
        if open {
            Err("OID ends in the middle of an arc"@)
        } else {
            Ok(seq![])
        }
    } else {
        let next = arc * 128 + (c[0] % 128) as nat;
        if next > u32::MAX {
            Err("arc does not fit in u32"@)
        } else if c[0] < 0x80 {
            match read_arcs(c.drop_first(), 0, false) {
                Err(e) => Err(e),
                Ok(rest) => Ok(seq![next as u32] + rest),
            }
        } else {
            read_arcs(c.drop_first(), next, true)
        }
    }
}

/// What is wrong with `arcs` as an object identifier, if anything.
pub open spec fn oid_fault(arcs: Seq<u32>) -> Option<Seq<char>> {
    if arcs.len() < 2 {
        Some("at least two arcs are required, got "@ + decimal(arcs.len()))
    } else if arcs[0] > 2 || arcs[1] >= 40 {
        Some(
            "arcs "@ + decimal(arcs[0] as nat) + "."@ + decimal(arcs[1] as nat)
                + " cannot be packed into one recoverable octet"@,
        )
    } else {
        None
    }
}

/// The object identifier with these arcs.
pub open spec fn oid_of(arcs: Seq<u32>) -> Result<Seq<u32>, SnmpErrorView> {
    match oid_fault(arcs) {
        Some(detail) => Err(SnmpErrorView::BadOid(detail)),
        None => Ok(arcs),
    }
}

/// The object identifier that content octets say.
pub open spec fn decode_oid(c: Seq<u8>) -> Result<Seq<u32>, SnmpErrorView> {
    if c.len() == 0 {
        Err(SnmpErrorView::BadOid("empty OID content"@))
    } else {
        match read_arcs(c.drop_first(), 0, false) {
            Err(detail) => Err(SnmpErrorView::BadOid(detail)),
            Ok(rest) => oid_of(seq![(c[0] / 40) as u32, (c[0] % 40) as u32] + rest),
        }
    }
}

/// A cursor over one BER value's content.
struct BerReader<'a> {
    bytes: &'a [u8],
}

impl<'a> BerReader<'a> {
    fn new(bytes: &'a [u8]) -> (r: Self)
        ensures
            r.bytes@ == bytes@,
    {
        BerReader { bytes }
    }

    fn is_empty(&self) -> (r: bool)
        ensures
            r == (self.bytes@.len() == 0),
    {
        self.bytes.len() == 0
    }

    fn remaining(&self) -> (r: usize)
        ensures
            r == self.bytes@.len(),
    {
        self.bytes.len()
    }

    fn take(&mut self, count: usize) -> (r: Result<&'a [u8], SnmpError>)
        ensures
            if old(self).bytes@.len() < count {
                &&& r matches Err(e)
                &&& e@ == (SnmpErrorView::Truncated {
                    needed: count as nat,
                    available: old(self).bytes@.len(),
                })
                &&& final(self).bytes@ == old(self).bytes@
            } else {
                &&& r matches Ok(head)
                &&& head@ == old(self).bytes@.take(count as int)
                &&& final(self).bytes@ == old(self).bytes@.skip(count as int)
            },
    {
        let len: usize = self.bytes.len();
        if len < count {
            return Err(SnmpError::Truncated { needed: count, available: len });
        }
        let head = slice_subrange(self.bytes, 0, count);
        let tail = slice_subrange(self.bytes, count, len);
        assert(head@ =~= self.bytes@.take(count as int));
        assert(tail@ =~= self.bytes@.skip(count as int));
        self.bytes = tail;
        Ok(head)
    }

    fn take_byte(&mut self) -> (r: Result<u8, SnmpError>)
        ensures
            if old(self).bytes@.len() == 0 {
                &&& r matches Err(e)
                &&& e@ == (SnmpErrorView::Truncated { needed: 1, available: 0 })
            } else {
                &&& r == Ok::<u8, SnmpError>(old(self).bytes@[0])
                &&& final(self).bytes@ == old(self).bytes@.skip(1)
            },
    {
        match self.take(1) {
            Ok(head) => Ok(head[0]),
            Err(e) => Err(e),
        }
    }

    fn read_len(&mut self) -> (r: Result<usize, SnmpError>)
        ensures
            match read_len(old(self).bytes@) {
                Ok((len, rest)) => r == Ok::<usize, SnmpError>(len as usize) && len <= usize::MAX
                    && final(self).bytes@ == rest,
                Err(e) => r matches Err(x) && x@ == e,
            },
    {
        let ghost start = self.bytes@;
        let first: u8 = match self.take_byte() {
            Ok(b) => b,
            Err(e) => {
                return Err(e);
            },
        };
        if first < 0x80 {
            return Ok(first as usize);
        }
        let width: usize = (first - 0x80) as usize;
        if width == 0 || width > 4 {
            return Err(SnmpError::UnsupportedLength(first));
        }
        let octets = match self.take(width) {
            Ok(c) => c,
            Err(e) => {
                return Err(e);
            },
        };
        assert(octets@ =~= start.subrange(1, 1 + width));
        assert(self.bytes@ =~= start.skip(1 + width));
        let mut len: u64 = 0;
        let mut i: usize = 0;
        while i < width
            invariant
                i <= width <= 4,
                width == octets@.len(),
                len == unsigned_value(octets@.take(i as int)),
                i == 0 ==> len == 0,
                i == 1 ==> len < 0x100,
                i == 2 ==> len < 0x1_0000,
                i == 3 ==> len < 0x100_0000,
                i == 4 ==> len < 0x1_0000_0000,
            decreases width - i,
        {
            assert(octets@.take(i + 1).drop_last() =~= octets@.take(i as int));
            len = len * 256 + octets[i] as u64;
            i = i + 1;
        }
        assert(octets@.take(width as int) =~= octets@);
        Ok(len as usize)
    }

    /// Tag, then length, then that many bytes.
    fn expect_any(&mut self) -> (r: Result<(u8, &'a [u8]), SnmpError>)
        ensures
            match read_any(old(self).bytes@) {
                Ok(((tag, content), rest)) => r matches Ok((t, c)) && t == tag && c@ == content
                    && final(self).bytes@ == rest,
                Err(e) => r matches Err(x) && x@ == e,
            },
    {
        let tag: u8 = match self.take_byte() {
            Ok(b) => b,
            Err(e) => {
                return Err(e);
            },
        };
        let len: usize = match self.read_len() {
            Ok(n) => n,
            Err(e) => {
                return Err(e);
            },
        };
        if len > self.bytes.len() {
            return Err(SnmpError::LengthOverrun { claimed: len, available: self.bytes.len() });
        }
        match self.take(len) {
            Ok(content) => Ok((tag, content)),
            Err(e) => Err(e),
        }
    }

    fn expect_tagged(&mut self, expected: u8) -> (r: Result<&'a [u8], SnmpError>)
        ensures
            match read_tagged(old(self).bytes@, expected) {
                Ok((content, rest)) => r matches Ok(c) && c@ == content && final(self).bytes@
                    == rest,
                Err(e) => r matches Err(x) && x@ == e,
            },
    {
        match self.expect_any() {
            Err(e) => Err(e),
            Ok((tag, content)) => {
                if tag != expected {
                    return Err(SnmpError::UnexpectedTag { expected, found: tag });
                }
                Ok(content)
            },
        }
    }

    fn expect_integer(&mut self) -> (r: Result<i32, SnmpError>)
        ensures
            match read_integer(old(self).bytes@) {
                Ok((v, rest)) => r matches Ok(x) && x == v && final(self).bytes@ == rest,
                Err(e) => r matches Err(x) && x@ == e,
            },
    {
        match self.expect_tagged(TAG_INTEGER) {
            Err(e) => Err(e),
            Ok(content) => decode_integer(content),
        }
    }
}

/// The integer that content octets say.
pub fn decode_integer(content: &[u8]) -> (r: Result<i32, SnmpError>)
    ensures
        match integer_of(content@) {
            Ok(v) => r matches Ok(x) && x == v,
            Err(e) => r matches Err(x) && x@ == e,
        },
{
    if content.len() == 0 || content.len() > 4 {
        return Err(SnmpError::IntegerWidth(content.len()));
    }
    let mut value: i64 = if content[0] < 0x80 {
        content[0] as i64
    } else {
        content[0] as i64 - 0x100
    };
    let mut i: usize = 1;
    while i < content.len()
        invariant
            1 <= i <= content@.len() <= 4,
            value == integer_value(content@.take(i as int)),
            i == 1 ==> -0x80 <= value < 0x80,
            i == 2 ==> -0x8000 <= value < 0x8000,
            i == 3 ==> -0x80_0000 <= value < 0x80_0000,
            i == 4 ==> -0x8000_0000 <= value < 0x8000_0000,
        decreases content.len() - i,
    {
        assert(content@.take(i + 1).drop_last() =~= content@.take(i as int));
        value = value * 256 + content[i] as i64;
        i = i + 1;
    }
    assert(content@.take(i as int) =~= content@);
    Ok(value as i32)
}

// ------------------------------------------------------------------------------- OID

/// An object identifier, as a sequence of arcs: at least two, of which the first is at
/// most 2 and the second below 40, so that the two pack into one octet and can be
/// recovered from it.
#[derive(Debug, PartialEq, Eq, Hash)]
pub struct Oid(Vec<u32>);

impl Clone for Oid {
    fn clone(&self) -> (r: Self)
        ensures
            r@ == self@,
    {
        proof {
            use_type_invariant(self);
        }
        Oid(slice_to_vec(self.0.as_slice()))
    }
}

impl View for Oid {
    type V = Seq<u32>;

    closed spec fn view(&self) -> Seq<u32> {
        self.0@
    }
}

/// The arcs between dots, or the first piece that is no arc.
pub open spec fn parse_arcs(parts: Seq<Seq<char>>) -> Result<Seq<u32>, Seq<char>>
    decreases parts.len(),
{
    if parts.len() == 0 {
        Ok(seq![])
    } else {
        match parse_arcs(parts.drop_last()) {
            Err(e) => Err(e),
            Ok(head) => match text::parse_unsigned(parts.last(), u32::MAX as nat) {
                Some(n) => Ok(head.push(n as u32)),
                None => Err(text::quoted(parts.last()) + ": "@ + text::u32_refusal(parts.last())),
            },
        }
    }
}

/// The object identifier that a dotted text says.
pub open spec fn parse_oid(dotted: Seq<char>) -> Result<Seq<u32>, SnmpErrorView> {
    match parse_arcs(text::split(dotted, '.')) {
        Err(detail) => Err(SnmpErrorView::BadOid(detail)),
        Ok(arcs) => oid_of(arcs),
    }
}

/// The arcs with dots between them.
pub open spec fn dotted(arcs: Seq<u32>) -> Seq<char>
    decreases arcs.len(),
{
    if arcs.len() == 0 {
        seq![]
    } else if arcs.len() == 1 {
        decimal(arcs[0] as nat)
    } else {
        dotted(arcs.drop_last()) + "."@ + decimal(arcs.last() as nat)
    }
}

proof fn lemma_arcs_bytes_push(arcs: Seq<u32>, x: u32)
    ensures
        arcs_bytes(arcs.push(x)) == arcs_bytes(arcs) + arc_bytes(x as nat),
    decreases arcs.len(),
{
    if arcs.len() == 0 {
        reveal_with_fuel(arcs_bytes, 2);
        assert(arcs.push(x).drop_first() =~= Seq::<u32>::empty());
        assert(arcs_bytes(arcs.push(x)) =~= arc_bytes(x as nat));
        assert(arcs_bytes(arcs) + arc_bytes(x as nat) =~= arc_bytes(x as nat));
    } else {
        assert(arcs.push(x).drop_first() =~= arcs.drop_first().push(x));
        lemma_arcs_bytes_push(arcs.drop_first(), x);
        assert(arcs_bytes(arcs.push(x)) =~= arcs_bytes(arcs) + arc_bytes(x as nat));
    }
}

/// What `arcs` still says once the groups in `c` have been read, behind those already in
/// `arc`.
proof fn lemma_read_arcs_step(c: Seq<u8>, done: Seq<u32>, arc: nat, open: bool)
    requires
        c.len() > 0,
    ensures
        ({
            let next = arc * 128 + (c[0] % 128) as nat;
            next <= u32::MAX ==> prepend(done, read_arcs(c, arc, open)) == if c[0] < 0x80 {
                prepend(done.push(next as u32), read_arcs(c.drop_first(), 0, false))
            } else {
                prepend(done, read_arcs(c.drop_first(), next, true))
            }
        }),
{
    let next = arc * 128 + (c[0] % 128) as nat;
    if next <= u32::MAX && c[0] < 0x80 {
        match read_arcs(c.drop_first(), 0, false) {
            Ok(rest) => {
                assert(done + (seq![next as u32] + rest) =~= done.push(next as u32) + rest);
            },
            Err(_) => {},
        }
    }
}

/// `r` with `head` in front of what was read.
pub open spec fn prepend(head: Seq<u32>, r: Result<Seq<u32>, Seq<char>>) -> Result<
    Seq<u32>,
    Seq<char>,
> {
    match r {
        Ok(rest) => Ok(head + rest),
        Err(e) => Err(e),
    }
}

impl Oid {
    #[verifier::type_invariant]
    spec fn packs(self) -> bool {
        valid_oid(self.0@)
    }

    /// The object identifier with these arcs.
    pub fn new(arcs: Vec<u32>) -> (r: Result<Self, SnmpError>)
        ensures
            match oid_of(arcs@) {
                Ok(a) => r matches Ok(oid) && oid@ == a,
                Err(e) => r matches Err(x) && x@ == e,
            },
            r is Ok <==> valid_oid(arcs@),
    {
        if arcs.len() < 2 {
            let mut detail = "at least two arcs are required, got ".to_owned();
            detail.append(text::decimal_text(arcs.len() as u64).as_str());
            return Err(SnmpError::BadOid(detail));
        }
        if arcs[0] > 2 || arcs[1] >= 40 {
            let mut detail = "arcs ".to_owned();
            detail.append(text::decimal_text(arcs[0] as u64).as_str());
            detail.append(".");
            detail.append(text::decimal_text(arcs[1] as u64).as_str());
            detail.append(" cannot be packed into one recoverable octet");
            return Err(SnmpError::BadOid(detail));
        }
        Ok(Oid(arcs))
    }

    /// The arcs.
    pub fn arcs(&self) -> (r: &[u32])
        ensures
            r@ == self@,
            valid_oid(self@),
    {
        proof {
            use_type_invariant(self);
        }
        self.0.as_slice()
    }

    /// Appends this object identifier, tag and length included.
    pub fn encode_into(&self, out: &mut Vec<u8>)
        ensures
            final(out)@ == old(out)@ + tlv(TAG_OID, oid_content(self@)),
    {
        proof {
            use_type_invariant(self);
        }
        let ghost arcs = self.0@;
        let mut content: Vec<u8> = Vec::new();
        content.push((40 * self.0[0] + self.0[1]) as u8);
        let ghost first = content@;
        let mut i: usize = 2;
        assert(arcs.subrange(2, 2) =~= Seq::<u32>::empty());
        assert(content@ =~= first + arcs_bytes(arcs.subrange(2, 2)));
        while i < self.0.len()
            invariant
                arcs == self.0@,
                2 <= i <= arcs.len(),
                content@ =~= first + arcs_bytes(arcs.subrange(2, i as int)),
            decreases arcs.len() - i,
        {
            encode_base128(self.0[i], &mut content);
            proof {
                lemma_arcs_bytes_push(arcs.subrange(2, i as int), arcs[i as int]);
                assert(arcs.subrange(2, i + 1) =~= arcs.subrange(2, i as int).push(arcs[i as int]));
            }
            i = i + 1;
        }
        assert(arcs.subrange(2, i as int) =~= arcs.skip(2));
        assert(content@ =~= oid_content(arcs));
        push_tlv(TAG_OID, content.as_slice(), out);
    }

    /// The object identifier that content octets say.
    pub fn decode(content: &[u8]) -> (r: Result<Self, SnmpError>)
        ensures
            match decode_oid(content@) {
                Ok(a) => r matches Ok(oid) && oid@ == a,
                Err(e) => r matches Err(x) && x@ == e,
            },
    {
        if content.len() == 0 {
            return Err(SnmpError::BadOid("empty OID content".to_owned()));
        }
        let mut arcs: Vec<u32> = Vec::new();
        arcs.push((content[0] / 40) as u32);
        arcs.push((content[0] % 40) as u32);
        let ghost start = arcs@;
        let mut arc: u32 = 0;
        let mut in_progress = false;
        let mut i: usize = 1;
        assert(content@.skip(1) =~= content@.drop_first());
        assert(prepend(start, read_arcs(content@.skip(1), 0, false)) == prepend(
            arcs@,
            read_arcs(content@.skip(i as int), arc as nat, in_progress),
        ));
        while i < content.len()
            invariant
                1 <= i <= content@.len(),
                prepend(start, read_arcs(content@.skip(1), 0, false)) == prepend(
                    arcs@,
                    read_arcs(content@.skip(i as int), arc as nat, in_progress),
                ),
                content@.skip(1) == content@.drop_first(),
                start == seq![(content@[0] / 40) as u32, (content@[0] % 40) as u32],
            decreases content@.len() - i,
        {
            let byte: u8 = content[i];
            let next: u64 = arc as u64 * 128 + (byte % 128) as u64;
            proof {
                lemma_read_arcs_step(content@.skip(i as int), arcs@, arc as nat, in_progress);
                assert(content@.skip(i as int).drop_first() =~= content@.skip(i + 1));
            }
            if next > 0xffff_ffff {
                return Err(SnmpError::BadOid("arc does not fit in u32".to_owned()));
            }
            if byte < 0x80 {
                arcs.push(next as u32);
                arc = 0;
                in_progress = false;
            } else {
                arc = next as u32;
                in_progress = true;
            }
            i = i + 1;
        }
        if in_progress {
            return Err(SnmpError::BadOid("OID ends in the middle of an arc".to_owned()));
        }
        proof {
            assert(arcs@ + Seq::<u32>::empty() =~= arcs@);
            assert(start + Seq::<u32>::empty() =~= start);
        }
        Oid::new(arcs)
    }

    /// The object identifier that a dotted text says.
    pub fn parse(dotted: &str) -> (r: Result<Self, SnmpError>)
        ensures
            match parse_oid(dotted@) {
                Ok(a) => r matches Ok(oid) && oid@ == a,
                Err(e) => r matches Err(x) && x@ == e,
            },
    {
        let v = text::chars(dotted);
        let parts = text::pieces(v.as_slice(), '.');
        let ghost all = text::all_views(parts@);
        let mut arcs: Vec<u32> = Vec::new();
        let mut i: usize = 0;
        assert(all.take(0) =~= Seq::<Seq<char>>::empty());
        while i < parts.len()
            invariant
                all == text::all_views(parts@),
                all == text::split(dotted@, '.'),
                i <= parts@.len(),
                parse_arcs(all.take(i as int)) == Ok::<Seq<u32>, Seq<char>>(arcs@),
            decreases parts@.len() - i,
        {
            let part = text::from_chars(parts[i].as_slice());
            proof {
                assert(part@ == all[i as int]);
                assert(all.take(i + 1).drop_last() =~= all.take(i as int));
            }
            match text::parse_u32(part.as_str()) {
                Ok(n) => {
                    arcs.push(n);
                },
                Err(error) => {
                    let mut detail = text::quote(part.as_str());
                    detail.append(": ");
                    detail.append(error.as_str());
                    proof {
                        lemma_parse_arcs_prefix(all, i + 1);
                    }
                    return Err(SnmpError::BadOid(detail));
                },
            }
            i = i + 1;
        }
        assert(all.take(i as int) =~= all);
        Oid::new(arcs)
    }

    /// The arcs with dots between them.
    pub fn to_text(&self) -> (r: String)
        ensures
            r@ == dotted(self@),
    {
        proof {
            use_type_invariant(self);
        }
        let ghost arcs = self.0@;
        let mut out = text::decimal_text(self.0[0] as u64);
        let mut i: usize = 1;
        assert(arcs.take(1).len() == 1 && arcs.take(1)[0] == arcs[0]);
        while i < self.0.len()
            invariant
                arcs == self.0@,
                1 <= i <= arcs.len(),
                out@ == dotted(arcs.take(i as int)),
            decreases arcs.len() - i,
        {
            out.append(".");
            out.append(text::decimal_text(self.0[i] as u64).as_str());
            assert(arcs.take(i + 1).drop_last() =~= arcs.take(i as int));
            i = i + 1;
        }
        assert(arcs.take(i as int) =~= arcs);
        out
    }
}

impl core::str::FromStr for Oid {
    type Err = SnmpError;

    fn from_str(dotted: &str) -> (r: Result<Self, SnmpError>)
        ensures
            match parse_oid(dotted@) {
                Ok(a) => r matches Ok(oid) && oid@ == a,
                Err(e) => r matches Err(x) && x@ == e,
            },
    {
        Oid::parse(dotted)
    }
}

/// Once a piece is no arc, later pieces change nothing.
proof fn lemma_parse_arcs_prefix(parts: Seq<Seq<char>>, k: int)
    requires
        0 <= k <= parts.len(),
        parse_arcs(parts.take(k)) is Err,
    ensures
        parse_arcs(parts) == parse_arcs(parts.take(k)),
    decreases parts.len(),
{
    if k == parts.len() {
        assert(parts.take(k) =~= parts);
    } else {
        assert(parts.drop_last().take(k) =~= parts.take(k));
        lemma_parse_arcs_prefix(parts.drop_last(), k);
    }
}

// ---------------------------------------------------------------------------- values

/// A varbind value.
///
/// [`Value::OctetString`] is the only one that is ever sent. The other two exist because a
/// device's response may use them.
#[derive(Debug, Clone, PartialEq, Eq)]
pub enum Value {
    OctetString(Vec<u8>),
    Integer(i32),
    Null,
}

/// What a [`Value`] says.
pub enum ValueView {
    OctetString(Seq<u8>),
    Integer(i32),
    Null,
}

impl View for Value {
    type V = ValueView;

    open spec fn view(&self) -> ValueView {
        match *self {
            Value::OctetString(bytes) => ValueView::OctetString(bytes@),
            Value::Integer(value) => ValueView::Integer(value),
            Value::Null => ValueView::Null,
        }
    }
}

/// The octets of a value, tag and length included.
pub open spec fn value_bytes(v: ValueView) -> Seq<u8> {
    match v {
        ValueView::OctetString(bytes) => tlv(TAG_OCTET_STRING, bytes),
        ValueView::Integer(value) => tlv(TAG_INTEGER, integer_content(value as int)),
        ValueView::Null => tlv(TAG_NULL, seq![]),
    }
}

impl Value {
    /// The value as text, when it is one.
    pub fn as_str(&self) -> (r: Option<&str>)
        ensures
            match r {
                Some(s) => self@ matches ValueView::OctetString(bytes) && vstd::utf8::valid_utf8(
                    bytes,
                ) && s@ == vstd::utf8::decode_utf8(bytes),
                None => self@ matches ValueView::OctetString(bytes) ==> !vstd::utf8::valid_utf8(
                    bytes,
                ),
            },
    {
        match self {
            Value::OctetString(bytes) => match text::utf8_text(bytes.as_slice()) {
                Ok(s) => Some(s),
                Err(_) => None,
            },
            _ => None,
        }
    }

    /// Appends the octets of this value.
    pub fn encode_into(&self, out: &mut Vec<u8>)
        ensures
            final(out)@ == old(out)@ + value_bytes(self@),
    {
        match self {
            Value::OctetString(bytes) => push_tlv(TAG_OCTET_STRING, bytes.as_slice(), out),
            Value::Integer(value) => encode_integer(TAG_INTEGER, *value, out),
            Value::Null => {
                let empty: Vec<u8> = Vec::new();
                push_tlv(TAG_NULL, empty.as_slice(), out)
            },
        }
    }
}

/// One name and its value.
#[derive(Debug, Clone, PartialEq, Eq)]
pub struct VarBind {
    pub oid: Oid,
    pub value: Value,
}

/// What a [`VarBind`] says.
pub struct VarBindView {
    pub oid: Seq<u32>,
    pub value: ValueView,
}

impl View for VarBind {
    type V = VarBindView;

    open spec fn view(&self) -> VarBindView {
        VarBindView { oid: self.oid@, value: self.value@ }
    }
}

impl VarBind {
    pub fn new(oid: Oid, value: Value) -> (r: Self)
        ensures
            r.oid == oid,
            r.value == value,
    {
        VarBind { oid, value }
    }
}

// ------------------------------------------------------------------------------- PDU

/// The PDU kinds. The wire tag is `0xa0` plus the code of the kind.
#[derive(Debug, Clone, Copy, PartialEq, Eq, Structural)]
pub enum PduKind {
    GetRequest,
    GetNextRequest,
    Response,
    SetRequest,
}

impl PduKind {
    /// The number of a kind.
    pub open spec fn number(self) -> u8 {
        match self {
            PduKind::GetRequest => 0,
            PduKind::GetNextRequest => 1,
            PduKind::Response => 2,
            PduKind::SetRequest => 3,
        }
    }

    /// The kind that a wire tag names.
    pub open spec fn of_tag(tag: u8) -> Option<PduKind> {
        if tag == 0xa0 {
            Some(PduKind::GetRequest)
        } else if tag == 0xa1 {
            Some(PduKind::GetNextRequest)
        } else if tag == 0xa2 {
            Some(PduKind::Response)
        } else if tag == 0xa3 {
            Some(PduKind::SetRequest)
        } else {
            None
        }
    }

    /// The number of this kind.
    pub fn code(self) -> (r: u8)
        ensures
            r == self.number(),
    {
        match self {
            PduKind::GetRequest => 0,
            PduKind::GetNextRequest => 1,
            PduKind::Response => 2,
            PduKind::SetRequest => 3,
        }
    }

    /// The kind that a wire tag names.
    pub fn from_tag(tag: u8) -> (r: Option<PduKind>)
        ensures
            r == PduKind::of_tag(tag),
    {
        match tag {
            0xa0 => Some(PduKind::GetRequest),
            0xa1 => Some(PduKind::GetNextRequest),
            0xa2 => Some(PduKind::Response),
            0xa3 => Some(PduKind::SetRequest),
            _ => None,
        }
    }
}

/// `error-status`: whether the device took a request, or why it did not.
#[derive(Debug, Clone, Copy, PartialEq, Eq, Structural)]
pub enum ErrorStatus {
    NoError,
    TooBig,
    NoSuchName,
    BadValue,
    ReadOnly,
    GenErr,
    Other(i32),
}

impl ErrorStatus {
    /// The number of a status.
    pub open spec fn number(self) -> i32 {
        match self {
            ErrorStatus::NoError => 0,
            ErrorStatus::TooBig => 1,
            ErrorStatus::NoSuchName => 2,
            ErrorStatus::BadValue => 3,
            ErrorStatus::ReadOnly => 4,
            ErrorStatus::GenErr => 5,
            ErrorStatus::Other(code) => code,
        }
    }

    /// The status with a number; one that has a name never comes as [`ErrorStatus::Other`].
    pub open spec fn of_number(code: i32) -> ErrorStatus {
        if code == 0 {
            ErrorStatus::NoError
        } else if code == 1 {
            ErrorStatus::TooBig
        } else if code == 2 {
            ErrorStatus::NoSuchName
        } else if code == 3 {
            ErrorStatus::BadValue
        } else if code == 4 {
            ErrorStatus::ReadOnly
        } else if code == 5 {
            ErrorStatus::GenErr
        } else {
            ErrorStatus::Other(code)
        }
    }

    /// The name of a status.
    pub open spec fn name(self) -> Seq<char> {
        match self {
            ErrorStatus::NoError => "noError"@,
            ErrorStatus::TooBig => "tooBig"@,
            ErrorStatus::NoSuchName => "noSuchName"@,
            ErrorStatus::BadValue => "badValue"@,
            ErrorStatus::ReadOnly => "readOnly"@,
            ErrorStatus::GenErr => "genErr"@,
            ErrorStatus::Other(code) => "error-status "@ + signed_decimal(code as int),
        }
    }

    /// The number of this status.
    pub fn code(self) -> (r: i32)
        ensures
            r == self.number(),
    {
        match self {
            ErrorStatus::NoError => 0,
            ErrorStatus::TooBig => 1,
            ErrorStatus::NoSuchName => 2,
            ErrorStatus::BadValue => 3,
            ErrorStatus::ReadOnly => 4,
            ErrorStatus::GenErr => 5,
            ErrorStatus::Other(code) => code,
        }
    }

    /// The status with this number.
    pub fn from_code(code: i32) -> (r: ErrorStatus)
        ensures
            r == ErrorStatus::of_number(code),
    {
        match code {
            0 => ErrorStatus::NoError,
            1 => ErrorStatus::TooBig,
            2 => ErrorStatus::NoSuchName,
            3 => ErrorStatus::BadValue,
            4 => ErrorStatus::ReadOnly,
            5 => ErrorStatus::GenErr,
            other => ErrorStatus::Other(other),
        }
    }

    /// Whether the device took the request.
    pub fn is_ok(self) -> (r: bool)
        ensures
            r == (self == ErrorStatus::NoError),
    {
        match self {
            ErrorStatus::NoError => true,
            _ => false,
        }
    }

    /// The name of this status.
    pub fn to_text(self) -> (r: String)
        ensures
            r@ == self.name(),
    {
        match self {
            ErrorStatus::NoError => "noError".to_owned(),
            ErrorStatus::TooBig => "tooBig".to_owned(),
            ErrorStatus::NoSuchName => "noSuchName".to_owned(),
            ErrorStatus::BadValue => "badValue".to_owned(),
            ErrorStatus::ReadOnly => "readOnly".to_owned(),
            ErrorStatus::GenErr => "genErr".to_owned(),
            ErrorStatus::Other(code) => {
                let mut out = "error-status ".to_owned();
                out.append(text::signed_text(code).as_str());
                out
            },
        }
    }
}

/// What a message asks or answers.
#[derive(Debug, Clone, PartialEq, Eq)]
pub struct Pdu {
    pub kind: PduKind,
    pub request_id: i32,
    pub error_status: ErrorStatus,
    pub error_index: i32,
    pub varbinds: Vec<VarBind>,
}

/// What a [`Pdu`] says.
pub struct PduView {
    pub kind: PduKind,
    pub request_id: i32,
    pub error_status: ErrorStatus,
    pub error_index: i32,
    pub varbinds: Seq<VarBindView>,
}

/// The contents of a vector of varbinds.
pub open spec fn varbind_views(v: Seq<VarBind>) -> Seq<VarBindView> {
    v.map_values(|b: VarBind| b@)
}

impl View for Pdu {
    type V = PduView;

    open spec fn view(&self) -> PduView {
        PduView {
            kind: self.kind,
            request_id: self.request_id,
            error_status: self.error_status,
            error_index: self.error_index,
            varbinds: varbind_views(self.varbinds@),
        }
    }
}

// --------------------------------------------------------------------------- message

/// The protocol version. A version field other than that of version 1 is a decode error
/// rather than a silently accepted reply.
#[derive(Debug, Clone, Copy, PartialEq, Eq, Structural)]
pub enum Version {
    V1,
}

impl Version {
    /// The number of a version on the wire.
    pub open spec fn number(self) -> i32 {
        match self {
            Version::V1 => 0,
        }
    }

    /// The number of this version on the wire.
    pub fn code(self) -> (r: i32)
        ensures
            r == self.number(),
    {
        match self {
            Version::V1 => 0,
        }
    }
}

/// A whole SNMPv1 message.
#[derive(Debug, Clone, PartialEq, Eq)]
pub struct Message {
    pub version: Version,
    pub community: Vec<u8>,
    pub pdu: Pdu,
}

/// What a [`Message`] says.
pub struct MessageView {
    pub version: Version,
    pub community: Seq<u8>,
    pub pdu: PduView,
}

impl View for Message {
    type V = MessageView;

    open spec fn view(&self) -> MessageView {
        MessageView { version: self.version, community: self.community@, pdu: self.pdu@ }
    }
}

/// The content octets of one varbind.
pub open spec fn varbind_content(b: VarBindView) -> Seq<u8> {
    tlv(TAG_OID, oid_content(b.oid)) + value_bytes(b.value)
}

/// The octets of a varbind list's content, or the length of the first varbind that is too
/// long.
pub open spec fn encode_varbinds(bs: Seq<VarBindView>) -> Result<Seq<u8>, nat>
    decreases bs.len(),
{
    if bs.len() == 0 {
        Ok(seq![])
    } else {
        match encode_varbinds(bs.drop_last()) {
            Err(n) => Err(n),
            Ok(head) => {
                let content = varbind_content(bs.last());
                if content.len() > MAX_ENCODED_LEN {
                    Err(content.len())
                } else {
                    Ok(head + tlv(TAG_SEQUENCE, content))
                }
            },
        }
    }
}

/// The content octets of a PDU with this varbind list.
pub open spec fn pdu_content(p: PduView, list: Seq<u8>) -> Seq<u8> {
    tlv(TAG_INTEGER, integer_content(p.request_id as int)) + tlv(
        TAG_INTEGER,
        integer_content(p.error_status.number() as int),
    ) + tlv(TAG_INTEGER, integer_content(p.error_index as int)) + tlv(TAG_SEQUENCE, list)
}

/// The content octets of a message with this PDU.
pub open spec fn message_content(m: MessageView, pdu: Seq<u8>) -> Seq<u8> {
    tlv(TAG_INTEGER, integer_content(m.version.number() as int)) + tlv(
        TAG_OCTET_STRING,
        m.community,
    ) + tlv((TAG_PDU_BASE + m.pdu.kind.number()) as u8, pdu)
}

/// The content octets of a PDU, or the length of the first part that is too long.
pub open spec fn encode_pdu(p: PduView) -> Result<Seq<u8>, nat> {
    match encode_varbinds(p.varbinds) {
        Err(n) => Err(n),
        Ok(list) => if list.len() > MAX_ENCODED_LEN {
            Err(list.len())
        } else {
            Ok(pdu_content(p, list))
        },
    }
}

/// The octets of a message, or the length of the first part that is too long.
pub open spec fn encode_message(m: MessageView) -> Result<Seq<u8>, nat> {
    match encode_pdu(m.pdu) {
        Err(n) => Err(n),
        Ok(pdu) => {
            let content = message_content(m, pdu);
            let out = tlv(TAG_SEQUENCE, content);
            if pdu.len() > MAX_ENCODED_LEN {
                Err(pdu.len())
            } else if content.len() > MAX_ENCODED_LEN {
                Err(content.len())
            } else if out.len() > MAX_ENCODED_LEN {
                Err(out.len())
            } else {
                Ok(out)
            }
        },
    }
}

/// The value that a tag and content octets say; an unknown tag keeps its bytes.
pub open spec fn decode_value(tag: u8, content: Seq<u8>) -> Result<ValueView, SnmpErrorView> {
    if tag == TAG_INTEGER {
        match integer_of(content) {
            Err(e) => Err(e),
            Ok(v) => Ok(ValueView::Integer(v as i32)),
        }
    } else if tag == TAG_NULL {
        Ok(ValueView::Null)
    } else {
        Ok(ValueView::OctetString(content))
    }
}

/// The varbind that content octets say.
pub open spec fn decode_varbind(s: Seq<u8>) -> Result<VarBindView, SnmpErrorView> {
    match read_tagged(s, TAG_OID) {
        Err(e) => Err(e),
        Ok((name, rest)) => match decode_oid(name) {
            Err(e) => Err(e),
            Ok(oid) => match read_any(rest) {
                Err(e) => Err(e),
                Ok(((tag, content), _)) => match decode_value(tag, content) {
                    Err(e) => Err(e),
                    Ok(value) => Ok(VarBindView { oid, value }),
                },
            },
        },
    }
}

/// The varbinds that a list's content octets say, in order.
pub open spec fn decode_varbinds(s: Seq<u8>) -> Result<Seq<VarBindView>, SnmpErrorView>
    decreases s.len(),
{
    if s.len() == 0 {
        Ok(seq![])
    } else {
        match read_tagged(s, TAG_SEQUENCE) {
            Err(e) => Err(e),
            Ok((content, rest)) => match decode_varbind(content) {
                Err(e) => Err(e),
                Ok(b) => if rest.len() < s.len() {
                    match decode_varbinds(rest) {
                        Err(e) => Err(e),
                        Ok(tail) => Ok(seq![b] + tail),
                    }
                } else {
                    Ok(seq![b])
                },
            },
        }
    }
}

/// The PDU that content octets say under `kind`.
pub open spec fn decode_pdu(kind: PduKind, s: Seq<u8>) -> Result<PduView, SnmpErrorView> {
    match read_integer(s) {
        Err(e) => Err(e),
        Ok((request_id, s1)) => match read_integer(s1) {
            Err(e) => Err(e),
            Ok((status, s2)) => match read_integer(s2) {
                Err(e) => Err(e),
                Ok((index, s3)) => match read_tagged(s3, TAG_SEQUENCE) {
                    Err(e) => Err(e),
                    Ok((list, _)) => match decode_varbinds(list) {
                        Err(e) => Err(e),
                        Ok(varbinds) => Ok(
                            PduView {
                                kind,
                                request_id: request_id as i32,
                                error_status: ErrorStatus::of_number(status as i32),
                                error_index: index as i32,
                                varbinds,
                            },
                        ),
                    },
                },
            },
        },
    }
}

/// What is wrong with a PDU tag that no [`PduKind`] has. The two tags of the kinds behind the
/// last that has a name are PDU tags, but none that can stand in a message here.
pub open spec fn unnamed_pdu(tag: u8) -> SnmpErrorView {
    if 0xa0 <= tag <= 0xa5 {
        SnmpErrorView::UnexpectedTag { expected: TAG_PDU_BASE, found: tag }
    } else {
        SnmpErrorView::UnknownPdu(tag)
    }
}

/// The message that a community and a tagged PDU say.
pub open spec fn decode_tagged_pdu(community: Seq<u8>, tag: u8, body: Seq<u8>) -> Result<
    MessageView,
    SnmpErrorView,
> {
    match PduKind::of_tag(tag) {
        None => Err(unnamed_pdu(tag)),
        Some(kind) => match decode_pdu(kind, body) {
            Err(e) => Err(e),
            Ok(pdu) => Ok(MessageView { version: Version::V1, community, pdu }),
        },
    }
}

/// The message that the content octets of the outer sequence say.
pub open spec fn decode_content(s: Seq<u8>) -> Result<MessageView, SnmpErrorView> {
    match read_integer(s) {
        Err(e) => Err(e),
        Ok((version, s1)) => if version != 0 {
            Err(SnmpErrorView::UnsupportedVersion(version as i32))
        } else {
            match read_tagged(s1, TAG_OCTET_STRING) {
                Err(e) => Err(e),
                Ok((community, s2)) => match read_any(s2) {
                    Err(e) => Err(e),
                    Ok(((tag, body), _)) => decode_tagged_pdu(community, tag, body),
                },
            }
        },
    }
}

/// The message that a datagram says.
pub open spec fn decode_message(bytes: Seq<u8>) -> Result<MessageView, SnmpErrorView> {
    match read_tagged(bytes, TAG_SEQUENCE) {
        Err(e) => Err(e),
        Ok((content, rest)) => if rest.len() > 0 {
            Err(SnmpErrorView::TrailingBytes(rest.len()))
        } else {
            decode_content(content)
        },
    }
}

/// A request for one name and value.
pub open spec fn request_of(
    kind: PduKind,
    community: Seq<u8>,
    request_id: i32,
    oid: Seq<u32>,
    value: Seq<u8>,
) -> MessageView {
    MessageView {
        version: Version::V1,
        community,
        pdu: PduView {
            kind,
            request_id,
            error_status: ErrorStatus::NoError,
            error_index: 0,
            varbinds: seq![VarBindView { oid, value: ValueView::OctetString(value) }],
        },
    }
}

impl Message {
    /// A read of one name. The value is an empty octet string, not NULL.
    pub fn get(community: &str, request_id: i32, oid: Oid) -> (r: Self)
        ensures
            r@ == request_of(
                PduKind::GetRequest,
                encode_utf8(community@),
                request_id,
                oid@,
                seq![],
            ),
    {
        let empty: Vec<u8> = Vec::new();
        Message::request(PduKind::GetRequest, community, request_id, oid, empty)
    }

    /// A write of one name, which is what a registration is.
    pub fn set(community: &str, request_id: i32, oid: Oid, value: Vec<u8>) -> (r: Self)
        ensures
            r@ == request_of(
                PduKind::SetRequest,
                encode_utf8(community@),
                request_id,
                oid@,
                value@,
            ),
    {
        Message::request(PduKind::SetRequest, community, request_id, oid, value)
    }

    fn request(
        kind: PduKind,
        community: &str,
        request_id: i32,
        oid: Oid,
        value: Vec<u8>,
    ) -> (r: Self)
        ensures
            r@ == request_of(kind, encode_utf8(community@), request_id, oid@, value@),
    {
        let mut varbinds: Vec<VarBind> = Vec::new();
        varbinds.push(VarBind::new(oid, Value::OctetString(value)));
        assert(varbind_views(varbinds@) =~= seq![
            VarBindView { oid: oid@, value: ValueView::OctetString(value@) },
        ]);
        Message {
            version: Version::V1,
            community: slice_to_vec(community.as_bytes()),
            pdu: Pdu {
                kind,
                request_id,
                error_status: ErrorStatus::NoError,
                error_index: 0,
                varbinds,
            },
        }
    }

    /// The octets of this message.
    pub fn encode(&self) -> (r: Result<Vec<u8>, SnmpError>)
        ensures
            match encode_message(self@) {
                Ok(bytes) => r matches Ok(v) && v@ == bytes,
                Err(n) => r matches Err(e) && e@ == SnmpErrorView::TooLong(n),
            },
    {
        let pdu = match self.pdu.encode() {
            Ok(bytes) => bytes,
            Err(e) => {
                return Err(e);
            },
        };
        let mut content: Vec<u8> = Vec::new();
        encode_integer(TAG_INTEGER, self.version.code(), &mut content);
        push_tlv(TAG_OCTET_STRING, self.community.as_slice(), &mut content);
        let tag: u8 = TAG_PDU_BASE + self.pdu.kind.code();
        match push_constructed(tag, pdu.as_slice(), &mut content) {
            Ok(()) => {},
            Err(e) => {
                return Err(e);
            },
        }
        assert(content@ =~= message_content(self@, pdu@));

        let mut out: Vec<u8> = Vec::new();
        match push_constructed(TAG_SEQUENCE, content.as_slice(), &mut out) {
            Ok(()) => {},
            Err(e) => {
                return Err(e);
            },
        }
        assert(out@ =~= tlv(TAG_SEQUENCE, content@));
        if out.len() > MAX_ENCODED_LEN {
            return Err(SnmpError::TooLong(out.len()));
        }
        Ok(out)
    }

    /// The message that a datagram says.
    #[verifier::rlimit(60)]
    #[verifier::spinoff_prover]
    pub fn decode(bytes: &[u8]) -> (r: Result<Self, SnmpError>)
        ensures
            match decode_message(bytes@) {
                Ok(m) => r matches Ok(x) && x@ == m,
                Err(e) => r matches Err(x) && x@ == e,
            },
    {
        let mut reader = BerReader::new(bytes);
        let body = match reader.expect_tagged(TAG_SEQUENCE) {
            Ok(c) => c,
            Err(e) => {
                return Err(e);
            },
        };
        if !reader.is_empty() {
            return Err(SnmpError::TrailingBytes(reader.remaining()));
        }
        let mut message = BerReader::new(body);
        let version: i32 = match message.expect_integer() {
            Ok(v) => v,
            Err(e) => {
                return Err(e);
            },
        };
        if version != 0 {
            return Err(SnmpError::UnsupportedVersion(version));
        }
        let community = match message.expect_tagged(TAG_OCTET_STRING) {
            Ok(c) => c,
            Err(e) => {
                return Err(e);
            },
        };
        let (tag, pdu_body) = match message.expect_any() {
            Ok(x) => x,
            Err(e) => {
                return Err(e);
            },
        };
        let kind = match PduKind::from_tag(tag) {
            Some(k) => k,
            None => {
                if 0xa0 <= tag && tag <= 0xa5 {
                    return Err(
                        SnmpError::UnexpectedTag { expected: TAG_PDU_BASE, found: tag },
                    );
                }
                return Err(SnmpError::UnknownPdu(tag));
            },
        };
        match Pdu::decode(kind, pdu_body) {
            Ok(pdu) => Ok(
                Message { version: Version::V1, community: slice_to_vec(community), pdu },
            ),
            Err(e) => Err(e),
        }
    }
}

impl Pdu {
    /// The content octets of this PDU.
    fn encode(&self) -> (r: Result<Vec<u8>, SnmpError>)
        ensures
            match encode_pdu(self@) {
                Ok(bytes) => r matches Ok(v) && v@ == bytes,
                Err(n) => r matches Err(e) && e@ == SnmpErrorView::TooLong(n),
            },
    {
        let ghost all = self@.varbinds;
        let mut varbind_list: Vec<u8> = Vec::new();
        let mut i: usize = 0;
        assert(all.take(0) =~= Seq::<VarBindView>::empty());
        while i < self.varbinds.len()
            invariant
                all == self@.varbinds,
                i <= all.len(),
                all.len() == self.varbinds@.len(),
                encode_varbinds(all.take(i as int)) == Ok::<Seq<u8>, nat>(varbind_list@),
            decreases all.len() - i,
        {
            let mut content: Vec<u8> = Vec::new();
            self.varbinds[i].oid.encode_into(&mut content);
            self.varbinds[i].value.encode_into(&mut content);
            proof {
                assert(all[i as int] == self.varbinds@[i as int]@);
                assert(content@ =~= varbind_content(all[i as int]));
                assert(all.take(i + 1).drop_last() =~= all.take(i as int));
            }
            match push_constructed(TAG_SEQUENCE, content.as_slice(), &mut varbind_list) {
                Ok(()) => {},
                Err(e) => {
                    proof {
                        lemma_encode_varbinds_prefix(all, i + 1);
                    }
                    return Err(e);
                },
            }
            i = i + 1;
        }
        assert(all.take(i as int) =~= all);

        let mut pdu: Vec<u8> = Vec::new();
        encode_integer(TAG_INTEGER, self.request_id, &mut pdu);
        encode_integer(TAG_INTEGER, self.error_status.code(), &mut pdu);
        encode_integer(TAG_INTEGER, self.error_index, &mut pdu);
        match push_constructed(TAG_SEQUENCE, varbind_list.as_slice(), &mut pdu) {
            Ok(()) => {},
            Err(e) => {
                return Err(e);
            },
        }
        assert(pdu@ =~= pdu_content(self@, varbind_list@));
        Ok(pdu)
    }

    /// The PDU that content octets say under `kind`.
    fn decode(kind: PduKind, body: &[u8]) -> (r: Result<Self, SnmpError>)
        ensures
            match decode_pdu(kind, body@) {
                Ok(p) => r matches Ok(x) && x@ == p,
                Err(e) => r matches Err(x) && x@ == e,
            },
    {
        let mut pdu = BerReader::new(body);
        let request_id: i32 = match pdu.expect_integer() {
            Ok(v) => v,
            Err(e) => {
                return Err(e);
            },
        };
        let status: i32 = match pdu.expect_integer() {
            Ok(v) => v,
            Err(e) => {
                return Err(e);
            },
        };
        let error_index: i32 = match pdu.expect_integer() {
            Ok(v) => v,
            Err(e) => {
                return Err(e);
            },
        };
        let list = match pdu.expect_tagged(TAG_SEQUENCE) {
            Ok(c) => c,
            Err(e) => {
                return Err(e);
            },
        };
        let mut rest = BerReader::new(list);
        let mut varbinds: Vec<VarBind> = Vec::new();
        proof {
            lemma_behind_nothing(decode_varbinds(list@));
            assert(varbind_views(varbinds@) =~= seq![]);
        }
        while !rest.is_empty()
            invariant
                decode_varbinds(list@) == behind(
                    varbind_views(varbinds@),
                    decode_varbinds(rest.bytes@),
                ),
                decode_pdu(kind, body@) == (match decode_varbinds(list@) {
                    Err(e) => Err::<PduView, SnmpErrorView>(e),
                    Ok(all) => Ok(
                        PduView {
                            kind,
                            request_id,
                            error_status: ErrorStatus::of_number(status),
                            error_index,
                            varbinds: all,
                        },
                    ),
                }),
            decreases rest.bytes@.len(),
        {
            let ghost here = rest.bytes@;
            let ghost done = varbind_views(varbinds@);
            proof {
                lemma_read_any_shortens(here);
            }
            let content = match rest.expect_tagged(TAG_SEQUENCE) {
                Ok(c) => c,
                Err(e) => {
                    return Err(e);
                },
            };
            let varbind = match VarBind::decode(content) {
                Ok(b) => b,
                Err(e) => {
                    return Err(e);
                },
            };
            let ghost seen = varbind@;
            varbinds.push(varbind);
            proof {
                assert(varbind_views(varbinds@) =~= done.push(seen));
                lemma_behind_push(done, seen, decode_varbinds(rest.bytes@));
            }
        }
        proof {
            assert(varbind_views(varbinds@) + Seq::<VarBindView>::empty() =~= varbind_views(
                varbinds@,
            ));
        }
        Ok(
            Pdu {
                kind,
                request_id,
                error_status: ErrorStatus::from_code(status),
                error_index,
                varbinds,
            },
        )
    }
}

impl VarBind {
    /// The varbind that content octets say.
    fn decode(content: &[u8]) -> (r: Result<Self, SnmpError>)
        ensures
            match decode_varbind(content@) {
                Ok(b) => r matches Ok(x) && x@ == b,
                Err(e) => r matches Err(x) && x@ == e,
            },
    {
        let mut varbind = BerReader::new(content);
        let name = match varbind.expect_tagged(TAG_OID) {
            Ok(c) => c,
            Err(e) => {
                return Err(e);
            },
        };
        let oid = match Oid::decode(name) {
            Ok(o) => o,
            Err(e) => {
                return Err(e);
            },
        };
        let (tag, value) = match varbind.expect_any() {
            Ok(x) => x,
            Err(e) => {
                return Err(e);
            },
        };
        if tag == TAG_INTEGER {
            match decode_integer(value) {
                Ok(v) => Ok(VarBind { oid, value: Value::Integer(v) }),
                Err(e) => Err(e),
            }
        } else if tag == TAG_NULL {
            Ok(VarBind { oid, value: Value::Null })
        } else {
            Ok(VarBind { oid, value: Value::OctetString(slice_to_vec(value)) })
        }
    }
}

// ------------------------------------------------------------------------- the lemmas

/// `r` with `head` in front of what was read.
pub open spec fn behind(
    head: Seq<VarBindView>,
    r: Result<Seq<VarBindView>, SnmpErrorView>,
) -> Result<Seq<VarBindView>, SnmpErrorView> {
    match r {
        Ok(rest) => Ok(head + rest),
        Err(e) => Err(e),
    }
}

proof fn lemma_behind_nothing(r: Result<Seq<VarBindView>, SnmpErrorView>)
    ensures
        behind(seq![], r) == r,
{
    match r {
        Ok(rest) => {
            assert(Seq::<VarBindView>::empty() + rest =~= rest);
        },
        Err(_) => {},
    }
}

proof fn lemma_behind_push(
    head: Seq<VarBindView>,
    b: VarBindView,
    r: Result<Seq<VarBindView>, SnmpErrorView>,
)
    ensures
        behind(head, behind(seq![b], r)) == behind(head.push(b), r),
{
    match r {
        Ok(rest) => {
            assert(head + (seq![b] + rest) =~= head.push(b) + rest);
        },
        Err(_) => {},
    }
}

/// Reading a value leaves fewer bytes.
proof fn lemma_read_any_shortens(s: Seq<u8>)
    ensures
        read_any(s) matches Ok((_, rest)) ==> rest.len() < s.len(),
{
}

/// Once a varbind is too long, later ones change nothing.
proof fn lemma_encode_varbinds_prefix(bs: Seq<VarBindView>, k: int)
    requires
        0 <= k <= bs.len(),
        encode_varbinds(bs.take(k)) is Err,
    ensures
        encode_varbinds(bs) == encode_varbinds(bs.take(k)),
    decreases bs.len(),
{
    if k == bs.len() {
        assert(bs.take(k) =~= bs);
    } else {
        assert(bs.drop_last().take(k) =~= bs.take(k));
        lemma_encode_varbinds_prefix(bs.drop_last(), k);
    }
}

proof fn lemma_len_reads(n: nat, rest: Seq<u8>)
    requires
        n <= MAX_ENCODED_LEN,
    ensures
        read_len(len_bytes(n) + rest) == Ok::<(nat, Seq<u8>), SnmpErrorView>((n, rest)),
{
    let s = len_bytes(n) + rest;
    reveal_with_fuel(unsigned_value, 3);
    if n <= 0x7f {
        assert(s.skip(1) =~= rest);
    } else if n <= 0xff {
        let octets = s.subrange(1, 2);
        assert(octets =~= seq![n as u8]);
        assert(octets.drop_last() =~= Seq::<u8>::empty());
        assert(unsigned_value(octets) == n);
        assert(s.skip(2) =~= rest);
    } else {
        let octets = s.subrange(1, 3);
        let hi = ((n / 256) % 256) as u8;
        let lo = (n % 256) as u8;
        assert(octets =~= seq![hi, lo]);
        assert(octets.drop_last() =~= seq![hi]);
        assert(octets.drop_last().drop_last() =~= Seq::<u8>::empty());
        assert(unsigned_value(octets) == n);
        assert(s.skip(3) =~= rest);
    }
}

proof fn lemma_tlv_reads(tag: u8, content: Seq<u8>, rest: Seq<u8>)
    requires
        content.len() <= MAX_ENCODED_LEN,
    ensures
        read_any(tlv(tag, content) + rest) == Ok::<((u8, Seq<u8>), Seq<u8>), SnmpErrorView>(
            ((tag, content), rest),
        ),
        tlv(tag, content).len() > content.len(),
{
    let s = tlv(tag, content) + rest;
    assert(s.skip(1) =~= len_bytes(content.len()) + (content + rest));
    lemma_len_reads(content.len(), content + rest);
    assert((content + rest).take(content.len() as int) =~= content);
    assert((content + rest).skip(content.len() as int) =~= rest);
}

proof fn lemma_integer_reads(v: int)
    requires
        i32::MIN <= v <= i32::MAX,
    ensures
        integer_of(integer_content(v)) == Ok::<int, SnmpErrorView>(v),
        1 <= integer_content(v).len() <= 4,
{
    let c = integer_content(v);
    reveal_with_fuel(integer_value, 4);
    if integer_width(v) == 1 {
    } else if integer_width(v) == 2 {
        assert(c.drop_last().len() == 1 && c.drop_last()[0] == c[0]);
    } else if integer_width(v) == 3 {
        let d = c.drop_last();
        assert(d.len() == 2 && d[0] == c[0] && d[1] == c[1]);
        assert(d.drop_last().len() == 1 && d.drop_last()[0] == c[0]);
    } else {
        let d = c.drop_last();
        let e = d.drop_last();
        assert(d.len() == 3 && d[0] == c[0] && d[1] == c[1] && d[2] == c[2]);
        assert(e.len() == 2 && e[0] == c[0] && e[1] == c[1]);
        assert(e.drop_last().len() == 1 && e.drop_last()[0] == c[0]);
    }
}

proof fn lemma_integer_tlv_reads(v: int, rest: Seq<u8>)
    requires
        i32::MIN <= v <= i32::MAX,
    ensures
        read_integer(tlv(TAG_INTEGER, integer_content(v)) + rest) == Ok::<
            (int, Seq<u8>),
            SnmpErrorView,
        >((v, rest)),
{
    lemma_integer_reads(v);
    lemma_tlv_reads(TAG_INTEGER, integer_content(v), rest);
}

proof fn lemma_arc_head_reads(n: nat, rest: Seq<u8>)
    requires
        0 < n <= u32::MAX,
    ensures
        read_arcs(arc_head(n) + rest, 0, false) == read_arcs(rest, n, true),
    decreases n,
{
    let b = (0x80 + n % 128) as u8;
    let tail = seq![b] + rest;
    assert(tail.drop_first() =~= rest);
    assert((n / 128) * 128 + (b % 128) as nat == n);
    assert(arc_head(n) + rest =~= arc_head(n / 128) + tail);
    if n / 128 > 0 {
        lemma_arc_head_reads(n / 128, tail);
    } else {
        assert(arc_head(n / 128) + tail =~= tail);
    }
}

proof fn lemma_arc_reads(n: nat, rest: Seq<u8>)
    requires
        n <= u32::MAX,
    ensures
        read_arcs(arc_bytes(n) + rest, 0, false) == prepend(
            seq![n as u32],
            read_arcs(rest, 0, false),
        ),
{
    let b = (n % 128) as u8;
    let tail = seq![b] + rest;
    assert(tail.drop_first() =~= rest);
    assert((n / 128) * 128 + (b % 128) as nat == n);
    assert(arc_bytes(n) + rest =~= arc_head(n / 128) + tail);
    if n / 128 > 0 {
        lemma_arc_head_reads(n / 128, tail);
    } else {
        assert(arc_head(n / 128) + tail =~= tail);
    }
}

proof fn lemma_arcs_read(arcs: Seq<u32>)
    ensures
        read_arcs(arcs_bytes(arcs), 0, false) == Ok::<Seq<u32>, Seq<char>>(arcs),
    decreases arcs.len(),
{
    if arcs.len() == 0 {
        assert(arcs =~= seq![]);
    } else {
        lemma_arc_reads(arcs[0] as nat, arcs_bytes(arcs.drop_first()));
        lemma_arcs_read(arcs.drop_first());
        assert(seq![arcs[0]] + arcs.drop_first() =~= arcs);
    }
}

/// Decoding an object identifier's content octets gives its arcs back.
pub proof fn law_oid_decode_undoes_encode(arcs: Seq<u32>)
    requires
        valid_oid(arcs),
    ensures
        decode_oid(oid_content(arcs)) == Ok::<Seq<u32>, SnmpErrorView>(arcs),
{
    let c = oid_content(arcs);
    let first = 40 * arcs[0] + arcs[1];
    lemma_arcs_read(arcs.skip(2));
    assert(c.drop_first() =~= arcs_bytes(arcs.skip(2)));
    assert(c[0] == first);
    assert(first / 40 == arcs[0] && first % 40 == arcs[1]);
    assert(seq![(c[0] / 40) as u32, (c[0] % 40) as u32] + arcs.skip(2) =~= arcs);
}

proof fn lemma_varbind_reads(b: VarBindView)
    requires
        valid_oid(b.oid),
        varbind_content(b).len() <= MAX_ENCODED_LEN,
    ensures
        decode_varbind(varbind_content(b)) == Ok::<VarBindView, SnmpErrorView>(b),
{
    let name = oid_content(b.oid);
    let value = value_bytes(b.value);
    law_oid_decode_undoes_encode(b.oid);
    assert(tlv(TAG_OID, name).len() >= name.len());
    lemma_tlv_reads(TAG_OID, name, value);
    assert(value + Seq::<u8>::empty() =~= value);
    match b.value {
        ValueView::OctetString(bytes) => {
            lemma_tlv_reads(TAG_OCTET_STRING, bytes, seq![]);
        },
        ValueView::Integer(v) => {
            lemma_integer_reads(v as int);
            lemma_tlv_reads(TAG_INTEGER, integer_content(v as int), seq![]);
        },
        ValueView::Null => {
            lemma_tlv_reads(TAG_NULL, seq![], seq![]);
        },
    }
}

/// Bytes behind a value do not change how it reads.
proof fn lemma_read_any_extends(a: Seq<u8>, b: Seq<u8>)
    requires
        read_any(a) is Ok,
    ensures
        read_any(a) matches Ok((v, rest)) && read_any(a + b) == Ok::<
            ((u8, Seq<u8>), Seq<u8>),
            SnmpErrorView,
        >((v, rest + b)),
{
    let s = a.skip(1);
    let t = (a + b).skip(1);
    assert(t =~= s + b);
    match read_len(s) {
        Ok((len, rest)) => {
            if s[0] >= 0x80 {
                let width = s[0] - 0x80;
                assert(t.subrange(1, 1 + width) =~= s.subrange(1, 1 + width));
                assert(t.skip(1 + width) =~= rest + b);
            } else {
                assert(t.skip(1) =~= rest + b);
            }
            assert(read_len(t) == Ok::<(nat, Seq<u8>), SnmpErrorView>((len, rest + b)));
            assert((rest + b).take(len as int) =~= rest.take(len as int));
            assert((rest + b).skip(len as int) =~= rest.skip(len as int) + b);
        },
        Err(_) => {},
    }
}

/// One varbind off the front of a list.
proof fn lemma_varbinds_step(s: Seq<u8>, content: Seq<u8>, rest: Seq<u8>)
    requires
        read_any(s) == Ok::<((u8, Seq<u8>), Seq<u8>), SnmpErrorView>(
            ((TAG_SEQUENCE, content), rest),
        ),
        decode_varbind(content) is Ok,
    ensures
        decode_varbinds(s) == behind(seq![decode_varbind(content)->Ok_0], decode_varbinds(rest)),
{
    lemma_read_any_shortens(s);
}

#[verifier::rlimit(60)]
#[verifier::spinoff_prover]
proof fn lemma_varbinds_extend(a: Seq<u8>, b: Seq<u8>)
    requires
        decode_varbinds(a) is Ok,
    ensures
        decode_varbinds(a + b) == behind(decode_varbinds(a)->Ok_0, decode_varbinds(b)),
    decreases a.len(),
{
    if a.len() == 0 {
        assert(a + b =~= b);
        lemma_behind_nothing(decode_varbinds(b));
    } else {
        lemma_read_any_extends(a, b);
        lemma_read_any_shortens(a);
        match read_any(a) {
            Ok(((_, content), rest)) => {
                lemma_varbinds_step(a, content, rest);
                lemma_varbinds_step(a + b, content, rest + b);
                lemma_varbinds_extend(rest, b);
                let first = decode_varbind(content)->Ok_0;
                let tail = decode_varbinds(rest)->Ok_0;
                match decode_varbinds(b) {
                    Ok(more) => {
                        assert(seq![first] + (tail + more) =~= (seq![first] + tail) + more);
                    },
                    Err(_) => {},
                }
            },
            Err(_) => {},
        }
    }
}

/// Whether every name of a message is an object identifier.
pub open spec fn names_valid(bs: Seq<VarBindView>) -> bool {
    forall|i: int| 0 <= i < bs.len() ==> valid_oid(#[trigger] bs[i].oid)
}

#[verifier::rlimit(60)]
#[verifier::spinoff_prover]
proof fn lemma_varbinds_read(bs: Seq<VarBindView>)
    requires
        names_valid(bs),
        encode_varbinds(bs) is Ok,
    ensures
        decode_varbinds(encode_varbinds(bs)->Ok_0) == Ok::<Seq<VarBindView>, SnmpErrorView>(bs),
    decreases bs.len(),
{
    if bs.len() == 0 {
        assert(bs =~= seq![]);
    } else {
        let front = bs.drop_last();
        assert forall|i: int| 0 <= i < front.len() implies valid_oid(#[trigger] front[i].oid) by {
            assert(front[i] == bs[i]);
        }
        assert(bs[bs.len() - 1] == bs.last());
        assert(valid_oid(bs[bs.len() - 1].oid));
        lemma_varbinds_read(front);
        let head = encode_varbinds(front)->Ok_0;
        let content = varbind_content(bs.last());
        let one = tlv(TAG_SEQUENCE, content);
        lemma_varbind_reads(bs.last());
        lemma_tlv_reads(TAG_SEQUENCE, content, seq![]);
        assert(one + Seq::<u8>::empty() =~= one);
        lemma_varbinds_step(one, content, seq![]);
        assert(seq![bs.last()] + Seq::<VarBindView>::empty() =~= seq![bs.last()]);
        assert(decode_varbinds(one) == Ok::<Seq<VarBindView>, SnmpErrorView>(seq![bs.last()]));
        lemma_varbinds_extend(head, one);
        assert(front + seq![bs.last()] =~= bs);
    }
}

/// `m` with an error status that has a name under that name.
pub open spec fn canonical(m: MessageView) -> MessageView {
    MessageView {
        pdu: PduView {
            error_status: ErrorStatus::of_number(m.pdu.error_status.number()),
            ..m.pdu
        },
        ..m
    }
}

#[verifier::rlimit(60)]
#[verifier::spinoff_prover]
proof fn lemma_pdu_reads(p: PduView, list: Seq<u8>)
    requires
        names_valid(p.varbinds),
        encode_varbinds(p.varbinds) == Ok::<Seq<u8>, nat>(list),
        list.len() <= MAX_ENCODED_LEN,
    ensures
        decode_pdu(p.kind, pdu_content(p, list)) == Ok::<PduView, SnmpErrorView>(
            PduView { error_status: ErrorStatus::of_number(p.error_status.number()), ..p },
        ),
{
    let pdu = pdu_content(p, list);
    let t1 = tlv(TAG_INTEGER, integer_content(p.error_status.number() as int));
    let t2 = tlv(TAG_INTEGER, integer_content(p.error_index as int));
    let t3 = tlv(TAG_SEQUENCE, list);
    assert(pdu =~= tlv(TAG_INTEGER, integer_content(p.request_id as int)) + (t1 + (t2 + t3)));
    lemma_integer_tlv_reads(p.request_id as int, t1 + (t2 + t3));
    lemma_integer_tlv_reads(p.error_status.number() as int, t2 + t3);
    lemma_integer_tlv_reads(p.error_index as int, t3);
    lemma_tlv_reads(TAG_SEQUENCE, list, seq![]);
    assert(t3 + Seq::<u8>::empty() =~= t3);
    lemma_varbinds_read(p.varbinds);
}

#[verifier::rlimit(60)]
#[verifier::spinoff_prover]
proof fn lemma_content_reads(m: MessageView, pdu: Seq<u8>)
    requires
        pdu.len() <= MAX_ENCODED_LEN,
        m.community.len() <= MAX_ENCODED_LEN,
        decode_pdu(m.pdu.kind, pdu) == Ok::<PduView, SnmpErrorView>(canonical(m).pdu),
    ensures
        decode_content(message_content(m, pdu)) == Ok::<MessageView, SnmpErrorView>(canonical(m)),
{
    let content = message_content(m, pdu);
    let tag = (TAG_PDU_BASE + m.pdu.kind.number()) as u8;
    let body = tlv(tag, pdu);
    let community = tlv(TAG_OCTET_STRING, m.community);
    assert(content =~= tlv(TAG_INTEGER, integer_content(0)) + (community + body));
    lemma_integer_tlv_reads(0, community + body);
    lemma_tlv_reads(TAG_OCTET_STRING, m.community, body);
    lemma_tlv_reads(tag, pdu, seq![]);
    assert(body + Seq::<u8>::empty() =~= body);
    assert(PduKind::of_tag(tag) == Some(m.pdu.kind));
}

/// Decoding what encoding wrote gives the message back: every field, every name and value,
/// in order, with an error status that has a name under that name.
pub proof fn law_decode_undoes_encode(m: MessageView)
    requires
        names_valid(m.pdu.varbinds),
        encode_message(m) is Ok,
    ensures
        decode_message(encode_message(m)->Ok_0) == Ok::<MessageView, SnmpErrorView>(canonical(m)),
{
    let list = encode_varbinds(m.pdu.varbinds)->Ok_0;
    let pdu = pdu_content(m.pdu, list);
    let content = message_content(m, pdu);
    let out = tlv(TAG_SEQUENCE, content);
    lemma_pdu_reads(m.pdu, list);
    assert(m.community.len() <= tlv(TAG_OCTET_STRING, m.community).len() <= content.len());
    lemma_content_reads(m, pdu);
    lemma_tlv_reads(TAG_SEQUENCE, content, seq![]);
    assert(out + Seq::<u8>::empty() =~= out);
}

/// No strict prefix of a value reads.
proof fn lemma_tlv_prefix(tag: u8, content: Seq<u8>, k: int)
    requires
        content.len() <= MAX_ENCODED_LEN,
        0 <= k < tlv(tag, content).len(),
    ensures
        read_any(tlv(tag, content).take(k)) is Err,
{
    let out = tlv(tag, content);
    let s = out.take(k);
    let n = content.len();
    let octets = len_bytes(n);
    if k >= 1 {
        let t = s.skip(1);
        if k >= 1 + octets.len() {
            let rest = t.skip(octets.len() as int);
            assert(t =~= octets + rest);
            lemma_len_reads(n, rest);
            assert(rest.len() < n);
        } else if k >= 2 {
            assert(t[0] == octets[0]);
            assert(t.len() < octets.len());
        } else {
            assert(t.len() == 0);
        }
    }
}

/// No strict prefix of an encoded message decodes.
pub proof fn law_prefixes_are_errors(m: MessageView, k: int)
    requires
        encode_message(m) is Ok,
        0 <= k < encode_message(m)->Ok_0.len(),
    ensures
        decode_message(encode_message(m)->Ok_0.take(k)) is Err,
{
    let content = message_content(m, encode_pdu(m.pdu)->Ok_0);
    lemma_tlv_prefix(TAG_SEQUENCE, content, k);
}

/// No shorter octets say the same integer.
pub proof fn law_integers_are_minimal(v: int, c: Seq<u8>)
    requires
        i32::MIN <= v <= i32::MAX,
        integer_of(c) == Ok::<int, SnmpErrorView>(v),
    ensures
        integer_content(v).len() <= c.len(),
{
    reveal_with_fuel(integer_value, 4);
    if c.len() == 2 {
        assert(c.drop_last().len() == 1);
    } else if c.len() == 3 {
        assert(c.drop_last().len() == 2);
        assert(c.drop_last().drop_last().len() == 1);
    }
}

/// No shorter octets say the same length.
pub proof fn law_lengths_are_narrowest(n: nat, s: Seq<u8>)
    requires
        n <= MAX_ENCODED_LEN,
        read_len(s) matches Ok((len, rest)) && len == n,
    ensures
        read_len(s) matches Ok((len, rest)) && len_bytes(n).len() + rest.len() <= s.len(),
{
    reveal_with_fuel(unsigned_value, 2);
    if s[0] >= 0x80 && s[0] == 0x81 {
        assert(s.subrange(1, 2).drop_last() =~= Seq::<u8>::empty());
    }
}

proof fn lemma_dotted_splits(arcs: Seq<u32>)
    requires
        arcs.len() > 0,
    ensures
        text::split(dotted(arcs), '.') == arcs.map_values(|a: u32| decimal(a as nat)),
    decreases arcs.len(),
{
    reveal_strlit(".");
    let last = decimal(arcs.last() as nat);
    text::lemma_decimal_reads_back(arcs.last() as nat);
    assert(!last.contains('.')) by {
        if last.contains('.') {
            let j = last.index_of('.');
            assert(text::is_digit(last[j]));
        }
    }
    if arcs.len() == 1 {
        text::lemma_split_none(last, '.');
        assert(seq![last] =~= arcs.map_values(|a: u32| decimal(a as nat)));
    } else {
        lemma_dotted_splits(arcs.drop_last());
        assert("."@ =~= seq!['.']);
        text::lemma_split_last(dotted(arcs.drop_last()), '.', last);
        assert(arcs.drop_last().map_values(|a: u32| decimal(a as nat)).push(last)
            =~= arcs.map_values(|a: u32| decimal(a as nat)));
    }
}

proof fn lemma_arcs_parse(arcs: Seq<u32>)
    ensures
        parse_arcs(arcs.map_values(|a: u32| decimal(a as nat))) == Ok::<Seq<u32>, Seq<char>>(arcs),
    decreases arcs.len(),
{
    let parts = arcs.map_values(|a: u32| decimal(a as nat));
    if arcs.len() == 0 {
        assert(arcs =~= seq![]);
    } else {
        lemma_arcs_parse(arcs.drop_last());
        assert(parts.drop_last() =~= arcs.drop_last().map_values(|a: u32| decimal(a as nat)));
        text::lemma_decimal_parses(arcs.last() as nat, u32::MAX as nat);
        assert(arcs.drop_last().push(arcs.last()) =~= arcs);
    }
}

/// Reading an object identifier's dotted text gives its arcs back.
pub proof fn law_oid_text_reads_back(arcs: Seq<u32>)
    requires
        valid_oid(arcs),
    ensures
        parse_oid(dotted(arcs)) == Ok::<Seq<u32>, SnmpErrorView>(arcs),
{
    lemma_dotted_splits(arcs);
    lemma_arcs_parse(arcs);
}

proof fn lemma_varbinds_know_no_pdu(s: Seq<u8>)
    ensures
        !(decode_varbinds(s) is Err && decode_varbinds(s)->Err_0 is UnknownPdu),
    decreases s.len(),
{
    if s.len() > 0 {
        match read_tagged(s, TAG_SEQUENCE) {
            Ok((content, rest)) => {
                if rest.len() < s.len() {
                    lemma_varbinds_know_no_pdu(rest);
                }
            },
            Err(_) => {},
        }
    }
}

proof fn lemma_integers_know_no_pdu(s: Seq<u8>)
    ensures
        !(read_integer(s) is Err && read_integer(s)->Err_0 is UnknownPdu),
{
}

proof fn lemma_pdus_know_no_pdu(kind: PduKind, s: Seq<u8>)
    ensures
        !(decode_pdu(kind, s) is Err && decode_pdu(kind, s)->Err_0 is UnknownPdu),
{
    lemma_integers_know_no_pdu(s);
    match read_integer(s) {
        Err(_) => {},
        Ok((_, s1)) => {
            lemma_integers_know_no_pdu(s1);
            match read_integer(s1) {
                Err(_) => {},
                Ok((_, s2)) => {
                    lemma_integers_know_no_pdu(s2);
                    match read_integer(s2) {
                        Err(_) => {},
                        Ok((_, s3)) => match read_tagged(s3, TAG_SEQUENCE) {
                            Err(_) => {},
                            Ok((list, _)) => {
                                lemma_varbinds_know_no_pdu(list);
                            },
                        },
                    }
                },
            }
        },
    }
}

proof fn lemma_tagged_pdus(community: Seq<u8>, tag: u8, body: Seq<u8>)
    ensures
        decode_tagged_pdu(community, tag, body) matches Err(SnmpErrorView::UnknownPdu(t)) ==> t
            < 0xa0 || t > 0xa5,
{
    match PduKind::of_tag(tag) {
        Some(kind) => {
            lemma_pdus_know_no_pdu(kind, body);
        },
        None => {},
    }
}

/// Only a tag outside `0xA0..=0xA5` is reported as an unknown PDU.
pub proof fn law_an_unknown_pdu_has_no_pdu_tag(bytes: Seq<u8>)
    ensures
        decode_message(bytes) matches Err(SnmpErrorView::UnknownPdu(tag)) ==> tag < 0xa0 || tag
            > 0xa5,
{
    match read_tagged(bytes, TAG_SEQUENCE) {
        Err(_) => {},
        Ok((content, _)) => {
            lemma_integers_know_no_pdu(content);
            match read_integer(content) {
                Err(_) => {},
                Ok((_, s1)) => match read_tagged(s1, TAG_OCTET_STRING) {
                    Err(_) => {},
                    Ok((community, s2)) => match read_any(s2) {
                        Err(_) => {},
                        Ok(((tag, body), _)) => {
                            lemma_tagged_pdus(community, tag, body);
                        },
                    },
                },
            }
        },
    }
}

/// Bytes behind an encoded message are an error that says how many they are.
pub proof fn law_trailing_bytes_are_counted(m: MessageView, rest: Seq<u8>)
    requires
        encode_message(m) is Ok,
        rest.len() > 0,
    ensures
        decode_message(encode_message(m)->Ok_0 + rest) == Err::<MessageView, SnmpErrorView>(
            SnmpErrorView::TrailingBytes(rest.len()),
        ),
{
    let content = message_content(m, encode_pdu(m.pdu)->Ok_0);
    lemma_tlv_reads(TAG_SEQUENCE, content, rest);
}

/// A length is written most significant octet first: by itself where it is below 128, and else
/// behind an octet that says how many follow.
pub proof fn law_a_length_is_written_big_endian(n: nat)
    requires
        n <= 65535,
    ensures
        ({
            let octets = len_bytes(n);
            &&& n < 128 ==> octets.len() == 1 && octets[0] == n
            &&& n >= 128 ==> octets[0] == 0x80 + (octets.len() - 1)
            &&& n >= 128 ==> octets.len() == 2 || octets.len() == 3
            &&& octets.len() == 2 ==> octets[1] == n
            &&& octets.len() == 3 ==> octets[1] * 256 + octets[2] == n
        }),
{
}

/// A length is read in any width up to four octets, most significant first, and nothing behind
/// it is touched; one without an end and wider ones are refused.
pub proof fn law_a_length_is_read_in_any_width(a: u8, b: u8, c: u8, d: u8, rest: Seq<u8>)
    ensures
        a < 128 ==> read_len(seq![a] + rest) == Ok::<(nat, Seq<u8>), SnmpErrorView>(
            (a as nat, rest),
        ),
        read_len(seq![0x81u8, a] + rest) == Ok::<(nat, Seq<u8>), SnmpErrorView>((a as nat, rest)),
        read_len(seq![0x82u8, a, b] + rest) == Ok::<(nat, Seq<u8>), SnmpErrorView>(
            ((a * 0x100 + b) as nat, rest),
        ),
        read_len(seq![0x83u8, a, b, c] + rest) == Ok::<(nat, Seq<u8>), SnmpErrorView>(
            ((a * 0x1_0000 + b * 0x100 + c) as nat, rest),
        ),
        read_len(seq![0x84u8, a, b, c, d] + rest) == Ok::<(nat, Seq<u8>), SnmpErrorView>(
            ((a * 0x100_0000 + b * 0x1_0000 + c * 0x100 + d) as nat, rest),
        ),
        a == 0x80 || a > 0x84 ==> read_len(seq![a] + rest) is Err,
{
    reveal_with_fuel(unsigned_value, 5);
    let none = Seq::<u8>::empty();
    let (s1, s2, s3, s4) = (seq![a], seq![a, b], seq![a, b, c], seq![a, b, c, d]);
    assert(s1.drop_last() =~= none);
    assert(s2.drop_last() =~= s1);
    assert(s3.drop_last() =~= s2);
    assert(s4.drop_last() =~= s3);
    let t = seq![a] + rest;
    assert(t.skip(1) =~= rest);
    let t1 = seq![0x81u8, a] + rest;
    assert(t1.subrange(1, 2) =~= s1 && t1.skip(2) =~= rest);
    let t2 = seq![0x82u8, a, b] + rest;
    assert(t2.subrange(1, 3) =~= s2 && t2.skip(3) =~= rest);
    let t3 = seq![0x83u8, a, b, c] + rest;
    assert(t3.subrange(1, 4) =~= s3 && t3.skip(4) =~= rest);
    let t4 = seq![0x84u8, a, b, c, d] + rest;
    assert(t4.subrange(1, 5) =~= s4 && t4.skip(5) =~= rest);
}

/// An integer is read in two's complement, most significant octet first, in any width from one
/// octet to four; no octets and more than four are refused. It is written as it is read.
pub proof fn law_an_integer_is_twos_complement(a: u8, b: u8, c: u8, d: u8, other: Seq<u8>, v: i32)
    ensures
        ({
            let below = |top: u8, whole: int, range: int|
                if top >= 128 {
                    whole - range
                } else {
                    whole
                };
            &&& integer_of(seq![a]) == Ok::<int, SnmpErrorView>(below(a, a as int, 0x100))
            &&& integer_of(seq![a, b]) == Ok::<int, SnmpErrorView>(
                below(a, a * 0x100 + b, 0x1_0000),
            )
            &&& integer_of(seq![a, b, c]) == Ok::<int, SnmpErrorView>(
                below(a, a * 0x1_0000 + b * 0x100 + c, 0x100_0000),
            )
            &&& integer_of(seq![a, b, c, d]) == Ok::<int, SnmpErrorView>(
                below(a, a * 0x100_0000 + b * 0x1_0000 + c * 0x100 + d, 0x1_0000_0000),
            )
            &&& other.len() == 0 || other.len() > 4 ==> integer_of(other) is Err
            &&& integer_of(integer_content(v as int)) == Ok::<int, SnmpErrorView>(v as int)
        }),
{
    reveal_with_fuel(integer_value, 5);
    let (s1, s2, s3, s4) = (seq![a], seq![a, b], seq![a, b, c], seq![a, b, c, d]);
    assert(s2.drop_last() =~= s1);
    assert(s3.drop_last() =~= s2);
    assert(s4.drop_last() =~= s3);
    lemma_integer_reads(v as int);
}

/// The number that groups of seven bits say, most significant first.
pub open spec fn seven_bit_value(c: Seq<u8>) -> nat
    decreases c.len(),
{
    if c.len() == 0 {
        0
    } else {
        seven_bit_value(c.drop_last()) * 128 + (c.last() % 128) as nat
    }
}

proof fn lemma_arc_head_value(n: nat)
    ensures
        seven_bit_value(arc_head(n)) == n,
        forall|i: int| 0 <= i < arc_head(n).len() ==> (#[trigger] arc_head(n)[i]) >= 0x80,
        n > 0 ==> arc_head(n).len() > 0 && arc_head(n)[0] > 0x80,
    decreases n,
{
    if n > 0 {
        lemma_arc_head_value(n / 128);
        let front = arc_head(n / 128);
        let all = arc_head(n);
        let b: u8 = (0x80 + n % 128) as u8;
        assert(all.drop_last() =~= front && all.last() == b);
        assert(b % 128 == n % 128);
        assert forall|i: int| 0 <= i < all.len() implies (#[trigger] all[i]) >= 0x80 by {
            if i < front.len() {
                assert(all[i] == front[i]);
            }
        }
        if n / 128 > 0 {
            assert(all[0] == front[0]);
        } else {
            assert(front.len() == 0);
            assert(all[0] == b);
        }
    }
}

/// An arc is written in groups of seven bits, most significant first and none of them idle:
/// every octet but the last has its top bit set. The first two arcs of an object identifier
/// share its first octet.
pub proof fn law_an_arc_is_groups_of_seven_bits(n: u32, arcs: Seq<u32>, i: int)
    requires
        valid_oid(arcs),
    ensures
        ({
            let octets = arc_bytes(n as nat);
            &&& octets.len() > 0 && seven_bit_value(octets) == n
            &&& octets.last() < 0x80
            &&& 0 <= i < octets.len() - 1 ==> octets[i] >= 0x80
            &&& octets.len() > 1 ==> octets[0] != 0x80
        }),
        oid_content(arcs)[0] == 40 * arcs[0] + arcs[1],
        arcs.len() == 3 ==> oid_content(arcs).skip(1) == arc_bytes(arcs[2] as nat),
{
    lemma_arc_head_value((n / 128) as nat);
    let head = arc_head((n / 128) as nat);
    let octets = arc_bytes(n as nat);
    assert(octets.drop_last() =~= head && octets.last() == n % 128);
    if 0 <= i < octets.len() - 1 {
        assert(octets[i] == head[i]);
    }
    if octets.len() > 1 {
        assert(octets[0] == head[0]);
    }
    if arcs.len() == 3 {
        let rest = arcs.skip(2);
        reveal_with_fuel(arcs_bytes, 2);
        assert(rest[0] == arcs[2]);
        assert(rest.drop_first() =~= Seq::<u32>::empty());
        assert(arcs_bytes(rest) =~= arc_bytes(arcs[2] as nat));
        assert(oid_content(arcs).skip(1) =~= arcs_bytes(rest));
    }
}

/// A message on the wire: a sequence of the version, which is zero, the community, and the
/// request under a tag of its own kind; and in that its id, status and index, and the sequence
/// of its names and values.
pub proof fn law_a_message_is_laid_out_as_snmp(m: MessageView, list: Seq<u8>)
    requires
        encode_varbinds(m.pdu.varbinds) == Ok::<Seq<u8>, nat>(list),
        encode_message(m) is Ok,
    ensures
        ({
            let int_of = |v: int| tlv(0x02, integer_content(v));
            let kind: int = match m.pdu.kind {
                PduKind::GetRequest => 0xa0,
                PduKind::GetNextRequest => 0xa1,
                PduKind::Response => 0xa2,
                PduKind::SetRequest => 0xa3,
            };
            let pdu = int_of(m.pdu.request_id as int) + int_of(
                m.pdu.error_status.number() as int,
            ) + int_of(m.pdu.error_index as int) + tlv(0x30, list);
            encode_message(m)->Ok_0 == tlv(
                0x30,
                int_of(0) + tlv(0x04, m.community) + tlv(kind as u8, pdu),
            )
        }),
        encode_message(m)->Ok_0.len() <= 65535,
{
}

/// A name and its value on the wire: a sequence of an object identifier and of the value under
/// the tag of its type. Lists are written one behind the other.
pub proof fn law_a_binding_is_laid_out_as_snmp(
    b: VarBindView,
    front: Seq<VarBindView>,
    bytes: Seq<u8>,
    v: i32,
)
    ensures
        value_bytes(ValueView::OctetString(bytes)) == tlv(0x04, bytes),
        value_bytes(ValueView::Integer(v)) == tlv(0x02, integer_content(v as int)),
        value_bytes(ValueView::Null) == seq![0x05u8, 0x00],
        encode_varbinds(front.push(b)) matches Ok(list) ==> (encode_varbinds(front) matches Ok(
            head,
        ) && list == head + tlv(0x30, tlv(0x06, oid_content(b.oid)) + value_bytes(b.value))),
{
    assert(front.push(b).drop_last() =~= front);
    assert(value_bytes(ValueView::Null) =~= seq![0x05u8, 0x00]);
}

/// Encoding fails for nothing but length, and the length that it reports is past the limit.
pub proof fn law_only_length_stops_encoding(m: MessageView)
    ensures
        encode_message(m) matches Err(n) ==> n > 65535,
{
    lemma_too_long(m.pdu.varbinds);
}

proof fn lemma_too_long(bs: Seq<VarBindView>)
    ensures
        encode_varbinds(bs) matches Err(n) ==> n > 65535,
    decreases bs.len(),
{
    if bs.len() > 0 {
        lemma_too_long(bs.drop_last());
    }
}

/// A message of any other version is refused for it, whatever follows.
pub proof fn law_only_version_one_is_read(version: i32, rest: Seq<u8>)
    requires
        version != 0,
        tlv(0x02, integer_content(version as int)).len() + rest.len() <= 65535,
    ensures
        decode_message(tlv(0x30, tlv(0x02, integer_content(version as int)) + rest)) == Err::<
            MessageView,
            SnmpErrorView,
        >(SnmpErrorView::UnsupportedVersion(version)),
{
    let content = tlv(0x02, integer_content(version as int)) + rest;
    lemma_tlv_reads(0x30, content, seq![]);
    assert(tlv(0x30, content) + Seq::<u8>::empty() =~= tlv(0x30, content));
    lemma_integer_tlv_reads(version as int, rest);
}

/// A value of a type that is not known is kept as its octets; a null says nothing, whatever
/// it holds.
pub proof fn law_unknown_values_keep_their_octets(tag: u8, content: Seq<u8>)
    ensures
        tag != 0x02 && tag != 0x05 ==> decode_value(tag, content) == Ok::<
            ValueView,
            SnmpErrorView,
        >(ValueView::OctetString(content)),
        decode_value(0x05, content) == Ok::<ValueView, SnmpErrorView>(ValueView::Null),
        integer_of(content) matches Ok(v) ==> decode_value(0x02, content) == Ok::<
            ValueView,
            SnmpErrorView,
        >(ValueView::Integer(v as i32)),
        integer_of(content) is Err ==> decode_value(0x02, content) is Err,
{
}

/// Every status has its number, and the ones with a name are known by it.
pub proof fn law_a_status_keeps_its_number(code: i32, other: i32)
    ensures
        ErrorStatus::of_number(code).number() == code,
        ErrorStatus::of_number(code) == ErrorStatus::of_number(other) ==> code == other,
        ErrorStatus::of_number(code) is Other <==> code < 0 || code > 5,
        ErrorStatus::of_number(code) == ErrorStatus::NoError <==> code == 0,
{
}

/// A tag names a kind of request by its two lowest bits, and only one of four does.
pub proof fn law_a_kind_has_its_tag(kind: PduKind, tag: u8)
    ensures
        PduKind::of_tag(tag) == Some(kind) <==> tag == 0xa0 + kind.number(),
        PduKind::of_tag(tag) is Some <==> 0xa0 <= tag <= 0xa3,
{
}

/// A request asks one thing once: under the id and community that it was given, for one name,
/// with the octets that it was given.
pub proof fn law_a_request_holds_what_it_was_given(
    kind: PduKind,
    community: Seq<u8>,
    request_id: i32,
    oid: Seq<u32>,
    value: Seq<u8>,
)
    ensures
        ({
            let m = request_of(kind, community, request_id, oid, value);
            &&& m.community == community && m.pdu.kind == kind && m.pdu.request_id == request_id
            &&& m.pdu.error_status == ErrorStatus::NoError && m.pdu.error_index == 0
            &&& m.pdu.varbinds.len() == 1 && m.pdu.varbinds[0].oid == oid
            &&& m.pdu.varbinds[0].value == ValueView::OctetString(value)
        }),
{
}

/// An error is told with what was found and what was wanted, each in its place.
#[verifier::rlimit(40)]
pub proof fn law_an_error_tells_what_was_found(e: SnmpErrorView)
    ensures
        ({
            let said = error_text(e);
            match e {
                SnmpErrorView::Truncated { needed, available } => text::begins(
                    said,
                    "truncated SNMP message: "@ + decimal(needed) + " bytes needed, "@,
                ) && text::ends(said, " bytes needed, "@ + decimal(available) + " available"@),
                SnmpErrorView::UnexpectedTag { expected, found } => text::begins(
                    said,
                    "expected BER tag "@ + hex_byte(expected),
                ) && text::ends(said, ", found "@ + hex_byte(found)),
                SnmpErrorView::UnknownPdu(tag) => text::ends(said, hex_byte(tag)),
                SnmpErrorView::UnsupportedLength(first) => text::ends(said, hex_byte(first)),
                SnmpErrorView::LengthOverrun { claimed, available } => text::begins(
                    said,
                    "BER length claims "@ + decimal(claimed) + " bytes, "@,
                ) && text::ends(said, " bytes, "@ + decimal(available) + " available"@),
                SnmpErrorView::IntegerWidth(width) => text::ends(said, decimal(width)),
                SnmpErrorView::UnsupportedVersion(version) => text::begins(
                    said,
                    "unsupported SNMP version field "@ + signed_decimal(version as int),
                ),
                SnmpErrorView::BadOid(detail) => text::ends(said, detail),
                SnmpErrorView::TooLong(len) => text::begins(
                    said,
                    "encoded message is "@ + decimal(len) + " bytes"@,
                ),
                SnmpErrorView::TrailingBytes(count) => text::begins(said, decimal(count)),
            }
        }),
{
    let said = error_text(e);
    match e {
        SnmpErrorView::Truncated { needed, available } => {
            let a = "truncated SNMP message: "@ + decimal(needed);
            let b = " bytes needed, "@;
            let c = decimal(available) + " available"@;
            text::lemma_two_parts(a + b, c);
            text::lemma_two_parts(a, b + c);
            assert(a + b + c =~= said && a + (b + c) =~= said);
            assert(b + c =~= b + decimal(available) + " available"@);
        },
        SnmpErrorView::UnexpectedTag { expected, found } => {
            let a = "expected BER tag "@ + hex_byte(expected);
            let b = ", found "@ + hex_byte(found);
            text::lemma_two_parts(a, b);
            assert(a + b =~= said);
        },
        SnmpErrorView::UnknownPdu(tag) => {
            text::lemma_two_parts("unknown SNMP PDU tag "@, hex_byte(tag));
        },
        SnmpErrorView::UnsupportedLength(first) => {
            text::lemma_two_parts("unsupported BER length form "@, hex_byte(first));
        },
        SnmpErrorView::LengthOverrun { claimed, available } => {
            let a = "BER length claims "@ + decimal(claimed);
            let b = " bytes, "@;
            let c = decimal(available) + " available"@;
            text::lemma_two_parts(a + b, c);
            text::lemma_two_parts(a, b + c);
            assert(a + b + c =~= said && a + (b + c) =~= said);
            assert(b + c =~= b + decimal(available) + " available"@);
        },
        SnmpErrorView::IntegerWidth(width) => {
            text::lemma_two_parts("unsupported INTEGER width "@, decimal(width));
        },
        SnmpErrorView::UnsupportedVersion(version) => {
            text::lemma_two_parts(
                "unsupported SNMP version field "@ + signed_decimal(version as int),
                "; only v1 (0) is spoken"@,
            );
        },
        SnmpErrorView::BadOid(detail) => {
            text::lemma_two_parts("invalid object identifier: "@, detail);
        },
        SnmpErrorView::TooLong(len) => {
            reveal_strlit(" bytes; brscan-skey's encoder cannot express more than 65535");
            reveal_strlit(" bytes");
            let long = " bytes; brscan-skey's encoder cannot express more than 65535"@;
            let a = "encoded message is "@ + decimal(len) + " bytes"@;
            assert(said.take(a.len() as int) =~= a);
        },
        SnmpErrorView::TrailingBytes(count) => {
            text::lemma_two_parts(decimal(count), " bytes left over after the SNMP message"@);
        },
    }
}

/// No two statuses with a name are called alike, and one without a name is called by its
/// number.
pub proof fn law_a_status_is_called_by_its_own_name(a: ErrorStatus, b: ErrorStatus)
    ensures
        a.name() == b.name() ==> a == b,
        a matches ErrorStatus::Other(code) ==> text::ends(a.name(), signed_decimal(code as int)),
{
    reveal_strlit("noError");
    reveal_strlit("tooBig");
    reveal_strlit("noSuchName");
    reveal_strlit("badValue");
    reveal_strlit("readOnly");
    reveal_strlit("genErr");
    reveal_strlit("error-status ");
    assert("noError"@.len() == 7 && "tooBig"@.len() == 6 && "noSuchName"@.len() == 10
        && "badValue"@.len() == 8 && "readOnly"@.len() == 8 && "genErr"@.len() == 6);
    assert("noError"@[0] == 'n' && "tooBig"@[0] == 't' && "noSuchName"@[0] == 'n'
        && "badValue"@[0] == 'b' && "readOnly"@[0] == 'r' && "genErr"@[0] == 'g'
        && "error-status "@[0] == 'e' && "error-status "@.len() == 13);
    match a {
        ErrorStatus::Other(code) => {
            text::lemma_two_parts("error-status "@, signed_decimal(code as int));
            assert(a.name()[0] == 'e');
            match b {
                ErrorStatus::Other(other) => {
                    text::law_a_number_is_written_one_way(code as int, other as int, 0, 0);
                    if a.name() == b.name() {
                        assert(a.name().skip(13) =~= signed_decimal(code as int));
                        assert(b.name().skip(13) =~= signed_decimal(other as int));
                    }
                },
                _ => {},
            }
        },
        _ => {
            match b {
                ErrorStatus::Other(_) => {
                    assert(b.name()[0] == 'e');
                },
                _ => {},
            }
        },
    }
}

proof fn lemma_read_len_more(s: Seq<u8>, more: Seq<u8>)
    ensures
        read_len(s) matches Ok((n, rest)) ==> read_len(s + more) == Ok::<
            (nat, Seq<u8>),
            SnmpErrorView,
        >((n, rest + more)),
{
    match read_len(s) {
        Ok((n, rest)) => {
            let longer = s + more;
            assert(longer[0] == s[0]);
            if s[0] < 0x80 {
                assert(longer.skip(1) =~= rest + more);
            } else {
                let width: int = s[0] - 0x80;
                assert(longer.subrange(1, 1 + width) =~= s.subrange(1, 1 + width));
                assert(longer.skip(1 + width) =~= rest + more);
            }
        },
        Err(_) => {},
    }
}

proof fn lemma_read_any_more(s: Seq<u8>, more: Seq<u8>)
    ensures
        read_any(s) matches Ok((value, rest)) ==> read_any(s + more) == Ok::<
            ((u8, Seq<u8>), Seq<u8>),
            SnmpErrorView,
        >((value, rest + more)),
{
    match read_any(s) {
        Ok((value, rest)) => {
            let longer = s + more;
            let t = s.skip(1);
            assert(longer[0] == s[0]);
            assert(longer.skip(1) =~= t + more);
            lemma_read_len_more(t, more);
            match read_len(t) {
                Ok((n, tail)) => {
                    assert((tail + more).take(n as int) =~= tail.take(n as int));
                    assert((tail + more).skip(n as int) =~= rest + more);
                },
                Err(_) => {},
            }
        },
        Err(_) => {},
    }
}

/// A value is read up to its own end: whatever follows it is left, and changes nothing of it.
/// So nothing behind the last part of a request, or behind the value of a binding, is looked
/// at.
pub proof fn law_a_value_is_read_to_its_end(kind: PduKind, s: Seq<u8>, more: Seq<u8>)
    ensures
        read_any(s) matches Ok(((tag, content), rest)) ==> read_any(s + more) == Ok::<
            ((u8, Seq<u8>), Seq<u8>),
            SnmpErrorView,
        >(((tag, content), rest + more)),
        decode_varbind(s) is Ok ==> decode_varbind(s + more) == decode_varbind(s),
        decode_pdu(kind, s) is Ok ==> decode_pdu(kind, s + more) == decode_pdu(kind, s),
{
    lemma_read_any_more(s, more);
    if decode_varbind(s) is Ok {
        let (_, rest) = read_any(s)->Ok_0;
        lemma_read_any_more(rest, more);
    }
    if decode_pdu(kind, s) is Ok {
        let (_, s1) = read_any(s)->Ok_0;
        lemma_read_any_more(s1, more);
        let (_, s2) = read_any(s1)->Ok_0;
        lemma_read_any_more(s2, more);
        let (_, s3) = read_any(s2)->Ok_0;
        lemma_read_any_more(s3, more);
    }
}

/// What is read off a value is what stands in it: its tag, and as many octets behind its length
/// as that says; one that says more than there are is refused.
pub proof fn law_a_value_is_its_tag_length_and_octets(
    tag: u8,
    content: Seq<u8>,
    rest: Seq<u8>,
    other: u8,
)
    requires
        content.len() <= 65535,
    ensures
        read_any(seq![tag] + len_bytes(content.len()) + content + rest) == Ok::<
            ((u8, Seq<u8>), Seq<u8>),
            SnmpErrorView,
        >(((tag, content), rest)),
        read_tagged(seq![tag] + len_bytes(content.len()) + content + rest, tag) == Ok::<
            (Seq<u8>, Seq<u8>),
            SnmpErrorView,
        >((content, rest)),
        other != tag ==> read_tagged(
            seq![tag] + len_bytes(content.len()) + content + rest,
            other,
        ) == Err::<(Seq<u8>, Seq<u8>), SnmpErrorView>(
            SnmpErrorView::UnexpectedTag { expected: other, found: tag },
        ),
        forall|k: int|
            0 <= k < content.len() ==> read_any(
                seq![tag] + len_bytes(content.len()) + #[trigger] content.take(k),
            ) is Err,
{
    lemma_tlv_reads(tag, content, rest);
    let all = tlv(tag, content);
    assert forall|k: int| 0 <= k < content.len() implies read_any(
        seq![tag] + len_bytes(content.len()) + #[trigger] content.take(k),
    ) is Err by {
        let n: int = 1 + len_bytes(content.len()).len() as int + k;
        lemma_tlv_prefix(tag, content, n);
        assert(all.take(n) =~= seq![tag] + len_bytes(content.len()) + content.take(k));
    }
}

/// Octets are an object identifier only where the first of them holds two arcs that it can be
/// told from, and every arc behind it comes to its end and fits.
pub proof fn law_an_object_identifier_begins_with_two_arcs(c: Seq<u8>)
    ensures
        decode_oid(c) matches Ok(arcs) ==> arcs.len() >= 2 && arcs[0] == c[0] / 40 && arcs[1]
            == c[0] % 40 && c[0] < 120 && (c.len() > 1 ==> c.last() < 0x80),
        c.len() == 0 ==> decode_oid(c) is Err,
        c.len() > 0 && c[0] >= 120 ==> decode_oid(c) is Err,
        c.len() > 1 && c.last() >= 0x80 ==> decode_oid(c) is Err,
{
    if c.len() > 1 {
        lemma_open_arc(c.drop_first(), 0, false);
        assert(c.drop_first().last() == c.last());
    }
}

proof fn lemma_open_arc(c: Seq<u8>, arc: nat, open: bool)
    requires
        c.len() > 0,
    ensures
        c.last() >= 0x80 ==> read_arcs(c, arc, open) is Err,
    decreases c.len(),
{
    reveal_with_fuel(read_arcs, 2);
    let rest = c.drop_first();
    let next = arc * 128 + (c[0] % 128) as nat;
    if rest.len() > 0 {
        assert(rest.last() == c.last());
        lemma_open_arc(rest, 0, false);
        lemma_open_arc(rest, next, true);
    }
}

proof fn lemma_arcs_of_parts(parts: Seq<Seq<char>>)
    ensures
        match parse_arcs(parts) {
            Ok(arcs) => arcs.len() == parts.len() && forall|i: int|
                0 <= i < parts.len() ==> text::parse_unsigned(#[trigger] parts[i], u32::MAX as nat)
                    == Some(arcs[i] as nat),
            Err(_) => exists|i: int|
                0 <= i < parts.len() && text::parse_unsigned(
                    #[trigger] parts[i],
                    u32::MAX as nat,
                ) is None,
        },
    decreases parts.len(),
{
    if parts.len() > 0 {
        let less = parts.drop_last();
        lemma_arcs_of_parts(less);
        let last = parts[parts.len() - 1];
        match parse_arcs(less) {
            Ok(head) => match text::parse_unsigned(last, u32::MAX as nat) {
                Some(n) => {
                    text::law_numbers_are_digits(last, n, u32::MAX as nat);
                    let arcs = head.push(n as u32);
                    assert forall|i: int| 0 <= i < parts.len() implies text::parse_unsigned(
                        #[trigger] parts[i],
                        u32::MAX as nat,
                    ) == Some(arcs[i] as nat) by {
                        if i < less.len() {
                            assert(less[i] == parts[i]);
                        }
                    }
                },
                None => {
                    assert(text::parse_unsigned(parts[parts.len() - 1], u32::MAX as nat) is None);
                },
            },
            Err(_) => {
                let i = choose|i: int|
                    0 <= i < less.len() && text::parse_unsigned(
                        #[trigger] less[i],
                        u32::MAX as nat,
                    ) is None;
                assert(parts[i] == less[i]);
            },
        }
    }
}

/// A text is an object identifier exactly where each piece between its dots is a number of 32
/// bits, and the first two of them can share an octet; its arcs are those numbers, in order.
pub proof fn law_arcs_stand_between_dots(s: Seq<char>, i: int)
    ensures
        ({
            let parts = text::split(s, '.');
            let all = forall|j: int|
                0 <= j < parts.len() ==> text::parse_unsigned(#[trigger] parts[j], u32::MAX as nat)
                    is Some;
            match parse_oid(s) {
                Ok(arcs) => {
                    &&& all && arcs.len() == parts.len() && arcs.len() >= 2
                    &&& arcs[0] <= 2 && arcs[1] < 40
                    &&& 0 <= i < parts.len() ==> text::parse_unsigned(parts[i], u32::MAX as nat)
                        == Some(arcs[i] as nat)
                },
                Err(_) => !all || parts.len() < 2 || text::parse_unsigned(
                    parts[0],
                    u32::MAX as nat,
                )->Some_0 > 2 || text::parse_unsigned(parts[1], u32::MAX as nat)->Some_0 >= 40,
            }
        }),
{
    let parts = text::split(s, '.');
    lemma_arcs_of_parts(parts);
    match parse_arcs(parts) {
        Ok(arcs) => {
            if parts.len() >= 2 {
                assert(text::parse_unsigned(parts[0], u32::MAX as nat) == Some(arcs[0] as nat));
                assert(text::parse_unsigned(parts[1], u32::MAX as nat) == Some(arcs[1] as nat));
            }
        },
        Err(_) => {},
    }
}

} // verus!
