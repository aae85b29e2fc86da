//! Text as sequences of characters: what splitting, trimming, searching and number
//! parsing mean, and verified functions that do them.
//!
//! The contracts of the rest of the crate speak of text through the spec functions of
//! this module.
use vstd::prelude::*;
use vstd::slice::slice_subrange;
use vstd::utf8::{decode_utf8, valid_utf8};

verus! {

// ---------------------------------------------------------------- trusted conversions

/// `String::push`: appends one character to the end of the string.
pub assume_specification[ String::push ](s: &mut String, c: char)
    ensures
        final(s)@ == old(s)@.push(c),
;

/// What `core::str::from_utf8` says of why bytes are no UTF-8.
pub uninterp spec fn utf8_refusal(bytes: Seq<u8>) -> Seq<char>;

/// `core::str::from_utf8`: bytes that are valid UTF-8 come back as the text they encode,
/// all others are refused, with the error's own text.
#[verifier::external_body]
pub(crate) fn utf8_text<'a>(bytes: &'a [u8]) -> (r: Result<&'a str, String>)
    ensures
        match r {
            Ok(s) => valid_utf8(bytes@) && s@ == decode_utf8(bytes@),
            Err(e) => !valid_utf8(bytes@) && e@ == utf8_refusal(bytes@),
        },
{
    core::str::from_utf8(bytes).map_err(|error| error.to_string())
}

/// The text of bytes, with what is no UTF-8 in them replaced.
pub uninterp spec fn lossy(bytes: Seq<u8>) -> Seq<char>;

/// `String::from_utf8_lossy`: the text of bytes, with what is no UTF-8 in them replaced.
/// Bytes that are valid UTF-8 come back as the text they encode.
#[verifier::external_body]
pub(crate) fn lossy_text(bytes: &[u8]) -> (r: String)
    ensures
        r@ == lossy(bytes@),
        valid_utf8(bytes@) ==> r@ == decode_utf8(bytes@),
{
    String::from_utf8_lossy(bytes).into_owned()
}

/// What the library says of why `text` is no `u32`.
pub uninterp spec fn u32_refusal(text: Seq<char>) -> Seq<char>;

/// `str::parse::<u32>`: a text of decimal digits, at least one, behind at most one plus
/// sign, is the number it writes where that fits in a `u32`; all others are refused, with
/// the error's own text.
#[verifier::external_body]
pub(crate) fn parse_u32(text: &str) -> (r: Result<u32, String>)
    ensures
        match r {
            Ok(n) => parse_unsigned(text@, u32::MAX as nat) == Some(n as nat),
            Err(e) => parse_unsigned(text@, u32::MAX as nat) is None && e@ == u32_refusal(text@),
        },
{
    text.parse::<u32>().map_err(|error| error.to_string())
}

/// A text between double quotes, with what is not printable escaped.
pub uninterp spec fn quoted(text: Seq<char>) -> Seq<char>;

/// `<str as Debug>::fmt`: the text between double quotes, with what is not printable
/// escaped.
#[verifier::external_body]
pub(crate) fn quote(text: &str) -> (r: String)
    ensures
        r@ == quoted(text@),
{
    format!("{text:?}")
}

/// The characters of a string slice, in order.
pub fn chars(s: &str) -> (r: Vec<char>)
    ensures
        r@ == s@,
{
    let mut out: Vec<char> = Vec::new();
    for c in it: s.chars()
        invariant
            it.seq() == s@,
            out@ =~= s@.take(it.index() as int),
    {
        out.push(c);
    }
    assert(s@.take(s@.len() as int) =~= s@);
    out
}

/// The string made of the given characters.
pub fn from_chars(v: &[char]) -> (r: String)
    ensures
        r@ == v@,
{
    let mut out = String::new();
    let mut i: usize = 0;
    while i < v.len()
        invariant
            i <= v.len(),
            out@ =~= v@.take(i as int),
        decreases v.len() - i,
    {
        out.push(v[i]);
        i = i + 1;
    }
    assert(v@.take(i as int) =~= v@);
    out
}

/// Whether two byte slices are the same.
pub fn same_bytes(a: &[u8], b: &[u8]) -> (r: bool)
    ensures
        r == (a@ == b@),
{
    if a.len() != b.len() {
        return false;
    }
    let mut i: usize = 0;
    while i < a.len()
        invariant
            i <= a.len(),
            a.len() == b.len(),
            a@.take(i as int) =~= b@.take(i as int),
        decreases a.len() - i,
    {
        if a[i] != b[i] {
            assert(a@[i as int] != b@[i as int]);
            return false;
        }
        i = i + 1;
        assert(a@.take(i as int) =~= a@.take(i - 1).push(a@[i - 1]));
        assert(b@.take(i as int) =~= b@.take(i - 1).push(b@[i - 1]));
    }
    assert(a@.take(i as int) =~= a@);
    assert(b@.take(i as int) =~= b@);
    true
}

/// Whether two texts are the same.
pub fn same(a: &str, b: &str) -> (r: bool)
    ensures
        r == (a@ == b@),
{
    let x = chars(a);
    let y = chars(b);
    same_chars(x.as_slice(), y.as_slice())
}

/// Whether two character slices are the same.
pub fn same_chars(a: &[char], b: &[char]) -> (r: bool)
    ensures
        r == (a@ == b@),
{
    if a.len() != b.len() {
        return false;
    }
    let mut i: usize = 0;
    while i < a.len()
        invariant
            i <= a.len(),
            a.len() == b.len(),
            a@.take(i as int) =~= b@.take(i as int),
        decreases a.len() - i,
    {
        if a[i] != b[i] {
            assert(a@[i as int] != b@[i as int]);
            return false;
        }
        i = i + 1;
        assert(a@.take(i as int) =~= a@.take(i - 1).push(a@[i - 1]));
        assert(b@.take(i as int) =~= b@.take(i - 1).push(b@[i - 1]));
    }
    assert(a@.take(i as int) =~= a@);
    assert(b@.take(i as int) =~= b@);
    true
}

// ------------------------------------------------------------------------- searching

/// The index of the first `x` in `s`, or the length of `s` where there is none.
pub open spec fn index_of<T>(s: Seq<T>, x: T) -> int
    decreases s.len(),
{
    if s.len() == 0 || s[0] == x {
        0
    } else {
        1 + index_of(s.drop_first(), x)
    }
}

/// Whether `needle` stands in `s` at index `at`.
pub open spec fn occurs_at<T>(s: Seq<T>, needle: Seq<T>, at: int) -> bool {
    0 <= at && at + needle.len() <= s.len() && s.subrange(at, at + needle.len()) == needle
}

/// The index of the first occurrence of `needle` in `s`, if there is one.
pub open spec fn find<T>(s: Seq<T>, needle: Seq<T>) -> Option<int>
    decreases s.len(),
{
    if occurs_at(s, needle, 0) {
        Some(0)
    } else if s.len() == 0 {
        None
    } else {
        match find(s.drop_first(), needle) {
            Some(i) => Some(i + 1),
            None => None,
        }
    }
}

/// Whether `s` begins with `prefix`.
pub open spec fn begins<T>(s: Seq<T>, prefix: Seq<T>) -> bool {
    prefix.len() <= s.len() && s.take(prefix.len() as int) == prefix
}

/// Whether `s` ends with `suffix`.
pub open spec fn ends<T>(s: Seq<T>, suffix: Seq<T>) -> bool {
    suffix.len() <= s.len() && s.skip(s.len() - suffix.len()) == suffix
}

/// `index_of` is the least index that holds `x`.
pub proof fn lemma_index_of<T>(s: Seq<T>, x: T)
    ensures
        0 <= index_of(s, x) <= s.len(),
        index_of(s, x) < s.len() ==> s[index_of(s, x)] == x,
        forall|j: int| 0 <= j < index_of(s, x) ==> s[j] != x,
        s.contains(x) <==> index_of(s, x) < s.len(),
    decreases s.len(),
{
    if s.len() == 0 || s[0] == x {
    } else {
        let t = s.drop_first();
        lemma_index_of(t, x);
        assert forall|j: int| 0 <= j < index_of(s, x) implies s[j] != x by {
            if j > 0 {
                assert(t[j - 1] == s[j]);
            }
        }
        if index_of(s, x) < s.len() {
            assert(t[index_of(t, x)] == s[index_of(s, x)]);
        }
    }
}

/// The only index that holds `x` with no `x` before it is `index_of`.
pub proof fn lemma_index_of_is<T>(s: Seq<T>, x: T, k: int)
    requires
        0 <= k <= s.len(),
        k < s.len() ==> s[k] == x,
        forall|j: int| 0 <= j < k ==> s[j] != x,
    ensures
        index_of(s, x) == k,
{
    lemma_index_of(s, x);
    let i = index_of(s, x);
    if i < k {
        assert(s[i] != x);
    } else if k < i {
        assert(s[k] != x);
    }
}

/// `find` is the least index at which `needle` occurs.
pub proof fn lemma_find<T>(s: Seq<T>, needle: Seq<T>)
    ensures
        match find(s, needle) {
            Some(i) => occurs_at(s, needle, i) && forall|j: int|
                0 <= j < i ==> !occurs_at(s, needle, j),
            None => forall|j: int| !occurs_at(s, needle, j),
        },
    decreases s.len(),
{
    if occurs_at(s, needle, 0) {
    } else if s.len() == 0 {
        assert forall|j: int| !occurs_at(s, needle, j) by {
            if occurs_at(s, needle, j) {
                assert(j == 0);
            }
        }
    } else {
        let t = s.drop_first();
        lemma_find(t, needle);
        assert forall|j: int| j > 0 implies occurs_at(s, needle, j) == occurs_at(
            t,
            needle,
            j - 1,
        ) by {
            if j + needle.len() <= s.len() {
                assert(s.subrange(j, j + needle.len()) =~= t.subrange(j - 1, j - 1 + needle.len()));
            }
        }
        assert forall|j: int| j < 0 implies !occurs_at(s, needle, j) by {}
        match find(t, needle) {
            Some(i) => {
                assert(occurs_at(s, needle, i + 1));
                assert forall|j: int| 0 <= j < i + 1 implies !occurs_at(s, needle, j) by {
                    if j > 0 {
                        assert(!occurs_at(t, needle, j - 1));
                    }
                }
            },
            None => {
                assert forall|j: int| !occurs_at(s, needle, j) by {
                    if j > 0 {
                        assert(!occurs_at(t, needle, j - 1));
                    }
                }
            },
        }
    }
}

/// The only occurrence with none before it is what `find` gives.
pub proof fn lemma_find_is<T>(s: Seq<T>, needle: Seq<T>, k: int)
    requires
        occurs_at(s, needle, k),
        forall|j: int| 0 <= j < k ==> !occurs_at(s, needle, j),
    ensures
        find(s, needle) == Some(k),
{
    lemma_find(s, needle);
    match find(s, needle) {
        Some(i) => {
            if i < k {
                assert(!occurs_at(s, needle, i));
            } else if k < i {
                assert(!occurs_at(s, needle, k));
            }
        },
        None => {
            assert(!occurs_at(s, needle, k));
        },
    }
}

/// The index of the first `x`, or the length where there is none.
pub fn position(v: &[char], x: char) -> (r: usize)
    ensures
        r == index_of(v@, x),
        r <= v@.len(),
{
    let mut i: usize = 0;
    while i < v.len() && v[i] != x
        invariant
            i <= v.len(),
            forall|j: int| 0 <= j < i ==> v@[j] != x,
        decreases v.len() - i,
    {
        i = i + 1;
    }
    proof {
        lemma_index_of_is(v@, x, i as int);
    }
    i
}

/// The index of the first `x` among bytes, or the length where there is none.
pub fn position_byte(v: &[u8], x: u8) -> (r: usize)
    ensures
        r == index_of(v@, x),
        r <= v@.len(),
{
    let mut i: usize = 0;
    while i < v.len() && v[i] != x
        invariant
            i <= v.len(),
            forall|j: int| 0 <= j < i ==> v@[j] != x,
        decreases v.len() - i,
    {
        i = i + 1;
    }
    proof {
        lemma_index_of_is(v@, x, i as int);
    }
    i
}

/// Whether `needle` stands in `v` at `at`.
pub fn stands_at(v: &[char], needle: &[char], at: usize) -> (r: bool)
    requires
        at <= v@.len(),
    ensures
        r == occurs_at(v@, needle@, at as int),
{
    if needle.len() > v.len() - at {
        return false;
    }
    let part = slice_subrange(v, at, at + needle.len());
    same_chars(part, needle)
}

/// The first occurrence of `needle` in `v`.
pub fn find_chars(v: &[char], needle: &[char]) -> (r: Option<usize>)
    ensures
        match r {
            Some(i) => find(v@, needle@) == Some(i as int) && i + needle@.len() <= v@.len(),
            None => find(v@, needle@) is None,
        },
{
    let mut i: usize = 0;
    while i < v.len()
        invariant
            i <= v.len(),
            forall|j: int| 0 <= j < i ==> !occurs_at(v@, needle@, j),
        decreases v.len() - i,
    {
        if stands_at(v, needle, i) {
            proof {
                lemma_find_is(v@, needle@, i as int);
            }
            return Some(i);
        }
        i = i + 1;
    }
    if stands_at(v, needle, i) {
        proof {
            lemma_find_is(v@, needle@, i as int);
        }
        return Some(i);
    }
    proof {
        lemma_find(v@, needle@);
        assert forall|j: int| !occurs_at(v@, needle@, j) by {
            if j > i {
                assert(j + needle@.len() > v@.len());
            }
        }
    }
    None
}

/// The first occurrence of `needle` among bytes.
pub fn find_bytes(v: &[u8], needle: &[u8]) -> (r: Option<usize>)
    requires
        needle@.len() > 0,
    ensures
        match r {
            Some(i) => find(v@, needle@) == Some(i as int) && i + needle@.len() <= v@.len(),
            None => find(v@, needle@) is None,
        },
{
    let mut i: usize = 0;
    while i < v.len() && needle.len() <= v.len() - i
        invariant
            i <= v.len(),
            forall|j: int| 0 <= j < i ==> !occurs_at(v@, needle@, j),
        decreases v.len() - i,
    {
        let part = slice_subrange(v, i, i + needle.len());
        if same_bytes(part, needle) {
            proof {
                lemma_find_is(v@, needle@, i as int);
            }
            return Some(i);
        }
        i = i + 1;
    }
    proof {
        lemma_find(v@, needle@);
        assert forall|j: int| !occurs_at(v@, needle@, j) by {
            if j >= i {
                assert(j + needle@.len() > v@.len());
            }
        }
    }
    None
}

/// Whether `needle` occurs anywhere in `s`.
pub open spec fn holds<T>(s: Seq<T>, needle: Seq<T>) -> bool {
    find(s, needle) is Some
}

/// Whether `needle` occurs anywhere in `s`.
pub fn contains(s: &str, needle: &str) -> (r: bool)
    ensures
        r == holds(s@, needle@),
{
    let v = chars(s);
    let n = chars(needle);
    match find_chars(v.as_slice(), n.as_slice()) {
        Some(_) => true,
        None => false,
    }
}

/// Whether `v` begins with `prefix`.
pub fn begins_with(v: &[char], prefix: &[char]) -> (r: bool)
    ensures
        r == begins(v@, prefix@),
{
    let r = stands_at(v, prefix, 0);
    proof {
        if prefix@.len() <= v@.len() {
            assert(v@.subrange(0, prefix@.len() as int) =~= v@.take(prefix@.len() as int));
        }
    }
    r
}

/// Whether `s` begins with `prefix`.
pub fn starts_with(s: &str, prefix: &str) -> (r: bool)
    ensures
        r == begins(s@, prefix@),
{
    let v = chars(s);
    let p = chars(prefix);
    begins_with(v.as_slice(), p.as_slice())
}

/// What follows `prefix` in `s`, where `s` begins with it.
pub open spec fn after_prefix<T>(s: Seq<T>, prefix: Seq<T>) -> Option<Seq<T>> {
    if begins(s, prefix) {
        Some(s.skip(prefix.len() as int))
    } else {
        None
    }
}

/// What follows `prefix` in `s`, where `s` begins with it.
pub fn strip_prefix<'a>(s: &'a str, prefix: &str) -> (r: Option<&'a str>)
    ensures
        match r {
            Some(rest) => after_prefix(s@, prefix@) == Some(rest@),
            None => after_prefix(s@, prefix@) is None,
        },
{
    let v = chars(s);
    let p = chars(prefix);
    if begins_with(v.as_slice(), p.as_slice()) {
        let rest = s.substring_char(p.len(), v.len());
        assert(rest@ =~= s@.skip(prefix@.len() as int));
        Some(rest)
    } else {
        None
    }
}

// -------------------------------------------------------------------------- splitting

/// What stands before the first `sep`, or all of `s` where there is none.
pub open spec fn before<T>(s: Seq<T>, sep: T) -> Seq<T> {
    s.take(index_of(s, sep))
}

/// The two sides of the first `sep` in `s`, where there is one.
pub open spec fn split_once<T>(s: Seq<T>, sep: T) -> Option<(Seq<T>, Seq<T>)> {
    let i = index_of(s, sep);
    if i < s.len() {
        Some((s.take(i), s.skip(i + 1)))
    } else {
        None
    }
}

/// The pieces of `s` between its separators; always at least one.
pub open spec fn split<T>(s: Seq<T>, sep: T) -> Seq<Seq<T>>
    decreases s.len(),
{
    let i = index_of(s, sep);
    if 0 <= i < s.len() {
        seq![s.take(i)] + split(s.skip(i + 1), sep)
    } else {
        seq![s]
    }
}

/// Text without a separator is one piece.
pub proof fn lemma_split_none<T>(s: Seq<T>, sep: T)
    requires
        !s.contains(sep),
    ensures
        split(s, sep) == seq![s],
        index_of(s, sep) == s.len(),
{
    lemma_index_of(s, sep);
}

/// What stands before the first separator is the first piece.
pub proof fn lemma_split_first<T>(a: Seq<T>, sep: T, rest: Seq<T>)
    requires
        !a.contains(sep),
    ensures
        split(a + seq![sep] + rest, sep) == seq![a] + split(rest, sep),
        index_of(a + seq![sep] + rest, sep) == a.len(),
{
    let s = a + seq![sep] + rest;
    assert forall|j: int| 0 <= j < a.len() implies s[j] != sep by {
        assert(s[j] == a[j]);
        assert(a.contains(a[j]));
    }
    assert(s[a.len() as int] == sep);
    lemma_index_of_is(s, sep, a.len() as int);
    assert(s.take(a.len() as int) =~= a);
    assert(s.skip(a.len() as int + 1) =~= rest);
}

/// What stands behind the last separator is the last piece.
pub proof fn lemma_split_last<T>(a: Seq<T>, sep: T, b: Seq<T>)
    requires
        !b.contains(sep),
    ensures
        split(a + seq![sep] + b, sep) == split(a, sep).push(b),
    decreases a.len(),
{
    let s = a + seq![sep] + b;
    lemma_index_of(a, sep);
    let i = index_of(a, sep);
    if i < a.len() {
        let head = a.take(i);
        let tail = a.skip(i + 1);
        assert(!head.contains(sep)) by {
            if head.contains(sep) {
                let j = head.index_of(sep);
                assert(a[j] == sep);
            }
        }
        assert(s =~= head + seq![sep] + (tail + seq![sep] + b));
        lemma_split_first(head, sep, tail + seq![sep] + b);
        lemma_split_last(tail, sep, b);
        assert(split(a, sep) == seq![head] + split(tail, sep));
        assert(seq![head] + split(tail, sep).push(b) =~= (seq![head] + split(tail, sep)).push(b));
    } else {
        lemma_split_first(a, sep, b);
        lemma_split_none(b, sep);
        assert(split(a, sep) == seq![a]);
        assert(seq![a] + seq![b] =~= seq![a].push(b));
    }
}

/// The two sides of the first `sep` in `v`, where there is one.
pub fn halves<'a>(v: &'a [char], sep: char) -> (r: Option<(&'a [char], &'a [char])>)
    ensures
        match r {
            Some((a, b)) => split_once(v@, sep) == Some((a@, b@)),
            None => split_once(v@, sep) is None,
        },
{
    let i: usize = position(v, sep);
    if i < v.len() {
        let a = slice_subrange(v, 0, i);
        let b = slice_subrange(v, i + 1, v.len());
        assert(a@ =~= v@.take(i as int));
        assert(b@ =~= v@.skip(i + 1));
        Some((a, b))
    } else {
        None
    }
}

/// The contents of a vector of character vectors.
pub open spec fn all_views(v: Seq<Vec<char>>) -> Seq<Seq<char>> {
    v.map_values(|x: Vec<char>| x@)
}

/// The contents of a vector of strings.
pub open spec fn all_texts(v: Seq<String>) -> Seq<Seq<char>> {
    v.map_values(|x: String| x@)
}

/// A copy of a character slice.
pub fn to_vec(v: &[char]) -> (r: Vec<char>)
    ensures
        r@ == v@,
{
    vstd::slice::slice_to_vec(v)
}

/// The pieces of `v` between its separators.
pub fn pieces(v: &[char], sep: char) -> (r: Vec<Vec<char>>)
    ensures
        all_views(r@) == split(v@, sep),
        r@.len() >= 1,
{
    let mut out: Vec<Vec<char>> = Vec::new();
    let mut rest = v;
    let mut i: usize = position(rest, sep);
    proof {
        assert(all_views(out@) + split(rest@, sep) =~= split(v@, sep));
    }
    while i < rest.len()
        invariant
            i == index_of(rest@, sep),
            i <= rest@.len(),
            all_views(out@) + split(rest@, sep) =~= split(v@, sep),
        decreases rest@.len(),
    {
        let ghost old_rest = rest@;
        let ghost old_out = out@;
        let piece = slice_subrange(rest, 0, i);
        let tail = slice_subrange(rest, i + 1, rest.len());
        out.push(to_vec(piece));
        proof {
            assert(piece@ =~= old_rest.take(i as int));
            assert(tail@ =~= old_rest.skip(i + 1));
            assert(all_views(out@) =~= all_views(old_out).push(old_rest.take(i as int)));
            assert(split(old_rest, sep) =~= seq![old_rest.take(i as int)] + split(tail@, sep));
        }
        rest = tail;
        i = position(rest, sep);
    }
    let ghost old_out = out@;
    out.push(to_vec(rest));
    proof {
        assert(all_views(out@) =~= all_views(old_out).push(rest@));
        assert(split(rest@, sep) =~= seq![rest@]);
    }
    out
}

/// The pieces of `s` between occurrences of `sep`, found from the left.
pub open spec fn split_on<T>(s: Seq<T>, sep: Seq<T>) -> Seq<Seq<T>>
    decreases s.len(),
{
    match find(s, sep) {
        Some(i) => if sep.len() > 0 && 0 <= i && i + sep.len() <= s.len() {
            seq![s.take(i)] + split_on(s.skip(i + sep.len()), sep)
        } else {
            seq![s]
        },
        None => seq![s],
    }
}

/// `s` with every occurrence of `from`, found from the left, written as `to`.
pub open spec fn replaced<T>(s: Seq<T>, from: Seq<T>, to: Seq<T>) -> Seq<T>
    decreases s.len(),
{
    match find(s, from) {
        Some(i) => if from.len() > 0 && 0 <= i && i + from.len() <= s.len() {
            s.take(i) + to + replaced(s.skip(i + from.len()), from, to)
        } else {
            s
        },
        None => s,
    }
}

/// The pieces of `v` between occurrences of `sep`.
pub fn pieces_on(v: &[char], sep: &[char]) -> (r: Vec<Vec<char>>)
    requires
        sep@.len() > 0,
    ensures
        all_views(r@) == split_on(v@, sep@),
        r@.len() >= 1,
{
    let mut out: Vec<Vec<char>> = Vec::new();
    let mut rest = v;
    let mut next = find_chars(rest, sep);
    assert(all_views(out@) + split_on(rest@, sep@) =~= split_on(v@, sep@));
    while next.is_some()
        invariant
            sep@.len() > 0,
            match next {
                Some(i) => find(rest@, sep@) == Some(i as int) && i + sep@.len() <= rest@.len(),
                None => find(rest@, sep@) is None,
            },
            all_views(out@) + split_on(rest@, sep@) =~= split_on(v@, sep@),
        decreases rest@.len(),
    {
        let i: usize = next.unwrap();
        let ghost old_rest = rest@;
        let ghost old_out = out@;
        let piece = slice_subrange(rest, 0, i);
        let total: usize = rest.len();
        let tail = slice_subrange(rest, i + sep.len(), total);
        out.push(to_vec(piece));
        proof {
            assert(piece@ =~= old_rest.take(i as int));
            assert(tail@ =~= old_rest.skip(i + sep@.len()));
            assert(all_views(out@) =~= all_views(old_out).push(old_rest.take(i as int)));
            assert(split_on(old_rest, sep@) =~= seq![old_rest.take(i as int)] + split_on(
                tail@,
                sep@,
            ));
        }
        rest = tail;
        next = find_chars(rest, sep);
    }
    let ghost old_out = out@;
    out.push(to_vec(rest));
    proof {
        assert(all_views(out@) =~= all_views(old_out).push(rest@));
        assert(split_on(rest@, sep@) =~= seq![rest@]);
    }
    out
}

/// `v` with every occurrence of `from` written as `to`.
pub fn replace(v: &[char], from: &[char], to: &[char]) -> (r: Vec<char>)
    requires
        from@.len() > 0,
    ensures
        r@ == replaced(v@, from@, to@),
{
    let mut out: Vec<char> = Vec::new();
    let mut rest = v;
    let mut next = find_chars(rest, from);
    assert(out@ + replaced(rest@, from@, to@) =~= replaced(v@, from@, to@));
    while next.is_some()
        invariant
            from@.len() > 0,
            match next {
                Some(i) => find(rest@, from@) == Some(i as int) && i + from@.len() <= rest@.len(),
                None => find(rest@, from@) is None,
            },
            out@ + replaced(rest@, from@, to@) =~= replaced(v@, from@, to@),
        decreases rest@.len(),
    {
        let i: usize = next.unwrap();
        let ghost old_rest = rest@;
        let ghost old_out = out@;
        let piece = slice_subrange(rest, 0, i);
        let total: usize = rest.len();
        let tail = slice_subrange(rest, i + from.len(), total);
        let mut head = to_vec(piece);
        let mut middle = to_vec(to);
        out.append(&mut head);
        out.append(&mut middle);
        proof {
            assert(piece@ =~= old_rest.take(i as int));
            assert(tail@ =~= old_rest.skip(i + from@.len()));
            assert(out@ + replaced(tail@, from@, to@) =~= old_out + (old_rest.take(i as int) + to@
                + replaced(tail@, from@, to@)));
        }
        rest = tail;
        next = find_chars(rest, from);
    }
    let mut last = to_vec(rest);
    out.append(&mut last);
    out
}

/// The lines of a text: what stands before each newline, without the carriage return that may
/// stand right in front of it, and what stands behind the last newline, if anything does.
pub open spec fn lines(s: Seq<char>) -> Seq<Seq<char>> {
    let parts = split(s, '\n');
    let ended = parts.drop_last().map_values(|line: Seq<char>| without_return(line));
    if parts.last().len() == 0 {
        ended
    } else {
        ended.push(parts.last())
    }
}

/// A line without the carriage return it may end in.
pub open spec fn without_return(line: Seq<char>) -> Seq<char> {
    if line.len() > 0 && line.last() == '\r' {
        line.drop_last()
    } else {
        line
    }
}

/// The lines of a text.
pub fn all_lines(s: &str) -> (r: Vec<Vec<char>>)
    ensures
        all_views(r@) == lines(s@),
{
    let v = chars(s);
    let parts = pieces(v.as_slice(), '\n');
    let ghost all = all_views(parts@);
    let ghost ended = all.drop_last().map_values(|line: Seq<char>| without_return(line));
    let count: usize = parts.len() - 1;
    assert(all.last() == parts@[count as int]@);
    let mut out: Vec<Vec<char>> = Vec::new();
    let mut i: usize = 0;
    while i < count
        invariant
            i <= count,
            count == parts@.len() - 1,
            all == all_views(parts@),
            ended == all.drop_last().map_values(|line: Seq<char>| without_return(line)),
            all_views(out@) =~= ended.take(i as int),
        decreases count - i,
    {
        let line = parts[i].as_slice();
        assert(line@ == all[i as int]);
        let ghost before = out@;
        if line.len() > 0 && line[line.len() - 1] == '\r' {
            let cut = slice_subrange(line, 0, line.len() - 1);
            assert(cut@ =~= line@.drop_last());
            out.push(to_vec(cut));
        } else {
            out.push(to_vec(line));
        }
        assert(all_views(out@) =~= all_views(before).push(without_return(line@)));
        i = i + 1;
    }
    assert(ended.take(i as int) =~= ended);
    let last = parts[count].as_slice();
    if last.len() > 0 {
        let ghost before = out@;
        out.push(to_vec(last));
        assert(all_views(out@) =~= all_views(before).push(last@));
    }
    out
}

// --------------------------------------------------------------------------- trimming

/// The characters with Unicode's White_Space property.
pub open spec fn is_white(c: char) -> bool {
    let n = c as u32;
    ||| 0x9 <= n <= 0xd
    ||| n == 0x20
    ||| n == 0x85
    ||| n == 0xa0
    ||| n == 0x1680
    ||| 0x2000 <= n <= 0x200a
    ||| n == 0x2028
    ||| n == 0x2029
    ||| n == 0x202f
    ||| n == 0x205f
    ||| n == 0x3000
}

/// Whether `c` has Unicode's White_Space property.
pub fn white(c: char) -> (r: bool)
    ensures
        r == is_white(c),
{
    let n: u32 = c as u32;
    (0x9 <= n && n <= 0xd) || n == 0x20 || n == 0x85 || n == 0xa0 || n == 0x1680 || (0x2000 <= n
        && n <= 0x200a) || n == 0x2028 || n == 0x2029 || n == 0x202f || n == 0x205f || n == 0x3000
}

/// `s` without its leading white space.
pub open spec fn trim_start(s: Seq<char>) -> Seq<char>
    decreases s.len(),
{
    if s.len() > 0 && is_white(s[0]) {
        trim_start(s.drop_first())
    } else {
        s
    }
}

/// `s` without its trailing white space.
pub open spec fn trim_end(s: Seq<char>) -> Seq<char>
    decreases s.len(),
{
    if s.len() > 0 && is_white(s.last()) {
        trim_end(s.drop_last())
    } else {
        s
    }
}

/// `s` without white space on either side.
pub open spec fn trim(s: Seq<char>) -> Seq<char> {
    trim_end(trim_start(s))
}

/// `s` without the `x`s it ends in.
pub open spec fn drop_trailing(s: Seq<char>, x: char) -> Seq<char>
    decreases s.len(),
{
    if s.len() > 0 && s.last() == x {
        drop_trailing(s.drop_last(), x)
    } else {
        s
    }
}

/// `s` without the `x`s it begins with.
pub open spec fn drop_leading(s: Seq<char>, x: char) -> Seq<char>
    decreases s.len(),
{
    if s.len() > 0 && s[0] == x {
        drop_leading(s.drop_first(), x)
    } else {
        s
    }
}

/// Text with no white space at either end is trimmed already.
pub proof fn lemma_trim_nothing(s: Seq<char>)
    requires
        s.len() > 0 ==> !is_white(s[0]) && !is_white(s.last()),
    ensures
        trim(s) == s,
{
}

/// `v` without its leading white space.
pub fn trimmed_start<'a>(v: &'a [char]) -> (r: &'a [char])
    ensures
        r@ == trim_start(v@),
{
    let mut rest = v;
    while rest.len() > 0 && white(rest[0])
        invariant
            trim_start(rest@) == trim_start(v@),
        decreases rest@.len(),
    {
        let tail = slice_subrange(rest, 1, rest.len());
        assert(tail@ =~= rest@.drop_first());
        rest = tail;
    }
    rest
}

/// `v` without its trailing white space.
pub fn trimmed_end<'a>(v: &'a [char]) -> (r: &'a [char])
    ensures
        r@ == trim_end(v@),
{
    let mut rest = v;
    while rest.len() > 0 && white(rest[rest.len() - 1])
        invariant
            trim_end(rest@) == trim_end(v@),
        decreases rest@.len(),
    {
        let tail = slice_subrange(rest, 0, rest.len() - 1);
        assert(tail@ =~= rest@.drop_last());
        rest = tail;
    }
    rest
}

/// `v` without white space on either side.
pub fn trimmed<'a>(v: &'a [char]) -> (r: &'a [char])
    ensures
        r@ == trim(v@),
{
    trimmed_end(trimmed_start(v))
}

/// `v` without the `x`s it ends in.
pub fn without_trailing<'a>(v: &'a [char], x: char) -> (r: &'a [char])
    ensures
        r@ == drop_trailing(v@, x),
{
    let mut rest = v;
    while rest.len() > 0 && rest[rest.len() - 1] == x
        invariant
            drop_trailing(rest@, x) == drop_trailing(v@, x),
        decreases rest@.len(),
    {
        let tail = slice_subrange(rest, 0, rest.len() - 1);
        assert(tail@ =~= rest@.drop_last());
        rest = tail;
    }
    rest
}

/// `v` without the `x`s it begins with.
pub fn without_leading<'a>(v: &'a [char], x: char) -> (r: &'a [char])
    ensures
        r@ == drop_leading(v@, x),
{
    let mut rest = v;
    while rest.len() > 0 && rest[0] == x
        invariant
            drop_leading(rest@, x) == drop_leading(v@, x),
        decreases rest@.len(),
    {
        let tail = slice_subrange(rest, 1, rest.len());
        assert(tail@ =~= rest@.drop_first());
        rest = tail;
    }
    rest
}

/// `s` without white space on either side.
pub fn trim_text(s: &str) -> (r: String)
    ensures
        r@ == trim(s@),
{
    let v = chars(s);
    from_chars(trimmed(v.as_slice()))
}

// ----------------------------------------------------------------------- letters, case

/// Whether `c` is an ASCII letter or digit.
pub open spec fn is_alnum(c: char) -> bool {
    ('0' as u32 <= c as u32 <= '9' as u32) || ('a' as u32 <= c as u32 <= 'z' as u32) || ('A' as u32
        <= c as u32 <= 'Z' as u32)
}

/// Whether `c` is an ASCII letter or digit.
pub fn alnum(c: char) -> (r: bool)
    ensures
        r == is_alnum(c),
{
    let n: u32 = c as u32;
    (0x30 <= n && n <= 0x39) || (0x61 <= n && n <= 0x7a) || (0x41 <= n && n <= 0x5a)
}

/// `c` with an ASCII capital made small.
pub open spec fn lower_char(c: char) -> char {
    if 'A' as u32 <= c as u32 <= 'Z' as u32 {
        (c as u32 + 32) as char
    } else {
        c
    }
}

/// `s` with its ASCII capitals made small.
pub open spec fn lower(s: Seq<char>) -> Seq<char> {
    s.map_values(|c: char| lower_char(c))
}

/// Whether two texts agree but for the case of ASCII letters.
pub open spec fn same_ignoring_case(a: Seq<char>, b: Seq<char>) -> bool {
    lower(a) == lower(b)
}

/// `c` with an ASCII capital made small.
pub fn lowered_char(c: char) -> (r: char)
    ensures
        r == lower_char(c),
{
    let n: u32 = c as u32;
    if 0x41 <= n && n <= 0x5a {
        let b: u8 = (n as u8) + 32;
        b as char
    } else {
        c
    }
}

/// `v` with its ASCII capitals made small.
pub fn lowered(v: &[char]) -> (r: Vec<char>)
    ensures
        r@ == lower(v@),
{
    let mut out: Vec<char> = Vec::new();
    let mut i: usize = 0;
    while i < v.len()
        invariant
            i <= v.len(),
            out@ =~= lower(v@.take(i as int)),
        decreases v.len() - i,
    {
        out.push(lowered_char(v[i]));
        i = i + 1;
        assert(v@.take(i as int) =~= v@.take(i - 1).push(v@[i - 1]));
    }
    assert(v@.take(i as int) =~= v@);
    out
}

/// `s` with its ASCII capitals made small.
pub fn lower_text(s: &str) -> (r: String)
    ensures
        r@ == lower(s@),
{
    let v = chars(s);
    let w = lowered(v.as_slice());
    from_chars(w.as_slice())
}

/// `c` with a small ASCII letter made a capital.
pub open spec fn upper_char(c: char) -> char {
    if 'a' as u32 <= c as u32 <= 'z' as u32 {
        (c as u32 - 32) as char
    } else {
        c
    }
}

/// `s` with its small ASCII letters made capitals.
pub open spec fn upper(s: Seq<char>) -> Seq<char> {
    s.map_values(|c: char| upper_char(c))
}

/// `v` with its small ASCII letters made capitals.
pub fn uppered(v: &[char]) -> (r: Vec<char>)
    ensures
        r@ == upper(v@),
{
    let mut out: Vec<char> = Vec::new();
    let mut i: usize = 0;
    while i < v.len()
        invariant
            i <= v.len(),
            out@ =~= upper(v@.take(i as int)),
        decreases v.len() - i,
    {
        let n: u32 = v[i] as u32;
        if 0x61 <= n && n <= 0x7a {
            let b: u8 = (n as u8) - 32;
            out.push(b as char);
        } else {
            out.push(v[i]);
        }
        i = i + 1;
        assert(v@.take(i as int) =~= v@.take(i - 1).push(v@[i - 1]));
    }
    assert(v@.take(i as int) =~= v@);
    out
}

/// Whether two texts agree but for the case of ASCII letters.
pub fn equal_ignoring_case(a: &str, b: &str) -> (r: bool)
    ensures
        r == same_ignoring_case(a@, b@),
{
    let x = chars(a);
    let y = chars(b);
    let p = lowered(x.as_slice());
    let q = lowered(y.as_slice());
    same_chars(p.as_slice(), q.as_slice())
}

// ------------------------------------------------------------------------------ order

/// Whether `a` comes before `b`, character by character.
pub open spec fn precedes(a: Seq<char>, b: Seq<char>) -> bool
    decreases a.len(),
{
    if b.len() == 0 {
        false
    } else if a.len() == 0 {
        true
    } else if a[0] != b[0] {
        (a[0] as u32) < (b[0] as u32)
    } else {
        precedes(a.drop_first(), b.drop_first())
    }
}

/// Of two texts that differ, exactly one comes before the other.
pub proof fn lemma_precedes_total(a: Seq<char>, b: Seq<char>)
    ensures
        precedes(a, b) <==> a != b && !precedes(b, a),
    decreases a.len(),
{
    if a.len() == 0 {
        assert(b.len() == 0 ==> a =~= b);
    } else if b.len() == 0 {
    } else if a[0] != b[0] {
        if a[0] as u32 == b[0] as u32 {
            vstd::utf8::char_u32_cast(a[0], a[0] as u32);
            vstd::utf8::char_u32_cast(b[0], b[0] as u32);
        }
    } else {
        lemma_precedes_total(a.drop_first(), b.drop_first());
        if a.drop_first() == b.drop_first() {
            assert(a =~= seq![a[0]] + a.drop_first());
            assert(b =~= seq![b[0]] + b.drop_first());
        }
    }
}

/// Coming before is transitive.
pub proof fn lemma_precedes_transitive(a: Seq<char>, b: Seq<char>, c: Seq<char>)
    requires
        precedes(a, b),
        precedes(b, c),
    ensures
        precedes(a, c),
    decreases a.len(),
{
    if a.len() > 0 && b.len() > 0 && c.len() > 0 && a[0] == b[0] && b[0] == c[0] {
        lemma_precedes_transitive(a.drop_first(), b.drop_first(), c.drop_first());
    } else if a.len() > 0 && b.len() > 0 && c.len() > 0 && a[0] != b[0] && b[0] != c[0] {
        assert((a[0] as u32) < (c[0] as u32));
    }
}

/// Whether `a` comes before `b`, character by character.
pub fn comes_before(a: &str, b: &str) -> (r: bool)
    ensures
        r == precedes(a@, b@),
{
    let x = chars(a);
    let y = chars(b);
    let mut i: usize = 0;
    assert(x@.skip(0) =~= x@ && y@.skip(0) =~= y@);
    while i < x.len() && i < y.len() && x[i] == y[i]
        invariant
            i <= x@.len(),
            i <= y@.len(),
            x@ == a@,
            y@ == b@,
            precedes(a@, b@) == precedes(x@.skip(i as int), y@.skip(i as int)),
        decreases x@.len() - i,
    {
        assert(x@.skip(i as int).drop_first() =~= x@.skip(i + 1));
        assert(y@.skip(i as int).drop_first() =~= y@.skip(i + 1));
        i = i + 1;
    }
    if i >= y.len() {
        return false;
    }
    if i >= x.len() {
        return true;
    }
    (x[i] as u32) < (y[i] as u32)
}

// ---------------------------------------------------------------------------- numbers

/// Whether `c` is a decimal digit.
pub open spec fn is_digit(c: char) -> bool {
    '0' as u32 <= c as u32 <= '9' as u32
}

/// Whether every character of `s` is a decimal digit.
pub open spec fn all_digits(s: Seq<char>) -> bool {
    forall|i: int| 0 <= i < s.len() ==> is_digit(#[trigger] s[i])
}

/// The number that decimal digits write, read from the left.
pub open spec fn digits_value(s: Seq<char>) -> nat
    decreases s.len(),
{
    if s.len() == 0 {
        0
    } else {
        (digits_value(s.drop_last()) * 10 + (s.last() as u32 - '0' as u32)) as nat
    }
}

/// `s` without the one plus sign it may begin with.
pub open spec fn unsigned_part(s: Seq<char>) -> Seq<char> {
    if s.len() > 0 && s[0] == '+' {
        s.drop_first()
    } else {
        s
    }
}

/// What a text says as an unsigned number of at most `max`: decimal digits, at least
/// one, behind at most one plus sign.
pub open spec fn parse_unsigned(s: Seq<char>, max: nat) -> Option<nat> {
    let digits = unsigned_part(s);
    if digits.len() > 0 && all_digits(digits) && digits_value(digits) <= max {
        Some(digits_value(digits))
    } else {
        None
    }
}

/// What a text says as a signed 32-bit number: decimal digits, at least one, behind at
/// most one sign.
pub open spec fn parse_signed(s: Seq<char>) -> Option<int> {
    if s.len() > 0 && s[0] == '-' {
        let digits = s.drop_first();
        if digits.len() > 0 && all_digits(digits) && digits_value(digits) <= 0x8000_0000 {
            Some(-(digits_value(digits) as int))
        } else {
            None
        }
    } else {
        match parse_unsigned(s, 0x7fff_ffff) {
            Some(n) => Some(n as int),
            None => None,
        }
    }
}

/// Dropping a digit never makes the number larger.
pub proof fn lemma_digits_prefix(s: Seq<char>, k: int)
    requires
        all_digits(s),
        0 <= k <= s.len(),
    ensures
        digits_value(s.take(k)) <= digits_value(s),
    decreases s.len(),
{
    if k == s.len() {
        assert(s.take(k) =~= s);
    } else {
        assert(s.drop_last().take(k) =~= s.take(k));
        assert(all_digits(s.drop_last()));
        lemma_digits_prefix(s.drop_last(), k);
        assert(is_digit(s[s.len() - 1]));
    }
}

/// The number that `v` writes in decimal digits, if it holds digits only, at least one,
/// and the number is at most `max`.
pub fn digits_number(v: &[char], max: u64) -> (r: Option<u64>)
    ensures
        match r {
            Some(n) => v@.len() > 0 && all_digits(v@) && digits_value(v@) == n && n <= max,
            None => !(v@.len() > 0 && all_digits(v@) && digits_value(v@) <= max),
        },
{
    if v.len() == 0 {
        return None;
    }
    let mut n: u64 = 0;
    let mut i: usize = 0;
    while i < v.len()
        invariant
            i <= v.len(),
            n == digits_value(v@.take(i as int)),
            n <= max,
            all_digits(v@.take(i as int)),
        decreases v.len() - i,
    {
        let c: u32 = v[i] as u32;
        if c < 0x30 || c > 0x39 {
            assert(!is_digit(v@[i as int]));
            return None;
        }
        let d: u64 = (c - 0x30) as u64;
        proof {
            let next = v@.take(i + 1);
            assert(next.drop_last() =~= v@.take(i as int));
            assert(next.last() == v@[i as int]);
            assert forall|j: int| 0 <= j < next.len() implies is_digit(#[trigger] next[j]) by {
                if j < i {
                    assert(v@.take(i as int)[j] == next[j]);
                }
            }
            assert(digits_value(next) == n * 10 + d);
            if all_digits(v@) {
                lemma_digits_prefix(v@, i + 1);
            }
        }
        if n > max / 10 || max - n * 10 < d {
            proof {
                assert(n * 10 + d > max) by (nonlinear_arith)
                    requires
                        n > max / 10 || max - n * 10 < d,
                ;
            }
            return None;
        }
        n = n * 10 + d;
        i = i + 1;
    }
    assert(v@.take(i as int) =~= v@);
    Some(n)
}

/// What `v` says as an unsigned number of at most `max`.
pub fn number(v: &[char], max: u64) -> (r: Option<u64>)
    ensures
        match r {
            Some(n) => parse_unsigned(v@, max as nat) == Some(n as nat) && n <= max,
            None => parse_unsigned(v@, max as nat) is None,
        },
{
    if v.len() > 0 && v[0] == '+' {
        let rest = slice_subrange(v, 1, v.len());
        assert(rest@ =~= v@.drop_first());
        digits_number(rest, max)
    } else {
        digits_number(v, max)
    }
}

/// What `s` says as an unsigned number of at most `max`.
pub fn parse_number(s: &str, max: u64) -> (r: Option<u64>)
    ensures
        match r {
            Some(n) => parse_unsigned(s@, max as nat) == Some(n as nat) && n <= max,
            None => parse_unsigned(s@, max as nat) is None,
        },
{
    let v = chars(s);
    number(v.as_slice(), max)
}

/// What `v` says as a signed 32-bit number.
pub fn signed_number(v: &[char]) -> (r: Option<i32>)
    ensures
        match r {
            Some(n) => parse_signed(v@) == Some(n as int),
            None => parse_signed(v@) is None,
        },
{
    if v.len() > 0 && v[0] == '-' {
        let rest = slice_subrange(v, 1, v.len());
        assert(rest@ =~= v@.drop_first());
        match digits_number(rest, 0x8000_0000) {
            Some(n) => Some((0 - (n as i64)) as i32),
            None => None,
        }
    } else {
        match number(v, 0x7fff_ffff) {
            Some(n) => Some(n as i32),
            None => None,
        }
    }
}

/// The digit that writes `d`.
pub open spec fn digit_char(d: nat) -> char {
    (0x30 + d) as char
}

/// The decimal digits of `n`, without leading zeros.
pub open spec fn decimal(n: nat) -> Seq<char>
    decreases n,
{
    if n < 10 {
        seq![digit_char(n)]
    } else {
        decimal(n / 10).push(digit_char(n % 10))
    }
}

/// The decimal form of a signed number.
pub open spec fn signed_decimal(n: int) -> Seq<char> {
    if n < 0 {
        seq!['-'] + decimal((-n) as nat)
    } else {
        decimal(n as nat)
    }
}

/// Reading back the digits of `n` gives `n`.
pub proof fn lemma_decimal_reads_back(n: nat)
    ensures
        decimal(n).len() > 0,
        all_digits(decimal(n)),
        digits_value(decimal(n)) == n,
    decreases n,
{
    if n < 10 {
        let s = decimal(n);
        assert(s.drop_last() =~= Seq::<char>::empty());
        assert(digits_value(s.drop_last()) == 0);
        assert(s.last() == digit_char(n));
    } else {
        lemma_decimal_reads_back(n / 10);
        let s = decimal(n);
        assert(s.drop_last() =~= decimal(n / 10));
        assert(s.last() == digit_char(n % 10));
        assert forall|i: int| 0 <= i < s.len() implies is_digit(#[trigger] s[i]) by {
            if i < s.len() - 1 {
                assert(decimal(n / 10)[i] == s[i]);
            }
        }
    }
}

/// Reading a number's decimal form as a number of at most `max` gives it back.
pub proof fn lemma_decimal_parses(n: nat, max: nat)
    requires
        n <= max,
    ensures
        parse_unsigned(decimal(n), max) == Some(n),
{
    lemma_decimal_reads_back(n);
    assert(is_digit(decimal(n)[0]));
    assert(unsigned_part(decimal(n)) == decimal(n));
}

/// The decimal digits of `n`.
pub fn decimal_chars(n: u64) -> (r: Vec<char>)
    ensures
        r@ == decimal(n as nat),
    decreases n,
{
    if n < 10 {
        let mut out: Vec<char> = Vec::new();
        out.push((0x30u8 + n as u8) as char);
        assert(out@ =~= decimal(n as nat));
        out
    } else {
        let mut out = decimal_chars(n / 10);
        out.push((0x30u8 + (n % 10) as u8) as char);
        out
    }
}

/// The decimal form of `n`.
pub fn decimal_text(n: u64) -> (r: String)
    ensures
        r@ == decimal(n as nat),
{
    let v = decimal_chars(n);
    from_chars(v.as_slice())
}

/// The decimal form of a signed number.
pub fn signed_text(n: i32) -> (r: String)
    ensures
        r@ == signed_decimal(n as int),
{
    if n < 0 {
        let mut out = String::new();
        out.push('-');
        let m: u64 = (0 - (n as i64)) as u64;
        let digits = decimal_text(m);
        out.append(digits.as_str());
        assert(out@ =~= seq!['-'] + decimal((-(n as int)) as nat));
        out
    } else {
        decimal_text(n as u64)
    }
}

/// The lower-case hexadecimal digit that writes `d`.
pub open spec fn hex_char(d: nat) -> char {
    if d < 10 {
        (0x30 + d) as char
    } else {
        (0x61 + d - 10) as char
    }
}

/// `b` as `0x` and two lower-case hexadecimal digits.
pub open spec fn hex_byte(b: u8) -> Seq<char> {
    seq!['0', 'x', hex_char((b / 16) as nat), hex_char((b % 16) as nat)]
}

fn hex_digit(d: u8) -> (r: char)
    requires
        d < 16,
    ensures
        r == hex_char(d as nat),
{
    if d < 10 {
        (0x30 + d) as char
    } else {
        (0x61 + (d - 10)) as char
    }
}

/// `b` as `0x` and two lower-case hexadecimal digits.
pub fn hex_text(b: u8) -> (r: String)
    ensures
        r@ == hex_byte(b),
{
    let mut out = String::new();
    out.push('0');
    out.push('x');
    out.push(hex_digit(b / 16));
    out.push(hex_digit(b % 16));
    assert(out@ =~= hex_byte(b));
    out
}

/// Whether `c` is a hexadecimal digit.
pub open spec fn is_hex(c: char) -> bool {
    is_digit(c) || 'a' as u32 <= c as u32 <= 'f' as u32 || 'A' as u32 <= c as u32 <= 'F' as u32
}

/// What a hexadecimal digit counts.
pub open spec fn hex_digit_value(c: char) -> nat {
    if is_digit(c) {
        (c as u32 - '0' as u32) as nat
    } else if 'a' as u32 <= c as u32 {
        (c as u32 - 'a' as u32 + 10) as nat
    } else {
        (c as u32 - 'A' as u32 + 10) as nat
    }
}

/// Whether every character of `s` is a hexadecimal digit.
pub open spec fn all_hex(s: Seq<char>) -> bool {
    forall|i: int| 0 <= i < s.len() ==> is_hex(#[trigger] s[i])
}

/// The number that hexadecimal digits write, read from the left.
pub open spec fn hex_value(s: Seq<char>) -> nat
    decreases s.len(),
{
    if s.len() == 0 {
        0
    } else {
        hex_value(s.drop_last()) * 16 + hex_digit_value(s.last())
    }
}

/// What a text says as an unsigned hexadecimal number of at most `max`: digits, at least
/// one, behind at most one plus sign.
pub open spec fn parse_hex(s: Seq<char>, max: nat) -> Option<nat> {
    let digits = unsigned_part(s);
    if digits.len() > 0 && all_hex(digits) && hex_value(digits) <= max {
        Some(hex_value(digits))
    } else {
        None
    }
}

proof fn lemma_hex_prefix(s: Seq<char>, k: int)
    requires
        0 <= k <= s.len(),
    ensures
        hex_value(s.take(k)) <= hex_value(s),
    decreases s.len(),
{
    if k == s.len() {
        assert(s.take(k) =~= s);
    } else {
        assert(s.drop_last().take(k) =~= s.take(k));
        lemma_hex_prefix(s.drop_last(), k);
    }
}

fn hex_digits_number(v: &[char], max: u64) -> (r: Option<u64>)
    ensures
        match r {
            Some(n) => v@.len() > 0 && all_hex(v@) && hex_value(v@) == n && n <= max,
            None => !(v@.len() > 0 && all_hex(v@) && hex_value(v@) <= max),
        },
{
    if v.len() == 0 {
        return None;
    }
    let mut n: u64 = 0;
    let mut i: usize = 0;
    while i < v.len()
        invariant
            i <= v.len(),
            n == hex_value(v@.take(i as int)),
            n <= max,
            all_hex(v@.take(i as int)),
        decreases v.len() - i,
    {
        let c: u32 = v[i] as u32;
        let d: u64 = if 0x30 <= c && c <= 0x39 {
            (c - 0x30) as u64
        } else if 0x61 <= c && c <= 0x66 {
            (c - 0x61 + 10) as u64
        } else if 0x41 <= c && c <= 0x46 {
            (c - 0x41 + 10) as u64
        } else {
            assert(!is_hex(v@[i as int]));
            return None;
        };
        proof {
            let next = v@.take(i + 1);
            assert(next.drop_last() =~= v@.take(i as int));
            assert(next.last() == v@[i as int]);
            assert forall|j: int| 0 <= j < next.len() implies is_hex(#[trigger] next[j]) by {
                if j < i {
                    assert(v@.take(i as int)[j] == next[j]);
                }
            }
            assert(hex_value(next) == n * 16 + d);
            lemma_hex_prefix(v@, i + 1);
        }
        if n > max / 16 || max - n * 16 < d {
            proof {
                assert(n * 16 + d > max) by (nonlinear_arith)
                    requires
                        n > max / 16 || max - n * 16 < d,
                ;
            }
            return None;
        }
        n = n * 16 + d;
        i = i + 1;
    }
    assert(v@.take(i as int) =~= v@);
    Some(n)
}

/// What `v` says as an unsigned hexadecimal number of at most `max`.
pub fn hex_number(v: &[char], max: u64) -> (r: Option<u64>)
    ensures
        match r {
            Some(n) => parse_hex(v@, max as nat) == Some(n as nat) && n <= max,
            None => parse_hex(v@, max as nat) is None,
        },
{
    if v.len() > 0 && v[0] == '+' {
        let rest = slice_subrange(v, 1, v.len());
        assert(rest@ =~= v@.drop_first());
        hex_digits_number(rest, max)
    } else {
        hex_digits_number(v, max)
    }
}

/// The hexadecimal digits of `n`, without leading zeros.
pub open spec fn hexadecimal(n: nat) -> Seq<char>
    decreases n,
{
    if n < 16 {
        seq![hex_char(n)]
    } else {
        hexadecimal(n / 16).push(hex_char(n % 16))
    }
}

/// Reading back the hexadecimal digits of `n` gives `n`.
pub proof fn lemma_hexadecimal_reads_back(n: nat)
    ensures
        hexadecimal(n).len() > 0,
        all_hex(hexadecimal(n)),
        hex_value(hexadecimal(n)) == n,
    decreases n,
{
    if n < 16 {
        let s = hexadecimal(n);
        assert(s.drop_last() =~= Seq::<char>::empty());
        assert(hex_value(s.drop_last()) == 0);
        assert(s.last() == hex_char(n));
    } else {
        lemma_hexadecimal_reads_back(n / 16);
        let s = hexadecimal(n);
        assert(s.drop_last() =~= hexadecimal(n / 16));
        assert(s.last() == hex_char(n % 16));
        assert forall|i: int| 0 <= i < s.len() implies is_hex(#[trigger] s[i]) by {
            if i < s.len() - 1 {
                assert(hexadecimal(n / 16)[i] == s[i]);
            }
        }
    }
}

// ------------------------------------------------------------------------------ words

/// What stands before the first white space.
pub open spec fn first_word(s: Seq<char>) -> Seq<char>
    decreases s.len(),
{
    if s.len() == 0 || is_white(s[0]) {
        seq![]
    } else {
        seq![s[0]] + first_word(s.drop_first())
    }
}

/// The second of the words that white space separates; empty where there is none.
pub open spec fn second_word(s: Seq<char>) -> Seq<char> {
    let t = trim_start(s);
    first_word(trim_start(t.skip(first_word(t).len() as int)))
}

fn word_len(v: &[char]) -> (r: usize)
    ensures
        r == first_word(v@).len(),
        r <= v@.len(),
        first_word(v@) == v@.take(r as int),
{
    let mut i: usize = 0;
    assert(v@.skip(0) =~= v@);
    while i < v.len() && !white(v[i])
        invariant
            i <= v@.len(),
            first_word(v@) =~= v@.take(i as int) + first_word(v@.skip(i as int)),
        decreases v@.len() - i,
    {
        assert(v@.skip(i as int).drop_first() =~= v@.skip(i + 1));
        assert(v@.take(i + 1) =~= v@.take(i as int) + seq![v@[i as int]]);
        i = i + 1;
    }
    assert(first_word(v@.skip(i as int)) =~= seq![]);
    i
}

/// The second of the words that white space separates.
pub fn word_after_first(v: &[char]) -> (r: Vec<char>)
    ensures
        r@ == second_word(v@),
{
    let t = trimmed_start(v);
    let n: usize = word_len(t);
    let rest = slice_subrange(t, n, t.len());
    assert(rest@ =~= t@.skip(n as int));
    let u = trimmed_start(rest);
    let m: usize = word_len(u);
    let word = slice_subrange(u, 0, m);
    assert(word@ =~= u@.take(m as int));
    to_vec(word)
}

// ------------------------------------------------------------------------------------ laws

proof fn lemma_trim_start_is(s: Seq<char>)
    ensures
        trim_start(s).len() <= s.len(),
        trim_start(s) == s.skip(s.len() - trim_start(s).len()),
        forall|k: int| 0 <= k < s.len() - trim_start(s).len() ==> is_white(#[trigger] s[k]),
        trim_start(s).len() > 0 ==> !is_white(trim_start(s)[0]),
    decreases s.len(),
{
    if s.len() > 0 && is_white(s[0]) {
        let t = s.drop_first();
        lemma_trim_start_is(t);
        assert(trim_start(s) =~= s.skip(s.len() - trim_start(s).len()));
        assert forall|k: int| 0 <= k < s.len() - trim_start(s).len() implies is_white(
            #[trigger] s[k],
        ) by {
            if k > 0 {
                assert(t[k - 1] == s[k]);
            }
        }
    } else {
        assert(s.skip(0) =~= s);
    }
}

proof fn lemma_trim_end_is(s: Seq<char>)
    ensures
        trim_end(s).len() <= s.len(),
        trim_end(s) == s.take(trim_end(s).len() as int),
        forall|k: int| trim_end(s).len() <= k < s.len() ==> is_white(#[trigger] s[k]),
        trim_end(s).len() > 0 ==> !is_white(trim_end(s).last()),
    decreases s.len(),
{
    if s.len() > 0 && is_white(s.last()) {
        let t = s.drop_last();
        lemma_trim_end_is(t);
        assert(trim_end(s) =~= s.take(trim_end(s).len() as int));
        assert forall|k: int| trim_end(s).len() <= k < s.len() implies is_white(
            #[trigger] s[k],
        ) by {
            if k < t.len() {
                assert(t[k] == s[k]);
            }
        }
    } else {
        assert(s.take(s.len() as int) =~= s);
    }
}

/// Trimming takes off white space and nothing else, from both ends and all of it.
pub proof fn law_trimming_takes_off_white_space_alone(s: Seq<char>)
    ensures
        exists|i: int, j: int|
            0 <= i <= j <= s.len() && trim(s) == #[trigger] s.subrange(i, j) && (forall|k: int|
                0 <= k < s.len() && (k < i || j <= k) ==> is_white(#[trigger] s[k])),
        trim(s).len() > 0 ==> !is_white(trim(s)[0]) && !is_white(trim(s).last()),
{
    let t = trim_start(s);
    let u = trim_end(t);
    lemma_trim_start_is(s);
    lemma_trim_end_is(t);
    let i = s.len() - t.len();
    let j = i + u.len();
    assert(u =~= s.subrange(i, j));
    assert forall|k: int| 0 <= k < s.len() && (k < i || j <= k) implies is_white(
        #[trigger] s[k],
    ) by {
        if j <= k {
            assert(t[k - i] == s[k]);
        }
    }
    if u.len() > 0 {
        assert(u[0] == t[0]);
    }
}

/// Pieces with a separator between each two.
pub open spec fn joined_by<T>(pieces: Seq<Seq<T>>, sep: Seq<T>) -> Seq<T>
    decreases pieces.len(),
{
    if pieces.len() == 0 {
        seq![]
    } else if pieces.len() == 1 {
        pieces[0]
    } else {
        pieces[0] + sep + joined_by(pieces.drop_first(), sep)
    }
}

/// Splitting takes out the separators and nothing else: with them put back the pieces are the
/// whole again, and no piece holds one.
pub proof fn law_pieces_join_to_the_whole<T>(s: Seq<T>, sep: T)
    ensures
        split(s, sep).len() > 0,
        joined_by(split(s, sep), seq![sep]) == s,
        forall|i: int| 0 <= i < split(s, sep).len() ==> !(#[trigger] split(s, sep)[i]).contains(sep),
    decreases s.len(),
{
    lemma_index_of(s, sep);
    let i = index_of(s, sep);
    if i < s.len() {
        let head = s.take(i);
        let rest = s.skip(i + 1);
        law_pieces_join_to_the_whole(rest, sep);
        let pieces = split(s, sep);
        let tail = split(rest, sep);
        assert(pieces == seq![head] + tail);
        assert(pieces.drop_first() =~= tail);
        assert(head + seq![sep] + rest =~= s);
        assert forall|k: int| 0 <= k < pieces.len() implies !(#[trigger] pieces[k]).contains(
            sep,
        ) by {
            if k == 0 {
                if head.contains(sep) {
                    let j = choose|j: int| 0 <= j < head.len() && head[j] == sep;
                    assert(s[j] == sep);
                }
            } else {
                assert(pieces[k] == tail[k - 1]);
            }
        }
    }
}

/// The same of separators of several items, found from the left.
pub proof fn law_pieces_on_join_to_the_whole<T>(s: Seq<T>, sep: Seq<T>)
    requires
        sep.len() > 0,
    ensures
        split_on(s, sep).len() > 0,
        joined_by(split_on(s, sep), sep) == s,
        forall|i: int|
            0 <= i < split_on(s, sep).len() ==> !holds(#[trigger] split_on(s, sep)[i], sep),
    decreases s.len(),
{
    lemma_find(s, sep);
    match find(s, sep) {
        Some(i) => {
            let head = s.take(i);
            let rest = s.skip(i + sep.len());
            law_pieces_on_join_to_the_whole(rest, sep);
            let pieces = split_on(s, sep);
            let tail = split_on(rest, sep);
            assert(pieces == seq![head] + tail);
            assert(pieces.drop_first() =~= tail);
            assert(head + sep + rest =~= s);
            assert forall|k: int| 0 <= k < pieces.len() implies !holds(
                #[trigger] pieces[k],
                sep,
            ) by {
                if k == 0 {
                    lemma_find(head, sep);
                    match find(head, sep) {
                        Some(j) => {
                            assert(head.subrange(j, j + sep.len()) =~= s.subrange(
                                j,
                                j + sep.len(),
                            ));
                            assert(!occurs_at(s, sep, j));
                        },
                        None => {},
                    }
                } else {
                    assert(pieces[k] == tail[k - 1]);
                }
            }
        },
        None => {},
    }
}

/// A line ends at its newline, or at the carriage return in front of that; what stands behind
/// the last newline is a line where it is anything at all, carriage return and all.
pub proof fn law_a_line_ends_at_its_newline(line: Seq<char>, rest: Seq<char>)
    requires
        !line.contains('\n'),
    ensures
        lines(line + seq!['\n'] + rest) == seq![
            if line.len() > 0 && line.last() == '\r' {
                line.drop_last()
            } else {
                line
            },
        ] + lines(rest),
        lines(line) == (if line.len() == 0 {
            seq![]
        } else {
            seq![line]
        }),
{
    lemma_split_none(line, '\n');
    lemma_split_first(line, '\n', rest);
    law_pieces_join_to_the_whole(rest, '\n');
    let whole = line + seq!['\n'] + rest;
    let tail = split(rest, '\n');
    let parts = split(whole, '\n');
    assert(parts == seq![line] + tail);
    assert(parts.drop_last() =~= seq![line] + tail.drop_last());
    assert(parts.last() == tail.last());
    assert(lines(whole) =~= seq![without_return(line)] + lines(rest));
    assert(seq![line].drop_last() =~= seq![]);
    assert(lines(line) =~= (if line.len() == 0 {
        seq![]
    } else {
        seq![line]
    }));
}

/// Only the capitals of ASCII become small, each the small letter it stands for, and only the
/// small letters of ASCII become capitals.
pub proof fn law_case_is_that_of_ascii_letters(s: Seq<char>, i: int)
    requires
        0 <= i < s.len(),
    ensures
        lower(s).len() == s.len() && upper(s).len() == s.len(),
        0x41 <= s[i] as u32 <= 0x5a ==> lower(s)[i] as u32 == s[i] as u32 + 0x20,
        !(0x41 <= s[i] as u32 <= 0x5a) ==> lower(s)[i] == s[i],
        0x61 <= s[i] as u32 <= 0x7a ==> upper(s)[i] as u32 == s[i] as u32 - 0x20,
        !(0x61 <= s[i] as u32 <= 0x7a) ==> upper(s)[i] == s[i],
{
}

/// What reads as a number: decimal digits, at least one, with at most one plus sign in front;
/// leading zeros say nothing, and what is past the largest number is none.
pub proof fn law_numbers_are_digits(s: Seq<char>, n: nat, max: nat)
    ensures
        parse_unsigned(s, max) matches Some(v) ==> v <= max && s.len() > 0 && (forall|i: int|
            0 <= i < s.len() ==> 0x30 <= (#[trigger] s[i]) as u32 <= 0x39 || i == 0 && s[i]
                == '+'),
        n <= max ==> parse_unsigned(decimal(n), max) == Some(n) && parse_unsigned(
            seq!['+'] + decimal(n),
            max,
        ) == Some(n) && parse_unsigned(seq!['0'] + decimal(n), max) == Some(n),
        n > max ==> parse_unsigned(decimal(n), max) is None,
        n <= 0x7fff_ffff ==> parse_signed(decimal(n)) == Some(n as int),
        n <= 0x8000_0000 ==> parse_signed(seq!['-'] + decimal(n)) == Some(-(n as int)),
{
    lemma_decimal_reads_back(n);
    let d = decimal(n);
    assert(is_digit(d[0]));
    assert((seq!['+'] + d).drop_first() =~= d);
    assert((seq!['-'] + d).drop_first() =~= d);
    let z = seq!['0'] + d;
    lemma_leading_zero(d);
    assert forall|i: int| 0 <= i < z.len() implies is_digit(#[trigger] z[i]) by {
        if i > 0 {
            assert(z[i] == d[i - 1]);
        }
    }
    assert(unsigned_part(z) == z);
    match parse_unsigned(s, max) {
        Some(v) => {
            assert forall|i: int| 0 <= i < s.len() implies 0x30 <= (#[trigger] s[i]) as u32 <= 0x39
                || i == 0 && s[i] == '+' by {
                if s[0] == '+' && i > 0 {
                    assert(unsigned_part(s)[i - 1] == s[i]);
                    assert(is_digit(unsigned_part(s)[i - 1]));
                } else if s[0] != '+' {
                    assert(is_digit(unsigned_part(s)[i]));
                }
            }
        },
        None => {},
    }
}

proof fn lemma_leading_zero(d: Seq<char>)
    ensures
        digits_value(seq!['0'] + d) == digits_value(d),
    decreases d.len(),
{
    let z = seq!['0'] + d;
    if d.len() == 0 {
        assert(z.drop_last() =~= seq![]);
        assert(z.last() == '0');
        reveal_with_fuel(digits_value, 2);
    } else {
        assert(z.drop_last() =~= seq!['0'] + d.drop_last());
        assert(z.last() == d.last());
        lemma_leading_zero(d.drop_last());
    }
}

/// Whether a text is a word: something, without white space in it.
pub open spec fn is_word(w: Seq<char>) -> bool {
    w.len() > 0 && forall|i: int| 0 <= i < w.len() ==> !is_white(#[trigger] w[i])
}

proof fn lemma_first_word(w: Seq<char>, rest: Seq<char>)
    requires
        forall|i: int| 0 <= i < w.len() ==> !is_white(#[trigger] w[i]),
        rest.len() > 0 ==> is_white(rest[0]),
    ensures
        first_word(w + rest) == w,
    decreases w.len(),
{
    let s = w + rest;
    if w.len() == 0 {
        assert(s =~= rest);
        assert(first_word(s) =~= w);
    } else {
        let v = w.drop_first();
        assert(!is_white(w[0]));
        assert forall|i: int| 0 <= i < v.len() implies !is_white(#[trigger] v[i]) by {
            assert(v[i] == w[i + 1]);
        }
        assert(s.drop_first() =~= v + rest);
        lemma_first_word(v, rest);
        assert(seq![w[0]] + v =~= w);
    }
}

/// The second word is the one behind the first, whatever white space stands around and
/// between them and whatever comes behind; of a single word there is none.
pub proof fn law_the_second_word_is_behind_the_first(
    first: Seq<char>,
    gap: Seq<char>,
    second: Seq<char>,
    rest: Seq<char>,
)
    requires
        is_word(first) && is_word(second),
        gap.len() > 0 && forall|i: int| 0 <= i < gap.len() ==> is_white(#[trigger] gap[i]),
        rest.len() > 0 ==> is_white(rest[0]),
    ensures
        second_word(first + (gap + (second + rest))) == second,
        second_word(first).len() == 0,
{
    let tail = gap + (second + rest);
    let s = first + tail;
    assert(!is_white(first[0]) && !is_white(second[0]) && is_white(gap[0]));
    assert(s[0] == first[0]);
    assert(trim_start(s) == s);
    assert(tail[0] == gap[0]);
    lemma_first_word(first, tail);
    assert(s.skip(first.len() as int) =~= tail);
    lemma_trimmed_gap(gap, second + rest);
    lemma_first_word(second, rest);
    assert(first + Seq::<char>::empty() =~= first);
    lemma_first_word(first, seq![]);
    assert(first.skip(first.len() as int) =~= seq![]);
}

proof fn lemma_trimmed_gap(gap: Seq<char>, s: Seq<char>)
    requires
        forall|i: int| 0 <= i < gap.len() ==> is_white(#[trigger] gap[i]),
        s.len() > 0 && !is_white(s[0]),
    ensures
        trim_start(gap + s) == s,
    decreases gap.len(),
{
    let all = gap + s;
    if gap.len() == 0 {
        assert(all =~= s);
    } else {
        let less = gap.drop_first();
        assert(is_white(gap[0]));
        assert forall|i: int| 0 <= i < less.len() implies is_white(#[trigger] less[i]) by {
            assert(less[i] == gap[i + 1]);
        }
        assert(all.drop_first() =~= less + s);
        lemma_trimmed_gap(less, s);
    }
}

/// Which of two texts comes first is decided where they first differ, and a text comes before
/// every longer one that begins with it.
pub proof fn law_the_first_difference_orders(
    common: Seq<char>,
    a: char,
    x: Seq<char>,
    b: char,
    y: Seq<char>,
)
    requires
        a != b,
    ensures
        precedes(common + (seq![a] + x), common + (seq![b] + y)) <==> (a as u32) < (b as u32),
        precedes(common, common + (seq![b] + y)),
    decreases common.len(),
{
    let s = common + (seq![a] + x);
    let t = common + (seq![b] + y);
    if common.len() == 0 {
        assert(s[0] == a && t[0] == b);
    } else {
        let less = common.drop_first();
        assert(s.drop_first() =~= less + (seq![a] + x));
        assert(t.drop_first() =~= less + (seq![b] + y));
        law_the_first_difference_orders(less, a, x, b, y);
    }
}

/// Every occurrence of one text is written as another, and nothing else changes: it is the
/// pieces between the occurrences with the other text between each two.
pub proof fn law_replacing_joins_the_pieces(s: Seq<char>, from: Seq<char>, to: Seq<char>)
    requires
        from.len() > 0,
    ensures
        replaced(s, from, to) == joined_by(split_on(s, from), to),
    decreases s.len(),
{
    lemma_find(s, from);
    match find(s, from) {
        Some(i) => {
            let rest = s.skip(i + from.len());
            law_replacing_joins_the_pieces(rest, from, to);
            law_pieces_on_join_to_the_whole(rest, from);
            let pieces = split_on(s, from);
            assert(pieces.drop_first() =~= split_on(rest, from));
        },
        None => {},
    }
}

/// A query with its pairs, each with an ampersand in front of the next.
pub open spec fn query_of(pairs: Seq<(Seq<char>, Seq<char>)>) -> Seq<char>
    decreases pairs.len(),
{
    if pairs.len() == 0 {
        seq![]
    } else if pairs.len() == 1 {
        pairs[0].0 + seq!['='] + pairs[0].1
    } else {
        pairs[0].0 + seq!['='] + pairs[0].1 + seq!['&'] + query_of(pairs.drop_first())
    }
}

/// Whether pairs can stand in a query.
pub open spec fn are_pairs(pairs: Seq<(Seq<char>, Seq<char>)>) -> bool {
    forall|i: int|
        0 <= i < pairs.len() ==> !(#[trigger] pairs[i]).0.contains('=') && !pairs[i].0.contains('&')
            && !pairs[i].1.contains('&')
}


/// The pieces of a query are its pairs, in order.
pub proof fn lemma_query_pieces(pairs: Seq<(Seq<char>, Seq<char>)>)
    requires
        pairs.len() > 0 && are_pairs(pairs),
    ensures
        split(query_of(pairs), '&').len() == pairs.len(),
        forall|i: int|
            0 <= i < pairs.len() ==> split_once(#[trigger] split(query_of(pairs), '&')[i], '=')
                == Some(pairs[i]),
    decreases pairs.len(),
{
    let (k, v) = pairs[0];
    let pair = k + seq!['='] + v;
    let pieces = split(query_of(pairs), '&');
    assert(!pair.contains('&')) by {
        if pair.contains('&') {
            let j = choose|j: int| 0 <= j < pair.len() && pair[j] == '&';
            if j < k.len() {
                assert(k[j] == '&');
            } else if j > k.len() {
                assert(v[j - k.len() - 1] == '&');
            }
        }
    }
    lemma_split_first(k, '=', v);
    assert(pair.take(k.len() as int) =~= k);
    assert(pair.skip(k.len() as int + 1) =~= v);
    assert(split_once(pair, '=') == Some((k, v)));
    if pairs.len() == 1 {
        lemma_split_none(pair, '&');
    } else {
        let more = pairs.drop_first();
        assert forall|j: int| 0 <= j < more.len() implies !(#[trigger] more[j]).0.contains('=')
            && !more[j].0.contains('&') && !more[j].1.contains('&') by {
            assert(more[j] == pairs[j + 1]);
        }
        lemma_split_first(pair, '&', query_of(more));
        let tail = split(query_of(more), '&');
        assert(pieces == seq![pair] + tail);
        lemma_query_pieces(more);
        assert forall|i: int| 0 <= i < pairs.len() implies split_once(#[trigger] pieces[i], '=')
            == Some(pairs[i]) by {
            if i > 0 {
                assert(pieces[i] == tail[i - 1]);
                assert(more[i - 1] == pairs[i]);
            }
        }
    }
}

/// A text begins, ends and is held where it stands, and nowhere else: what begins a whole is
/// its first part, what ends it is its last, and what it holds has something, or nothing, on
/// either side.
#[verifier::rlimit(40)]
pub proof fn law_a_part_stands_where_it_is<T>(a: Seq<T>, b: Seq<T>, c: Seq<T>, s: Seq<T>)
    ensures
        begins(a + b, a),
        ends(a + b, b),
        holds(a + b + c, b),
        begins(s, a) ==> a + s.skip(a.len() as int) == s && a.len() <= s.len(),
        ends(s, b) ==> s.take(s.len() - b.len()) + b == s && b.len() <= s.len(),
        holds(s, b) ==> exists|i: int|
            0 <= i && i + b.len() <= s.len() && #[trigger] s.subrange(i, i + b.len()) == b,
        after_prefix(a + b, a) == Some(b),
        after_prefix(s, a) matches Some(rest) ==> s == a + rest,
        after_prefix(s, a) is Some <==> begins(s, a),
{
    lemma_stands_at_its_end(a, b, s);
    lemma_stands_inside(a, b, c);
    lemma_find(s, b);
    if holds(s, b) {
        let i: int = find(s, b)->Some_0;
        assert(s.subrange(i, i + b.len()) == b);
    }
}

proof fn lemma_stands_inside<T>(a: Seq<T>, b: Seq<T>, c: Seq<T>)
    ensures
        holds(a + b + c, b),
{
    let whole = a + b + c;
    let at: int = a.len() as int;
    lemma_find(whole, b);
    assert(whole.subrange(at, at + b.len()) =~= b);
    assert(occurs_at(whole, b, at));
}

proof fn lemma_stands_at_its_end<T>(a: Seq<T>, b: Seq<T>, s: Seq<T>)
    ensures
        begins(a + b, a),
        ends(a + b, b),
        begins(s, a) ==> a + s.skip(a.len() as int) == s && a.len() <= s.len(),
        ends(s, b) ==> s.take(s.len() - b.len()) + b == s && b.len() <= s.len(),
        after_prefix(a + b, a) == Some(b),
        after_prefix(s, a) matches Some(rest) ==> s == a + rest,
        after_prefix(s, a) is Some <==> begins(s, a),
{
    assert((a + b).take(a.len() as int) =~= a);
    assert((a + b).skip(a.len() as int) =~= b);
    if begins(s, a) {
        assert(s.take(a.len() as int) + s.skip(a.len() as int) =~= s);
    }
    if ends(s, b) {
        assert(s.take(s.len() - b.len()) + s.skip(s.len() - b.len()) =~= s);
    }
}

/// A text is parted at the first of its separators: what stands in front of it has none, and
/// the three together are the text again; without one it is not parted, and all of it stands
/// in front.
#[verifier::rlimit(40)]
pub proof fn law_a_text_parts_at_the_first_separator<T>(a: Seq<T>, sep: T, b: Seq<T>, s: Seq<T>)
    requires
        !a.contains(sep),
    ensures
        split_once(a + seq![sep] + b, sep) == Some((a, b)),
        before(a + seq![sep] + b, sep) == a,
        split_once(a, sep) is None,
        before(a, sep) == a,
        split_once(s, sep) matches Some((p, q)) ==> !p.contains(sep) && s == p + seq![sep] + q,
        split_once(s, sep) is None ==> !s.contains(sep),
{
    let whole = a + seq![sep] + b;
    lemma_split_first(a, sep, b);
    lemma_split_none(a, sep);
    lemma_index_of(a, sep);
    lemma_index_of(s, sep);
    assert(whole.take(a.len() as int) =~= a);
    assert(whole.skip(a.len() as int + 1) =~= b);
    assert(a.take(a.len() as int) =~= a);
    match split_once(s, sep) {
        Some((p, q)) => {
            assert(s =~= p + seq![sep] + q);
        },
        None => {},
    }
}

/// Only what a text ends in, or begins with, is dropped, however often it stands there, and
/// none of it is left there.
pub proof fn law_only_the_ends_are_dropped(s: Seq<char>, x: char)
    ensures
        drop_trailing(s, x).len() == 0 || drop_trailing(s, x).last() != x,
        drop_trailing(s, x).len() <= s.len() && drop_trailing(s, x) == s.take(
            drop_trailing(s, x).len() as int,
        ),
        forall|i: int| drop_trailing(s, x).len() <= i < s.len() ==> #[trigger] s[i] == x,
        drop_leading(s, x).len() == 0 || drop_leading(s, x)[0] != x,
        drop_leading(s, x).len() <= s.len() && drop_leading(s, x) == s.skip(
            s.len() - drop_leading(s, x).len(),
        ),
        forall|i: int| 0 <= i < s.len() - drop_leading(s, x).len() ==> #[trigger] s[i] == x,
    decreases s.len(),
{
    assert(s.take(s.len() as int) =~= s);
    assert(s.skip(0) =~= s);
    if s.len() > 0 && s.last() == x {
        let less = s.drop_last();
        law_only_the_ends_are_dropped(less, x);
        let t = drop_trailing(s, x);
        assert(less.take(t.len() as int) =~= s.take(t.len() as int));
        assert forall|i: int| t.len() <= i < s.len() implies #[trigger] s[i] == x by {
            if i < less.len() {
                assert(less[i] == s[i]);
            }
        }
    }
    if s.len() > 0 && s[0] == x {
        let less = s.drop_first();
        law_only_the_ends_are_dropped(less, x);
        let t = drop_leading(s, x);
        assert(less.skip(less.len() - t.len()) =~= s.skip(s.len() - t.len()));
        assert forall|i: int| 0 <= i < s.len() - t.len() implies #[trigger] s[i] == x by {
            if i > 0 {
                assert(less[i - 1] == s[i]);
            }
        }
    }
}

/// Every digit more counts ten times what stood before it, and in hexadecimal sixteen times.
pub proof fn law_digits_count_by_their_place(s: Seq<char>, c: char, v: nat, max: nat)
    ensures
        parse_unsigned(s, max) == Some(v) && 0x30 <= c as u32 <= 0x39 ==> parse_unsigned(
            s.push(c),
            10 * v + 9,
        ) == Some((10 * v + (c as u32 - 0x30)) as nat),
        parse_hex(s, max) == Some(v) && 0x30 <= c as u32 <= 0x39 ==> parse_hex(
            s.push(c),
            16 * v + 15,
        ) == Some((16 * v + (c as u32 - 0x30)) as nat),
        parse_hex(s, max) == Some(v) && 0x61 <= c as u32 <= 0x66 ==> parse_hex(
            s.push(c),
            16 * v + 15,
        ) == Some((16 * v + (c as u32 - 0x57)) as nat),
        parse_hex(s, max) == Some(v) && 0x41 <= c as u32 <= 0x46 ==> parse_hex(
            s.push(c),
            16 * v + 15,
        ) == Some((16 * v + (c as u32 - 0x37)) as nat),
        parse_hex(s, max) matches Some(n) ==> n <= max,
{
    let longer = s.push(c);
    let (d, e) = (unsigned_part(s), unsigned_part(longer));
    if s.len() > 0 {
        assert(longer[0] == s[0]);
        assert(e =~= d.push(c));
        assert(e.drop_last() =~= d);
        if all_digits(d) && is_digit(c) {
            assert forall|i: int| 0 <= i < e.len() implies is_digit(#[trigger] e[i]) by {
                if i < d.len() {
                    assert(e[i] == d[i]);
                }
            }
        }
        if all_hex(d) && is_hex(c) {
            assert forall|i: int| 0 <= i < e.len() implies is_hex(#[trigger] e[i]) by {
                if i < d.len() {
                    assert(e[i] == d[i]);
                }
            }
        }
    }
}

/// A number is written in decimal without idle zeros, with a sign where it is negative, and a
/// byte with both of its hexadecimal digits; no two numbers are written alike.
pub proof fn law_a_number_is_written_one_way(n: int, m: int, b: u8, c: u8)
    ensures
        n >= 0 ==> signed_decimal(n) == decimal(n as nat),
        n < 0 ==> signed_decimal(n) == seq!['-'] + decimal((-n) as nat),
        signed_decimal(n) == signed_decimal(m) ==> n == m,
        hex_byte(b).len() == 4 && hex_byte(b)[0] == '0' && hex_byte(b)[1] == 'x',
        parse_hex(hex_byte(b).skip(2), 255) == Some(b as nat),
        hex_byte(b) == hex_byte(c) ==> b == c,
{
    let (x, y) = (signed_decimal(n), signed_decimal(m));
    lemma_decimal_reads_back(if n < 0 { (-n) as nat } else { n as nat });
    lemma_decimal_reads_back(if m < 0 { (-m) as nat } else { m as nat });
    if x == y {
        if n < 0 {
            assert(x[0] == '-');
            if m >= 0 {
                assert(is_digit(y[0]));
            } else {
                assert(x.drop_first() =~= decimal((-n) as nat));
                assert(y.drop_first() =~= decimal((-m) as nat));
            }
        } else if m < 0 {
            assert(y[0] == '-');
            assert(is_digit(x[0]));
        }
    }
    lemma_byte_reads_back(b);
    lemma_byte_reads_back(c);
}

proof fn lemma_byte_reads_back(b: u8)
    ensures
        parse_hex(hex_byte(b).skip(2), 255) == Some(b as nat),
{
    reveal_with_fuel(hex_value, 3);
    let s = hex_byte(b).skip(2);
    assert(s =~= seq![hex_char((b / 16) as nat), hex_char((b % 16) as nat)]);
    assert(s.drop_last() =~= seq![hex_char((b / 16) as nat)]);
    assert(s.drop_last().drop_last() =~= Seq::<char>::empty());
    assert(is_hex(s[0]) && is_hex(s[1]));
    assert(unsigned_part(s) == s);
    assert(hex_digit_value(s[0]) == (b / 16) as nat);
    assert(hex_digit_value(s[1]) == (b % 16) as nat);
}

/// A letter or a digit is one of ASCII's: it is a digit, or a letter in one case or the other.
pub proof fn law_letters_and_digits_are_those_of_ascii(c: char)
    ensures
        is_alnum(c) <==> 0x30 <= c as u32 <= 0x39 || lower_char(c) != upper_char(c),
        is_alnum(c) ==> !is_white(c),
{
}

/// A text of two parts begins with the first and ends with the second.
pub proof fn lemma_two_parts(a: Seq<char>, b: Seq<char>)
    ensures
        begins(a + b, a),
        ends(a + b, b),
{
    assert((a + b).take(a.len() as int) =~= a);
    assert((a + b).skip((a + b).len() - b.len()) =~= b);
}

} // verus!
