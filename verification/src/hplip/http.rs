//! One HTTP/1.1 exchange per connection: requests as bytes, and bytes as responses.
use vstd::prelude::*;
use vstd::slice::{slice_subrange, slice_to_vec};
use vstd::utf8::{decode_utf8, encode_utf8, valid_utf8};

use crate::hplip::walkup::{
    authority_of, find_header, header_of, header_views, Device, DeviceView, Request, RequestView,
    Response, ResponseView, TransportError, TransportErrorView, NO_CONTENT,
};
use crate::text;
use crate::text::{
    before, decimal, find, lower, parse_hex, parse_unsigned, quoted, same_ignoring_case, second_word,
    split, split_on, split_once, trim,
};

verus! {

/// How much of a response is held on to before giving up on it, in bytes.
pub const MAX_RESPONSE: usize = 262144;

// ------------------------------------------------------------------------------ requests

/// The request line and headers of a request.
pub open spec fn head_text(d: DeviceView, r: RequestView) -> Seq<char> {
    r.method.name() + " "@ + r.target + " HTTP/1.1\r\nHost: "@ + authority_of(d)
        + "\r\nUser-Agent: scanbus/0.1.0\r\nConnection: close\r\n"@ + match r.content_type {
        Some(t) => "Content-Type: "@ + t + "\r\n"@,
        None => seq![],
    } + if r.body.len() > 0 {
        "Content-Length: "@ + decimal(r.body.len()) + "\r\n"@
    } else {
        seq![]
    } + "\r\n"@
}

/// The request on the wire.
pub fn serialise(device: &Device, request: &Request) -> (r: Vec<u8>)
    ensures
        r@ == encode_utf8(head_text(device@, request@)) + request@.body,
{
    let mut head = request.method().as_str().to_owned();
    head.append(" ");
    head.append(request.target());
    head.append(" HTTP/1.1\r\nHost: ");
    head.append(device.authority().as_str());
    head.append("\r\nUser-Agent: scanbus/0.1.0\r\nConnection: close\r\n");
    let mut kind = String::new();
    match request.content_type() {
        Some(t) => {
            kind.append("Content-Type: ");
            kind.append(t);
            kind.append("\r\n");
        },
        None => {},
    }
    assert(kind@ =~= match request@.content_type {
        Some(t) => "Content-Type: "@ + t + "\r\n"@,
        None => seq![],
    });
    head.append(kind.as_str());
    let mut length = String::new();
    if request.body().len() > 0 {
        length.append("Content-Length: ");
        length.append(text::decimal_text(request.body().len() as u64).as_str());
        length.append("\r\n");
    }
    assert(length@ =~= if request@.body.len() > 0 {
        "Content-Length: "@ + decimal(request@.body.len()) + "\r\n"@
    } else {
        seq![]
    });
    head.append(length.as_str());
    head.append("\r\n");
    let mut bytes = slice_to_vec(head.as_str().as_bytes());
    let mut body = slice_to_vec(request.body());
    bytes.append(&mut body);
    bytes
}

// ------------------------------------------------------------------------------- framing

/// How the entity ends.
#[derive(Debug, Clone, Copy, PartialEq, Eq, Structural)]
pub enum Framing {
    /// After so many bytes.
    Length(usize),
    /// With its own zero chunk.
    Chunked,
    /// When the device closes.
    UntilClose,
}

/// Whether one of the codings between commas is `chunked`.
pub open spec fn names_chunked(codings: Seq<Seq<char>>) -> bool {
    exists|i: int|
        0 <= i < codings.len() && same_ignoring_case(trim(#[trigger] codings[i]), "chunked"@)
}

/// Which framing a response uses. A status that carries no entity is read first, and
/// `Transfer-Encoding` beats `Content-Length`.
pub open spec fn framing_of(status: u16, headers: Seq<(Seq<char>, Seq<char>)>) -> Result<
    Framing,
    TransportErrorView,
> {
    if status == NO_CONTENT || status == 304 || 100 <= status < 200 {
        Ok(Framing::Length(0))
    } else {
        match header_of(headers, "Transfer-Encoding"@) {
            Some(encoding) => if names_chunked(split(encoding, ',')) {
                Ok(Framing::Chunked)
            } else {
                Err(TransportErrorView::Malformed("Transfer-Encoding: "@ + encoding))
            },
            None => match header_of(headers, "Content-Length"@) {
                Some(length) => match parse_unsigned(trim(length), usize::MAX as nat) {
                    Some(n) => Ok(Framing::Length(n as usize)),
                    None => Err(TransportErrorView::Malformed("Content-Length: "@ + length)),
                },
                None => Ok(Framing::UntilClose),
            },
        }
    }
}

fn has_chunked(encoding: &str) -> (r: bool)
    ensures
        r == names_chunked(split(encoding@, ',')),
{
    let v = text::chars(encoding);
    let codings = text::pieces(v.as_slice(), ',');
    let ghost all = text::all_views(codings@);
    let mut i: usize = 0;
    while i < codings.len()
        invariant
            i <= codings@.len(),
            all == text::all_views(codings@),
            all == split(encoding@, ','),
            forall|j: int|
                0 <= j < i ==> !same_ignoring_case(trim(#[trigger] all[j]), "chunked"@),
        decreases codings@.len() - i,
    {
        let token = text::from_chars(text::trimmed(codings[i].as_slice()));
        assert(all[i as int] == codings@[i as int]@);
        if text::equal_ignoring_case(token.as_str(), "chunked") {
            return true;
        }
        i = i + 1;
    }
    false
}

/// Which framing a response uses.
pub fn framing(status: u16, headers: &Vec<(String, String)>) -> (r: Result<
    Framing,
    TransportError,
>)
    ensures
        match framing_of(status, header_views(headers@)) {
            Ok(f) => r == Ok::<Framing, TransportError>(f),
            Err(e) => r matches Err(x) && x@ == e,
        },
{
    if status == NO_CONTENT || status == 304 || (100 <= status && status < 200) {
        return Ok(Framing::Length(0));
    }
    match find_header(headers, "Transfer-Encoding") {
        Some(encoding) => {
            if has_chunked(encoding.as_str()) {
                return Ok(Framing::Chunked);
            }
            let mut out = "Transfer-Encoding: ".to_owned();
            out.append(encoding.as_str());
            Err(TransportError::Malformed(out))
        },
        None => match find_header(headers, "Content-Length") {
            Some(length) => {
                let trimmed = text::trim_text(length.as_str());
                match text::parse_number(trimmed.as_str(), usize::MAX as u64) {
                    Some(n) => Ok(Framing::Length(n as usize)),
                    None => {
                        let mut out = "Content-Length: ".to_owned();
                        out.append(length.as_str());
                        Err(TransportError::Malformed(out))
                    },
                }
            },
            None => Ok(Framing::UntilClose),
        },
    }
}

// ---------------------------------------------------------------------------------- head

/// Status line and headers, and where the entity starts.
pub struct HeadView {
    pub status: u16,
    pub headers: Seq<(Seq<char>, Seq<char>)>,
    pub body_start: int,
}

/// The end of a line, as bytes.
pub open spec fn crlf() -> Seq<u8> {
    encode_utf8("\r\n"@)
}

/// The end of the headers, as bytes.
pub open spec fn blank_line() -> Seq<u8> {
    encode_utf8("\r\n\r\n"@)
}

/// The headers on lines; a line without a colon is none.
pub open spec fn headers_of(lines: Seq<Seq<char>>) -> Seq<(Seq<char>, Seq<char>)>
    decreases lines.len(),
{
    if lines.len() == 0 {
        seq![]
    } else {
        let front = headers_of(lines.drop_last());
        match split_once(lines.last(), ':') {
            Some((name, value)) => front.push((trim(name), trim(value))),
            None => front,
        }
    }
}

/// The status line and headers that lines say.
pub open spec fn head_on(lines: Seq<Seq<char>>, end: int) -> Result<HeadView, TransportErrorView> {
    match parse_unsigned(second_word(lines[0]), u16::MAX as nat) {
        Some(n) => Ok(
            HeadView {
                status: n as u16,
                headers: headers_of(lines.drop_first()),
                body_start: end + 4,
            },
        ),
        None => Err(TransportErrorView::Malformed("status line "@ + quoted(lines[0]))),
    }
}

/// Status line and headers, once all of them are there.
pub open spec fn head_of(buffer: Seq<u8>) -> Result<Option<HeadView>, TransportErrorView> {
    match find(buffer, blank_line()) {
        None => Ok(None),
        Some(end) => if !valid_utf8(buffer.take(end)) {
            Err(TransportErrorView::Malformed("headers that are not text"@))
        } else {
            match head_on(split_on(decode_utf8(buffer.take(end)), "\r\n"@), end) {
                Ok(h) => Ok(Some(h)),
                Err(e) => Err(e),
            }
        },
    }
}

/// The ends of a line and of the headers.
pub proof fn lemma_line_ends()
    ensures
        blank_line().len() == 4,
        crlf() =~= seq![0x0du8, 0x0a],
        "\r\n"@.len() == 2,
{
    reveal_strlit("\r\n\r\n");
    reveal_strlit("\r\n");
    assert(vstd::utf8::is_ascii_chars("\r\n\r\n"@));
    assert(vstd::utf8::is_ascii_chars("\r\n"@));
    vstd::utf8::is_ascii_chars_encode_utf8("\r\n\r\n"@);
    vstd::utf8::is_ascii_chars_encode_utf8("\r\n"@);
}

fn parse_headers(lines: &Vec<Vec<char>>) -> (r: Vec<(String, String)>)
    requires
        lines@.len() >= 1,
    ensures
        header_views(r@) == headers_of(text::all_views(lines@).drop_first()),
{
    let ghost all = text::all_views(lines@).drop_first();
    let mut out: Vec<(String, String)> = Vec::new();
    let mut i: usize = 1;
    assert(all.take(0) =~= Seq::<Seq<char>>::empty());
    assert(header_views(out@) =~= seq![]);
    while i < lines.len()
        invariant
            1 <= i <= lines@.len(),
            all == text::all_views(lines@).drop_first(),
            header_views(out@) == headers_of(all.take(i - 1)),
        decreases lines@.len() - i,
    {
        let ghost before = out@;
        proof {
            assert(all.take(i as int).last() == lines@[i as int]@);
            assert(all.take(i as int).drop_last() =~= all.take(i - 1));
        }
        match text::halves(lines[i].as_slice(), ':') {
            Some((name, value)) => {
                let n = text::from_chars(text::trimmed(name));
                let v = text::from_chars(text::trimmed(value));
                out.push((n, v));
                assert(header_views(out@) =~= header_views(before).push(
                    (trim(name@), trim(value@)),
                ));
            },
            None => {},
        }
        i = i + 1;
    }
    assert(all.take(i - 1) =~= all);
    out
}

/// Status line and headers, once all of them are there.
struct Head {
    status: u16,
    headers: Vec<(String, String)>,
    body_start: usize,
}

fn head(buffer: &[u8]) -> (r: Result<Option<Head>, TransportError>)
    ensures
        match head_of(buffer@) {
            Ok(Some(h)) => r matches Ok(Some(x)) && x.status == h.status && header_views(
                x.headers@,
            ) == h.headers && x.body_start == h.body_start && h.body_start <= buffer@.len(),
            Ok(None) => r matches Ok(None),
            Err(e) => r matches Err(x) && x@ == e,
        },
{
    proof {
        lemma_line_ends();
    }
    let end: usize = match text::find_bytes(buffer, "\r\n\r\n".as_bytes()) {
        Some(i) => i,
        None => {
            return Ok(None);
        },
    };
    let total: usize = buffer.len();
    let part = slice_subrange(buffer, 0, end);
    assert(part@ =~= buffer@.take(end as int));
    let words = match text::utf8_text(part) {
        Ok(s) => s,
        Err(_) => {
            return Err(TransportError::Malformed("headers that are not text".to_owned()));
        },
    };
    let v = text::chars(words);
    let sep = text::chars("\r\n");
    let lines = text::pieces_on(v.as_slice(), sep.as_slice());
    let ghost all = text::all_views(lines@);
    assert(all[0] == lines@[0]@);
    let code = text::word_after_first(lines[0].as_slice());
    match text::number(code.as_slice(), 0xffff) {
        Some(n) => {
            let headers = parse_headers(&lines);
            Ok(Some(Head { status: n as u16, headers, body_start: end + 4 }))
        },
        None => {
            let mut out = "status line ".to_owned();
            out.append(text::quote(text::from_chars(lines[0].as_slice()).as_str()).as_str());
            Err(TransportError::Malformed(out))
        },
    }
}

// -------------------------------------------------------------------------------- chunks

/// The size that a chunk's first line says; extensions are passed over.
pub open spec fn chunk_size(line: Seq<u8>) -> Option<nat> {
    if valid_utf8(line) {
        parse_hex(trim(before(decode_utf8(line), ';')), usize::MAX as nat)
    } else {
        None
    }
}

/// A chunked entity behind what has been read of it, `None` while its zero chunk has not
/// arrived.
pub open spec fn dechunk_from(rest: Seq<u8>, entity: Seq<u8>) -> Result<
    Option<Seq<u8>>,
    TransportErrorView,
>
    decreases rest.len(),
{
    proof {
        lemma_line_ends();
        text::lemma_find(rest, crlf());
    }
    match find(rest, crlf()) {
        None => Ok(None),
        Some(end) => match chunk_size(rest.take(end)) {
            None => Err(TransportErrorView::Malformed("a chunk size that is not hexadecimal"@)),
            Some(size) => {
                let tail = rest.skip(end + 2);
                if size == 0 {
                    Ok(Some(entity))
                } else if tail.len() < size + 2 {
                    Ok(None)
                } else {
                    dechunk_from(tail.skip(size as int + 2), entity + tail.take(size as int))
                }
            },
        },
    }
}

/// A chunked entity, `None` while its zero chunk has not arrived.
pub open spec fn dechunk_of(body: Seq<u8>) -> Result<Option<Seq<u8>>, TransportErrorView> {
    dechunk_from(body, seq![])
}

fn size_of_chunk(line: &[u8]) -> (r: Option<usize>)
    ensures
        match r {
            Some(n) => chunk_size(line@) == Some(n as nat),
            None => chunk_size(line@) is None,
        },
{
    match text::utf8_text(line) {
        Err(_) => None,
        Ok(s) => {
            let v = text::chars(s);
            let end: usize = text::position(v.as_slice(), ';');
            let size = slice_subrange(v.as_slice(), 0, end);
            assert(size@ =~= v@.take(end as int));
            match text::hex_number(text::trimmed(size), usize::MAX as u64) {
                Some(n) => Some(n as usize),
                None => None,
            }
        },
    }
}

/// A chunked entity, or `None` while its terminating zero chunk has not arrived.
pub fn dechunk(body: &[u8]) -> (r: Result<Option<Vec<u8>>, TransportError>)
    ensures
        match dechunk_of(body@) {
            Ok(Some(entity)) => r matches Ok(Some(x)) && x@ == entity,
            Ok(None) => r matches Ok(None),
            Err(e) => r matches Err(x) && x@ == e,
        },
{
    proof {
        lemma_line_ends();
    }
    let mut rest = body;
    let mut entity: Vec<u8> = Vec::new();
    assert(entity@ =~= seq![]);
    loop
        invariant
            crlf().len() == 2,
            dechunk_of(body@) == dechunk_from(rest@, entity@),
        decreases rest@.len(),
    {
        proof {
            text::lemma_find(rest@, crlf());
        }
        let total: usize = rest.len();
        let end: usize = match text::find_bytes(rest, "\r\n".as_bytes()) {
            Some(i) => i,
            None => {
                return Ok(None);
            },
        };
        let line = slice_subrange(rest, 0, end);
        assert(line@ =~= rest@.take(end as int));
        let size: usize = match size_of_chunk(line) {
            Some(n) => n,
            None => {
                return Err(
                    TransportError::Malformed("a chunk size that is not hexadecimal".to_owned()),
                );
            },
        };
        let tail = slice_subrange(rest, end + 2, total);
        assert(tail@ =~= rest@.skip(end + 2));
        if size == 0 {
            return Ok(Some(entity));
        }
        if tail.len() < 2 || tail.len() - 2 < size {
            return Ok(None);
        }
        let left: usize = tail.len();
        let data = slice_subrange(tail, 0, size);
        let next = slice_subrange(tail, size + 2, left);
        assert(data@ =~= tail@.take(size as int));
        assert(next@ =~= tail@.skip(size + 2));
        let mut copy = slice_to_vec(data);
        entity.append(&mut copy);
        rest = next;
    }
}

// ----------------------------------------------------------------------------- responses

/// The response if all of it is there, `None` while it is not.
pub open spec fn complete_of(buffer: Seq<u8>) -> Result<Option<ResponseView>, TransportErrorView> {
    match head_of(buffer) {
        Err(e) => Err(e),
        Ok(None) => Ok(None),
        Ok(Some(h)) => {
            let body = buffer.skip(h.body_start);
            match framing_of(h.status, h.headers) {
                Err(e) => Err(e),
                Ok(Framing::Length(n)) => if body.len() < n {
                    Ok(None)
                } else {
                    Ok(
                        Some(
                            ResponseView {
                                status: h.status,
                                headers: h.headers,
                                body: body.take(n as int),
                            },
                        ),
                    )
                },
                Ok(Framing::Chunked) => match dechunk_of(body) {
                    Err(e) => Err(e),
                    Ok(None) => Ok(None),
                    Ok(Some(entity)) => Ok(
                        Some(ResponseView { status: h.status, headers: h.headers, body: entity }),
                    ),
                },
                Ok(Framing::UntilClose) => Ok(None),
            }
        },
    }
}

/// The response that a device meant by closing the connection: a close is the end of an
/// entity that declared no length, and a truncation of one that did.
pub open spec fn closed_of(buffer: Seq<u8>) -> Result<ResponseView, TransportErrorView> {
    match head_of(buffer) {
        Err(e) => Err(e),
        Ok(None) => Err(
            TransportErrorView::Malformed(
                if buffer.len() == 0 {
                    "the connection closed with no answer at all"@
                } else {
                    "the connection closed part-way through the headers"@
                },
            ),
        ),
        Ok(Some(h)) => {
            let body = buffer.skip(h.body_start);
            match framing_of(h.status, h.headers) {
                Err(e) => Err(e),
                Ok(Framing::Length(n)) => if body.len() < n {
                    Err(
                        TransportErrorView::Malformed(
                            decimal(body.len()) + " bytes of a "@ + decimal(n as nat)
                                + "-byte entity"@,
                        ),
                    )
                } else {
                    Ok(
                        ResponseView {
                            status: h.status,
                            headers: h.headers,
                            body: body.take(n as int),
                        },
                    )
                },
                Ok(Framing::Chunked) => match dechunk_of(body) {
                    Err(e) => Err(e),
                    Ok(None) => Err(
                        TransportErrorView::Malformed("an unterminated chunked entity"@),
                    ),
                    Ok(Some(entity)) => Ok(
                        ResponseView { status: h.status, headers: h.headers, body: entity },
                    ),
                },
                Ok(Framing::UntilClose) => Ok(
                    ResponseView { status: h.status, headers: h.headers, body },
                ),
            }
        },
    }
}

/// The response if `buffer` already holds all of it, `None` while it does not.
pub fn complete_response(buffer: &[u8]) -> (r: Result<Option<Response>, TransportError>)
    ensures
        match complete_of(buffer@) {
            Ok(Some(v)) => r matches Ok(Some(x)) && x@ == v,
            Ok(None) => r matches Ok(None),
            Err(e) => r matches Err(x) && x@ == e,
        },
{
    let h = match head(buffer) {
        Err(e) => {
            return Err(e);
        },
        Ok(None) => {
            return Ok(None);
        },
        Ok(Some(h)) => h,
    };
    let body = slice_subrange(buffer, h.body_start, buffer.len());
    assert(body@ =~= buffer@.skip(h.body_start as int));
    match framing(h.status, &h.headers) {
        Err(e) => Err(e),
        Ok(Framing::Length(n)) => {
            if body.len() < n {
                return Ok(None);
            }
            let entity = slice_subrange(body, 0, n);
            assert(entity@ =~= body@.take(n as int));
            Ok(Some(Response::new(h.status, h.headers, slice_to_vec(entity))))
        },
        Ok(Framing::Chunked) => match dechunk(body) {
            Err(e) => Err(e),
            Ok(None) => Ok(None),
            Ok(Some(entity)) => Ok(Some(Response::new(h.status, h.headers, entity))),
        },
        Ok(Framing::UntilClose) => Ok(None),
    }
}

/// The response the device meant by closing the connection.
pub fn response_at_eof(buffer: &[u8]) -> (r: Result<Response, TransportError>)
    ensures
        match closed_of(buffer@) {
            Ok(v) => r matches Ok(x) && x@ == v,
            Err(e) => r matches Err(x) && x@ == e,
        },
{
    let h = match head(buffer) {
        Err(e) => {
            return Err(e);
        },
        Ok(None) => {
            return Err(
                TransportError::Malformed(
                    if buffer.len() == 0 {
                        "the connection closed with no answer at all".to_owned()
                    } else {
                        "the connection closed part-way through the headers".to_owned()
                    },
                ),
            );
        },
        Ok(Some(h)) => h,
    };
    let body = slice_subrange(buffer, h.body_start, buffer.len());
    assert(body@ =~= buffer@.skip(h.body_start as int));
    match framing(h.status, &h.headers) {
        Err(e) => Err(e),
        Ok(Framing::Length(n)) => {
            if body.len() < n {
                let mut out = text::decimal_text(body.len() as u64);
                out.append(" bytes of a ");
                out.append(text::decimal_text(n as u64).as_str());
                out.append("-byte entity");
                return Err(TransportError::Malformed(out));
            }
            let entity = slice_subrange(body, 0, n);
            assert(entity@ =~= body@.take(n as int));
            Ok(Response::new(h.status, h.headers, slice_to_vec(entity)))
        },
        Ok(Framing::Chunked) => match dechunk(body) {
            Err(e) => Err(e),
            Ok(None) => Err(
                TransportError::Malformed("an unterminated chunked entity".to_owned()),
            ),
            Ok(Some(entity)) => Ok(Response::new(h.status, h.headers, entity)),
        },
        Ok(Framing::UntilClose) => Ok(Response::new(h.status, h.headers, slice_to_vec(body))),
    }
}

/// Takes what arrived behind what is held, unless that is more than is held on to.
pub fn take_chunk(buffer: &mut Vec<u8>, chunk: &[u8]) -> (r: Result<(), TransportError>)
    ensures
        if old(buffer)@.len() + chunk@.len() > MAX_RESPONSE {
            &&& r matches Err(e)
            &&& e@ == TransportErrorView::Malformed("more than 262144 bytes"@)
            &&& final(buffer)@ == old(buffer)@
        } else {
            r is Ok && final(buffer)@ == old(buffer)@ + chunk@
        },
{
    if buffer.len() > MAX_RESPONSE || chunk.len() > MAX_RESPONSE - buffer.len() {
        return Err(TransportError::Malformed("more than 262144 bytes".to_owned()));
    }
    let mut copy = slice_to_vec(chunk);
    buffer.append(&mut copy);
    Ok(())
}

// ---------------------------------------------------------------------------------- laws

/// A response that is complete stays the same when the device then closes.
pub proof fn law_closing_changes_no_complete_response(buffer: Seq<u8>)
    requires
        complete_of(buffer) matches Ok(Some(_)),
    ensures
        closed_of(buffer) == Ok::<ResponseView, TransportErrorView>(
            complete_of(buffer)->Ok_0->Some_0,
        ),
{
}

/// A status that carries no entity is not waited out: once its headers are there the
/// response is complete, with nothing in it.
pub proof fn law_no_entity_is_not_waited_for(buffer: Seq<u8>)
    requires
        head_of(buffer) matches Ok(Some(h)) && (h.status == NO_CONTENT || h.status == 304 || 100
            <= h.status < 200),
    ensures
        complete_of(buffer) matches Ok(Some(r)) && r.status == (head_of(
            buffer,
        )->Ok_0->Some_0).status && r.body.len() == 0,
{
}

proof fn lemma_find_more(s: Seq<u8>, more: Seq<u8>, needle: Seq<u8>)
    requires
        find(s, needle) is Some,
    ensures
        find(s + more, needle) == find(s, needle),
{
    text::lemma_find(s, needle);
    let i = find(s, needle)->Some_0;
    let n = needle.len() as int;
    let longer = s + more;
    assert(longer.subrange(i, i + n) =~= s.subrange(i, i + n));
    assert forall|j: int| 0 <= j < i implies !text::occurs_at(longer, needle, j) by {
        assert(longer.subrange(j, j + n) =~= s.subrange(j, j + n));
        assert(!text::occurs_at(s, needle, j));
    }
    text::lemma_find_is(longer, needle, i);
}

proof fn lemma_dechunk_more(rest: Seq<u8>, more: Seq<u8>, entity: Seq<u8>)
    requires
        dechunk_from(rest, entity) != Ok::<Option<Seq<u8>>, TransportErrorView>(None),
    ensures
        dechunk_from(rest + more, entity) == dechunk_from(rest, entity),
    decreases rest.len(),
{
    lemma_line_ends();
    text::lemma_find(rest, crlf());
    lemma_find_more(rest, more, crlf());
    let end = find(rest, crlf())->Some_0;
    let longer = rest + more;
    assert(longer.take(end) =~= rest.take(end));
    match chunk_size(rest.take(end)) {
        None => {},
        Some(size) => {
            let tail = rest.skip(end + 2);
            assert(longer.skip(end + 2) =~= tail + more);
            if size > 0 {
                assert((tail + more).take(size as int) =~= tail.take(size as int));
                assert((tail + more).skip(size as int + 2) =~= tail.skip(size as int + 2) + more);
                lemma_dechunk_more(
                    tail.skip(size as int + 2),
                    more,
                    entity + tail.take(size as int),
                );
            }
        },
    }
}

/// How the bytes of a response arrive does not matter: once it is complete, or is seen to be
/// none, more bytes behind it change nothing.
pub proof fn law_more_bytes_change_no_decision(buffer: Seq<u8>, more: Seq<u8>)
    requires
        complete_of(buffer) != Ok::<Option<ResponseView>, TransportErrorView>(None),
    ensures
        complete_of(buffer + more) == complete_of(buffer),
{
    let longer = buffer + more;
    lemma_line_ends();
    text::lemma_find(buffer, blank_line());
    lemma_find_more(buffer, more, blank_line());
    let end = find(buffer, blank_line())->Some_0;
    assert(longer.take(end) =~= buffer.take(end));
    match head_of(buffer) {
        Ok(Some(h)) => {
            let body = buffer.skip(h.body_start);
            assert(longer.skip(h.body_start) =~= body + more);
            match framing_of(h.status, h.headers) {
                Ok(Framing::Length(n)) => {
                    assert((body + more).take(n as int) =~= body.take(n as int));
                },
                Ok(Framing::Chunked) => {
                    lemma_dechunk_more(body, more, seq![]);
                },
                _ => {},
            }
        },
        _ => {},
    }
}

/// An entity sent in chunks.
pub open spec fn chunked(parts: Seq<Seq<u8>>) -> Seq<u8>
    decreases parts.len(),
{
    if parts.len() == 0 {
        encode_utf8(text::hexadecimal(0)) + crlf() + crlf()
    } else {
        encode_utf8(text::hexadecimal(parts[0].len())) + crlf() + parts[0] + crlf() + chunked(
            parts.drop_first(),
        )
    }
}

/// Parts one after the other.
pub open spec fn joined(parts: Seq<Seq<u8>>) -> Seq<u8>
    decreases parts.len(),
{
    if parts.len() == 0 {
        seq![]
    } else {
        parts[0] + joined(parts.drop_first())
    }
}

proof fn lemma_size_line(n: nat, rest: Seq<u8>)
    requires
        n <= usize::MAX,
    ensures
        ({
            let line = encode_utf8(text::hexadecimal(n));
            &&& find(line + crlf() + rest, crlf()) == Some(line.len() as int)
            &&& chunk_size(line) == Some(n)
            &&& (line + crlf() + rest).take(line.len() as int) == line
            &&& (line + crlf() + rest).skip(line.len() as int + 2) == rest
        }),
{
    let hex = text::hexadecimal(n);
    let line = encode_utf8(hex);
    let s = line + crlf() + rest;
    lemma_line_ends();
    text::lemma_hexadecimal_reads_back(n);
    assert forall|i: int| 0 <= i < hex.len() implies '\0' <= #[trigger] hex[i] <= '\u{7f}' by {
        let c: char = hex[i];
        assert(text::is_hex(c));
        let u: u32 = c as u32;
        vstd::utf8::char_u32_cast(c, u);
    }
    vstd::utf8::is_ascii_chars_encode_utf8(hex);
    vstd::utf8::encode_utf8_valid_utf8(hex);
    vstd::utf8::encode_utf8_decode_utf8(hex);
    assert forall|j: int| 0 <= j < line.len() implies line[j] != 0x0d by {
        assert(text::is_hex(hex[j]));
        assert(line[j] == hex[j] as u8);
    }
    assert(s.subrange(line.len() as int, line.len() as int + 2) =~= crlf());
    assert forall|j: int| 0 <= j < line.len() implies !text::occurs_at(s, crlf(), j) by {
        if text::occurs_at(s, crlf(), j) {
            assert(s.subrange(j, j + 2)[0] == line[j]);
        }
    }
    text::lemma_find_is(s, crlf(), line.len() as int);
    assert(!hex.contains(';')) by {
        if hex.contains(';') {
            let j = hex.index_of(';');
            assert(text::is_hex(hex[j]));
        }
    }
    text::lemma_split_none(hex, ';');
    assert(before(hex, ';') =~= hex);
    assert(text::is_hex(hex[0]));
    assert(text::is_hex(hex[hex.len() - 1]));
    text::lemma_trim_nothing(hex);
    assert(s.take(line.len() as int) =~= line);
    assert(s.skip(line.len() as int + 2) =~= rest);
}

proof fn lemma_chunks_read(parts: Seq<Seq<u8>>, after: Seq<u8>, entity: Seq<u8>)
    requires
        forall|i: int| 0 <= i < parts.len() ==> 0 < (#[trigger] parts[i]).len() <= usize::MAX,
    ensures
        dechunk_from(chunked(parts) + after, entity) == Ok::<Option<Seq<u8>>, TransportErrorView>(
            Some(entity + joined(parts)),
        ),
    decreases parts.len(),
{
    lemma_line_ends();
    if parts.len() == 0 {
        let rest = crlf() + after;
        assert(chunked(parts) + after =~= encode_utf8(text::hexadecimal(0)) + crlf() + rest);
        lemma_size_line(0, rest);
        assert(entity + joined(parts) =~= entity);
    } else {
        let first = parts[0];
        let more = parts.drop_first();
        assert(0 < parts[0].len());
        let rest = first + crlf() + (chunked(more) + after);
        let n = first.len();
        assert(chunked(parts) + after =~= encode_utf8(text::hexadecimal(n)) + crlf() + rest);
        lemma_size_line(n, rest);
        assert(rest.take(n as int) =~= first);
        assert(rest.skip(n as int + 2) =~= chunked(more) + after);
        assert forall|i: int| 0 <= i < more.len() implies 0 < (#[trigger] more[i]).len()
            <= usize::MAX by {
            assert(more[i] == parts[i + 1]);
        }
        lemma_chunks_read(more, after, entity + first);
        assert(entity + first + joined(more) =~= entity + joined(parts));
    }
}

/// An entity sent in chunks, in whatever pieces, is put together again; what follows its
/// zero chunk is not looked at.
pub proof fn law_chunks_are_reassembled(parts: Seq<Seq<u8>>, after: Seq<u8>)
    requires
        forall|i: int| 0 <= i < parts.len() ==> 0 < (#[trigger] parts[i]).len() <= usize::MAX,
    ensures
        dechunk_of(chunked(parts) + after) == Ok::<Option<Seq<u8>>, TransportErrorView>(
            Some(joined(parts)),
        ),
{
    lemma_chunks_read(parts, after, seq![]);
    assert(Seq::<u8>::empty() + joined(parts) =~= joined(parts));
}

/// Whether a text can stand on a line of a response's head.
pub open spec fn is_line_text(s: Seq<char>) -> bool {
    vstd::utf8::is_ascii_chars(s) && forall|i: int| 0 <= i < s.len() ==> #[trigger] s[i] != '\r'
}

/// The lines of a response's head: version, status and reason, and then the headers.
pub open spec fn head_lines(
    version: Seq<char>,
    status: u16,
    reason: Seq<char>,
    headers: Seq<(Seq<char>, Seq<char>)>,
) -> Seq<Seq<char>> {
    seq![version + seq![' '] + decimal(status as nat) + reason] + headers.map_values(
        |h: (Seq<char>, Seq<char>)| h.0 + seq![':'] + h.1,
    )
}

/// A response on the wire: its lines, a blank one, and what follows.
pub open spec fn response_bytes(lines: Seq<Seq<char>>, rest: Seq<u8>) -> Seq<u8> {
    encode_utf8(text::joined_by(lines, "\r\n"@)) + encode_utf8("\r\n\r\n"@) + rest
}

proof fn lemma_lines_joined(lines: Seq<Seq<char>>)
    requires
        lines.len() > 0,
        forall|i: int|
            0 <= i < lines.len() ==> (#[trigger] lines[i]).len() > 0 && is_line_text(lines[i]),
    ensures
        ({
            let all = text::joined_by(lines, "\r\n"@);
            &&& split_on(all, "\r\n"@) == lines
            &&& vstd::utf8::is_ascii_chars(all)
            &&& all.len() > 0 && all[0] != '\r'
            &&& forall|j: int|
                0 <= j < all.len() && #[trigger] all[j] == '\r' ==> j + 2 < all.len() && all[j + 2]
                    != '\r'
        }),
    decreases lines.len(),
{
    reveal_strlit("\r\n");
    let sep = "\r\n"@;
    let all = text::joined_by(lines, sep);
    let first = lines[0];
    assert(first.len() > 0 && is_line_text(first));
    assert(first[0] != '\r');
    text::lemma_find(all, sep);
    if lines.len() == 1 {
        if find(all, sep) is Some {
            let i = find(all, sep)->Some_0;
            assert(all.subrange(i, i + 2)[0] == all[i]);
        }
        assert(split_on(all, sep) =~= lines);
    } else {
        let more = lines.drop_first();
        assert forall|i: int| 0 <= i < more.len() implies (#[trigger] more[i]).len() > 0
            && is_line_text(more[i]) by {
            assert(more[i] == lines[i + 1]);
        }
        lemma_lines_joined(more);
        let tail = text::joined_by(more, sep);
        let k = first.len() as int;
        assert(all =~= first + sep + tail);
        assert(all.subrange(k, k + 2) =~= sep);
        assert forall|j: int| 0 <= j < k implies !text::occurs_at(all, sep, j) by {
            if text::occurs_at(all, sep, j) {
                assert(all.subrange(j, j + 2)[0] == all[j]);
                assert(all[j] == first[j]);
            }
        }
        text::lemma_find_is(all, sep, k);
        assert(all.take(k) =~= first);
        assert(all.skip(k + 2) =~= tail);
        assert(split_on(all, sep) =~= lines);
        assert forall|j: int| 0 <= j < all.len() && #[trigger] all[j] == '\r' implies j + 2
            < all.len() && all[j + 2] != '\r' by {
            if j < k {
                assert(all[j] == first[j]);
            } else if j == k {
                assert(all[j + 2] == tail[0]);
            } else if j >= k + 2 {
                assert(all[j] == tail[j - k - 2]);
                assert(all[j + 2] == tail[j - k]);
            }
        }
        assert forall|j: int| 0 <= j < all.len() implies '\0' <= #[trigger] all[j] <= '\u{7f}' by {
            if j < k {
                assert(all[j] == first[j]);
            } else if j >= k + 2 {
                assert(all[j] == tail[j - k - 2]);
            }
        }
    }
}

#[verifier::rlimit(40)]
proof fn lemma_head_ends(lines: Seq<Seq<char>>, rest: Seq<u8>)
    requires
        lines.len() > 0,
        forall|i: int|
            0 <= i < lines.len() ==> (#[trigger] lines[i]).len() > 0 && is_line_text(lines[i]),
    ensures
        ({
            let head = encode_utf8(text::joined_by(lines, "\r\n"@));
            let buffer = response_bytes(lines, rest);
            &&& find(buffer, blank_line()) == Some(head.len() as int)
            &&& buffer.take(head.len() as int) == head
            &&& buffer.skip(head.len() as int + 4) == rest
            &&& valid_utf8(head)
            &&& split_on(decode_utf8(head), "\r\n"@) == lines
        }),
{
    reveal_strlit("\r\n\r\n");
    let all = text::joined_by(lines, "\r\n"@);
    let head = encode_utf8(all);
    let buffer = response_bytes(lines, rest);
    let n = head.len() as int;
    lemma_line_ends();
    lemma_lines_joined(lines);
    assert(vstd::utf8::is_ascii_chars("\r\n\r\n"@));
    vstd::utf8::is_ascii_chars_encode_utf8("\r\n\r\n"@);
    vstd::utf8::is_ascii_chars_encode_utf8(all);
    vstd::utf8::encode_utf8_valid_utf8(all);
    vstd::utf8::encode_utf8_decode_utf8(all);
    assert(blank_line() =~= seq![0x0du8, 0x0a, 0x0d, 0x0a]) by {
        assert("\r\n\r\n"@[0] == '\r' && "\r\n\r\n"@[1] == '\n' && "\r\n\r\n"@[2] == '\r'
            && "\r\n\r\n"@[3] == '\n');
    }
    assert(buffer.subrange(n, n + 4) =~= blank_line());
    assert forall|j: int| 0 <= j < n implies !text::occurs_at(buffer, blank_line(), j) by {
        if text::occurs_at(buffer, blank_line(), j) {
            let here = buffer.subrange(j, j + 4);
            assert(here[0] == buffer[j] && here[2] == buffer[j + 2]);
            assert(buffer[j] == head[j]);
            let c: char = all[j];
            assert(c as u8 == 0x0d);
            let u: u32 = c as u32;
            vstd::utf8::char_u32_cast(c, u);
            assert(c == '\r');
            assert(all[j] == '\r');
            assert(buffer[j + 2] == head[j + 2]);
            let d: char = all[j + 2];
            assert(d as u8 == 0x0d);
            let v: u32 = d as u32;
            vstd::utf8::char_u32_cast(d, v);
            assert(d == '\r');
        }
    }
    text::lemma_find_is(buffer, blank_line(), n);
    assert(buffer.take(n) =~= head);
    assert(buffer.skip(n + 4) =~= rest);
}

proof fn lemma_headers_on_lines(headers: Seq<(Seq<char>, Seq<char>)>)
    requires
        forall|i: int| 0 <= i < headers.len() ==> !(#[trigger] headers[i]).0.contains(':'),
    ensures
        headers_of(
            headers.map_values(|h: (Seq<char>, Seq<char>)| h.0 + seq![':'] + h.1),
        ) == headers.map_values(|h: (Seq<char>, Seq<char>)| (trim(h.0), trim(h.1))),
    decreases headers.len(),
{
    let written = |h: (Seq<char>, Seq<char>)| h.0 + seq![':'] + h.1;
    let read = |h: (Seq<char>, Seq<char>)| (trim(h.0), trim(h.1));
    let lines = headers.map_values(written);
    if headers.len() > 0 {
        let less = headers.drop_last();
        assert forall|i: int| 0 <= i < less.len() implies !(#[trigger] less[i]).0.contains(
            ':',
        ) by {
            assert(less[i] == headers[i]);
        }
        lemma_headers_on_lines(less);
        assert(lines.drop_last() =~= less.map_values(written));
        let (name, value) = headers.last();
        assert(!headers[headers.len() - 1].0.contains(':'));
        text::lemma_split_first(name, ':', value);
        let line = name + seq![':'] + value;
        assert(lines.last() == line);
        assert(line.take(name.len() as int) =~= name);
        assert(line.skip(name.len() as int + 1) =~= value);
        assert(headers_of(lines) =~= headers.map_values(read));
    } else {
        assert(headers_of(lines) =~= headers.map_values(read));
    }
}

/// A head is read as it is written: the status is the second word of its first line, and each
/// line behind that is a header, in order, with its name in front of its first colon and its
/// value behind; the entity starts behind the first blank line.
#[verifier::rlimit(40)]
pub proof fn law_a_head_is_read_as_written(
    version: Seq<char>,
    status: u16,
    reason: Seq<char>,
    headers: Seq<(Seq<char>, Seq<char>)>,
    rest: Seq<u8>,
)
    requires
        text::is_word(version) && is_line_text(version),
        is_line_text(reason) && (reason.len() > 0 ==> reason[0] == ' '),
        forall|i: int|
            0 <= i < headers.len() ==> !(#[trigger] headers[i]).0.contains(':') && is_line_text(
                headers[i].0,
            ) && is_line_text(headers[i].1),
    ensures
        head_of(response_bytes(head_lines(version, status, reason, headers), rest)) matches Ok(
            Some(h),
        ) && h.status == status && h.headers == headers.map_values(
            |h: (Seq<char>, Seq<char>)| (trim(h.0), trim(h.1)),
        ) && response_bytes(head_lines(version, status, reason, headers), rest).skip(h.body_start)
            == rest,
{
    let lines = head_lines(version, status, reason, headers);
    let number = decimal(status as nat);
    let first = version + seq![' '] + number + reason;
    text::lemma_decimal_reads_back(status as nat);
    text::lemma_decimal_parses(status as nat, u16::MAX as nat);
    assert forall|i: int| 0 <= i < number.len() implies '\0' <= #[trigger] number[i] <= '\u{7f}'
        && number[i] != '\r' && !text::is_white(number[i]) by {
        let c: char = number[i];
        assert(text::is_digit(c));
        let u: u32 = c as u32;
        vstd::utf8::char_u32_cast(c, u);
    }
    assert forall|i: int| 0 <= i < first.len() implies '\0' <= #[trigger] first[i] <= '\u{7f}'
        && first[i] != '\r' by {
        let a: int = version.len() as int;
        let b: int = a + 1 + number.len();
        if i < a {
            assert(first[i] == version[i]);
        } else if i == a {
            assert(first[i] == ' ');
        } else if i < b {
            assert(first[i] == number[i - a - 1]);
        } else {
            assert(first[i] == reason[i - b]);
        }
    }
    assert forall|i: int| 0 <= i < lines.len() implies (#[trigger] lines[i]).len() > 0
        && is_line_text(lines[i]) by {
        if i > 0 {
            let k: int = i - 1;
            let (name, value) = headers[k];
            let line = name + seq![':'] + value;
            assert(!headers[k].0.contains(':'));
            assert(lines[i] == line);
            assert forall|j: int| 0 <= j < line.len() implies '\0' <= #[trigger] line[j]
                <= '\u{7f}' && line[j] != '\r' by {
                if j < name.len() {
                    assert(line[j] == name[j]);
                } else if j > name.len() {
                    assert(line[j] == value[j - name.len() - 1]);
                }
            }
        } else {
            assert(lines[i] == first);
        }
    }
    lemma_head_ends(lines, rest);
    let gap = seq![' '];
    assert(first =~= version + (gap + (number + reason)));
    text::law_the_second_word_is_behind_the_first(version, gap, number, reason);
    lemma_headers_on_lines(headers);
    assert(lines.drop_first() =~= headers.map_values(
        |h: (Seq<char>, Seq<char>)| h.0 + seq![':'] + h.1,
    ));
    assert(lines[0] == first);
}

/// How an entity ends: not at all with a status that has none; in chunks where the response
/// says so, among other codings and in whatever case; after as many bytes as it says else; and
/// with the connection where it says neither.
#[verifier::rlimit(40)]
pub proof fn law_an_entity_ends_where_the_headers_say(
    status: u16,
    headers: Seq<(Seq<char>, Seq<char>)>,
    n: usize,
    others: Seq<char>,
)
    requires
        !others.contains(','),
    ensures
        ({
            let ends = framing_of(status, headers);
            let coding = header_of(headers, "Transfer-Encoding"@);
            let length = header_of(headers, "Content-Length"@);
            let bare = status == 204 || status == 304 || status / 100 == 1;
            &&& bare ==> ends == Ok::<Framing, TransportErrorView>(Framing::Length(0))
            &&& !bare && (coding == Some("chunked"@) || coding == Some("Chunked"@) || coding
                == Some(others + seq![','] + "chunked"@) || coding == Some(
                others + seq![','] + " chunked"@,
            )) ==> ends == Ok::<Framing, TransportErrorView>(Framing::Chunked)
            &&& !bare && coding == Some(others) && lower(trim(others)) != "chunked"@ ==> ends
                is Err
            &&& !bare && coding is None && length == Some(decimal(n as nat)) ==> ends == Ok::<
                Framing,
                TransportErrorView,
            >(Framing::Length(n))
            &&& !bare && coding is None && length is None ==> ends == Ok::<
                Framing,
                TransportErrorView,
            >(Framing::UntilClose)
        }),
{
    reveal_strlit("chunked");
    reveal_strlit("Chunked");
    reveal_strlit(" chunked");
    let word = "chunked"@;
    assert(!word.contains(',')) by {
        assert forall|i: int| 0 <= i < word.len() implies word[i] != ',' by {}
    }
    assert(!"Chunked"@.contains(',')) by {
        assert forall|i: int| 0 <= i < "Chunked"@.len() implies "Chunked"@[i] != ',' by {}
    }
    assert(!" chunked"@.contains(',')) by {
        assert forall|i: int| 0 <= i < " chunked"@.len() implies " chunked"@[i] != ',' by {}
    }
    assert(lower(word) =~= word);
    assert(lower("Chunked"@) =~= word);
    text::lemma_trim_nothing(word);
    text::lemma_trim_nothing("Chunked"@);
    assert(trim(" chunked"@) == word) by {
        assert(" chunked"@.drop_first() =~= word);
        assert(" chunked"@.skip(1) =~= word);
        assert(text::trim_start(" chunked"@) == text::trim_start(word));
        assert(text::trim_start(word) == word);
    }
    text::lemma_split_none(word, ',');
    text::lemma_split_none("Chunked"@, ',');
    text::lemma_split_none(" chunked"@, ',');
    text::lemma_split_none(others, ',');
    text::lemma_split_first(others, ',', word);
    text::lemma_split_first(others, ',', " chunked"@);
    assert(split(word, ',')[0] == word);
    assert(split("Chunked"@, ',')[0] == "Chunked"@);
    assert(split(others + seq![','] + word, ',')[1] == word);
    assert(split(others + seq![','] + " chunked"@, ',')[1] == " chunked"@);
    text::lemma_decimal_reads_back(n as nat);
    text::lemma_decimal_parses(n as nat, usize::MAX as nat);
    let number = decimal(n as nat);
    assert(text::is_digit(number[0]) && text::is_digit(number[number.len() - 1]));
    text::lemma_trim_nothing(number);
}

/// A response with a length is complete with the last byte of its entity and not before, and
/// its entity is exactly those bytes; one that is cut off is no response.
pub proof fn law_an_entity_is_as_long_as_it_says(buffer: Seq<u8>, body: Seq<u8>, more: Seq<u8>)
    requires
        head_of(buffer) matches Ok(Some(h)) && h.body_start == buffer.len() && (framing_of(
            h.status,
            h.headers,
        ) matches Ok(Framing::Length(n)) && n == body.len()),
    ensures
        complete_of(buffer + body + more) matches Ok(Some(r)) && r.body == body,
        forall|k: int|
            0 <= k < body.len() ==> complete_of(buffer + #[trigger] body.take(k)) == Ok::<
                Option<ResponseView>,
                TransportErrorView,
            >(None) && closed_of(buffer + body.take(k)) is Err,
{
    let h = head_of(buffer)->Ok_0->Some_0;
    lemma_head_with_more(buffer, body + more);
    assert(buffer + body + more =~= buffer + (body + more));
    assert((buffer + (body + more)).skip(h.body_start) =~= body + more);
    assert((body + more).take(body.len() as int) =~= body);
    assert forall|k: int| 0 <= k < body.len() implies complete_of(
        buffer + #[trigger] body.take(k),
    ) == Ok::<Option<ResponseView>, TransportErrorView>(None) && closed_of(buffer + body.take(k))
        is Err by {
        lemma_head_with_more(buffer, body.take(k));
        assert((buffer + body.take(k)).skip(h.body_start) =~= body.take(k));
    }
}

proof fn lemma_head_with_more(buffer: Seq<u8>, more: Seq<u8>)
    requires
        head_of(buffer) matches Ok(Some(_)),
    ensures
        head_of(buffer + more) == head_of(buffer),
{
    lemma_line_ends();
    text::lemma_find(buffer, blank_line());
    lemma_find_more(buffer, more, blank_line());
    let end = find(buffer, blank_line())->Some_0;
    assert((buffer + more).take(end) =~= buffer.take(end));
}

/// An entity without a length ends with the connection: it is never complete before, and it is
/// then everything behind the head.
pub proof fn law_an_entity_without_a_length_ends_with_the_connection(
    buffer: Seq<u8>,
    more: Seq<u8>,
)
    requires
        head_of(buffer) matches Ok(Some(h)) && h.body_start == buffer.len() && framing_of(
            h.status,
            h.headers,
        ) == Ok::<Framing, TransportErrorView>(Framing::UntilClose),
    ensures
        complete_of(buffer + more) == Ok::<Option<ResponseView>, TransportErrorView>(None),
        closed_of(buffer + more) matches Ok(r) && r.body == more,
{
    let h = head_of(buffer)->Ok_0->Some_0;
    lemma_head_with_more(buffer, more);
    assert((buffer + more).skip(h.body_start) =~= more);
}

/// A request says on its first line what is asked for, and then the host it is asked of; the
/// length of its body is said where it has one, and its head ends with a blank line.
#[verifier::rlimit(40)]
pub proof fn law_a_request_says_what_is_asked(d: DeviceView, r: RequestView)
    ensures
        ({
            let line = r.method.name() + " "@ + r.target + " HTTP/1.1\r\nHost: "@ + authority_of(d)
                + "\r\n"@;
            &&& text::begins(head_text(d, r), line)
            &&& text::ends(head_text(d, r), "\r\n\r\n"@)
            &&& r.body.len() > 0 ==> text::ends(
                head_text(d, r),
                "Content-Length: "@ + decimal(r.body.len()) + "\r\n\r\n"@,
            )
            &&& r.content_type matches Some(t) ==> text::holds(
                head_text(d, r),
                "\r\nContent-Type: "@ + t + "\r\n"@,
            )
        }),
{
    reveal_strlit("\r\n");
    reveal_strlit("\r\n\r\n");
    reveal_strlit("\r\nContent-Type: ");
    reveal_strlit("Content-Type: ");
    reveal_strlit("\r\nUser-Agent: scanbus/0.1.0\r\nConnection: close\r\n");
    let middle = "\r\nUser-Agent: scanbus/0.1.0\r\nConnection: close\r\n"@;
    let text = head_text(d, r);
    let front = r.method.name() + " "@ + r.target + " HTTP/1.1\r\nHost: "@ + authority_of(d);
    let line = front + "\r\n"@;
    let kind = match r.content_type {
        Some(t) => "Content-Type: "@ + t + "\r\n"@,
        None => seq![],
    };
    let length = if r.body.len() > 0 {
        "Content-Length: "@ + decimal(r.body.len()) + "\r\n"@
    } else {
        seq![]
    };
    assert(text =~= front + middle + kind + length + "\r\n"@);
    assert(text.take(line.len() as int) =~= line);
    assert("\r\n\r\n"@ =~= "\r\n"@ + "\r\n"@);
    let before_last = front + middle + kind + length;
    assert(before_last.skip(before_last.len() - 2) =~= "\r\n"@);
    assert(text.skip(text.len() - 4) =~= "\r\n\r\n"@);
    if r.body.len() > 0 {
        let said = "Content-Length: "@ + decimal(r.body.len()) + "\r\n\r\n"@;
        assert(text.skip(text.len() - said.len()) =~= said);
    }
    match r.content_type {
        Some(t) => {
            let said = "\r\nContent-Type: "@ + t + "\r\n"@;
            let at: int = front.len() + middle.len() - 2;
            text::lemma_find(text, said);
            assert(text.subrange(at, at + said.len()) =~= said);
            assert(text::occurs_at(text, said, at));
        },
        None => {},
    }
}

} // verus!
