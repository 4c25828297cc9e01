//! Response-side values of the pipeline: protocol versions, headers, status
//! codes and whole responses, with their wire format.

use crate::web::stream::{
    after_writes, concat_all, crlf, lemma_concat_all_append, lemma_writes_stop,
    lemma_writes_total, MemoryStream, Outgoing, StreamError,
};
use crate::web::text::{
    decimal, decimal_string, find_first, find_from, is_space, lemma_find_from,
    lemma_skip_spaces_run, lemma_trim_is_tight, lemma_trim_of_tight, to_chars, trim, trim_bounds,
    trim_left,
};
use vstd::prelude::*;
use vstd::std_specs::cmp::PartialEqSpec;
use vstd::string::*;
use vstd::utf8::encode_utf8;

verus! {

/// The protocol versions a message can name. Only HTTP/1.1 has a wire form.
#[derive(Debug, Clone, Copy, PartialEq, Eq, Structural)]
pub enum Versions {
    Http1_1,
    Http2,
    Http3,
}

/// The token that names HTTP/1.1 on the wire.
pub open spec fn http1_1_text() -> Seq<char> {
    seq!['H', 'T', 'T', 'P', '/', '1', '.', '1']
}

impl Versions {
    /// Whether the version can be written on the wire.
    pub open spec fn has_text(self) -> bool {
        self == Versions::Http1_1
    }

    /// The wire form of the version.
    pub open spec fn text(self) -> Seq<char>
        recommends
            self.has_text(),
    {
        http1_1_text()
    }

    /// Decides [`Versions::has_text`].
    pub fn is_writable(&self) -> (r: bool)
        ensures
            r == self.has_text(),
    {
        match self {
            Versions::Http1_1 => true,
            _ => false,
        }
    }

    /// The wire form of the version.
    pub fn to_string(&self) -> (r: String)
        requires
            self.has_text(),
        ensures
            r@ == self.text(),
    {
        proof {
            reveal_strlit("HTTP/1.1");
        }
        let r = "HTTP/1.1".to_owned();
        assert(r@ =~= http1_1_text());
        r
    }
}

/// What separates a header's name from its value on the wire.
pub open spec fn header_separator() -> Seq<char> {
    seq![':', ' ']
}

/// Whether a header line holds the colon that ends the name.
pub open spec fn header_line_ok(line: Seq<char>) -> bool {
    line.contains(':')
}

/// The name a header line gives: the text before its first colon, verbatim.
pub open spec fn header_line_name(line: Seq<char>) -> Seq<char> {
    line.subrange(0, find_from(line, ':', 0))
}

/// The value a header line gives: the text after its first colon, trimmed.
pub open spec fn header_line_value(line: Seq<char>) -> Seq<char>
    recommends
        header_line_ok(line),
{
    trim(line.subrange(find_from(line, ':', 0) + 1, line.len() as int))
}

/// The canonical wire text of a header.
pub open spec fn header_text(name: Seq<char>, value: Seq<char>) -> Seq<char> {
    name + header_separator() + value
}

/// One header of a message.
#[derive(Debug)]
pub struct Header {
    name: String,
    value: String,
}

impl Header {
    /// The header's name.
    pub closed spec fn name(&self) -> Seq<char> {
        self.name@
    }

    /// The header's value.
    pub closed spec fn value(&self) -> Seq<char> {
        self.value@
    }

    /// The canonical wire text of the header.
    pub open spec fn text(&self) -> Seq<char> {
        header_text(self.name(), self.value())
    }

    /// Parses one header line, given without its line terminator. A line
    /// without a colon is refused as a bad request.
    pub fn build(header_str: String) -> (r: WebResult<Header>)
        ensures
            r is Ok <==> header_line_ok(header_str@),
            r matches Ok(h) ==> h.name() == header_line_name(header_str@) && h.value()
                == header_line_value(header_str@),
            r matches Err(e) ==> e.is_canned(400),
    {
        let line = header_str.as_str();
        let chars = to_chars(line);
        let colon: usize = find_first(&chars, ':');
        proof {
            lemma_find_from(line@, ':', 0);
            assert(line@.subrange(0, line@.len() as int) =~= line@);
        }
        if colon >= chars.len() {
            return Err(ResponseCode::get_400());
        }
        let name = line.substring_char(0, colon).to_owned();
        let (start, end) = trim_bounds(&chars, colon + 1);
        let value = line.substring_char(start, end).to_owned();
        Ok(Header { name, value })
    }

    pub fn get_name(&self) -> (r: &String)
        ensures
            r@ == self.name(),
    {
        &self.name
    }

    pub fn get_value(&self) -> (r: &String)
        ensures
            r@ == self.value(),
    {
        &self.value
    }

    /// The header as it is written on the wire: name, colon, one space, value.
    pub fn to_http_str(&self) -> (r: String)
        ensures
            r@ == self.text(),
    {
        proof {
            reveal_strlit(": ");
        }
        let mut r = self.name.clone();
        r.append(": ");
        r.append(self.value.as_str());
        assert(r@ =~= self.text());
        r
    }
}

/// The wire text of a parsed header line is canonical: the name is followed
/// by a colon and exactly one space, after which the value starts with no
/// further whitespace; and parsing that text again gives the same header.
pub proof fn lemma_header_text_canonical(line: Seq<char>)
    requires
        header_line_ok(line),
    ensures
        ({
            let name = header_line_name(line);
            let value = header_line_value(line);
            let text = header_text(name, value);
            &&& !name.contains(':')
            &&& text.len() == name.len() + 2 + value.len()
            &&& text[name.len() as int] == ':'
            &&& text[name.len() as int + 1] == ' '
            &&& value.len() > 0 ==> !is_space(text[name.len() as int + 2])
            &&& header_line_ok(text)
            &&& header_line_name(text) == name
            &&& header_line_value(text) == value
        }),
{
    let name = header_line_name(line);
    let value = header_line_value(line);
    let text = header_text(name, value);
    let n = name.len() as int;
    lemma_find_from(line, ':', 0);
    assert(line.subrange(0, line.len() as int) =~= line);
    if name.contains(':') {
        let j = choose|j: int| 0 <= j < name.len() && name[j] == ':';
        assert(line[j] == ':');
    }
    lemma_trim_is_tight(line.subrange(find_from(line, ':', 0) + 1, line.len() as int));
    assert(text[n] == ':');
    assert(text[n + 1] == ' ');
    if value.len() > 0 {
        assert(text[n + 2] == value.first());
    }
    lemma_find_from(text, ':', 0);
    assert(text.subrange(0, text.len() as int) =~= text);
    assert(text.contains(':'));
    assert(find_from(text, ':', 0) == n) by {
        let f = find_from(text, ':', 0);
        if f < n {
            assert(name[f] == text[f]);
        }
    }
    assert(header_line_name(text) =~= name);
    let tail = text.subrange(n + 1, text.len() as int);
    assert(tail =~= seq![' '] + value);
    if value.len() > 0 {
        assert(tail[1] == value.first());
        lemma_skip_spaces_run(tail, 0, 1);
        assert(trim_left(tail) =~= value);
        lemma_trim_of_tight(value);
        assert(trim_left(value) =~= value);
    } else {
        lemma_skip_spaces_run(tail, 0, 1);
        assert(trim_left(tail) =~= value);
    }
}

/// The reason phrase that belongs to a canned status code; empty for a code
/// that has none.
pub open spec fn canned_reason(code: nat) -> Seq<char> {
    if code == 200 {
        seq!['O', 'K']
    } else if code == 400 {
        seq!['B', 'a', 'd', ' ', 'R', 'e', 'q', 'u', 'e', 's', 't']
    } else if code == 401 {
        seq!['U', 'n', 'a', 'u', 't', 'h', 'o', 'r', 'i', 'z', 'e', 'd']
    } else if code == 403 {
        seq!['F', 'o', 'r', 'b', 'i', 'd', 'd', 'e', 'n']
    } else if code == 404 {
        seq!['N', 'o', 't', ' ', 'F', 'o', 'u', 'n', 'd']
    } else if code == 405 {
        seq![
            'M', 'e', 't', 'h', 'o', 'd', ' ', 'N', 'o', 't', ' ', 'A', 'l', 'l', 'o', 'w', 'e', 'd',
        ]
    } else if code == 418 {
        seq!['I', '\'', 'm', ' ', 'A', ' ', 'T', 'e', 'a', 'p', 'o', 't']
    } else if code == 429 {
        seq!['T', 'o', 'o', ' ', 'M', 'a', 'n', 'y', ' ', 'R', 'e', 'q', 'u', 'e', 's', 't', 's']
    } else if code == 500 {
        seq![
            'I', 'n', 't', 'e', 'r', 'n', 'a', 'l', ' ', 'S', 'e', 'r', 'v', 'e', 'r', ' ', 'E', 'r',
            'r', 'o', 'r',
        ]
    } else {
        Seq::empty()
    }
}

/// The wire text of a status: the decimal code, one space, the reason.
pub open spec fn code_text(code: nat, reason: Seq<char>) -> Seq<char> {
    decimal(code) + seq![' '] + reason
}

/// A numeric HTTP status with its reason phrase. It is also the error type of
/// the pipeline. Two values are equal when their numeric codes are.
#[derive(Debug)]
pub struct ResponseCode {
    code: usize,
    reason: String,
}

impl PartialEq for ResponseCode {
    fn eq(&self, other: &Self) -> (r: bool) {
        self.code == other.code
    }
}

impl vstd::std_specs::cmp::PartialEqSpecImpl for ResponseCode {
    open spec fn obeys_eq_spec() -> bool {
        true
    }

    open spec fn eq_spec(&self, other: &Self) -> bool {
        self.code() == other.code()
    }
}

impl ResponseCode {
    /// The numeric status.
    pub closed spec fn code(&self) -> nat {
        self.code as nat
    }

    /// The reason phrase.
    pub closed spec fn reason(&self) -> Seq<char> {
        self.reason@
    }

    /// Whether this is the canned status with the given code.
    pub open spec fn is_canned(&self, code: nat) -> bool {
        self.code() == code && self.reason() == canned_reason(code)
    }

    /// The wire text of the status.
    pub open spec fn text(&self) -> Seq<char> {
        code_text(self.code(), self.reason())
    }

    /// A status with a reason of the caller's choice.
    pub fn new(in_code: usize, in_reason: String) -> (r: ResponseCode)
        ensures
            r.code() == in_code,
            r.reason() == in_reason@,
    {
        ResponseCode { code: in_code, reason: in_reason }
    }

    pub fn get_200() -> (r: ResponseCode)
        ensures
            r.is_canned(200),
    {
        proof {
            reveal_strlit("OK");
        }
        let reason = "OK".to_owned();
        assert(reason@ =~= canned_reason(200));
        ResponseCode { code: 200, reason }
    }

    pub fn get_400() -> (r: ResponseCode)
        ensures
            r.is_canned(400),
    {
        proof {
            reveal_strlit("Bad Request");
        }
        let reason = "Bad Request".to_owned();
        assert(reason@ =~= canned_reason(400));
        ResponseCode { code: 400, reason }
    }

    pub fn get_401() -> (r: ResponseCode)
        ensures
            r.is_canned(401),
    {
        proof {
            reveal_strlit("Unauthorized");
        }
        let reason = "Unauthorized".to_owned();
        assert(reason@ =~= canned_reason(401));
        ResponseCode { code: 401, reason }
    }

    pub fn get_403() -> (r: ResponseCode)
        ensures
            r.is_canned(403),
    {
        proof {
            reveal_strlit("Forbidden");
        }
        let reason = "Forbidden".to_owned();
        assert(reason@ =~= canned_reason(403));
        ResponseCode { code: 403, reason }
    }

    pub fn get_404() -> (r: ResponseCode)
        ensures
            r.is_canned(404),
    {
        proof {
            reveal_strlit("Not Found");
        }
        let reason = "Not Found".to_owned();
        assert(reason@ =~= canned_reason(404));
        ResponseCode { code: 404, reason }
    }

    pub fn get_405() -> (r: ResponseCode)
        ensures
            r.is_canned(405),
    {
        proof {
            reveal_strlit("Method Not Allowed");
        }
        let reason = "Method Not Allowed".to_owned();
        assert(reason@ =~= canned_reason(405));
        ResponseCode { code: 405, reason }
    }

    pub fn get_418() -> (r: ResponseCode)
        ensures
            r.is_canned(418),
    {
        proof {
            reveal_strlit("I'm A Teapot");
        }
        let reason = "I'm A Teapot".to_owned();
        assert(reason@ =~= canned_reason(418));
        ResponseCode { code: 418, reason }
    }

    pub fn get_429() -> (r: ResponseCode)
        ensures
            r.is_canned(429),
    {
        proof {
            reveal_strlit("Too Many Requests");
        }
        let reason = "Too Many Requests".to_owned();
        assert(reason@ =~= canned_reason(429));
        ResponseCode { code: 429, reason }
    }

    pub fn get_500() -> (r: ResponseCode)
        ensures
            r.is_canned(500),
    {
        proof {
            reveal_strlit("Internal Server Error");
        }
        let reason = "Internal Server Error".to_owned();
        assert(reason@ =~= canned_reason(500));
        ResponseCode { code: 500, reason }
    }

    /// The numeric status.
    pub fn get_code(&self) -> (r: usize)
        ensures
            r == self.code(),
    {
        self.code
    }

    /// The reason phrase.
    pub fn get_reason(&self) -> (r: &String)
        ensures
            r@ == self.reason(),
    {
        &self.reason
    }

    /// The status as it is written on the wire.
    pub fn to_string(&self) -> (r: String)
        ensures
            r@ == self.text(),
    {
        proof {
            reveal_strlit(" ");
        }
        let mut r = decimal_string(self.code);
        r.append(" ");
        r.append(self.reason.as_str());
        assert(r@ =~= self.text());
        r
    }
}

/// The result type of the pipeline: a value, or the status to answer with.
pub type WebResult<T> = Result<T, ResponseCode>;

/// Two statuses are equal exactly when their numeric codes are, whatever their reasons.
pub proof fn lemma_code_equality(a: ResponseCode, b: ResponseCode)
    ensures
        a.eq_spec(&b) <==> a.code() == b.code(),
{
}

/// The first line of a response: protocol version and status.
#[derive(Debug)]
pub struct StatusResponse {
    version: Versions,
    code: ResponseCode,
}

impl StatusResponse {
    /// The protocol version.
    pub closed spec fn version(&self) -> Versions {
        self.version
    }

    /// The status.
    pub closed spec fn code(&self) -> ResponseCode {
        self.code
    }

    /// The wire text of the line: version, one space, status.
    pub open spec fn text(&self) -> Seq<char>
        recommends
            self.version().has_text(),
    {
        self.version().text() + seq![' '] + self.code().text()
    }

    pub fn new(version: Versions, code: ResponseCode) -> (r: StatusResponse)
        ensures
            r.version() == version,
            r.code() == code,
    {
        StatusResponse { version, code }
    }

    pub fn get_version(&self) -> (r: &Versions)
        ensures
            *r == self.version(),
    {
        &self.version
    }

    pub fn get_code(&self) -> (r: &ResponseCode)
        ensures
            *r == self.code(),
    {
        &self.code
    }

    /// The line as it is written on the wire, without a terminator.
    pub fn to_string(&self) -> (r: String)
        requires
            self.version().has_text(),
        ensures
            r@ == self.text(),
    {
        proof {
            reveal_strlit(" ");
        }
        let mut r = self.version.to_string();
        r.append(" ");
        let code = self.code.to_string();
        r.append(code.as_str());
        assert(r@ =~= self.text());
        r
    }
}

/// The wire texts of a sequence of headers, in order.
pub open spec fn header_texts(headers: Seq<Header>) -> Seq<Seq<char>> {
    Seq::new(headers.len(), |i: int| headers[i].text())
}

/// The writes that send header texts: for each, its bytes and then a terminator.
pub open spec fn header_chunks(texts: Seq<Seq<char>>) -> Seq<Seq<u8>>
    decreases texts.len(),
{
    if texts.len() == 0 {
        Seq::empty()
    } else {
        header_chunks(texts.drop_last()) + seq![encode_utf8(texts.last()), crlf()]
    }
}

/// Each header takes two writes.
pub proof fn lemma_header_chunks_len(texts: Seq<Seq<char>>)
    ensures
        header_chunks(texts).len() == 2 * texts.len(),
    decreases texts.len(),
{
    if texts.len() > 0 {
        lemma_header_chunks_len(texts.drop_last());
    }
}

/// Where the writes for the `i`-th header stand among the writes for all of them.
pub proof fn lemma_header_chunk_at(texts: Seq<Seq<char>>, i: int)
    requires
        0 <= i < texts.len(),
    ensures
        header_chunks(texts).len() == 2 * texts.len(),
        header_chunks(texts)[2 * i] == encode_utf8(texts[i]),
        header_chunks(texts)[2 * i + 1] == crlf(),
    decreases texts.len(),
{
    lemma_header_chunks_len(texts);
    lemma_header_chunks_len(texts.drop_last());
    if i < texts.len() - 1 {
        lemma_header_chunk_at(texts.drop_last(), i);
    }
}

/// The header section on the wire: each header text followed by a terminator.
pub open spec fn headers_wire(texts: Seq<Seq<char>>) -> Seq<u8>
    decreases texts.len(),
{
    if texts.len() == 0 {
        Seq::empty()
    } else {
        headers_wire(texts.drop_last()) + encode_utf8(texts.last()) + crlf()
    }
}

/// The writes for the headers, joined, are the header section.
pub proof fn lemma_header_chunks_joined(texts: Seq<Seq<char>>)
    ensures
        concat_all(header_chunks(texts)) == headers_wire(texts),
    decreases texts.len(),
{
    if texts.len() > 0 {
        let last_two = seq![encode_utf8(texts.last()), crlf()];
        lemma_header_chunks_joined(texts.drop_last());
        lemma_concat_all_append(header_chunks(texts.drop_last()), last_two);
        assert(concat_all(last_two) =~= encode_utf8(texts.last()) + crlf()) by {
            reveal_with_fuel(concat_all, 3);
        }
        assert(concat_all(header_chunks(texts)) =~= headers_wire(texts));
    }
}

/// The writes that send a response without headers and without a body.
pub open spec fn status_only_chunks(version: Versions, code: ResponseCode) -> Seq<Seq<u8>>
    recommends
        version.has_text(),
{
    seq![
        encode_utf8(version.text() + seq![' '] + code.text()),
        crlf(),
        crlf(),
        Seq::<u8>::empty(),
    ]
}

/// Performs the write at position `k` of the series `all`, after the writes
/// before it went through.
fn write_next(
    stream: &mut MemoryStream,
    bytes: &[u8],
    Ghost(sent): Ghost<Seq<u8>>,
    Ghost(room): Ghost<nat>,
    Ghost(all): Ghost<Seq<Seq<u8>>>,
    Ghost(k): Ghost<int>,
) -> (r: Result<(), StreamError>)
    requires
        0 <= k < all.len(),
        all[k] == bytes@,
        after_writes(sent, room, all.take(k)) == (Outgoing {
            sent: old(stream).sent(),
            room: old(stream).room(),
            ok: true,
        }),
    ensures
        r is Ok ==> after_writes(sent, room, all.take(k + 1)) == (Outgoing {
            sent: final(stream).sent(),
            room: final(stream).room(),
            ok: true,
        }),
        r is Err ==> after_writes(sent, room, all) == (Outgoing {
            sent: final(stream).sent(),
            room: final(stream).room(),
            ok: false,
        }),
        r matches Err(e) ==> e == StreamError::Full,
        final(stream).pending() == old(stream).pending(),
        final(stream).severed() == old(stream).severed(),
{
    proof {
        assert(all.take(k + 1).drop_last() =~= all.take(k));
    }
    let r = stream.write_all(bytes);
    proof {
        if r is Err {
            lemma_writes_stop(sent, room, all, k + 1);
        }
    }
    r
}

/// A whole response: status line, headers in order, body.
#[derive(Debug)]
pub struct Response {
    status_line: StatusResponse,
    headers: Vec<Header>,
    body: Vec<u8>,
}

impl Response {
    /// The status line.
    pub closed spec fn status_line(&self) -> StatusResponse {
        self.status_line
    }

    /// The headers, in order.
    pub closed spec fn headers(&self) -> Seq<Header> {
        self.headers@
    }

    /// The body.
    pub closed spec fn body(&self) -> Seq<u8> {
        self.body@
    }

    /// The writes that send the response, in order: the status line and a
    /// terminator; each header and a terminator; the terminator that ends
    /// the headers; the body, with nothing after it.
    pub open spec fn chunks(&self) -> Seq<Seq<u8>>
        recommends
            self.status_line().version().has_text(),
    {
        seq![encode_utf8(self.status_line().text()), crlf()] + header_chunks(
            header_texts(self.headers()),
        ) + seq![crlf(), self.body()]
    }

    /// The response as one byte sequence on the wire.
    pub open spec fn wire(&self) -> Seq<u8>
        recommends
            self.status_line().version().has_text(),
    {
        concat_all(self.chunks())
    }

    /// On the wire a response is its status line and a terminator, its
    /// header section, the terminator that ends the headers, and its body.
    pub proof fn lemma_wire_layout(&self)
        ensures
            self.wire() == encode_utf8(self.status_line().text()) + crlf() + headers_wire(
                header_texts(self.headers()),
            ) + crlf() + self.body(),
    {
        let head = seq![encode_utf8(self.status_line().text()), crlf()];
        let middle = header_chunks(header_texts(self.headers()));
        let tail = seq![crlf(), self.body()];
        lemma_concat_all_append(head + middle, tail);
        lemma_concat_all_append(head, middle);
        lemma_header_chunks_joined(header_texts(self.headers()));
        assert(concat_all(head) =~= encode_utf8(self.status_line().text()) + crlf()) by {
            reveal_with_fuel(concat_all, 3);
        }
        assert(concat_all(tail) =~= crlf() + self.body()) by {
            reveal_with_fuel(concat_all, 3);
        }
        assert(self.wire() =~= encode_utf8(self.status_line().text()) + crlf() + headers_wire(
            header_texts(self.headers()),
        ) + crlf() + self.body());
    }

    pub fn new(version: Versions, code: ResponseCode, headers: Vec<Header>, body: Vec<u8>) -> (r:
        Response)
        ensures
            r.status_line().version() == version,
            r.status_line().code() == code,
            r.headers() == headers@,
            r.body() == body@,
    {
        Response { status_line: StatusResponse::new(version, code), headers, body }
    }

    pub fn get_status_line(&self) -> (r: &StatusResponse)
        ensures
            *r == self.status_line(),
    {
        &self.status_line
    }

    pub fn get_headers(&self) -> (r: &Vec<Header>)
        ensures
            r@ == self.headers(),
    {
        &self.headers
    }

    /// The status line as text, without a terminator.
    pub fn get_status_line_str(&self) -> (r: String)
        requires
            self.status_line().version().has_text(),
        ensures
            r@ == self.status_line().text(),
    {
        self.status_line.to_string()
    }

    /// The wire text of each header, in order.
    pub fn get_headers_str(&self) -> (r: Vec<String>)
        ensures
            r@.len() == self.headers().len(),
            forall|i: int| 0 <= i < r@.len() ==> (#[trigger] r@[i])@ == self.headers()[i].text(),
    {
        let mut texts: Vec<String> = Vec::new();
        let n: usize = self.headers.len();
        let mut i: usize = 0;
        while i < n
            invariant
                i <= n,
                n == self.headers@.len(),
                texts@.len() == i,
                forall|j: int| 0 <= j < i ==> (#[trigger] texts@[j])@ == self.headers@[j].text(),
            decreases n - i,
        {
            texts.push(self.headers[i].to_http_str());
            i += 1;
        }
        texts
    }

    pub fn get_body(&self) -> (r: &Vec<u8>)
        ensures
            r@ == self.body(),
    {
        &self.body
    }

    /// Writes the response to `stream`, one write per element of
    /// [`Response::chunks`], and stops at the first write that fails.
    pub fn respond(&self, stream: &mut MemoryStream) -> (r: Result<(), StreamError>)
        requires
            self.status_line().version().has_text(),
        ensures
            after_writes(old(stream).sent(), old(stream).room(), self.chunks()) == (Outgoing {
                sent: final(stream).sent(),
                room: final(stream).room(),
                ok: r is Ok,
            }),
            r is Ok <==> self.wire().len() <= old(stream).room(),
            r is Ok ==> final(stream).sent() == old(stream).sent() + self.wire(),
            r matches Err(e) ==> e == StreamError::Full,
            final(stream).pending() == old(stream).pending(),
            final(stream).severed() == old(stream).severed(),
    {
        let ghost sent = stream.sent();
        let ghost room = stream.room();
        let ghost all = self.chunks();
        let ghost texts = header_texts(self.headers());
        proof {
            lemma_writes_total(sent, room, all);
            lemma_header_chunks_len(texts);
        }
        let mut line_end: Vec<u8> = Vec::new();
        line_end.push(13u8);
        line_end.push(10u8);
        assert(line_end@ =~= crlf());

        // Status line
        let status = self.get_status_line_str();
        write_next(
            stream,
            status.as_str().as_bytes(),
            Ghost(sent),
            Ghost(room),
            Ghost(all),
            Ghost(0),
        )?;
        write_next(stream, line_end.as_slice(), Ghost(sent), Ghost(room), Ghost(all), Ghost(1))?;

        // Headers
        let n: usize = self.headers.len();
        let mut i: usize = 0;
        while i < n
            invariant
                i <= n,
                n == self.headers@.len(),
                self.status_line().version().has_text(),
                all == self.chunks(),
                sent == old(stream).sent(),
                room == old(stream).room(),
                texts == header_texts(self.headers()),
                header_chunks(texts).len() == 2 * n,
                line_end@ == crlf(),
                after_writes(sent, room, all.take(2 + 2 * i)) == (Outgoing {
                    sent: stream.sent(),
                    room: stream.room(),
                    ok: true,
                }),
                stream.pending() == old(stream).pending(),
                stream.severed() == old(stream).severed(),
            decreases n - i,
        {
            proof {
                lemma_writes_total(sent, room, all);
                lemma_header_chunk_at(texts, i as int);
            }
            let text = self.headers[i].to_http_str();
            write_next(
                stream,
                text.as_str().as_bytes(),
                Ghost(sent),
                Ghost(room),
                Ghost(all),
                Ghost(2 + 2 * i),
            )?;
            write_next(
                stream,
                line_end.as_slice(),
                Ghost(sent),
                Ghost(room),
                Ghost(all),
                Ghost(2 + 2 * i + 1),
            )?;
            i += 1;
        }

        // End of headers
        write_next(
            stream,
            line_end.as_slice(),
            Ghost(sent),
            Ghost(room),
            Ghost(all),
            Ghost(2 + 2 * n),
        )?;

        // Body
        write_next(
            stream,
            self.body.as_slice(),
            Ghost(sent),
            Ghost(room),
            Ghost(all),
            Ghost(2 + 2 * n + 1),
        )?;
        assert(all.take(2 + 2 * n + 2) =~= all);
        Ok(())
    }

    /// Writes a response that holds only a status: no header and no body.
    pub fn respond_code(version: Versions, code: ResponseCode, stream: &mut MemoryStream) -> (r:
        Result<(), StreamError>)
        requires
            version.has_text(),
        ensures
            after_writes(old(stream).sent(), old(stream).room(), status_only_chunks(version, code))
                == (Outgoing {
                sent: final(stream).sent(),
                room: final(stream).room(),
                ok: r is Ok,
            }),
            r is Ok <==> concat_all(status_only_chunks(version, code)).len() <= old(stream).room(),
            r is Ok ==> final(stream).sent() == old(stream).sent() + concat_all(
                status_only_chunks(version, code),
            ),
            r matches Err(e) ==> e == StreamError::Full,
            final(stream).pending() == old(stream).pending(),
            final(stream).severed() == old(stream).severed(),
    {
        let response = Response::new(version, code, Vec::new(), Vec::new());
        proof {
            assert(header_texts(response.headers()) =~= Seq::<Seq<char>>::empty());
            assert(response.chunks() =~= status_only_chunks(version, code));
        }
        response.respond(stream)
    }
}

} // verus!
