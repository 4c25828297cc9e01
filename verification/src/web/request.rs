//! Request-side values of the pipeline: the request line and the whole
//! request, built from a stream in one pass.

use crate::web::response::{
    header_line_name, header_line_ok, header_line_value, headers_wire, http1_1_text, Header,
    Response, ResponseCode, Versions, WebResult,
};
use crate::web::stream::{
    after_first_line, after_writes, crlf, first_line, lemma_line_remainder_shorter, lf,
    line_outcome, line_remainder, MemoryStream, Outgoing, StreamError,
};
use crate::web::text::{
    all_space, find_from, has_token, is_space, lemma_find_from, lemma_skip_spaces_run,
    lemma_skip_token_run, skip_spaces_in, skip_token_in, space_free, to_chars, token, token_start,
};
use vstd::prelude::*;
use vstd::string::*;
use vstd::utf8::{
    decode_utf8, encode_scalar, encode_utf8, has_width_1_encoding, has_width_2_encoding,
    has_width_3_encoding, is_scalar, leading_byte_width_1, valid_utf8,
};

verus! {

/// Whether a request line is acceptable: it has at least three
/// whitespace-separated tokens, and the third names HTTP/1.1 exactly.
/// Tokens after the third are not looked at.
pub open spec fn status_line_ok(line: Seq<char>) -> bool {
    has_token(line, 2) && token(line, 2) == http1_1_text()
}

/// The unified text of a method and a resource: method, one space, resource.
pub open spec fn resource_and_method(method: Seq<char>, uri: Seq<char>) -> Seq<char> {
    method + seq![' '] + uri
}

/// The first line of a request: method, resource and protocol version.
#[derive(Debug)]
pub struct StatusRequest {
    method: String,
    uri: String,
    version: Versions,
}

impl StatusRequest {
    /// The method token.
    pub closed spec fn method(&self) -> Seq<char> {
        self.method@
    }

    /// The resource token.
    pub closed spec fn uri(&self) -> Seq<char> {
        self.uri@
    }

    /// The protocol version.
    pub closed spec fn version(&self) -> Versions {
        self.version
    }

    /// Parses a request line, given without its line terminator. A line
    /// that is not acceptable is refused as a bad request.
    pub fn build(line_str: String) -> (r: WebResult<StatusRequest>)
        ensures
            r is Ok <==> status_line_ok(line_str@),
            r matches Ok(s) ==> s.method() == token(line_str@, 0) && s.uri() == token(line_str@, 1)
                && s.version() == Versions::Http1_1,
            r matches Err(e) ==> e.is_canned(400),
    {
        let line = line_str.as_str();
        let chars = to_chars(line);
        let n: usize = chars.len();
        let method_start: usize = skip_spaces_in(&chars, 0);
        let method_end: usize = skip_token_in(&chars, method_start);
        let uri_start: usize = skip_spaces_in(&chars, method_end);
        let uri_end: usize = skip_token_in(&chars, uri_start);
        let version_start: usize = skip_spaces_in(&chars, uri_end);
        let version_end: usize = skip_token_in(&chars, version_start);
        assert(uri_start == token_start(line@, 1) && version_start == token_start(line@, 2)) by {
            reveal_with_fuel(token_start, 3);
        }
        if version_start >= n {
            return Err(ResponseCode::get_400());
        }
        let found = line.substring_char(version_start, version_end).to_owned();
        let wanted = Versions::Http1_1.to_string();
        if found != wanted {
            return Err(ResponseCode::get_400());
        }
        let method = line.substring_char(method_start, method_end).to_owned();
        let uri = line.substring_char(uri_start, uri_end).to_owned();
        Ok(StatusRequest { method, uri, version: Versions::Http1_1 })
    }

    pub fn get_method(&self) -> (r: &String)
        ensures
            r@ == self.method(),
    {
        &self.method
    }

    pub fn get_uri(&self) -> (r: &String)
        ensures
            r@ == self.uri(),
    {
        &self.uri
    }

    pub fn get_version(&self) -> (r: &Versions)
        ensures
            *r == self.version(),
    {
        &self.version
    }

    /// The unified text of method and resource, as used to look up a route.
    pub fn get_resourse_and_method(&self) -> (r: String)
        ensures
            r@ == resource_and_method(self.method(), self.uri()),
    {
        proof {
            reveal_strlit(" ");
        }
        let mut r = self.method.clone();
        r.append(" ");
        r.append(self.uri.as_str());
        assert(r@ =~= resource_and_method(self.method(), self.uri()));
        r
    }
}

/// A request line made of a method, a resource and the HTTP/1.1 token is
/// acceptable and gives back that method and that resource, however much
/// whitespace stands before the method (`lead`) and between the tokens
/// (`gap`, `second_gap`, both non-empty), and whatever follows the version
/// after more whitespace (`tail`).
pub proof fn lemma_status_line_tokens(
    lead: Seq<char>,
    method: Seq<char>,
    gap: Seq<char>,
    uri: Seq<char>,
    second_gap: Seq<char>,
    tail: Seq<char>,
)
    requires
        all_space(lead),
        method.len() > 0,
        space_free(method),
        gap.len() > 0,
        all_space(gap),
        uri.len() > 0,
        space_free(uri),
        second_gap.len() > 0,
        all_space(second_gap),
        tail.len() > 0 ==> is_space(tail.first()),
    ensures
        ({
            let line = lead + method + gap + uri + second_gap + http1_1_text() + tail;
            &&& status_line_ok(line)
            &&& token(line, 0) == method
            &&& token(line, 1) == uri
        }),
{
    let line = lead + method + gap + uri + second_gap + http1_1_text() + tail;
    let a = lead.len() as int;
    let b = a + method.len();
    let c = b + gap.len();
    let d = c + uri.len();
    let e = d + second_gap.len();
    let f = e + http1_1_text().len();
    assert forall|j: int| 0 <= j < a implies is_space(#[trigger] line[j]) by {
        assert(line[j] == lead[j]);
    }
    assert forall|j: int| a <= j < b implies !is_space(#[trigger] line[j]) by {
        assert(line[j] == method[j - a]);
    }
    assert forall|j: int| b <= j < c implies is_space(#[trigger] line[j]) by {
        assert(line[j] == gap[j - b]);
    }
    assert forall|j: int| c <= j < d implies !is_space(#[trigger] line[j]) by {
        assert(line[j] == uri[j - c]);
    }
    assert forall|j: int| d <= j < e implies is_space(#[trigger] line[j]) by {
        assert(line[j] == second_gap[j - d]);
    }
    assert forall|j: int| e <= j < f implies !is_space(#[trigger] line[j]) by {
        assert(line[j] == http1_1_text()[j - e]);
    }
    if tail.len() > 0 {
        assert(line[f] == tail[0]);
    }
    reveal_with_fuel(token_start, 3);
    lemma_skip_spaces_run(line, 0, a);
    lemma_skip_token_run(line, a, b);
    lemma_skip_spaces_run(line, b, c);
    lemma_skip_token_run(line, c, d);
    lemma_skip_spaces_run(line, d, e);
    lemma_skip_token_run(line, e, f);
    assert(token(line, 0) =~= method);
    assert(token(line, 1) =~= uri);
    assert(token(line, 2) =~= http1_1_text());
}

/// A request line made of a method, a resource and the HTTP/1.1 token, each
/// separated by one space, is acceptable and gives back that method and that
/// resource; their unified text is the line without its version.
pub proof fn lemma_status_line_round_trip(method: Seq<char>, uri: Seq<char>)
    requires
        method.len() > 0,
        space_free(method),
        uri.len() > 0,
        space_free(uri),
    ensures
        ({
            let line = method + seq![' '] + uri + seq![' '] + http1_1_text();
            &&& status_line_ok(line)
            &&& token(line, 0) == method
            &&& token(line, 1) == uri
            &&& resource_and_method(token(line, 0), token(line, 1)) + seq![' '] + http1_1_text()
                == line
        }),
{
    let line = method + seq![' '] + uri + seq![' '] + http1_1_text();
    let none = Seq::<char>::empty();
    assert(line =~= none + method + seq![' '] + uri + seq![' '] + http1_1_text() + none);
    lemma_status_line_tokens(none, method, seq![' '], uri, seq![' '], none);
    assert(resource_and_method(method, uri) + seq![' '] + http1_1_text() =~= line);
}

/// What a request holds besides its stream.
pub struct RequestParts {
    pub method: Seq<char>,
    pub uri: Seq<char>,
    /// Name and value of each header, in the order of the input.
    pub headers: Seq<(Seq<char>, Seq<char>)>,
    pub body: Seq<u8>,
}

/// Name and value of each header of a sequence, in order.
pub open spec fn header_pairs(headers: Seq<Header>) -> Seq<(Seq<char>, Seq<char>)> {
    Seq::new(headers.len(), |i: int| (headers[i].name(), headers[i].value()))
}

/// What reading the header section yields, on an input whose unread part is
/// `pending`, after the headers `seen`: all headers with the bytes that
/// follow the blank line, or the numeric status of the failure. A line that
/// cannot be read is a server error; a malformed header line, or an input
/// that ends before a blank line, is a bad request.
pub open spec fn read_headers(
    pending: Seq<u8>,
    severed: bool,
    seen: Seq<(Seq<char>, Seq<char>)>,
) -> Result<(Seq<(Seq<char>, Seq<char>)>, Seq<u8>), nat>
    decreases pending.len(),
    via read_headers_decreases
{
    match line_outcome(pending, severed) {
        Err(_) => Err(500),
        Ok(None) => Err(400),
        Ok(Some(line)) => if line.len() == 0 {
            Ok((seen, line_remainder(pending, severed)))
        } else if !header_line_ok(line) {
            Err(400)
        } else {
            read_headers(
                line_remainder(pending, severed),
                severed,
                seen.push((header_line_name(line), header_line_value(line))),
            )
        },
    }
}

#[via_fn]
proof fn read_headers_decreases(
    pending: Seq<u8>,
    severed: bool,
    seen: Seq<(Seq<char>, Seq<char>)>,
) {
    if line_outcome(pending, severed) matches Ok(Some(line)) {
        lemma_line_remainder_shorter(pending, severed);
    }
}

/// What building a request yields, on an input whose unread part is
/// `pending`: the parts of the request, or the numeric status of the failure.
///
/// The first line is the request line; header lines follow up to a blank
/// line; everything after the blank line is the body. A line or a body that
/// cannot be read is a server error (500); an empty input, an unacceptable
/// request line, a malformed header line or a missing blank line is a bad
/// request (400). The first failure met in reading order decides.
pub open spec fn parse_request(pending: Seq<u8>, severed: bool) -> Result<RequestParts, nat> {
    match line_outcome(pending, severed) {
        Err(_) => Err(500),
        Ok(None) => Err(400),
        Ok(Some(line)) => if !status_line_ok(line) {
            Err(400)
        } else {
            match read_headers(line_remainder(pending, severed), severed, Seq::empty()) {
                Err(code) => Err(code),
                Ok((headers, body)) => if severed {
                    Err(500)
                } else {
                    Ok(RequestParts { method: token(line, 0), uri: token(line, 1), headers, body })
                },
            }
        },
    }
}

/// Whether no line of `pending` is empty.
pub open spec fn no_blank_line(pending: Seq<u8>) -> bool
    decreases pending.len(),
    via no_blank_line_decreases
{
    pending.len() == 0 || (first_line(pending).len() > 0 && no_blank_line(
        after_first_line(pending),
    ))
}

#[via_fn]
proof fn no_blank_line_decreases(pending: Seq<u8>) {
    if pending.len() > 0 {
        lemma_line_remainder_shorter(pending, false);
    }
}

/// Whether every line of `pending` is UTF-8 text.
pub open spec fn lines_are_text(pending: Seq<u8>) -> bool
    decreases pending.len(),
    via lines_are_text_decreases
{
    pending.len() == 0 || (valid_utf8(first_line(pending)) && lines_are_text(
        after_first_line(pending),
    ))
}

#[via_fn]
proof fn lines_are_text_decreases(pending: Seq<u8>) {
    if pending.len() > 0 {
        lemma_line_remainder_shorter(pending, false);
    }
}

/// A header section that ends before a blank line is a bad request: on a
/// healthy stream whose remaining lines are all text and none of them empty,
/// reading the headers fails with 400.
pub proof fn lemma_unterminated_headers(pending: Seq<u8>, seen: Seq<(Seq<char>, Seq<char>)>)
    requires
        no_blank_line(pending),
        lines_are_text(pending),
    ensures
        read_headers(pending, false, seen) == Err::<(Seq<(Seq<char>, Seq<char>)>, Seq<u8>), nat>(
            400,
        ),
    decreases pending.len(),
{
    if pending.len() > 0 {
        lemma_line_remainder_shorter(pending, false);
        let bytes = first_line(pending);
        let line = decode_utf8(bytes);
        assert(line.len() > 0) by {
            vstd::utf8::decode_utf8_encode_utf8(bytes);
            if line.len() == 0 {
                assert(encode_utf8(line) =~= Seq::<u8>::empty());
            }
        }
        if header_line_ok(line) {
            lemma_unterminated_headers(
                after_first_line(pending),
                seen.push((header_line_name(line), header_line_value(line))),
            );
        }
    }
}

/// A request without the blank line that ends its headers is a bad request,
/// whether it stops in the middle of the headers or goes on with what was
/// meant as a body: on a healthy stream with a first line, whose further
/// lines are all text and none of them empty, building fails with 400.
pub proof fn lemma_missing_blank_line(pending: Seq<u8>)
    requires
        pending.len() > 0,
        valid_utf8(first_line(pending)),
        no_blank_line(after_first_line(pending)),
        lines_are_text(after_first_line(pending)),
    ensures
        parse_request(pending, false) == Err::<RequestParts, nat>(400),
{
    lemma_unterminated_headers(after_first_line(pending), Seq::empty());
}

/// Whether a text can stand on the wire as one line: it holds no line feed.
pub open spec fn one_line(text: Seq<char>) -> bool {
    !text.contains('\n')
}

/// The bytes of one character hold a line feed only when it is the line feed.
proof fn lemma_scalar_line_feed(v: u32)
    requires
        is_scalar(v),
    ensures
        encode_scalar(v).contains(lf()) <==> v == 10,
{
    let bytes = encode_scalar(v);
    let low = (v & 0x3F) as u8;
    let middle = ((v >> 6) & 0x3F) as u8;
    let high = ((v >> 12) & 0x3F) as u8;
    assert(0x80u8 | low != 10u8) by (bit_vector);
    assert(0x80u8 | middle != 10u8) by (bit_vector);
    assert(0x80u8 | high != 10u8) by (bit_vector);
    if has_width_1_encoding(v) {
        assert(((v & 0x7F) as u8 == 10u8) <==> v == 10u32) by (bit_vector)
            requires
                v <= 0x7Fu32,
        ;
        assert(bytes[0] == leading_byte_width_1(v));
    } else if has_width_2_encoding(v) {
        let lead = ((v >> 6) & 0x1F) as u8;
        assert(0xC0u8 | lead != 10u8) by (bit_vector);
    } else if has_width_3_encoding(v) {
        let lead = ((v >> 12) & 0x0F) as u8;
        assert(0xE0u8 | lead != 10u8) by (bit_vector);
    } else {
        let lead = ((v >> 18) & 0x7) as u8;
        assert(0xF0u8 | lead != 10u8) by (bit_vector);
    }
    if bytes.contains(lf()) {
        let i = choose|i: int| 0 <= i < bytes.len() && bytes[i] == lf();
        assert(v == 10);
    }
}

/// The bytes of a text hold a line feed exactly when the text does.
pub proof fn lemma_one_line(text: Seq<char>)
    ensures
        one_line(text) <==> !encode_utf8(text).contains(lf()),
    decreases text.len(),
{
    if text.len() > 0 {
        let first = encode_scalar(text[0] as u32);
        let rest = text.drop_first();
        let others = encode_utf8(rest);
        lemma_one_line(rest);
        vstd::utf8::char_is_scalar(text[0]);
        lemma_scalar_line_feed(text[0] as u32);
        assert(encode_utf8(text) == first + others);
        if (first + others).contains(lf()) {
            let i = choose|i: int| 0 <= i < (first + others).len() && (first + others)[i] == lf();
            if i < first.len() {
                assert(first[i] == lf());
            } else {
                assert(others[i - first.len()] == lf());
            }
        }
        if first.contains(lf()) {
            let i = choose|i: int| 0 <= i < first.len() && first[i] == lf();
            assert((first + others)[i] == lf());
        }
        if others.contains(lf()) {
            let i = choose|i: int| 0 <= i < others.len() && others[i] == lf();
            assert((first + others)[i + first.len()] == lf());
        }
        if text.contains('\n') {
            let i = choose|i: int| 0 <= i < text.len() && text[i] == '\n';
            if i > 0 {
                assert(rest[i - 1] == '\n');
            }
        }
        if rest.contains('\n') {
            let i = choose|i: int| 0 <= i < rest.len() && rest[i] == '\n';
            assert(text[i + 1] == '\n');
        }
        if text[0] == '\n' {
            assert(text[0] as u32 == 10);
        }
        if text[0] as u32 == 10 {
            vstd::utf8::char_u32_cast(text[0], 10u32);
            assert(10u32 as char == '\n');
        }
    }
}

/// Name and value that each of the given header lines gives, in order.
pub open spec fn parsed_headers(lines: Seq<Seq<char>>) -> Seq<(Seq<char>, Seq<char>)> {
    Seq::new(lines.len(), |i: int| (header_line_name(lines[i]), header_line_value(lines[i])))
}

/// A line written with its terminator is read back as it was, and reading
/// goes on directly behind the terminator.
pub proof fn lemma_read_written_line(text: Seq<char>, rest: Seq<u8>, severed: bool)
    requires
        one_line(text),
    ensures
        line_outcome(encode_utf8(text) + crlf() + rest, severed) == Ok::<
            Option<Seq<char>>,
            StreamError,
        >(Some(text)),
        line_remainder(encode_utf8(text) + crlf() + rest, severed) == rest,
{
    let bytes = encode_utf8(text);
    let n = bytes.len() as int;
    let s = bytes + crlf() + rest;
    lemma_one_line(text);
    assert forall|j: int| 0 <= j < n implies s[j] != lf() by {
        assert(s[j] == bytes[j]);
        assert(bytes.contains(bytes[j]));
    }
    assert(s[n] == 13u8);
    assert(s[n + 1] == lf());
    lemma_find_from(s, lf(), 0);
    let e = find_from(s, lf(), 0);
    assert(e == n + 1) by {
        if e < n + 1 {
            assert(s[e] == lf());
        }
    }
    assert(first_line(s) =~= bytes);
    assert(after_first_line(s) =~= rest);
    vstd::utf8::encode_utf8_valid_utf8(text);
    vstd::utf8::encode_utf8_decode_utf8(text);
}

/// The header section starts with its first header and a terminator.
pub proof fn lemma_headers_wire_front(lines: Seq<Seq<char>>)
    requires
        lines.len() > 0,
    ensures
        headers_wire(lines) == encode_utf8(lines.first()) + crlf() + headers_wire(
            lines.drop_first(),
        ),
    decreases lines.len(),
{
    if lines.len() == 1 {
        assert(lines.drop_last() =~= lines.drop_first());
        assert(headers_wire(lines.drop_last()) =~= Seq::<u8>::empty());
        assert(headers_wire(lines) =~= encode_utf8(lines.first()) + crlf() + headers_wire(
            lines.drop_first(),
        ));
    } else {
        lemma_headers_wire_front(lines.drop_last());
        assert(lines.drop_last().drop_first() =~= lines.drop_first().drop_last());
        assert(lines.drop_first().last() == lines.last());
        assert(headers_wire(lines) =~= encode_utf8(lines.first()) + crlf() + headers_wire(
            lines.drop_first(),
        ));
    }
}

/// A header section that was written from well-formed header lines, ended
/// by a blank line, is read back as the headers these lines give, in order;
/// what follows the blank line is left for the body.
pub proof fn lemma_read_written_headers(
    lines: Seq<Seq<char>>,
    body: Seq<u8>,
    severed: bool,
    seen: Seq<(Seq<char>, Seq<char>)>,
)
    requires
        forall|i: int| 0 <= i < lines.len() ==> one_line(#[trigger] lines[i]) && header_line_ok(
            lines[i],
        ),
    ensures
        read_headers(headers_wire(lines) + crlf() + body, severed, seen) == Ok::<
            (Seq<(Seq<char>, Seq<char>)>, Seq<u8>),
            nat,
        >((seen + parsed_headers(lines), body)),
    decreases lines.len(),
{
    let input = headers_wire(lines) + crlf() + body;
    if lines.len() == 0 {
        let blank = Seq::<char>::empty();
        assert(encode_utf8(blank) =~= Seq::<u8>::empty());
        assert(input =~= encode_utf8(blank) + crlf() + body);
        lemma_read_written_line(blank, body, severed);
        assert(seen + parsed_headers(lines) =~= seen);
    } else {
        let first = lines.first();
        let others = lines.drop_first();
        let rest = headers_wire(others) + crlf() + body;
        lemma_headers_wire_front(lines);
        assert(input =~= encode_utf8(first) + crlf() + rest);
        assert(one_line(lines[0]) && header_line_ok(lines[0]));
        lemma_read_written_line(first, rest, severed);
        assert(first.len() > 0) by {
            let j = choose|j: int| 0 <= j < first.len() && first[j] == ':';
        }
        let entry = (header_line_name(first), header_line_value(first));
        assert forall|i: int| 0 <= i < others.len() implies one_line(#[trigger] others[i])
            && header_line_ok(others[i]) by {
            assert(others[i] == lines[i + 1]);
        }
        lemma_read_written_headers(others, body, severed, seen.push(entry));
        assert(seen.push(entry) + parsed_headers(others) =~= seen + parsed_headers(lines)) by {
            assert forall|i: int| 0 <= i < others.len() implies parsed_headers(others)[i]
                == parsed_headers(lines)[i + 1] by {
                assert(others[i] == lines[i + 1]);
            }
        }
    }
}

/// A request that is written down in the wire format is built successfully
/// and gives back what was written: on a healthy stream that holds an
/// acceptable request line, well-formed header lines, the blank line and a
/// body, building yields the method and the resource of the request line,
/// the headers of the header lines in order, and the body byte for byte.
pub proof fn lemma_well_formed_request(line: Seq<char>, headers: Seq<Seq<char>>, body: Seq<u8>)
    requires
        status_line_ok(line),
        one_line(line),
        forall|i: int|
            0 <= i < headers.len() ==> one_line(#[trigger] headers[i]) && header_line_ok(
                headers[i],
            ),
    ensures
        parse_request(
            encode_utf8(line) + crlf() + headers_wire(headers) + crlf() + body,
            false,
        ) == Ok::<RequestParts, nat>(
            RequestParts {
                method: token(line, 0),
                uri: token(line, 1),
                headers: parsed_headers(headers),
                body,
            },
        ),
{
    let input = encode_utf8(line) + crlf() + headers_wire(headers) + crlf() + body;
    let rest = headers_wire(headers) + crlf() + body;
    assert(input =~= encode_utf8(line) + crlf() + rest);
    lemma_read_written_line(line, rest, false);
    lemma_read_written_headers(headers, body, false, Seq::empty());
    assert(Seq::<(Seq<char>, Seq<char>)>::empty() + parsed_headers(headers) =~= parsed_headers(
        headers,
    ));
}

/// A request, with the stream it came from, on which the reply is written.
#[derive(Debug)]
pub struct RequestBackend {
    status_line: StatusRequest,
    headers: Vec<Header>,
    body: Vec<u8>,
    response_stream: MemoryStream,
}

/// The canned status that reports a stream failure: always a server error.
fn transport_failure(error: StreamError) -> (r: ResponseCode)
    ensures
        r.is_canned(500),
{
    ResponseCode::get_500()
}

impl RequestBackend {
    /// The request line.
    pub closed spec fn status_line(&self) -> StatusRequest {
        self.status_line
    }

    /// The headers, in the order of the input.
    pub closed spec fn headers(&self) -> Seq<Header> {
        self.headers@
    }

    /// The body.
    pub closed spec fn body(&self) -> Seq<u8> {
        self.body@
    }

    /// The stream the request was read from.
    pub closed spec fn response_stream(&self) -> MemoryStream {
        self.response_stream
    }

    /// Method, resource, headers and body of the request.
    pub open spec fn parts(&self) -> RequestParts {
        RequestParts {
            method: self.status_line().method(),
            uri: self.status_line().uri(),
            headers: header_pairs(self.headers()),
            body: self.body(),
        }
    }

    /// Builds a request from everything `stream` still holds, as
    /// [`parse_request`] says, and keeps the stream for the reply. Nothing is
    /// written to the stream.
    pub fn build(stream: MemoryStream) -> (r: WebResult<RequestBackend>)
        ensures
            match parse_request(stream.pending(), stream.severed()) {
                Ok(parts) => r matches Ok(request) && request.parts() == parts
                    && request.status_line().version() == Versions::Http1_1
                    && request.response_stream().pending() == Seq::<u8>::empty()
                    && request.response_stream().severed() == stream.severed()
                    && request.response_stream().sent() == stream.sent()
                    && request.response_stream().room() == stream.room(),
                Err(code) => r matches Err(e) && e.is_canned(code),
            },
    {
        let ghost severed = stream.severed();
        let mut source = stream;
        let status_str = match source.read_line() {
            Err(error) => {
                return Err(transport_failure(error));
            },
            Ok(None) => {
                return Err(ResponseCode::get_400());
            },
            Ok(Some(line)) => line,
        };
        let ghost status_text = status_str@;
        let status_line = match StatusRequest::build(status_str) {
            Err(code) => {
                return Err(code);
            },
            Ok(status_line) => status_line,
        };
        let ghost after_status = source.pending();
        let mut headers: Vec<Header> = Vec::new();
        assert(header_pairs(headers@) =~= Seq::empty());
        loop
            invariant_except_break
                read_headers(after_status, severed, Seq::empty()) == read_headers(
                    source.pending(),
                    severed,
                    header_pairs(headers@),
                ),
            invariant
                severed == stream.severed(),
                line_outcome(stream.pending(), severed) == Ok::<Option<Seq<char>>, StreamError>(
                    Some(status_text),
                ),
                status_line_ok(status_text),
                after_status == line_remainder(stream.pending(), severed),
                source.severed() == severed,
                source.sent() == stream.sent(),
                source.room() == stream.room(),
            ensures
                read_headers(after_status, severed, Seq::empty()) == Ok::<
                    (Seq<(Seq<char>, Seq<char>)>, Seq<u8>),
                    nat,
                >((header_pairs(headers@), source.pending())),
            decreases source.pending().len(),
        {
            let ghost before = source.pending();
            let ghost seen = header_pairs(headers@);
            let line = match source.read_line() {
                Err(error) => {
                    return Err(transport_failure(error));
                },
                Ok(None) => {
                    return Err(ResponseCode::get_400());
                },
                Ok(Some(line)) => line,
            };
            proof {
                lemma_line_remainder_shorter(before, severed);
            }
            if line.as_str().is_empty() {
                break ;
            }
            let ghost text = line@;
            let header = match Header::build(line) {
                Err(code) => {
                    return Err(code);
                },
                Ok(header) => header,
            };
            headers.push(header);
            assert(header_pairs(headers@) =~= seen.push(
                (header_line_name(text), header_line_value(text)),
            ));
        }
        let body = match source.read_to_end() {
            Err(error) => {
                return Err(transport_failure(error));
            },
            Ok(body) => body,
        };
        Ok(RequestBackend { status_line, headers, body, response_stream: source })
    }

    /// Sends `response` on the stream the request came from.
    pub fn respond(&mut self, response: &Response) -> (r: Result<(), StreamError>)
        requires
            response.status_line().version().has_text(),
        ensures
            r is Ok <==> response.wire().len() <= old(self).response_stream().room(),
            r is Ok ==> final(self).response_stream().sent() == old(self).response_stream().sent()
                + response.wire(),
            r matches Err(e) ==> e == StreamError::Full,
            after_writes(
                old(self).response_stream().sent(),
                old(self).response_stream().room(),
                response.chunks(),
            ) == (Outgoing {
                sent: final(self).response_stream().sent(),
                room: final(self).response_stream().room(),
                ok: r is Ok,
            }),
            final(self).response_stream().pending() == old(self).response_stream().pending(),
            final(self).response_stream().severed() == old(self).response_stream().severed(),
            final(self).status_line() == old(self).status_line(),
            final(self).headers() == old(self).headers(),
            final(self).body() == old(self).body(),
    {
        response.respond(&mut self.response_stream)
    }

    pub fn get_method(&self) -> (r: &String)
        ensures
            r@ == self.status_line().method(),
    {
        self.status_line.get_method()
    }

    pub fn get_uri(&self) -> (r: &String)
        ensures
            r@ == self.status_line().uri(),
    {
        self.status_line.get_uri()
    }

    pub fn get_version(&self) -> (r: &Versions)
        ensures
            *r == self.status_line().version(),
    {
        self.status_line.get_version()
    }

    pub fn get_headers(&self) -> (r: &Vec<Header>)
        ensures
            r@ == self.headers(),
    {
        &self.headers
    }

    pub fn get_body(&self) -> (r: &Vec<u8>)
        ensures
            r@ == self.body(),
    {
        &self.body
    }

    pub fn get_response_stream(&self) -> (r: &MemoryStream)
        ensures
            *r == self.response_stream(),
    {
        &self.response_stream
    }
}

/// The request type of a server.
pub type Request = RequestBackend;

} // verus!
