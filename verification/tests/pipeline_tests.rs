use rns::web::request::{RequestBackend, StatusRequest};
use rns::web::response::{Header, Response, ResponseCode, StatusResponse, Versions};
use rns::web::stream::{MemoryStream, StreamError};

fn request_from(text: &str) -> Result<RequestBackend, ResponseCode> {
    RequestBackend::build(MemoryStream::new(Vec::from(text.as_bytes())))
}

#[test]
fn status_line_ignores_tokens_after_the_third() {
    let line = StatusRequest::build("  POST\t/a/b   HTTP/1.1 extra tokens ".to_string()).unwrap();
    assert_eq!(line.get_method(), "POST");
    assert_eq!(line.get_uri(), "/a/b");
    assert_eq!(*line.get_version(), Versions::Http1_1);
    assert_eq!(line.get_resourse_and_method(), "POST /a/b");
}

#[test]
fn status_line_wants_the_exact_version_token() {
    for line in [
        "GET / HTTP/1.0",
        "GET / HTTP/2",
        "GET / http/1.1",
        "GET / HTTP/1.11",
        "GET / HTTP/1.",
        "GET /",
        "",
        "   ",
        "GET  HTTP/1.1",
    ] {
        let code = StatusRequest::build(line.to_string()).unwrap_err();
        assert_eq!(code.get_code(), 400, "{line:?}");
        assert_eq!(code.get_reason(), "Bad Request");
    }
}

#[test]
fn header_splits_on_the_first_colon_only() {
    let header = Header::build("Host: example.com:8080".to_string()).unwrap();
    assert_eq!(header.get_name(), "Host");
    assert_eq!(header.get_value(), "example.com:8080");
    assert_eq!(header.to_http_str(), "Host: example.com:8080");
}

#[test]
fn header_name_is_kept_verbatim_and_value_is_trimmed() {
    let header = Header::build(" X-Name \t:\u{A0}  spaced  value \t".to_string()).unwrap();
    assert_eq!(header.get_name(), " X-Name \t");
    assert_eq!(header.get_value(), "spaced  value");
    assert_eq!(header.to_http_str(), " X-Name \t: spaced  value");

    let empty = Header::build(":".to_string()).unwrap();
    assert_eq!(empty.get_name(), "");
    assert_eq!(empty.get_value(), "");
    assert_eq!(empty.to_http_str(), ": ");
}

#[test]
fn header_text_parses_back_to_the_same_header() {
    let first = Header::build("Accept:   text/html ; q=0.9  ".to_string()).unwrap();
    let second = Header::build(first.to_http_str()).unwrap();
    assert_eq!(first.get_name(), second.get_name());
    assert_eq!(first.get_value(), second.get_value());
    assert_eq!(first.to_http_str(), second.to_http_str());
}

#[test]
fn canned_codes_carry_their_reasons() {
    assert_eq!(ResponseCode::get_200().to_string(), "200 OK");
    assert_eq!(ResponseCode::get_400().to_string(), "400 Bad Request");
    assert_eq!(ResponseCode::get_401().to_string(), "401 Unauthorized");
    assert_eq!(ResponseCode::get_403().to_string(), "403 Forbidden");
    assert_eq!(ResponseCode::get_404().to_string(), "404 Not Found");
    assert_eq!(ResponseCode::get_405().to_string(), "405 Method Not Allowed");
    assert_eq!(ResponseCode::get_418().to_string(), "418 I'm A Teapot");
    assert_eq!(ResponseCode::get_429().to_string(), "429 Too Many Requests");
    assert_eq!(ResponseCode::get_500().to_string(), "500 Internal Server Error");
    assert_eq!(ResponseCode::new(299, "Odd".to_string()).to_string(), "299 Odd");
    assert_eq!(ResponseCode::new(0, String::new()).to_string(), "0 ");
}

#[test]
fn code_equality_ignores_the_reason() {
    assert!(ResponseCode::new(404, "gone".to_string()) == ResponseCode::get_404());
    assert!(ResponseCode::new(404, "Not Found".to_string()) != ResponseCode::get_405());
}

#[test]
fn status_response_text() {
    let line = StatusResponse::new(Versions::Http1_1, ResponseCode::get_404());
    assert_eq!(line.to_string(), "HTTP/1.1 404 Not Found");
    assert_eq!(Versions::Http1_1.to_string(), "HTTP/1.1");
    assert!(Versions::Http1_1.is_writable());
    assert!(!Versions::Http2.is_writable());
    assert!(!Versions::Http3.is_writable());
}

#[test]
fn request_without_headers_and_body() {
    let request = request_from("GET / HTTP/1.1\r\n\r\n").unwrap();
    assert_eq!(request.get_method(), "GET");
    assert_eq!(request.get_uri(), "/");
    assert!(request.get_headers().is_empty());
    assert!(request.get_body().is_empty());
    assert!(request.get_response_stream().unread().is_empty());
    assert!(request.get_response_stream().written().is_empty());
}

#[test]
fn request_keeps_duplicate_headers_in_order() {
    let request =
        request_from("PUT /x HTTP/1.1\nSet-Cookie: a=1\nHost: h\nSet-Cookie: b=2\n\nbody").unwrap();
    let texts: Vec<String> = request.get_headers().iter().map(|h| h.to_http_str()).collect();
    assert_eq!(texts, vec!["Set-Cookie: a=1", "Host: h", "Set-Cookie: b=2"]);
    assert_eq!(request.get_body().as_slice(), "body".as_bytes());
}

#[test]
fn request_body_is_everything_after_the_blank_line() {
    let mut bytes = Vec::from("POST /up HTTP/1.1\r\nContent-Length: 1\r\n\r\n".as_bytes());
    let body = vec![0u8, 0xFF, b'\r', b'\n', b'\r', b'\n', b':', 0x80];
    bytes.extend_from_slice(&body);
    let request = RequestBackend::build(MemoryStream::new(bytes)).unwrap();
    assert_eq!(request.get_body(), &body);
}

#[test]
fn empty_input_is_a_bad_request() {
    assert_eq!(request_from("").unwrap_err().get_code(), 400);
}

#[test]
fn bad_request_line_is_a_bad_request() {
    assert_eq!(request_from("GET / HTTP/1.0\r\n\r\n").unwrap_err().get_code(), 400);
    assert_eq!(request_from("\r\n\r\n").unwrap_err().get_code(), 400);
}

#[test]
fn header_without_colon_is_a_bad_request() {
    let code = request_from("GET / HTTP/1.1\r\nHost\r\n\r\n").unwrap_err();
    assert_eq!(code.get_code(), 400);
}

#[test]
fn missing_blank_line_is_a_bad_request() {
    assert_eq!(request_from("GET / HTTP/1.1").unwrap_err().get_code(), 400);
    assert_eq!(request_from("GET / HTTP/1.1\r\n").unwrap_err().get_code(), 400);
    assert_eq!(request_from("GET / HTTP/1.1\r\nA: b\r\n").unwrap_err().get_code(), 400);
}

#[test]
fn failed_reads_are_server_errors() {
    let severed = |text: &str| {
        RequestBackend::build(MemoryStream::with_limits(Vec::from(text.as_bytes()), true, 0))
            .unwrap_err()
    };
    assert_eq!(severed("").to_string(), "500 Internal Server Error");
    assert_eq!(severed("GET / HTTP/1.1").get_code(), 500);
    assert_eq!(severed("GET / HTTP/1.1\r\nHost: h").get_code(), 500);
    assert_eq!(severed("GET / HTTP/1.1\r\nHost: h\r\n").get_code(), 500);
    assert_eq!(severed("GET / HTTP/1.1\r\nHost: h\r\n\r\nbody").get_code(), 500);
    // The first failure in reading order decides.
    assert_eq!(severed("GET / HTTP/2\r\nHost: h").get_code(), 400);
    assert_eq!(severed("GET / HTTP/1.1\r\nHost\r\n").get_code(), 400);

    let not_text = RequestBackend::build(MemoryStream::new(vec![0xFF, b'\n', b'\n'])).unwrap_err();
    assert_eq!(not_text.get_code(), 500);
    let mut bytes = Vec::from("GET / HTTP/1.1\r\n".as_bytes());
    bytes.extend_from_slice(&[b'A', b':', 0xC3, b'\n', b'\n']);
    assert_eq!(RequestBackend::build(MemoryStream::new(bytes)).unwrap_err().get_code(), 500);
}

#[test]
fn respond_code_writes_status_and_blank_line() {
    let mut stream = MemoryStream::new(Vec::new());
    Response::respond_code(Versions::Http1_1, ResponseCode::get_405(), &mut stream).unwrap();
    assert_eq!(
        stream.written().as_slice(),
        "HTTP/1.1 405 Method Not Allowed\r\n\r\n".as_bytes()
    );
}

#[test]
fn respond_appends_to_what_was_written() {
    let mut stream = MemoryStream::new(Vec::new());
    Response::respond_code(Versions::Http1_1, ResponseCode::get_200(), &mut stream).unwrap();
    let response = Response::new(
        Versions::Http1_1,
        ResponseCode::new(201, "Created".to_string()),
        vec![Header::build("X: \u{e9}".to_string()).unwrap()],
        vec![1, 2, 3],
    );
    response.respond(&mut stream).unwrap();
    let mut expected = Vec::from("HTTP/1.1 200 OK\r\n\r\nHTTP/1.1 201 Created\r\nX: \u{e9}\r\n\r\n");
    expected.extend_from_slice(&[1, 2, 3]);
    assert_eq!(stream.written(), &expected);
}

#[test]
fn respond_stops_at_the_first_write_that_fails() {
    let response = Response::new(
        Versions::Http1_1,
        ResponseCode::get_200(),
        vec![
            Header::build("A: 1".to_string()).unwrap(),
            Header::build("Long-Header: 0123456789".to_string()).unwrap(),
            Header::build("B: 2".to_string()).unwrap(),
        ],
        Vec::from("Hello"),
    );
    let whole = "HTTP/1.1 200 OK\r\nA: 1\r\nLong-Header: 0123456789\r\nB: 2\r\n\r\nHello";

    let mut exact = MemoryStream::with_limits(Vec::new(), false, whole.len());
    assert_eq!(response.respond(&mut exact), Ok(()));
    assert_eq!(exact.written().as_slice(), whole.as_bytes());

    // Room for the status line, the first header and less than the second:
    // the later, shorter writes are not attempted.
    let mut short = MemoryStream::with_limits(Vec::new(), false, 30);
    assert_eq!(response.respond(&mut short), Err(StreamError::Full));
    assert_eq!(short.written().as_slice(), "HTTP/1.1 200 OK\r\nA: 1\r\n".as_bytes());

    let mut almost = MemoryStream::with_limits(Vec::new(), false, whole.len() - 1);
    assert_eq!(response.respond(&mut almost), Err(StreamError::Full));
    assert_eq!(
        almost.written().as_slice(),
        "HTTP/1.1 200 OK\r\nA: 1\r\nLong-Header: 0123456789\r\nB: 2\r\n\r\n".as_bytes()
    );

    let mut none = MemoryStream::with_limits(Vec::new(), false, 0);
    assert_eq!(response.respond(&mut none), Err(StreamError::Full));
    assert!(none.written().is_empty());
}

#[test]
fn response_getters() {
    let response = Response::new(
        Versions::Http1_1,
        ResponseCode::get_418(),
        vec![Header::build("A:1".to_string()).unwrap(), Header::build("B:2".to_string()).unwrap()],
        vec![9],
    );
    assert_eq!(response.get_status_line_str(), "HTTP/1.1 418 I'm A Teapot");
    assert_eq!(response.get_headers_str(), vec!["A: 1", "B: 2"]);
    assert_eq!(response.get_body(), &vec![9]);
    assert_eq!(response.get_headers().len(), 2);
    assert_eq!(*response.get_status_line().get_version(), Versions::Http1_1);
    assert_eq!(response.get_status_line().get_code().get_code(), 418);
}

#[test]
fn replying_on_a_request_leaves_the_request_as_it_was() {
    let mut request = request_from("GET /r HTTP/1.1\r\nA: b\r\n\r\nxyz").unwrap();
    let response = Response::new(Versions::Http1_1, ResponseCode::get_200(), Vec::new(), Vec::new());
    request.respond(&response).unwrap();
    assert_eq!(request.get_method(), "GET");
    assert_eq!(request.get_uri(), "/r");
    assert_eq!(request.get_headers().len(), 1);
    assert_eq!(request.get_body().as_slice(), "xyz".as_bytes());
    assert_eq!(
        request.get_response_stream().written().as_slice(),
        "HTTP/1.1 200 OK\r\n\r\n".as_bytes()
    );
}

#[test]
fn tokens_agree_with_splitting_on_whitespace() {
    for line in [
        "GET /a HTTP/1.1",
        "\u{2003}GET\u{A0}\u{A0}/a\tHTTP/1.1\u{3000}",
        "  OPTIONS   *   HTTP/1.1   trailing words",
        "G\u{e9}T /caf\u{e9} HTTP/1.1",
        "GET\r/a\nHTTP/1.1",
    ] {
        let tokens: Vec<&str> = line.split_whitespace().collect();
        let parsed = StatusRequest::build(line.to_string()).unwrap();
        assert_eq!(parsed.get_method(), tokens[0], "{line:?}");
        assert_eq!(parsed.get_uri(), tokens[1], "{line:?}");
        assert_eq!(tokens[2], "HTTP/1.1");
    }
}

#[test]
fn header_value_agrees_with_trimming() {
    for line in [
        "A:b",
        "A: b ",
        "A:\t\u{2003} b c \u{A0}\r",
        "A:",
        "A:   ",
        "A: : ",
        " :\u{85}x\u{85}",
    ] {
        let (name, rest) = line.split_once(':').unwrap();
        let parsed = Header::build(line.to_string()).unwrap();
        assert_eq!(parsed.get_name(), name, "{line:?}");
        assert_eq!(parsed.get_value(), rest.trim(), "{line:?}");
    }
}
