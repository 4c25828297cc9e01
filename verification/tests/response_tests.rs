use rns::web::response::{Header, Response, ResponseCode, Versions};
use rns::web::stream::MemoryStream;

/// Test [Header] build method in normal operation.
#[test]
fn build_header() {
    // "Normal" way to specify headers: one leading whitespace before value
    let header_str = "Host: www.example.com".to_string();
    let header = Header::build(header_str.clone()).unwrap();

    assert!(header.get_name() == "Host");
    assert!(header.get_value() == "www.example.com");
    assert!(header.to_http_str() == header_str);

    // Unusual, but valid
    let header_str = "Host:www.example.com ".to_string();
    let header = Header::build(header_str.clone()).unwrap();

    assert!(header.get_name() == "Host");
    assert!(header.get_value() == "www.example.com");
    assert!(header.to_http_str() == "Host: www.example.com");
}

/// Test [Header] build method with Bad Requests.
#[test]
fn build_header_fail() {
    // No colon between name and value
    let header_str = "Host www.example.com".to_string();
    let header = Header::build(header_str.clone()).unwrap_err();

    assert!(header == ResponseCode::get_400());
}

/// Test [ResponseCode] equality, which goes by the numeric code alone.
#[test]
fn response_code_equality() {
    let code_1 = ResponseCode::get_200();
    let code_2 = ResponseCode::get_400();
    let code_3 = ResponseCode::new(200, "Nonsense".to_string());

    assert!(code_1 == code_3);
    assert!(code_1 != code_2);
    assert!(code_2 != code_3);
}

/// Test respond method.
#[test]
fn respond() {
    let mut stream = MemoryStream::new(Vec::new());

    let resp = Response::new(
        Versions::Http1_1,
        ResponseCode::get_200(),
        vec![
            Header::build("Content-Type: text/plain".to_string()).unwrap(),
            Header::build("Content-Length: 5".to_string()).unwrap(),
        ],
        Vec::from("Hello"),
    );
    resp.respond(&mut stream).unwrap();

    // Test response that was written.
    let buf = stream.written().clone();

    let actual_resp = Vec::from(
        "HTTP/1.1 200 OK\r\nContent-Type: text/plain\r\nContent-Length: 5\r\n\r\nHello".as_bytes(),
    );

    assert!(buf == actual_resp);
}
