use swarm_core::http::{request, strip_leading_whitespace, HttpError, ResponseHead};

fn lines(text: &[&str]) -> Vec<Vec<u8>> {
    text.iter().map(|line| line.as_bytes().to_vec()).collect()
}

fn header(name: &str, value: &str) -> (Vec<u8>, Vec<u8>) {
    (name.as_bytes().to_vec(), value.as_bytes().to_vec())
}

#[test]
fn http_get_1() {
    let bytes = request(
        "/announce".as_bytes(),
        "128.8.126.63".as_bytes(),
        &vec![("query1".as_bytes().to_vec(), "value1".as_bytes().to_vec())],
    );
    println!("Request: {}", String::from_utf8(bytes.clone()).unwrap());
    assert_eq!(bytes, "GET /announce?query1=value1 HTTP/1.1\r\nHost: 128.8.126.63\r\n\r\n".as_bytes());
}

#[test]
fn query_is_percent_encoded() {
    let bytes = request(
        "/a".as_bytes(),
        "tracker.example".as_bytes(),
        &vec![
            ("info_hash".as_bytes().to_vec(), vec![0x12, 0xAB, b'a', b' ', 0x00, 0xFF, b'~', b'/']),
            ("peer id".as_bytes().to_vec(), "A-z_0.9".as_bytes().to_vec()),
            ("left".as_bytes().to_vec(), vec![]),
        ],
    );
    assert_eq!(
        String::from_utf8(bytes).unwrap(),
        "GET /a?info_hash=%12%ABa%20%00%FF~%2F&peer%20id=A-z_0.9&left= HTTP/1.1\r\nHost: tracker.example\r\n\r\n"
    );
    assert_eq!(
        request("/".as_bytes(), "h".as_bytes(), &vec![]),
        "GET / HTTP/1.1\r\nHost: h\r\n\r\n".as_bytes()
    );
}

#[test]
fn head_with_status_and_length() {
    let head = ResponseHead::parse(&lines(&[
        "HTTP/1.1 200 OK",
        "Content-Type: text/plain",
        "Content-Length: 137",
        "Server: some server 1.0",
    ]))
    .unwrap();
    assert_eq!(head.status, 200);
    assert_eq!(head.content_length, Some(137));
    assert_eq!(
        head.headers,
        vec![
            header("Content-Type", "text/plain"),
            header("Content-Length", "137"),
            header("Server", "someserver1.0"),
        ]
    );
}

#[test]
fn head_without_length_runs_to_the_end() {
    let head = ResponseHead::parse(&lines(&["HTTP/1.0 404 Not Found", "X: a:b"])).unwrap();
    assert_eq!(head.status, 404);
    assert_eq!(head.content_length, None);
    assert_eq!(head.headers, vec![header("X", "a:b")]);
}

#[test]
fn the_later_of_two_counts() {
    let head = ResponseHead::parse(&lines(&[
        "HTTP/1.1 100 Continue",
        "Content-Length: 5",
        "HTTP/1.1 301 Moved",
        "Content-Length:\t+0042 ",
        "content-length: 9",
    ]))
    .unwrap();
    assert_eq!(head.status, 301);
    assert_eq!(head.content_length, Some(42));
}

#[test]
fn status_lines_have_a_fixed_shape() {
    let status = |line: &str| ResponseHead::parse(&lines(&[line, "Content-Length: 0"])).map(|head| head.status);
    assert_eq!(status("HTTP/1.1 200"), Ok(200));
    assert_eq!(status("HTTP/1.0 007 x"), Ok(7));
    // any one character may stand where the dot is
    assert_eq!(status("HTTP/1x1 503"), Ok(503));
    assert_eq!(status("HTTP/1\u{e9}1 503"), Ok(503));
    assert_eq!(status("HTTP/1\u{20ac}0 999"), Ok(999));
    assert_eq!(status("HTTP/1.2 200"), Err(HttpError::NoStatus));
    assert_eq!(status("HTTP/1.1 20"), Err(HttpError::NoStatus));
    assert_eq!(status("HTTP/1.1 2x0"), Err(HttpError::NoStatus));
    assert_eq!(status("HTTP/1.1  200"), Err(HttpError::NoStatus));
    assert_eq!(status(" HTTP/1.1 200"), Err(HttpError::NoStatus));
    assert_eq!(status("http/1.1 200"), Err(HttpError::NoStatus));
    assert_eq!(status("HTTP/1"), Err(HttpError::NoStatus));
}

#[test]
fn each_http_error_has_an_input() {
    assert_eq!(ResponseHead::parse(&lines(&[])), Err(HttpError::NoContentLength));
    assert_eq!(ResponseHead::parse(&lines(&["Server: x"])), Err(HttpError::NoContentLength));
    assert_eq!(ResponseHead::parse(&lines(&["Content-Length: 3"])), Err(HttpError::NoStatus));
    let bad = |value: &str| ResponseHead::parse(&lines(&["HTTP/1.1 200 OK", &format!("Content-Length:{}", value)]));
    assert_eq!(bad(""), Err(HttpError::BadContentLength));
    assert_eq!(bad("+"), Err(HttpError::BadContentLength));
    assert_eq!(bad("-1"), Err(HttpError::BadContentLength));
    assert_eq!(bad("12a"), Err(HttpError::BadContentLength));
    assert_eq!(bad("0x10"), Err(HttpError::BadContentLength));
    assert_eq!(bad("99999999999999999999999999"), Err(HttpError::BadContentLength));
    assert_eq!(bad(&usize::MAX.to_string()).unwrap().content_length, Some(usize::MAX));
    assert_eq!(bad("18446744073709551616"), Err(HttpError::BadContentLength));
    // a bad length counts before a missing status
    assert_eq!(ResponseHead::parse(&lines(&["Content-Length: x"])), Err(HttpError::BadContentLength));
}

#[test]
fn whitespace_goes_wherever_it_stands() {
    let mut value = " \ta b\r\n c\x0b\x0c".as_bytes().to_vec();
    strip_leading_whitespace(&mut value);
    assert_eq!(value, "abc".as_bytes());
    let mut empty = Vec::new();
    strip_leading_whitespace(&mut empty);
    assert_eq!(empty, Vec::<u8>::new());
    let mut other = vec![0x08, 0x0e, 0x1f, 0x21, 0xa0];
    strip_leading_whitespace(&mut other);
    assert_eq!(other, vec![0x08, 0x0e, 0x1f, 0x21, 0xa0]);
}
