use cckit::http::{HttpError, Message, Method, ScClientError, ScInformational, ScSuccessful, StartLine, Version};

#[test]
fn version_round_trip() {
    assert_eq!(Version::parse("HTTP/1.1"), Ok(Version::Html11));
    assert_eq!(Version::Html11.as_str(), "HTTP/1.1");
    assert_eq!(
        Version::parse("HTTP/2"),
        Err(HttpError::InvalidData("unexpected content: HTTP/2".to_string()))
    );
}

#[test]
fn method_words_are_recognised() {
    assert_eq!(Method::parse("GET"), Ok(Method::Get));
    assert_eq!(Method::parse("DELETE"), Ok(Method::Delete));
    assert_eq!(Method::parse("OTIONS"), Ok(Method::Options));
    assert_eq!(
        Method::parse("OPTIONS"),
        Err(HttpError::InvalidData("unexpected content: OPTIONS".to_string()))
    );
}

#[test]
fn status_codes_round_trip() {
    assert_eq!(ScSuccessful::parse("200 OK"), Ok(ScSuccessful::Okay));
    assert_eq!(ScSuccessful::Okay.as_str(), "200 OK");
    assert_eq!(ScSuccessful::parse("207 Multi-Status"), Ok(ScSuccessful::MultiStatus));
    assert!(ScSuccessful::parse("209").is_err());
    assert_eq!(ScInformational::parse("100"), Ok(ScInformational::Continue));
    assert_eq!(ScInformational::parse("101"), Ok(ScInformational::SwitchingProtocols));
    assert_eq!(ScClientError::NotFound.as_str(), "404 Not Found");
}

#[test]
fn start_line_reads_method_target_version() {
    let line = StartLine::parse("GET /index.html HTTP/1.1").expect("start line");
    assert_eq!(line.method, Method::Get);
    assert_eq!(line.target, "/index.html".to_string());
    assert_eq!(line.version, Version::Html11);
    assert_eq!(StartLine::parse("GET /"), Err(HttpError::UnexpectedEof));
    assert!(StartLine::parse("FETCH / HTTP/1.1").is_err());
    let tp = StartLine::testpath("/img/img.jpg");
    assert_eq!(tp.method, Method::Get);
    assert_eq!(tp.target, "/img/img.jpg".to_string());
}

#[test]
fn message_splits_lines_and_drops_empty_ones() {
    let msg = Message::parse("GET /index.html HTTP/1.1\r\nHost: localhost\r\n\r\n")
        .expect("message");
    assert_eq!(msg.startline.method, Method::Get);
    assert_eq!(msg.startline.target, "/index.html".to_string());
    assert_eq!(msg.content, vec!["Host: localhost".to_string()]);
    assert_eq!(Message::parse("\r\n\r\n"), Err(HttpError::UnexpectedEof));
}
