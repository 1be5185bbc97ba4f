use ratatosk_transport::chatmail::http::{credentials, dechunk, request, HttpError};

fn response(head: &str, body: &str) -> Vec<u8> {
    format!("{head}\r\n\r\n{body}").into_bytes()
}

fn measured(status: &str, body: &str) -> Vec<u8> {
    response(&format!("{status}\r\nContent-Length: {}", body.len()), body)
}

#[test]
fn the_request_says_nothing_about_who_is_asking() {
    let request = request("chatmail.example", "/new");
    assert!(request.starts_with("POST /new HTTP/1.1\r\n"));
    assert!(request.contains("Host: chatmail.example\r\n"));
    for forbidden in ["User-Agent", "Cookie", "Referer"] {
        assert!(!request.contains(forbidden), "лишний заголовок {forbidden}: {request}");
    }
}

#[test]
fn credentials_come_out_of_the_body() {
    let raw = measured(
        "HTTP/1.1 200 OK\r\nContent-Type: application/json",
        "{\"email\": \"a7f3k9@chatmail.example\", \"password\": \"x\"}",
    );
    let (address, password) = credentials(&raw).unwrap();
    assert_eq!(address, "a7f3k9@chatmail.example");
    assert_eq!(password, "x");
}

#[test]
fn a_server_that_calls_it_address_is_understood_too() {
    let raw = response(
        "HTTP/1.1 200 OK",
        "{\"address\":\"a@chatmail.example\",\"password\":\"sekret\"}",
    );
    assert_eq!(
        credentials(&raw).unwrap(),
        ("a@chatmail.example".to_owned(), "sekret".to_owned())
    );
}

#[test]
fn the_answer_a_real_server_gives() {
    let body = "{\"email\": \"webx1x3q6@nine.testrun.org\", \
                \"password\": \"!72ft<T+:Gxg\"}";
    let raw = format!(
        "HTTP/1.1 200 OK\r\n\
         Server: nginx\r\n\
         Date: Sun, 23 Aug 2026 06:26:41 GMT\r\n\
         Content-Type: application/json\r\n\
         Transfer-Encoding: chunked\r\n\
         Connection: keep-alive\r\n\
         \r\n\
         {:x}\r\n{body}\r\n0\r\n\r\n",
        body.len()
    );
    let (address, password) = credentials(raw.as_bytes()).unwrap();
    assert_eq!(address, "webx1x3q6@nine.testrun.org");
    assert_eq!(password, "!72ft<T+:Gxg");
}

#[test]
fn the_second_real_answer_with_a_trailing_newline() {
    let body = "{\"email\": \"0i469f47n@nine.testrun.org\", \
                \"password\": \"@**1fdp@+_|;\"}\n";
    assert_eq!(body.len(), 0x44, "длина куска с настоящего сервера");

    for terminator in ["\r\n", "\n"] {
        let raw = format!(
            "HTTP/1.1 200 OK\r\n\
             Server: nginx\r\n\
             Content-Type: application/json\r\n\
             Transfer-Encoding: chunked\r\n\
             Connection: close\r\n\
             \r\n\
             44\r\n{body}{terminator}0\r\n\r\n"
        );
        let (address, password) = credentials(raw.as_bytes()).unwrap();
        assert_eq!(address, "0i469f47n@nine.testrun.org");
        assert_eq!(password, "@**1fdp@+_|;");
    }
}

#[test]
fn a_body_in_several_chunks_is_glued_back() {
    let raw = "HTTP/1.1 200 OK\r\nTransfer-Encoding: chunked\r\n\r\n\
               12\r\n{\"email\":\"a@b.cd\",\r\n\
               14\r\n\"password\":\"sekret\"}\r\n\
               0\r\n\r\n";
    assert_eq!(
        credentials(raw.as_bytes()).unwrap(),
        ("a@b.cd".to_owned(), "sekret".to_owned())
    );
}

#[test]
fn a_body_cut_off_mid_chunk_is_refused() {
    let raw = "HTTP/1.1 200 OK\r\nTransfer-Encoding: chunked\r\n\r\n\
               40\r\n{\"email\":\"a@b.cd\"";
    assert_eq!(credentials(raw.as_bytes()), Err(HttpError::BadLength));
}

#[test]
fn a_refusal_keeps_its_code() {
    let raw = response("HTTP/1.1 429 Too Many Requests", "поспите");
    assert_eq!(credentials(&raw), Err(HttpError::Status { code: 429 }));
}

#[test]
fn a_redirect_is_not_followed() {
    let raw = response("HTTP/1.1 302 Found\r\nLocation: https://evil.test/new", "");
    assert_eq!(credentials(&raw), Err(HttpError::Redirect));
}

#[test]
fn a_truncated_body_is_refused_rather_than_half_read() {
    let raw = response("HTTP/1.1 200 OK\r\nContent-Length: 500", "{\"email\":\"a@b.c\"}");
    assert_eq!(credentials(&raw), Err(HttpError::BadLength));
}

#[test]
fn a_page_instead_of_json_is_not_guessed_at() {
    let cases: [(&[u8], HttpError); 3] = [
        (b"HTTP/1.1 200 OK\r\n\r\n<html>welcome</html>", HttpError::NoCredentials),
        (b"not http at all", HttpError::NotHttp),
        (b"MUMBLE 200 OK\r\n\r\n{}", HttpError::NotHttp),
    ];
    for (raw, expected) in cases {
        assert_eq!(credentials(raw), Err(expected), "ответ {:?}", String::from_utf8_lossy(raw));
    }
}

#[test]
fn a_header_written_in_any_case_is_still_a_header() {
    let body = "{\"email\":\"a@b.cd\",\"password\":\"sekret\"}";
    let raw = response(&format!("HTTP/1.1 200 OK\r\ncontent-length: {}", body.len()), body);
    assert!(credentials(&raw).is_ok(), "заголовок в нижнем регистре обязан считаться");
}

#[test]
fn chunks_are_glued_whole_and_refused_in_part() {
    let sent = "3\r\nabc\r\n0A;name=\"ü\"\n0123456789\n1;\r\n\n\r\n000\r\n";
    let spelled = b"abc0123456789\n".to_vec();
    assert_eq!(dechunk(sent.as_bytes()), Ok(spelled.clone()));
    let followed = format!("{sent}Trailer: x\r\n\r\n");
    assert_eq!(dechunk(followed.as_bytes()), Ok(spelled));
    for cut in 0..sent.len() {
        assert_eq!(dechunk(&sent.as_bytes()[..cut]), Err(HttpError::BadLength), "{cut}");
    }
    assert_eq!(dechunk(b"0\n"), Ok(vec![]));

    let full = [b"10000\r\n".to_vec(), vec![7u8; 65_536], b"\r\n0\r\n".to_vec()].concat();
    assert_eq!(dechunk(&full), Ok(vec![7u8; 65_536]));
    let over = [b"1\r\nx\r\n".to_vec(), full].concat();
    assert_eq!(dechunk(&over), Err(HttpError::BadLength));
}
