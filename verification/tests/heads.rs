use fastpx::http1::{
    find_header_end, parse_response_head, read_request_head, receive_request_head, request_head,
    response_head, BufferedStream, Header, HttpError, MalformedHead, ParsedRequest, ParsedResponse,
    RequestProgress, ResponseHead, ResponseProgress,
};

fn response_with(version: u8, fields: &[(&str, &[u8])]) -> ResponseHead {
    ResponseHead {
        version,
        status: 407,
        headers: fields
            .iter()
            .map(|(name, value)| Header {
                name: (*name).to_owned(),
                value: value.to_vec(),
            })
            .collect(),
    }
}

#[test]
fn preserves_bytes_after_connect_head() {
    let bytes = b"CONNECT example.com:443 HTTP/1.1\r\nHost: example.com\r\n\r\nTLS";
    match read_request_head(bytes, 8192).unwrap() {
        RequestProgress::Complete(head, remaining) => {
            assert_eq!(head.method, "CONNECT");
            assert_eq!(head.target, "example.com:443");
            assert_eq!(remaining, b"TLS");
        }
        RequestProgress::Read(_) => panic!("the head is complete"),
    }
}

#[test]
fn detects_connection_close_case_insensitively() {
    let response = ResponseHead {
        version: 1,
        status: 407,
        headers: vec![Header {
            name: "Connection".to_owned(),
            value: b"keep-alive, Close".to_vec(),
        }],
    };
    assert!(response.connection_close());
}

#[test]
fn treats_http_1_0_as_closed_without_keep_alive() {
    let closed = ResponseHead {
        version: 0,
        status: 407,
        headers: Vec::new(),
    };
    assert!(closed.connection_close());

    let reusable = ResponseHead {
        version: 0,
        status: 407,
        headers: vec![Header {
            name: "Connection".to_owned(),
            value: b"Keep-Alive".to_vec(),
        }],
    };
    assert!(!reusable.connection_close());
}

#[test]
fn a_connection_stays_open_unless_a_whole_part_says_close() {
    assert!(!response_with(1, &[]).connection_close());
    assert!(!response_with(1, &[("Connection", b"closed")]).connection_close());
    assert!(!response_with(1, &[("Proxy-Connection", b"close")]).connection_close());
    assert!(response_with(1, &[("connection", b"x"), ("CONNECTION", b"\tclose ")]).connection_close());
    assert!(response_with(0, &[("Connection", b"keep-alive, close")]).connection_close());
    assert!(!response_with(1, &[("Connection", b"\xff, close")]).connection_close());
}

#[test]
fn header_values_come_in_order_and_under_any_case() {
    let response = response_with(1, &[("Via", b"a"), ("Age", b"1"), ("vIA", b"b")]);
    let values = response.header_values("VIA");
    assert_eq!(values, vec![b"a".as_slice(), b"b".as_slice()]);
    assert!(response.header_values("Vi").is_empty());
}

#[test]
fn lengths_have_to_agree() {
    let none = response_with(1, &[]).content_length();
    assert!(matches!(none, Ok(None)));
    let same = response_with(1, &[("Content-Length", b" 5 "), ("content-length", b"+05")]);
    assert!(matches!(same.content_length(), Ok(Some(5))));
    let other = response_with(1, &[("Content-Length", b"5"), ("Content-Length", b"6")]);
    assert!(matches!(
        other.content_length(),
        Err(HttpError::ConflictingContentLength)
    ));
    for invalid in [b"".as_slice(), b"5x", b"-1", b"\xff", b"99999999999999999999999"] {
        let response = response_with(1, &[("Content-Length", invalid)]);
        assert!(matches!(
            response.content_length(),
            Err(HttpError::InvalidContentLength)
        ));
    }
    let first = response_with(
        1,
        &[("Content-Length", b"1"), ("Content-Length", b"2"), ("Content-Length", b"x")],
    );
    assert!(matches!(
        first.content_length(),
        Err(HttpError::ConflictingContentLength)
    ));
}

#[test]
fn chunked_is_one_of_the_transfer_encodings() {
    assert!(response_with(1, &[("Transfer-Encoding", b"gzip, Chunked")]).is_chunked());
    assert!(!response_with(1, &[("Transfer-Encoding", b"gzip")]).is_chunked());
    assert!(!response_with(1, &[]).is_chunked());
}

#[test]
fn a_head_ends_behind_its_empty_line() {
    assert_eq!(find_header_end(b""), None);
    assert_eq!(find_header_end(b"\r\n\r"), None);
    assert_eq!(find_header_end(b"\r\n\r\n"), Some(4));
    assert_eq!(find_header_end(b"a\r\n\r\n\r\n\r\n"), Some(5));
    assert_eq!(find_header_end(b"a\n\n\r\r\n\r\nb"), Some(8));
}

#[test]
fn a_head_asks_for_no_more_than_its_limit() {
    match read_request_head(b"CONNECT", 10).unwrap() {
        RequestProgress::Read(wanted) => assert_eq!(wanted, 3),
        RequestProgress::Complete(_, _) => panic!("the head is not complete"),
    }
    match read_request_head(b"", 100_000).unwrap() {
        RequestProgress::Read(wanted) => assert_eq!(wanted, 8192),
        RequestProgress::Complete(_, _) => panic!("the head is not complete"),
    }
    assert!(matches!(
        read_request_head(b"CONNECT x:1", 11),
        Err(HttpError::HeaderTooLarge)
    ));
    assert!(matches!(
        read_request_head(b"CONNECT x:1", 10),
        Err(HttpError::HeaderTooLarge)
    ));
}

#[test]
fn a_complete_head_has_to_keep_to_the_limit() {
    let bytes = b"GET / HTTP/1.0\r\n\r\nrest";
    match read_request_head(bytes, 18).unwrap() {
        RequestProgress::Complete(head, remaining) => {
            assert_eq!(head.method, "GET");
            assert_eq!(head.target, "/");
            assert_eq!(remaining, b"rest");
        }
        RequestProgress::Read(_) => panic!("the head is complete"),
    }
    for limit in [0, 4, 17] {
        assert!(matches!(
            read_request_head(bytes, limit),
            Err(HttpError::HeaderTooLarge)
        ));
    }
    assert!(matches!(
        read_request_head(b"\r\n\r\n", 1),
        Err(HttpError::HeaderTooLarge)
    ));
}

#[test]
fn a_buffered_response_head_has_to_keep_to_the_limit() {
    let head = b"HTTP/1.1 200 OK\r\n\r\n";
    let mut stream = BufferedStream::new();
    assert!(stream.receive(head).is_ok());
    assert!(stream.receive(b"more").is_ok());
    assert!(matches!(
        stream.read_response_head(head.len() - 1),
        Err(HttpError::HeaderTooLarge)
    ));
    assert!(matches!(
        stream.read_response_head(head.len()),
        Ok(ResponseProgress::Complete(_))
    ));
    assert_eq!(stream.into_parts(), b"more");
}

#[test]
fn malformed_requests_are_told_apart() {
    assert!(matches!(
        read_request_head(b"CONNECT x:1 HTTP/1.1\r\nbad name: 1\r\n\r\n", 100),
        Err(HttpError::Parse(MalformedHead::HeaderName))
    ));
    assert!(matches!(
        read_request_head(b"CONNECT x:1 HTTP/3.7\r\n\r\n", 100),
        Err(HttpError::Parse(MalformedHead::Version))
    ));
    assert!(matches!(
        read_request_head(b"CON\x01NECT x:1 HTTP/1.1\r\n\r\n", 100),
        Err(HttpError::Parse(MalformedHead::Token))
    ));
    assert!(matches!(
        read_request_head(b"\r\n\r\n", 100),
        Err(HttpError::MissingRequestFields)
    ));
    let mut crowded = b"CONNECT x:1 HTTP/1.1\r\n".to_vec();
    for _ in 0..65 {
        crowded.extend_from_slice(b"a: b\r\n");
    }
    crowded.extend_from_slice(b"\r\n");
    assert!(matches!(
        read_request_head(&crowded, 100_000),
        Err(HttpError::Parse(MalformedHead::TooManyHeaders))
    ));
}

#[test]
fn sixty_four_header_fields_are_accepted() {
    let mut full = b"HTTP/1.1 200 OK\r\n".to_vec();
    for _ in 0..64 {
        full.extend_from_slice(b"a: b\r\n");
    }
    full.extend_from_slice(b"\r\n");
    assert_eq!(parse_response_head(&full).unwrap().headers.len(), 64);
}

#[test]
fn a_response_head_has_version_status_and_fields() {
    let head = parse_response_head(
        b"HTTP/1.0 407 Proxy Authentication Required\r\nProxy-Authenticate: NTLM\r\nX:  y \r\n\r\n",
    )
    .unwrap();
    assert_eq!(head.version, 0);
    assert_eq!(head.status, 407);
    assert_eq!(head.headers[0].name, "Proxy-Authenticate");
    assert_eq!(head.headers[0].value, b"NTLM");
    assert_eq!(head.headers[1].name, "X");
    assert_eq!(head.headers[1].value, b"y");
    assert_eq!(head.headers.len(), 2);
}

#[test]
fn malformed_responses_are_told_apart() {
    assert!(matches!(
        parse_response_head(b"HTTP/1.1 4x7 No\r\n\r\n"),
        Err(HttpError::Parse(MalformedHead::Status))
    ));
    assert!(matches!(
        parse_response_head(b"HTTP/1.1 407 No\r\na: \x01\r\n\r\n"),
        Err(HttpError::Parse(MalformedHead::HeaderValue))
    ));
    assert!(matches!(
        parse_response_head(b"HTTP/1.1"),
        Err(HttpError::MissingRequestFields)
    ));
}

#[test]
fn parsed_heads_need_all_their_parts() {
    let request = ParsedRequest {
        method: Some("GET".to_owned()),
        target: None,
    };
    assert!(matches!(
        request_head(Ok(request)),
        Err(HttpError::MissingRequestFields)
    ));
    assert!(matches!(
        request_head(Err(MalformedHead::NewLine)),
        Err(HttpError::Parse(MalformedHead::NewLine))
    ));
    let response = ParsedResponse {
        version: Some(1),
        status: None,
        headers: Vec::new(),
    };
    assert!(matches!(
        response_head(Ok(response)),
        Err(HttpError::MissingRequestFields)
    ));
    let response = ParsedResponse {
        version: Some(1),
        status: Some(204),
        headers: Vec::new(),
    };
    assert_eq!(response_head(Ok(response)).unwrap().status, 204);
}

#[test]
fn a_response_head_arrives_in_pieces() {
    let mut stream = BufferedStream::new();
    let text = b"HTTP/1.1 200 OK\r\n\r\nhello";
    for byte in &text[..18] {
        assert!(matches!(
            stream.read_response_head(1024),
            Ok(ResponseProgress::Read(n)) if n > 0
        ));
        assert!(stream.receive(&[*byte]).is_ok());
    }
    assert!(stream.receive(&text[18..]).is_ok());
    match stream.read_response_head(1024).unwrap() {
        ResponseProgress::Complete(head) => assert_eq!(head.status, 200),
        ResponseProgress::Read(_) => panic!("the head is complete"),
    }
    assert_eq!(stream.into_parts(), b"hello");
}

#[test]
fn the_end_of_the_connection_is_an_error() {
    let mut stream = BufferedStream::new();
    assert!(matches!(
        stream.receive(b""),
        Err(HttpError::UnexpectedEof)
    ));
}

#[test]
fn a_response_head_has_a_limit() {
    let mut stream = BufferedStream::new();
    assert!(stream.receive(b"HTTP/1.1 200").is_ok());
    assert!(matches!(
        stream.read_response_head(12),
        Err(HttpError::HeaderTooLarge)
    ));
    assert!(matches!(
        stream.read_response_head(13),
        Ok(ResponseProgress::Read(1))
    ));
}

#[test]
fn the_stream_decides_what_a_request_head_comes_to() {
    let head = b"CONNECT example.com:443 HTTP/1.1\r\n\r\n";
    for size in 1..=head.len() {
        let mut received = Vec::new();
        let mut complete = 0;
        for chunk in head.chunks(size) {
            match receive_request_head(&mut received, chunk, head.len()).unwrap() {
                RequestProgress::Complete(head, rest) => {
                    assert_eq!(head.target, "example.com:443");
                    assert!(rest.is_empty());
                    complete += 1;
                }
                RequestProgress::Read(wanted) => assert_eq!(wanted, head.len() - received.len()),
            }
        }
        assert_eq!(complete, 1);
        assert_eq!(received, head);
    }

    let mut received = head[..head.len() - 1].to_vec();
    assert!(matches!(
        receive_request_head(&mut received, b"", head.len()),
        Err(HttpError::UnexpectedEof)
    ));
    assert!(matches!(
        receive_request_head(&mut received, b"", head.len() - 1),
        Err(HttpError::HeaderTooLarge)
    ));
    assert!(matches!(
        receive_request_head(&mut received, b"\n", head.len() - 1),
        Err(HttpError::HeaderTooLarge)
    ));
}
