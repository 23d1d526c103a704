use fastpx::body::{BodyDrain, DrainProgress};
use fastpx::http1::{BufferedStream, Header, HttpError, ResponseHead};

fn response(name: &str, value: &[u8]) -> ResponseHead {
    ResponseHead {
        version: 1,
        status: 407,
        headers: vec![Header {
            name: name.to_owned(),
            value: value.to_vec(),
        }],
    }
}

/// Skips a body that arrives in pieces of at most `piece` bytes, never more than are asked for,
/// and returns what is left over.
fn skip(head: &ResponseHead, bytes: &[u8], piece: usize) -> Result<Vec<u8>, HttpError> {
    let mut stream = BufferedStream::new();
    let mut drain = BodyDrain::new(head)?;
    let mut sent = 0;
    loop {
        match stream.drain_response_body(&mut drain)? {
            DrainProgress::Done => {
                let mut rest = stream.into_parts();
                rest.extend_from_slice(&bytes[sent..]);
                return Ok(rest);
            }
            DrainProgress::Read(wanted) => {
                assert!(wanted > 0);
                let count = wanted.min(piece).min(bytes.len() - sent);
                stream.receive(&bytes[sent..sent + count])?;
                sent += count;
            }
        }
    }
}

#[test]
fn a_sized_body_is_skipped() {
    let head = response("Content-Length", b"5");
    for piece in 1..8 {
        assert_eq!(skip(&head, b"helloNEXT", piece).unwrap(), b"NEXT");
    }
    assert!(matches!(
        skip(&head, b"hell", 2),
        Err(HttpError::UnexpectedEof)
    ));
}

#[test]
fn an_empty_body_needs_no_bytes() {
    assert_eq!(skip(&response("Content-Length", b"0"), b"N", 1).unwrap(), b"N");
    assert_eq!(skip(&response("Age", b"0"), b"N", 1).unwrap(), b"N");
}

#[test]
fn a_chunked_body_is_skipped() {
    let head = response("Transfer-Encoding", b"chunked");
    let body = b"5;name=value\r\nhello\r\nA \r\n0123456789\r\n000\r\nTrailer: x\r\n\r\nNEXT";
    for piece in 1..70 {
        assert_eq!(skip(&head, body, piece).unwrap(), b"NEXT");
    }
}

#[test]
fn a_chunked_body_wins_over_a_length() {
    let head = ResponseHead {
        version: 1,
        status: 407,
        headers: vec![
            Header {
                name: "Content-Length".to_owned(),
                value: b"nonsense".to_vec(),
            },
            Header {
                name: "Transfer-Encoding".to_owned(),
                value: b"chunked".to_vec(),
            },
        ],
    };
    assert_eq!(skip(&head, b"0\r\n\r\nNEXT", 3).unwrap(), b"NEXT");
}

#[test]
fn malformed_chunks_are_refused() {
    let head = response("Transfer-Encoding", b"chunked");
    for body in [
        b"\r\n".as_slice(),
        b"x\r\n",
        b"-1\r\n",
        b"\xff\r\n",
        b"fffffffffffffffffffffff\r\n",
        b"2\r\nabc\r\n",
        b"2\r\nabXY\r\n",
    ] {
        assert!(matches!(
            skip(&head, body, 100),
            Err(HttpError::InvalidChunkedBody)
        ));
    }
}

#[test]
fn a_chunk_line_has_a_limit() {
    let head = response("Transfer-Encoding", b"chunked");
    let line = vec![b'0'; 10_000];
    assert!(matches!(
        skip(&head, &line, 1024),
        Err(HttpError::InvalidChunkedBody)
    ));
}

#[test]
fn a_chunked_body_must_end() {
    let head = response("Transfer-Encoding", b"chunked");
    for body in [b"".as_slice(), b"5\r\nhel", b"5\r\nhello\r\n", b"0\r\nTrailer: x\r\n"] {
        assert!(matches!(
            skip(&head, body, 100),
            Err(HttpError::UnexpectedEof)
        ));
    }
}

#[test]
fn bodies_with_a_bad_length_are_refused() {
    assert!(matches!(
        BodyDrain::new(&response("Content-Length", b"five")),
        Err(HttpError::InvalidContentLength)
    ));
}
