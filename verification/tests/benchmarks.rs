use fastpx::bench::{
    check_echo, check_response, client_request, mock_replies, percentile, read_head, BenchError,
    BenchSettings, HeadProgress, MockFactory,
};
use fastpx::config::SocketAddress;
use fastpx::number::{parse_number, push_decimal, push_hexadecimal, NumberError};
use fastpx::text::{
    characters, equal_ignoring_case, find, first_two_words, list_contains, split_bounds, trimmed,
    white_space,
};
use fastpx::{AuthFactory, AuthMode, AuthScheme, Endpoint};

fn settings() -> BenchSettings {
    BenchSettings {
        connections: 5000,
        concurrency: 200,
        payload_bytes: 3,
        mock_ntlm: true,
    }
}

#[test]
fn percentiles_are_values() {
    let values: Vec<u128> = (1..=101).collect();
    assert_eq!(percentile(&values, 0), 1);
    assert_eq!(percentile(&values, 50), 51);
    assert_eq!(percentile(&values, 95), 96);
    assert_eq!(percentile(&values, 100), 101);
    assert_eq!(percentile(&[7], 99), 7);
    assert_eq!(percentile(&[1, 2, 3, 4], 50), 2);
}

#[test]
fn benchmark_heads_have_a_limit() {
    match read_head(b"HTTP/1.1 200 OK\r\n\r\nrest") {
        HeadProgress::Complete(rest) => assert_eq!(rest, b"rest"),
        other => panic!("{other:?}"),
    }
    assert!(matches!(read_head(b"HTTP"), HeadProgress::Read(1024)));
    assert!(matches!(
        read_head(&[b'a'; 32767]),
        HeadProgress::Read(1024)
    ));
    assert!(matches!(read_head(&[b'a'; 32768]), HeadProgress::TooLarge));
}

#[test]
fn the_mock_upstream_challenges_twice() {
    assert_eq!(
        mock_replies(false),
        vec!["HTTP/1.1 200 Connection Established\r\n\r\n"]
    );
    let replies = mock_replies(true);
    assert_eq!(replies.len(), 3);
    assert!(replies[0].contains("Proxy-Authenticate: NTLM\r\n"));
    assert!(replies[1].contains("Proxy-Authenticate: NTLM dHlwZTI=\r\n"));
    assert_eq!(replies[2], mock_replies(false)[0]);
}

#[test]
fn the_mock_context_makes_two_tokens() {
    let mut context = MockFactory.create(AuthScheme::Ntlm, "HTTP/x").unwrap();
    assert_eq!(context.step(None).unwrap(), b"type1");
    assert_eq!(context.step(Some(b"type2")).unwrap(), b"type3");
    assert_eq!(context.step(None).unwrap(), b"type3");
}

#[test]
fn benchmark_settings_are_checked() {
    assert!(settings().check().is_ok());
    for (connections, concurrency) in [(0, 1), (1, 0), (0, 0)] {
        let mut empty = settings();
        empty.connections = connections;
        empty.concurrency = concurrency;
        assert_eq!(empty.check(), Err(BenchError::NothingToDo));
    }
    assert_eq!(settings().reported_count(), Ok(5000));
    let mut many = settings();
    many.connections = u32::MAX as usize;
    assert_eq!(many.reported_count(), Ok(u32::MAX));
    many.connections = u32::MAX as usize + 1;
    assert_eq!(many.reported_count(), Err(BenchError::CountTooLarge));
    assert_eq!(settings().payload(), b"ZZZ");
}

#[test]
fn the_benchmark_configures_its_proxy() {
    let listen = SocketAddress::V4 {
        ipv4: 0x7f00_0001,
        port: 1,
    };
    let config = settings().proxy_config(listen, Endpoint::new("h".to_owned(), 2));
    assert_eq!(config.auth, AuthMode::Ntlm);
    assert_eq!(config.max_connections, 400);
    assert_eq!(config.connect_timeout, 5_000_000_000);
    assert_eq!(config.idle_timeout, Some(5_000_000_000));
    assert_eq!(config.max_header_bytes, 32768);
    let mut plain = settings();
    plain.mock_ntlm = false;
    let config = plain.proxy_config(listen, Endpoint::new("h".to_owned(), 2));
    assert_eq!(config.auth, AuthMode::Disabled);
}

#[test]
fn the_benchmark_checks_what_comes_back() {
    assert!(check_response(b"").is_ok());
    assert_eq!(check_response(b"x"), Err(BenchError::UnexpectedBytes));
    assert!(check_echo(b"abc", b"abc").is_ok());
    assert_eq!(check_echo(b"abd", b"abc"), Err(BenchError::EchoMismatch));
    assert_eq!(check_echo(b"ab", b"abc"), Err(BenchError::EchoMismatch));
    assert!(client_request().starts_with("CONNECT benchmark.test:443 HTTP/1.1\r\n"));
    for (error, text) in [
        (
            BenchError::NothingToDo,
            "connections and concurrency must be greater than zero",
        ),
        (
            BenchError::CountTooLarge,
            "connection count is too large to report",
        ),
        (
            BenchError::HeadTooLarge,
            "HTTP head exceeds benchmark limit",
        ),
        (
            BenchError::UnexpectedEof,
            "connection closed before HTTP head completed",
        ),
        (
            BenchError::UnexpectedBytes,
            "unexpected bytes after CONNECT response",
        ),
        (BenchError::EchoMismatch, "tunnel echo mismatch"),
    ] {
        assert_eq!(error.message(), text);
    }
}

#[test]
fn numbers_are_read_and_written() {
    assert_eq!(parse_number(&['1', '0'], 10, 100), Ok(10));
    assert_eq!(parse_number(&['+', 'f', 'F'], 16, 255), Ok(255));
    assert_eq!(
        parse_number(&['1', '0', '0'], 16, 255),
        Err(NumberError::TooLarge)
    );
    assert_eq!(parse_number(&[], 10, 9), Err(NumberError::Empty));
    assert_eq!(parse_number(&['+'], 10, 9), Err(NumberError::InvalidDigit));
    assert_eq!(parse_number(&['-'], 10, 9), Err(NumberError::InvalidDigit));
    assert_eq!(
        parse_number(&['9', 'x', '9'], 10, 99),
        Err(NumberError::InvalidDigit)
    );
    let mut text = String::new();
    push_decimal(&mut text, 0);
    push_decimal(&mut text, 18_446_744_073_709_551_615);
    push_hexadecimal(&mut text, 0xabc);
    assert_eq!(text, "01844674407370955161500000abc");
}

#[test]
fn texts_are_taken_apart() {
    let chars = characters("a,,b \u{2003}");
    assert_eq!(chars.len(), 6);
    assert_eq!(find(&chars, ','), 1);
    assert_eq!(find(&chars, 'z'), 6);
    assert_eq!(split_bounds(&chars, ','), vec![(0, 1), (2, 2), (3, 6)]);
    assert_eq!(trimmed(&chars[3..]), ['b']);
    assert!(equal_ignoring_case(&['A', '\u{e4}'], &['a', '\u{e4}']));
    assert!(!equal_ignoring_case(&['\u{c4}'], &['\u{e4}']));
    assert!(white_space('\u{85}'));
    assert!(!white_space('\u{200b}'));
    let words = characters(" NTLM\tabc  d");
    assert_eq!(first_two_words(&words), (Some((1, 5)), Some((6, 9))));
    assert!(list_contains("gzip , CHUNKED", "chunked"));
    assert!(!list_contains("gzip chunked", "chunked"));
}

#[test]
fn written_numbers_read_back() {
    for number in [0, 7, 10, 407, 65535, 4_294_967_296] {
        let mut text = String::new();
        push_decimal(&mut text, number);
        assert_eq!(text, format!("{number}"));
        assert_eq!(
            parse_number(&characters(&text), 10, number as usize),
            Ok(number as usize)
        );
    }
}
