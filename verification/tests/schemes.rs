use fastpx::auth::AuthError;
use fastpx::encoding::decode_token;
use fastpx::http1::{find_header_end, Header, HttpError, MalformedHead, ResponseHead};
use fastpx::server::{
    choose_scheme, decode_challenge, find_challenge, is_connect_success, Challenge, ProxyError,
};
use fastpx::wire::{authorization, connect_request, error_response, fits, target_name};
use fastpx::{AuthFactory, AuthMode, AuthScheme, Endpoint, NativeAuthFactory};

fn offer(values: &[&[u8]]) -> ResponseHead {
    ResponseHead {
        version: 1,
        status: 407,
        headers: values
            .iter()
            .map(|value| Header {
                name: "Proxy-Authenticate".to_owned(),
                value: value.to_vec(),
            })
            .collect(),
    }
}

#[test]
fn auto_prefers_negotiate() {
    let response = ResponseHead {
        version: 1,
        status: 407,
        headers: vec![
            Header {
                name: "Proxy-Authenticate".to_owned(),
                value: b"NTLM".to_vec(),
            },
            Header {
                name: "proxy-authenticate".to_owned(),
                value: b"Negotiate dHlwZTI=".to_vec(),
            },
        ],
    };
    let (scheme, challenge) = choose_scheme(&response, AuthMode::Auto).unwrap();
    assert_eq!(scheme, AuthScheme::Negotiate);
    assert_eq!(decode_challenge(challenge).unwrap().unwrap(), b"type2");
}

#[test]
fn forced_ntlm_uses_ntlm_challenge() {
    let response = ResponseHead {
        version: 1,
        status: 407,
        headers: vec![Header {
            name: "Proxy-Authenticate".to_owned(),
            value: b"Negotiate, NTLM dHlwZTI=".to_vec(),
        }],
    };
    let (scheme, challenge) = choose_scheme(&response, AuthMode::Ntlm).unwrap();
    assert_eq!(scheme, AuthScheme::Ntlm);
    assert_eq!(decode_challenge(challenge).unwrap().unwrap(), b"type2");
}

#[test]
fn auto_falls_back_to_ntlm() {
    let response = offer(&[b"Basic realm=x", b"ntlm"]);
    let (scheme, challenge) = choose_scheme(&response, AuthMode::Auto).unwrap();
    assert_eq!(scheme, AuthScheme::Ntlm);
    assert_eq!(challenge.token, None);
    assert_eq!(decode_challenge(challenge).unwrap(), None);
}

#[test]
fn a_missing_scheme_is_an_error() {
    let response = offer(&[b"NTLM"]);
    assert!(matches!(
        choose_scheme(&response, AuthMode::Negotiate),
        Err(ProxyError::AuthenticationSchemeMissing)
    ));
    assert!(matches!(
        choose_scheme(&offer(&[]), AuthMode::Auto),
        Err(ProxyError::AuthenticationSchemeMissing)
    ));
    assert!(matches!(
        choose_scheme(&response, AuthMode::Disabled),
        Err(ProxyError::AuthenticationRequired)
    ));
}

#[test]
fn challenges_are_found_among_the_items() {
    let response = offer(&[b"\xff, NTLM a", b" , NTLMX b, \tNTLM \t c d ,NTLM e"]);
    let challenge = find_challenge(&response, AuthScheme::Ntlm).unwrap();
    assert_eq!(challenge.token, Some("c"));
    assert!(find_challenge(&response, AuthScheme::Negotiate).is_none());
}

#[test]
fn tokens_have_to_be_canonical_base64() {
    assert_eq!(decode_token("").unwrap(), b"");
    assert_eq!(decode_token("dHlwZTE=").unwrap(), b"type1");
    assert_eq!(decode_token("//+A").unwrap(), vec![0xff, 0xff, 0x80]);
    for invalid in ["dHlwZTE", "dHlwZTF=", "dHlw!", "====", "dHlwZTE=\n", "d===", "-_-_"] {
        assert_eq!(decode_token(invalid), None, "{invalid}");
        assert!(matches!(
            decode_challenge(Challenge {
                token: Some(invalid)
            }),
            Err(ProxyError::InvalidAuthenticationToken)
        ));
    }
}

#[test]
fn authorization_names_the_scheme_and_the_token() {
    assert_eq!(
        authorization(AuthScheme::Ntlm, b"type1"),
        "NTLM dHlwZTE="
    );
    assert_eq!(authorization(AuthScheme::Negotiate, b""), "Negotiate ");
    assert_eq!(
        authorization(AuthScheme::Negotiate, &[0, 16, 131]),
        "Negotiate ABCD"
    );
}

#[test]
fn written_tokens_read_back() {
    for length in 0..20 {
        let token: Vec<u8> = (0..length).map(|i| (i * 37 + 200) as u8).collect();
        let value = authorization(AuthScheme::Ntlm, &token);
        assert_eq!(decode_token(&value[5..]).unwrap(), token);
    }
}

#[test]
fn only_tokens_that_fit_are_written() {
    assert!(fits(0));
    assert!(fits(1_000_000));
    assert!(!fits(usize::MAX));
    assert!(!fits(isize::MAX as usize));
}

#[test]
fn success_is_any_status_of_the_second_hundred() {
    for (status, expected) in [(199, false), (200, true), (299, true), (300, false), (407, false)] {
        let response = ResponseHead {
            version: 1,
            status,
            headers: Vec::new(),
        };
        assert_eq!(is_connect_success(&response), expected);
    }
}

#[test]
fn connect_requests_have_their_lines() {
    let destination: Endpoint = "[::1]:443".parse().unwrap();
    assert_eq!(
        connect_request(&destination, None),
        "CONNECT [::1]:443 HTTP/1.1\r\nHost: [::1]:443\r\n\
         Proxy-Connection: Keep-Alive\r\nConnection: Keep-Alive\r\n\r\n"
    );
    assert_eq!(
        connect_request(&destination, Some("NTLM dHlwZTE=")),
        "CONNECT [::1]:443 HTTP/1.1\r\nHost: [::1]:443\r\n\
         Proxy-Connection: Keep-Alive\r\nConnection: Keep-Alive\r\n\
         Proxy-Authorization: NTLM dHlwZTE=\r\n\r\n"
    );
}

#[test]
fn error_responses_announce_their_length() {
    assert_eq!(
        error_response(502, "Bad Gateway"),
        "HTTP/1.1 502 Bad Gateway\r\nConnection: close\r\n\
         Content-Type: text/plain; charset=utf-8\r\nContent-Length: 16\r\n\r\n502 Bad Gateway\n"
    );
}

#[test]
fn the_target_name_is_that_of_the_upstream_host() {
    assert_eq!(target_name("proxy.example"), "HTTP/proxy.example");
}

#[test]
fn without_sspi_there_are_no_native_credentials() {
    let created = NativeAuthFactory.create(AuthScheme::Ntlm, "HTTP/proxy");
    assert!(matches!(created, Err(AuthError::UnsupportedPlatform)));
    assert_eq!(AuthScheme::Negotiate.header_name(), "Negotiate");
    assert_eq!(AuthScheme::Ntlm.header_name(), "NTLM");
}

#[test]
fn written_heads_end_where_their_text_does() {
    let destination: Endpoint = "example.test:443".parse().unwrap();
    let value = authorization(AuthScheme::Ntlm, b"\r\n\r\n");
    for request in [
        connect_request(&destination, None),
        connect_request(&destination, Some(&value)),
    ] {
        let mut bytes = request.clone().into_bytes();
        bytes.extend_from_slice(b"\r\n\r\nmore");
        assert_eq!(find_header_end(&bytes), Some(request.len()));
    }
    let response = error_response(400, "Bad Request");
    let end = find_header_end(response.as_bytes()).unwrap();
    assert_eq!(&response[end..], "400 Bad Request\n");
    assert!(response.contains("Content-Length: 16\r\n"));
}

#[test]
fn errors_are_described() {
    for (error, text) in [
        (
            ProxyError::Io("broken pipe".to_owned()),
            "I/O error: broken pipe",
        ),
        (
            ProxyError::Http(HttpError::Parse(MalformedHead::TooManyHeaders)),
            "HTTP protocol error: malformed HTTP message: too many headers",
        ),
        (
            ProxyError::Http(HttpError::Io("reset".to_owned())),
            "HTTP protocol error: I/O error: reset",
        ),
        (
            ProxyError::Authentication(AuthError::Native("denied".to_owned())),
            "authentication error: SSPI authentication failed: denied",
        ),
        (
            ProxyError::ConnectTimeout,
            "upstream connection timed out",
        ),
        (
            ProxyError::InvalidDestination("endpoint is empty".to_owned()),
            "invalid CONNECT destination: endpoint is empty",
        ),
        (
            ProxyError::UpstreamStatus(503),
            "upstream proxy returned HTTP 503",
        ),
        (
            ProxyError::AuthenticationRequired,
            "upstream proxy requires authentication but auth is disabled",
        ),
        (
            ProxyError::AuthenticationSchemeMissing,
            "upstream proxy did not offer the configured authentication scheme",
        ),
        (
            ProxyError::InvalidAuthenticationToken,
            "upstream proxy supplied an invalid base64 authentication token",
        ),
        (
            ProxyError::ConnectionClosedDuringAuth,
            "upstream proxy closed the connection during authentication",
        ),
        (
            ProxyError::TooManyAuthenticationRounds,
            "upstream proxy exceeded the authentication round limit",
        ),
    ] {
        assert_eq!(error.to_string(), text);
    }
    for (error, text) in [
        (
            HttpError::UnexpectedEof,
            "connection closed before the HTTP headers were complete",
        ),
        (
            HttpError::HeaderTooLarge,
            "HTTP headers exceed the configured limit",
        ),
        (
            HttpError::MissingRequestFields,
            "HTTP message is missing required request fields",
        ),
        (
            HttpError::InvalidHeaderText,
            "HTTP header contains invalid UTF-8",
        ),
        (
            HttpError::InvalidContentLength,
            "invalid Content-Length header",
        ),
        (
            HttpError::ConflictingContentLength,
            "response contains conflicting Content-Length headers",
        ),
        (
            HttpError::InvalidChunkedBody,
            "malformed chunked response body",
        ),
    ] {
        assert_eq!(error.to_string(), text);
    }
    for (error, text) in [
        (
            AuthError::UnsupportedPlatform,
            "native SSPI authentication is only available on Windows",
        ),
        (
            AuthError::ContextComplete,
            "the SSPI context is already complete",
        ),
        (
            AuthError::TokenTooLarge,
            "the authentication token is too large",
        ),
    ] {
        assert_eq!(error.to_string(), text);
    }
}

#[test]
fn malformed_heads_are_described_as_by_the_parser() {
    for (error, parser) in [
        (MalformedHead::HeaderName, httparse::Error::HeaderName),
        (MalformedHead::HeaderValue, httparse::Error::HeaderValue),
        (MalformedHead::NewLine, httparse::Error::NewLine),
        (MalformedHead::Status, httparse::Error::Status),
        (MalformedHead::Token, httparse::Error::Token),
        (MalformedHead::TooManyHeaders, httparse::Error::TooManyHeaders),
        (MalformedHead::Version, httparse::Error::Version),
    ] {
        assert_eq!(error.to_string(), format!("{parser}"));
    }
}
