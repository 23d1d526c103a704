use fastpx::config::SocketAddress;
use fastpx::http1::{HttpError, MalformedHead};
use fastpx::relay::{
    idle_watchdog, watch_tunnel, Direction, Pump, PumpAction, Relay, RelayError, RelayEvent,
    WatchAction, WatchEvent,
};
use fastpx::server::ProxyError;
use fastpx::session::{
    answer_request, begin_relay, AcceptAction, AcceptEvent, AcceptPhase, ClientStep, TunnelStart,
};
use fastpx::sspi::{
    encode_target_name, SspiProgress, SEC_E_OK, SEC_I_COMPLETE_AND_CONTINUE,
    SEC_I_COMPLETE_NEEDED, SEC_I_CONTINUE_NEEDED,
};
use fastpx::{AuthError, AuthMode, Endpoint, NativeAuthFactory, Proxy, ProxyConfig};

fn proxy() -> Proxy<NativeAuthFactory> {
    Proxy::new(ProxyConfig {
        listen: SocketAddress::V4 {
            ipv4: 0x7f00_0001,
            port: 3128,
        },
        upstream: Endpoint::new("proxy".to_owned(), 8080),
        auth: AuthMode::Disabled,
        connect_timeout: 1,
        idle_timeout: None,
        max_header_bytes: 1024,
        max_connections: 2,
    })
}

#[test]
fn other_methods_are_refused() {
    match proxy().handle_client(b"GET http://example.test/ HTTP/1.1\r\n\r\n") {
        ClientStep::Reject(response, Ok(())) => {
            assert_eq!(
                response,
                "HTTP/1.1 405 CONNECT Required\r\nConnection: close\r\n\
                 Content-Type: text/plain; charset=utf-8\r\nContent-Length: 21\r\n\r\n\
                 405 CONNECT Required\n"
            );
        }
        other => panic!("{other:?}"),
    }
}

#[test]
fn the_method_may_be_in_any_case() {
    match proxy().handle_client(b"connect example.test:443 HTTP/1.1\r\n\r\n") {
        ClientStep::Open(destination, early) => {
            assert_eq!(destination.to_string(), "example.test:443");
            assert!(early.is_empty());
        }
        other => panic!("{other:?}"),
    }
}

#[test]
fn a_target_without_a_port_is_refused() {
    match proxy().handle_client(b"CONNECT example.test HTTP/1.1\r\n\r\n") {
        ClientStep::Reject(response, Err(ProxyError::InvalidDestination(text))) => {
            assert!(response.starts_with("HTTP/1.1 400 Invalid CONNECT Target\r\n"));
            assert_eq!(text, "endpoint is missing a port");
        }
        other => panic!("{other:?}"),
    }
}

#[test]
fn requests_that_cannot_be_read_are_refused() {
    match proxy().handle_client(b"nonsense\x00\r\n\r\n") {
        ClientStep::Reject(response, Err(ProxyError::Http(HttpError::Parse(MalformedHead::Token)))) => {
            assert!(response.starts_with("HTTP/1.1 400 Bad Request\r\n"));
        }
        other => panic!("{other:?}"),
    }
    match proxy().handle_client(&[b'a'; 1024]) {
        ClientStep::Reject(_, Err(ProxyError::Http(HttpError::HeaderTooLarge))) => {}
        other => panic!("{other:?}"),
    }
    match answer_request(Err(HttpError::UnexpectedEof)) {
        ClientStep::Reject(response, Err(ProxyError::Http(HttpError::UnexpectedEof))) => {
            assert!(response.ends_with("400 Bad Request\n"));
        }
        other => panic!("{other:?}"),
    }
}

#[test]
fn a_request_is_read_up_to_the_limit() {
    match proxy().handle_client(b"CONNECT ") {
        ClientStep::Read(wanted) => assert_eq!(wanted, 1016),
        other => panic!("{other:?}"),
    }
}

#[test]
fn a_request_may_arrive_in_pieces() {
    let proxy = proxy();
    let mut received = Vec::new();
    match proxy.receive_from_client(&mut received, b"CONNECT example.test:443 ") {
        ClientStep::Read(wanted) => assert_eq!(wanted, 999),
        other => panic!("{other:?}"),
    }
    match proxy.receive_from_client(&mut received, b"HTTP/1.1\r\n\r\nearly") {
        ClientStep::Open(destination, early) => {
            assert_eq!(destination.to_string(), "example.test:443");
            assert_eq!(early, b"early");
        }
        other => panic!("{other:?}"),
    }
    assert_eq!(received, b"CONNECT example.test:443 HTTP/1.1\r\n\r\nearly");
}

#[test]
fn a_client_that_ends_within_its_request_is_refused() {
    let proxy = proxy();
    for sent in [&b""[..], b"CONNECT example.test:443 HTTP/1.1\r\n", &[b'a'; 1023]] {
        let mut received = sent.to_vec();
        match proxy.receive_from_client(&mut received, b"") {
            ClientStep::Reject(response, Err(ProxyError::Http(HttpError::UnexpectedEof))) => {
                assert!(response.starts_with("HTTP/1.1 400 Bad Request\r\n"));
            }
            other => panic!("{other:?}"),
        }
        assert_eq!(received, sent);
    }
    let mut received = vec![b'a'; 1024];
    assert!(matches!(
        proxy.receive_from_client(&mut received, b""),
        ClientStep::Reject(_, Err(ProxyError::Http(HttpError::HeaderTooLarge)))
    ));
    let mut received = b"CONNECT example.test:443 HTTP/1.1\r\n\r\n".to_vec();
    assert!(matches!(
        proxy.receive_from_client(&mut received, b""),
        ClientStep::Open(_, _)
    ));
}

#[test]
fn without_a_tunnel_the_client_is_told() {
    match begin_relay(Err(ProxyError::UpstreamStatus(503)), b"early".to_vec()) {
        TunnelStart::Reject(response, ProxyError::UpstreamStatus(503)) => {
            assert!(response.starts_with("HTTP/1.1 502 Bad Gateway\r\n"));
        }
        other => panic!("{other:?}"),
    }
}

#[test]
fn early_bytes_of_both_sides_are_kept() {
    match begin_relay(Ok(b"down".to_vec()), b"up".to_vec()) {
        TunnelStart::Relay(parcels) => {
            assert_eq!(parcels.len(), 3);
            assert_eq!(
                parcels[0].bytes,
                b"HTTP/1.1 200 Connection Established\r\n\r\n"
            );
            assert_eq!(parcels[1].bytes, b"up");
            assert_eq!(parcels[2].bytes, b"down");
        }
        TunnelStart::Reject(_, error) => panic!("{error:?}"),
    }
    match begin_relay(Ok(Vec::new()), Vec::new()) {
        TunnelStart::Relay(parcels) => assert_eq!(parcels.len(), 1),
        TunnelStart::Reject(_, error) => panic!("{error:?}"),
    }
}

#[test]
fn clients_are_accepted_with_a_permit_each() {
    let proxy = proxy();
    assert_eq!(proxy.permits(), 2);
    let mut phase = AcceptPhase::Permit;
    for _ in 0..3 {
        assert_eq!(
            proxy.serve_until(&mut phase, AcceptEvent::PermitGranted),
            AcceptAction::Accept
        );
        assert_eq!(phase, AcceptPhase::Client);
        assert_eq!(
            proxy.serve_until(&mut phase, AcceptEvent::ClientAccepted),
            AcceptAction::Serve
        );
        assert_eq!(phase, AcceptPhase::Permit);
    }
    assert_eq!(
        proxy.serve_until(&mut phase, AcceptEvent::ShutdownRequested),
        AcceptAction::Stop
    );
    assert_eq!(phase, AcceptPhase::Stopped);
}

#[test]
fn loops_of_one_proxy_share_its_permits() {
    let proxies = [proxy(), proxy().clone()];
    let mut phases = [AcceptPhase::Permit, AcceptPhase::Permit];
    let mut free = proxies[0].permits();
    assert_eq!(proxies[1].permits(), free);
    let mut clients = 0;
    for turn in [0, 1, 0, 1] {
        if phases[turn] == AcceptPhase::Permit && free > 0 {
            free -= 1;
            let action = proxies[turn].serve_until(&mut phases[turn], AcceptEvent::PermitGranted);
            assert_eq!(action, AcceptAction::Accept);
        }
        if phases[turn] == AcceptPhase::Client {
            let action = proxies[turn].serve_until(&mut phases[turn], AcceptEvent::ClientAccepted);
            assert_eq!(action, AcceptAction::Serve);
            clients += 1;
        }
        assert!(clients <= proxies[0].permits());
    }
    assert_eq!((clients, free), (2, 0));
    assert_eq!(phases, [AcceptPhase::Permit, AcceptPhase::Permit]);
}

#[test]
fn accepting_ends_with_an_error_or_without_permits() {
    let proxy = proxy();
    let mut phase = AcceptPhase::Client;
    assert_eq!(
        proxy.serve_until(&mut phase, AcceptEvent::AcceptFailed),
        AcceptAction::Fail
    );
    assert_eq!(phase, AcceptPhase::Stopped);
    let mut phase = AcceptPhase::Permit;
    assert_eq!(
        proxy.serve_until(&mut phase, AcceptEvent::PermitsClosed),
        AcceptAction::Stop
    );
    let mut phase = AcceptPhase::Client;
    assert_eq!(
        proxy.serve_until(&mut phase, AcceptEvent::ShutdownRequested),
        AcceptAction::Stop
    );
    assert_eq!(phase, AcceptPhase::Stopped);
}

#[test]
fn a_pump_counts_what_it_writes() {
    let mut pump = Pump::new();
    for read in [10, 65536, 1] {
        assert_eq!(pump.after_read(read), PumpAction::Forward(read));
        pump.after_write(read);
    }
    assert_eq!(pump.after_read(0), PumpAction::Finish(65547));
}

#[test]
fn a_relay_ends_with_both_directions_or_the_first_error() {
    let mut relay = Relay::new();
    assert!(relay
        .relay_bidirectional(RelayEvent::Ended(Direction::ToClient, 7))
        .is_none());
    assert!(matches!(
        relay.relay_bidirectional(RelayEvent::Ended(Direction::ToUpstream, 5)),
        Some(Ok((5, 7)))
    ));

    let mut relay = Relay::new();
    assert!(relay
        .relay_bidirectional(RelayEvent::Ended(Direction::ToUpstream, 5))
        .is_none());
    match relay.relay_bidirectional(RelayEvent::Failed("broken pipe".to_owned())) {
        Some(Err(error)) => assert_eq!(error.to_string(), "broken pipe"),
        other => panic!("{other:?}"),
    }

    match Relay::new().relay_bidirectional(RelayEvent::Expired) {
        Some(Err(error)) => {
            assert!(matches!(error, RelayError::IdleTimeout));
            assert_eq!(error.to_string(), "tunnel idle timeout elapsed");
        }
        other => panic!("{other:?}"),
    }
}

#[test]
fn only_idle_tunnels_expire() {
    assert_eq!(
        idle_watchdog(WatchEvent::Started, 100, 100, 50),
        WatchAction::WaitUntil(150)
    );
    assert_eq!(
        idle_watchdog(WatchEvent::Activity, 120, 900, 50),
        WatchAction::WaitUntil(170)
    );
    assert_eq!(
        idle_watchdog(WatchEvent::Woken, 120, 150, 50),
        WatchAction::WaitUntil(170)
    );
    assert_eq!(
        idle_watchdog(WatchEvent::Woken, 120, 169, 50),
        WatchAction::WaitUntil(170)
    );
    assert_eq!(
        idle_watchdog(WatchEvent::Woken, 120, 170, 50),
        WatchAction::Expire
    );
    assert_eq!(
        idle_watchdog(WatchEvent::Abandoned, 120, 121, 50),
        WatchAction::Expire
    );
}

#[test]
fn tunnels_without_a_timeout_never_expire() {
    for event in [
        WatchEvent::Started,
        WatchEvent::Woken,
        WatchEvent::Activity,
        WatchEvent::Abandoned,
    ] {
        assert_eq!(
            watch_tunnel(event, 0, u128::MAX, None),
            WatchAction::WaitForEnd
        );
    }
    assert_eq!(
        watch_tunnel(WatchEvent::Started, 100, 100, Some(50)),
        WatchAction::WaitUntil(150)
    );
    assert_eq!(
        watch_tunnel(WatchEvent::Woken, 120, 170, Some(50)),
        WatchAction::Expire
    );
}

#[test]
fn bytes_in_either_direction_keep_a_tunnel_open() {
    let mut last_activity = 0;
    for time in [40, 80, 120] {
        assert_eq!(
            watch_tunnel(WatchEvent::Woken, last_activity, last_activity + 49, Some(50)),
            WatchAction::WaitUntil(last_activity + 50)
        );
        last_activity = time;
        assert_eq!(
            watch_tunnel(WatchEvent::Activity, last_activity, time, Some(50)),
            WatchAction::WaitUntil(time + 50)
        );
    }
    assert_eq!(
        watch_tunnel(WatchEvent::Woken, last_activity, 170, Some(50)),
        WatchAction::Expire
    );
}

#[test]
fn a_native_handshake_takes_its_steps() {
    let mut progress = SspiProgress::new();
    assert!(matches!(progress.begin_step(None), Ok(None)));
    assert!(!progress.initialized(SEC_I_CONTINUE_NEEDED));
    assert!(progress.has_context);
    let token = progress.finish_step(SEC_I_CONTINUE_NEEDED, b"one".to_vec(), None, None);
    assert_eq!(token.unwrap(), b"one");
    assert!(matches!(progress.begin_step(Some(12)), Ok(Some(12))));
    assert!(progress.initialized(SEC_I_COMPLETE_AND_CONTINUE));
    let token = progress.finish_step(SEC_I_COMPLETE_AND_CONTINUE, b"two".to_vec(), None, None);
    assert_eq!(token.unwrap(), b"two");
    assert!(!progress.complete);
    assert!(progress.initialized(SEC_I_COMPLETE_NEEDED));
    let token = progress.finish_step(SEC_I_COMPLETE_NEEDED, Vec::new(), None, None);
    assert!(token.unwrap().is_empty());
    assert!(matches!(
        progress.begin_step(None),
        Err(AuthError::ContextComplete)
    ));
}

#[test]
fn a_native_handshake_reports_its_first_error() {
    let mut progress = SspiProgress::new();
    assert!(!progress.initialized(0x8009_030c_u32 as i32));
    assert!(!progress.has_context);
    let denied = progress.finish_step(0x8009_030c_u32 as i32, Vec::new(), None, None);
    match denied {
        Err(AuthError::Native(text)) => {
            assert_eq!(text, "InitializeSecurityContextW returned 0x8009030c");
        }
        other => panic!("{other:?}"),
    }
    let both = progress.finish_step(
        SEC_E_OK,
        Vec::new(),
        Some("free".to_owned()),
        Some("complete".to_owned()),
    );
    assert!(matches!(both, Err(AuthError::Native(text)) if text == "free"));
    let one = progress.finish_step(SEC_E_OK, Vec::new(), None, Some("complete".to_owned()));
    assert!(matches!(one, Err(AuthError::Native(text)) if text == "complete"));
    assert!(!progress.complete);
    let small = progress.finish_step(1, Vec::new(), None, None);
    assert!(
        matches!(small, Err(AuthError::Native(text)) if text == "InitializeSecurityContextW returned 0x00000001")
    );
}

#[test]
fn a_native_challenge_has_a_limit() {
    let progress = SspiProgress::new();
    assert!(matches!(
        progress.begin_step(Some(usize::MAX)),
        Err(AuthError::TokenTooLarge)
    ));
    assert!(matches!(
        progress.begin_step(Some(u32::MAX as usize)),
        Ok(Some(u32::MAX))
    ));
}

#[test]
fn target_names_are_encoded_with_a_zero() {
    let name = "HTTP/pr\u{f6}xy\u{1f600}\u{10ffff}\u{ffff}";
    let mut expected: Vec<u16> = name.encode_utf16().collect();
    expected.push(0);
    assert_eq!(encode_target_name(name), expected);
    assert_eq!(encode_target_name(""), vec![0]);
}

#[test]
fn a_native_handshake_stays_open_until_it_completes() {
    let mut progress = SspiProgress::new();
    let denied = 0x8009_030c_u32 as i32;
    for status in [denied, SEC_I_CONTINUE_NEEDED, denied, SEC_I_COMPLETE_AND_CONTINUE] {
        assert!(progress.begin_step(Some(1)).is_ok());
        assert!(matches!(
            progress.begin_step(Some(usize::MAX)),
            Err(AuthError::TokenTooLarge)
        ));
        progress.initialized(status);
        let outcome = progress.finish_step(status, Vec::new(), None, None);
        assert_eq!(outcome.is_ok(), status != denied);
    }
    progress.initialized(SEC_E_OK);
    let failed = progress.finish_step(SEC_E_OK, Vec::new(), Some("free".to_owned()), None);
    assert!(failed.is_err());
    assert!(progress.begin_step(None).is_ok());
    progress.initialized(SEC_E_OK);
    assert!(progress.finish_step(SEC_E_OK, Vec::new(), None, None).is_ok());
    for _ in 0..2 {
        assert!(matches!(
            progress.begin_step(Some(1)),
            Err(AuthError::ContextComplete)
        ));
    }
}

#[test]
fn a_request_within_the_limit_is_needed() {
    let mut bytes = b"CONNECT example.test:443 HTTP/1.1\r\nX: ".to_vec();
    bytes.extend_from_slice(&[b'a'; 1000]);
    bytes.extend_from_slice(b"\r\n\r\n");
    match proxy().handle_client(&bytes) {
        ClientStep::Reject(response, Err(ProxyError::Http(HttpError::HeaderTooLarge))) => {
            assert!(response.starts_with("HTTP/1.1 400 Bad Request\r\n"));
        }
        other => panic!("{other:?}"),
    }
}
