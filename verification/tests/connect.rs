use std::sync::Arc;

use fastpx::address::IpAddress;
use fastpx::body::DrainProgress;
use fastpx::config::SocketAddress;
use fastpx::handshake::{HandshakeAction, HandshakeEvent};
use fastpx::http1::{BufferedStream, HttpError, ResponseProgress};
use fastpx::routing::Route;
use fastpx::server::ProxyError;
use fastpx::session::{begin_relay, ClientStep, Side, TunnelStart};
use fastpx::{
    AuthContext, AuthError, AuthFactory, AuthMode, AuthScheme, Endpoint, IpCidr, Proxy,
    ProxyConfig, RoutingMode,
};

/// One connection of the upstream proxy: what it answers to each request.
type Replies = Vec<&'static [u8]>;

/// What became of a tunnel: the requests, each with the number of its connection, and the bytes
/// that came through the tunnel early, or the error.
struct Opened {
    requests: Vec<(usize, String)>,
    outcome: Result<Vec<u8>, ProxyError>,
}

/// A socket on which bytes arrive a few at a time.
struct Socket {
    waiting: Vec<u8>,
}

impl Socket {
    fn read(&mut self, wanted: usize) -> Vec<u8> {
        let count = wanted.min(3).min(self.waiting.len());
        self.waiting.drain(..count).collect()
    }
}

fn exchange(
    stream: &mut BufferedStream,
    socket: &mut Socket,
    max_header_bytes: usize,
) -> HandshakeEvent {
    loop {
        match stream.read_response_head(max_header_bytes) {
            Ok(ResponseProgress::Complete(head)) => return HandshakeEvent::Response(head),
            Ok(ResponseProgress::Read(wanted)) => {
                let chunk = socket.read(wanted);
                if let Err(error) = stream.receive(&chunk) {
                    return HandshakeEvent::Failed(ProxyError::Http(error));
                }
            }
            Err(error) => return HandshakeEvent::Failed(ProxyError::Http(error)),
        }
    }
}

fn open<F: AuthFactory + ?Sized>(
    proxy: &Proxy<F>,
    destination: Endpoint,
    connections: &[Replies],
) -> Opened {
    let mut handshake = proxy.establish_tunnel(destination);
    let mut action = HandshakeAction::Connect;
    let mut requests = Vec::new();
    let mut connected = 0;
    let mut answered = 0;
    let mut socket = Socket { waiting: Vec::new() };
    let mut stream = BufferedStream::new();
    loop {
        let event = match action {
            HandshakeAction::Connect => {
                connected += 1;
                answered = 0;
                socket.waiting.clear();
                stream = BufferedStream::new();
                if connected <= connections.len() {
                    HandshakeEvent::Connected
                } else {
                    HandshakeEvent::Failed(ProxyError::ConnectTimeout)
                }
            }
            HandshakeAction::Exchange(request) => {
                requests.push((connected, request));
                let replies = &connections[connected - 1];
                if answered < replies.len() {
                    socket.waiting.extend_from_slice(replies[answered]);
                    answered += 1;
                }
                exchange(&mut stream, &mut socket, proxy.config().max_header_bytes)
            }
            HandshakeAction::Drain(mut drain) => loop {
                match stream.drain_response_body(&mut drain) {
                    Ok(DrainProgress::Done) => break HandshakeEvent::Drained,
                    Ok(DrainProgress::Read(wanted)) => {
                        let chunk = socket.read(wanted);
                        if let Err(error) = stream.receive(&chunk) {
                            break HandshakeEvent::Failed(ProxyError::Http(error));
                        }
                    }
                    Err(error) => break HandshakeEvent::Failed(ProxyError::Http(error)),
                }
            },
            HandshakeAction::Established => {
                return Opened {
                    requests,
                    outcome: Ok(stream.into_parts()),
                };
            }
            HandshakeAction::Fail(error) => {
                return Opened {
                    requests,
                    outcome: Err(error),
                };
            }
        };
        assert!(handshake.accepts(&event));
        let (next, asked) = proxy.continue_tunnel(handshake, event);
        handshake = next;
        action = asked;
    }
}

fn config(auth: AuthMode) -> ProxyConfig {
    ProxyConfig {
        listen: SocketAddress::V4 {
            ipv4: 0x7f00_0001,
            port: 3128,
        },
        upstream: Endpoint::new("127.0.0.1".to_owned(), 8080),
        auth,
        connect_timeout: 5_000_000_000,
        idle_timeout: Some(5_000_000_000),
        max_header_bytes: 32 * 1024,
        max_connections: 16,
    }
}

fn proxy(auth: AuthMode) -> Proxy<MockFactory> {
    Proxy::with_auth_factory(config(auth), Arc::new(MockFactory))
}

fn service() -> Endpoint {
    Endpoint::new("service.test".to_owned(), 443)
}

const ESTABLISHED: &[u8] = b"HTTP/1.1 200 Connection Established\r\n\r\n";

#[test]
fn connect_tunnel_relays_early_client_data() {
    let proxy = proxy(AuthMode::Disabled);
    let received = b"CONNECT example.test:443 HTTP/1.1\r\n\
                     Host: example.test:443\r\n\r\n\
                     ping";
    let (destination, early) = match proxy.handle_client(received) {
        ClientStep::Open(destination, early) => (destination, early),
        other => panic!("{other:?}"),
    };
    assert_eq!(proxy.route(&[]), Route::Upstream);
    let opened = open(&proxy, destination, &[vec![ESTABLISHED]]);
    assert_eq!(opened.requests.len(), 1);
    assert!(opened.requests[0]
        .1
        .starts_with("CONNECT example.test:443 HTTP/1.1\r\n"));

    match begin_relay(opened.outcome, early) {
        TunnelStart::Relay(parcels) => {
            assert_eq!(parcels.len(), 2);
            assert_eq!(parcels[0].to, Side::Client);
            assert!(parcels[0].bytes.starts_with(b"HTTP/1.1 200 "));
            assert_eq!(parcels[1].to, Side::Upstream);
            assert_eq!(parcels[1].bytes, b"ping");
        }
        TunnelStart::Reject(_, error) => panic!("{error:?}"),
    }
}

#[test]
fn ntlm_handshake_reuses_connection_and_drains_407_body() {
    let proxy = proxy(AuthMode::Ntlm);
    let opened = open(
        &proxy,
        service(),
        &[vec![
            b"HTTP/1.1 407 Proxy Authentication Required\r\n\
              Proxy-Authenticate: NTLM\r\n\
              Content-Length: 0\r\n\r\n",
            b"HTTP/1.1 407 Proxy Authentication Required\r\n\
              Proxy-Authenticate: NTLM dHlwZTI=\r\n\
              Content-Length: 5\r\n\r\n\
              hello",
            ESTABLISHED,
        ]],
    );
    assert!(opened.outcome.unwrap().is_empty());
    assert_eq!(opened.requests.len(), 3);
    for (connection, _) in &opened.requests {
        assert_eq!(*connection, 1);
    }
    let first = &opened.requests[0].1;
    assert!(first.starts_with("CONNECT service.test:443 HTTP/1.1\r\n"));
    assert!(!first.to_ascii_lowercase().contains("proxy-authorization"));
    assert!(opened.requests[1]
        .1
        .contains("Proxy-Authorization: NTLM dHlwZTE=\r\n"));
    assert!(opened.requests[2]
        .1
        .contains("Proxy-Authorization: NTLM dHlwZTM=\r\n"));
}

#[test]
fn ntlm_reconnects_after_tokenless_407_closes_probe_socket() {
    let proxy = proxy(AuthMode::Ntlm);
    let opened = open(
        &proxy,
        service(),
        &[
            vec![
                b"HTTP/1.1 407 Proxy Authentication Required\r\n\
                  Proxy-Authenticate: NTLM\r\n\
                  Connection: close\r\n\
                  Content-Length: 0\r\n\r\n",
            ],
            vec![
                b"HTTP/1.1 407 Proxy Authentication Required\r\n\
                  Proxy-Authenticate: NTLM dHlwZTI=\r\n\
                  Content-Length: 0\r\n\r\n",
                ESTABLISHED,
            ],
        ],
    );
    assert!(opened.outcome.is_ok());
    assert_eq!(opened.requests.len(), 3);
    assert_eq!(opened.requests[0].0, 1);
    assert_eq!(opened.requests[1].0, 2);
    assert_eq!(opened.requests[2].0, 2);
    assert!(opened.requests[1]
        .1
        .contains("Proxy-Authorization: NTLM dHlwZTE=\r\n"));
    assert!(opened.requests[2]
        .1
        .contains("Proxy-Authorization: NTLM dHlwZTM=\r\n"));
}

#[test]
fn bytes_behind_the_response_belong_to_the_tunnel() {
    let opened = open(
        &proxy(AuthMode::Disabled),
        service(),
        &[vec![b"HTTP/1.1 200 OK\r\n\r\nSSH-2.0"]],
    );
    let mut prefetched = opened.outcome.unwrap();
    assert!(b"SSH-2.0".starts_with(&prefetched));
    prefetched.extend_from_slice(b"!");
    match begin_relay(Ok(prefetched.clone()), Vec::new()) {
        TunnelStart::Relay(parcels) => {
            assert_eq!(parcels.len(), 2);
            assert_eq!(parcels[1].to, Side::Client);
            assert_eq!(parcels[1].bytes, prefetched);
        }
        TunnelStart::Reject(_, error) => panic!("{error:?}"),
    }
}

#[test]
fn another_status_fails() {
    let opened = open(
        &proxy(AuthMode::Ntlm),
        service(),
        &[vec![b"HTTP/1.1 503 Busy\r\n\r\n"]],
    );
    assert!(matches!(
        opened.outcome,
        Err(ProxyError::UpstreamStatus(503))
    ));
}

#[test]
fn disabled_authentication_sends_no_token() {
    let opened = open(
        &proxy(AuthMode::Disabled),
        service(),
        &[vec![
            b"HTTP/1.1 407 No\r\nProxy-Authenticate: NTLM\r\nContent-Length: 0\r\n\r\n",
        ]],
    );
    assert!(matches!(
        opened.outcome,
        Err(ProxyError::AuthenticationRequired)
    ));
    assert_eq!(opened.requests.len(), 1);
}

#[test]
fn a_scheme_that_is_not_offered_fails() {
    let opened = open(
        &proxy(AuthMode::Ntlm),
        service(),
        &[vec![b"HTTP/1.1 407 No\r\nProxy-Authenticate: Basic\r\n\r\n"]],
    );
    assert!(matches!(
        opened.outcome,
        Err(ProxyError::AuthenticationSchemeMissing)
    ));
}

#[test]
fn a_scheme_that_is_withdrawn_fails() {
    let opened = open(
        &proxy(AuthMode::Ntlm),
        service(),
        &[vec![
            b"HTTP/1.1 407 No\r\nProxy-Authenticate: NTLM\r\n\r\n",
            b"HTTP/1.1 407 No\r\nProxy-Authenticate: Basic\r\n\r\n",
        ]],
    );
    assert!(matches!(
        opened.outcome,
        Err(ProxyError::AuthenticationSchemeMissing)
    ));
    assert_eq!(opened.requests.len(), 2);
}

#[test]
fn a_challenge_that_is_no_base64_fails() {
    let opened = open(
        &proxy(AuthMode::Ntlm),
        service(),
        &[vec![b"HTTP/1.1 407 No\r\nProxy-Authenticate: NTLM ??\r\n\r\n"]],
    );
    assert!(matches!(
        opened.outcome,
        Err(ProxyError::InvalidAuthenticationToken)
    ));
}

#[test]
fn a_connection_that_closes_with_a_token_fails() {
    let opened = open(
        &proxy(AuthMode::Ntlm),
        service(),
        &[
            vec![
                b"HTTP/1.1 407 No\r\nProxy-Authenticate: NTLM dHlwZTI=\r\nConnection: close\r\n\r\n",
            ],
            vec![ESTABLISHED],
        ],
    );
    assert!(matches!(
        opened.outcome,
        Err(ProxyError::ConnectionClosedDuringAuth)
    ));
    let opened = open(
        &proxy(AuthMode::Ntlm),
        service(),
        &[
            vec![
                b"HTTP/1.1 407 No\r\nProxy-Authenticate: NTLM\r\n\r\n",
                b"HTTP/1.1 407 No\r\nProxy-Authenticate: NTLM\r\nConnection: close\r\n\r\n",
            ],
            vec![ESTABLISHED],
        ],
    );
    assert!(matches!(
        opened.outcome,
        Err(ProxyError::ConnectionClosedDuringAuth)
    ));
}

#[test]
fn the_handshake_has_a_round_limit() {
    let again: &[u8] = b"HTTP/1.1 407 No\r\nProxy-Authenticate: Negotiate\r\nContent-Length: 0\r\n\r\n";
    let proxy = Proxy::with_auth_factory(config(AuthMode::Auto), Arc::new(EndlessFactory));
    let opened = open(&proxy, service(), &[vec![again; 10]]);
    assert!(matches!(
        opened.outcome,
        Err(ProxyError::TooManyAuthenticationRounds)
    ));
    assert_eq!(opened.requests.len(), 5);
    for (_, request) in &opened.requests[1..] {
        assert!(request.contains("Proxy-Authorization: Negotiate AQID\r\n"));
    }
}

#[test]
fn the_fourth_token_may_succeed() {
    let again: &[u8] = b"HTTP/1.1 407 No\r\nProxy-Authenticate: Negotiate\r\nContent-Length: 0\r\n\r\n";
    let proxy = Proxy::with_auth_factory(config(AuthMode::Auto), Arc::new(EndlessFactory));
    let opened = open(
        &proxy,
        service(),
        &[vec![again, again, again, again, ESTABLISHED]],
    );
    assert!(opened.outcome.is_ok());
    assert_eq!(opened.requests.len(), 5);
}

#[test]
fn native_credentials_are_missing_here() {
    let proxy = Proxy::new(config(AuthMode::Auto));
    let opened = open(
        &proxy,
        service(),
        &[vec![b"HTTP/1.1 407 No\r\nProxy-Authenticate: NTLM\r\n\r\n"]],
    );
    assert!(matches!(
        opened.outcome,
        Err(ProxyError::Authentication(AuthError::UnsupportedPlatform))
    ));
    assert_eq!(opened.requests.len(), 1);
}

#[test]
fn the_errors_of_a_context_are_reported() {
    let opened = open(
        &proxy(AuthMode::Ntlm),
        service(),
        &[vec![
            b"HTTP/1.1 407 No\r\nProxy-Authenticate: NTLM dHlwZTI=\r\n\r\n",
        ]],
    );
    match opened.outcome {
        Err(ProxyError::Authentication(AuthError::Native(text))) => {
            assert!(text.starts_with("unexpected mock auth step 0"));
        }
        other => panic!("{other:?}"),
    }
}

#[test]
fn responses_that_are_cut_short_or_too_long_fail() {
    let opened = open(
        &proxy(AuthMode::Disabled),
        service(),
        &[vec![b"HTTP/1.1 200 OK\r\n"]],
    );
    assert!(matches!(
        opened.outcome,
        Err(ProxyError::Http(HttpError::UnexpectedEof))
    ));
    let mut small = config(AuthMode::Disabled);
    small.max_header_bytes = 10;
    let opened = open(&Proxy::new(small), service(), &[vec![ESTABLISHED]]);
    assert!(matches!(
        opened.outcome,
        Err(ProxyError::Http(HttpError::HeaderTooLarge))
    ));
    let opened = open(
        &proxy(AuthMode::Ntlm),
        service(),
        &[vec![
            b"HTTP/1.1 407 No\r\nProxy-Authenticate: NTLM\r\nContent-Length: x\r\n\r\n",
        ]],
    );
    assert!(matches!(
        opened.outcome,
        Err(ProxyError::Http(HttpError::InvalidContentLength))
    ));
}

#[test]
fn a_failed_connection_fails_the_tunnel() {
    let opened = open(&proxy(AuthMode::Disabled), service(), &[]);
    assert!(matches!(opened.outcome, Err(ProxyError::ConnectTimeout)));
    assert!(opened.requests.is_empty());
}

#[test]
fn a_proxy_routes_as_it_is_told() {
    let internal: IpAddress = "10.0.0.1".parse().unwrap();
    let lab: IpAddress = "203.0.113.9".parse().unwrap();
    let auto = proxy(AuthMode::Disabled);
    assert!(auto.resolves_destinations());
    assert_eq!(auto.route(&[lab, internal]), Route::Direct(internal));
    let networks = vec!["203.0.113.0/24".parse::<IpCidr>().unwrap()];
    let extended = auto.with_routing(RoutingMode::Auto, networks);
    assert_eq!(extended.route(&[lab, internal]), Route::Direct(lab));
    let strict = extended.with_routing(RoutingMode::ProxyOnly, Vec::new());
    assert!(!strict.resolves_destinations());
    assert_eq!(strict.route(&[lab, internal]), Route::Upstream);
    assert_eq!(strict.permits(), 16);
}

#[derive(Debug)]
struct MockFactory;

impl AuthFactory for MockFactory {
    fn create(
        &self,
        scheme: AuthScheme,
        target_name: &str,
    ) -> Result<Box<dyn AuthContext>, AuthError> {
        if scheme != AuthScheme::Ntlm {
            return Err(AuthError::Native("expected NTLM".to_owned()));
        }
        if !target_name.starts_with("HTTP/127.0.0.1") {
            return Err(AuthError::Native(format!(
                "unexpected target name {target_name}"
            )));
        }
        Ok(Box::new(MockContext { step: 0 }))
    }
}

struct MockContext {
    step: usize,
}

impl AuthContext for MockContext {
    fn step(&mut self, challenge: Option<&[u8]>) -> Result<Vec<u8>, AuthError> {
        let token = match self.step {
            0 if challenge.is_none() => b"type1".to_vec(),
            1 if challenge == Some(b"type2".as_slice()) => b"type3".to_vec(),
            _ => {
                return Err(AuthError::Native(format!(
                    "unexpected mock auth step {} with challenge {challenge:?}",
                    self.step
                )));
            }
        };
        self.step += 1;
        Ok(token)
    }
}

/// A provider that makes the same token over and over.
struct EndlessFactory;

impl AuthFactory for EndlessFactory {
    fn create(
        &self,
        _scheme: AuthScheme,
        _target_name: &str,
    ) -> Result<Box<dyn AuthContext>, AuthError> {
        Ok(Box::new(EndlessContext))
    }
}

struct EndlessContext;

impl AuthContext for EndlessContext {
    fn step(&mut self, _challenge: Option<&[u8]>) -> Result<Vec<u8>, AuthError> {
        Ok(vec![1, 2, 3])
    }
}

/// A provider whose contexts number their tokens, so that a token tells which context made it and
/// how many it had made before.
struct CountingFactory;

impl AuthFactory for CountingFactory {
    fn create(
        &self,
        scheme: AuthScheme,
        target_name: &str,
    ) -> Result<Box<dyn AuthContext>, AuthError> {
        Ok(Box::new(CountingContext {
            name: format!("{}-{target_name}", scheme.header_name()),
            made: 0,
        }))
    }
}

struct CountingContext {
    name: String,
    made: usize,
}

impl AuthContext for CountingContext {
    fn step(&mut self, challenge: Option<&[u8]>) -> Result<Vec<u8>, AuthError> {
        self.made += 1;
        let text = format!("{}-{}-{challenge:?}", self.name, self.made);
        Ok(text.into_bytes())
    }
}

#[test]
fn one_context_makes_every_token() {
    let proxy = Proxy::with_auth_factory(config(AuthMode::Auto), Arc::new(CountingFactory));
    let opened = open(
        &proxy,
        service(),
        &[vec![
            b"HTTP/1.1 407 No\r\nProxy-Authenticate: Negotiate\r\nContent-Length: 0\r\n\r\n",
            b"HTTP/1.1 407 No\r\nProxy-Authenticate: Negotiate QQ==\r\nContent-Length: 0\r\n\r\n",
            b"HTTP/1.1 407 No\r\nProxy-Authenticate: NTLM Qw==, Negotiate Qg==\r\nContent-Length: 0\r\n\r\n",
            ESTABLISHED,
        ]],
    );
    assert!(opened.outcome.is_ok());
    let tokens: Vec<String> = opened.requests[1..]
        .iter()
        .map(|(_, request)| {
            let start = request.find("Negotiate ").unwrap() + 10;
            let end = start + request[start..].find('\r').unwrap();
            let token = fastpx::encoding::decode_token(&request[start..end]).unwrap();
            String::from_utf8(token).unwrap()
        })
        .collect();
    assert_eq!(
        tokens,
        vec![
            "Negotiate-HTTP/127.0.0.1-1-None",
            "Negotiate-HTTP/127.0.0.1-2-Some([65])",
            "Negotiate-HTTP/127.0.0.1-3-Some([66])",
        ]
    );
}

#[test]
fn tokens_do_not_show_in_errors() {
    let challenge: [&[u8]; 2] = [
        b"HTTP/1.1 407 No\r\nProxy-Authenticate: NTLM c2VjcmV0\r\nConnection: close\r\n\r\n",
        b"HTTP/1.1 407 No\r\nProxy-Authenticate: NTLM cHVibGlj\r\nConnection: close\r\n\r\n",
    ];
    let texts: Vec<String> = challenge
        .iter()
        .map(|reply| {
            let opened = open(&proxy(AuthMode::Ntlm), service(), &[vec![*reply]]);
            opened.outcome.unwrap_err().to_string()
        })
        .collect();
    assert_eq!(texts[0], texts[1]);
    assert!(!texts[0].contains("secret") && !texts[0].contains("c2VjcmV0"));
}

#[test]
fn a_long_head_behind_a_chunked_body_is_refused() {
    let mut small = config(AuthMode::Auto);
    small.max_header_bytes = 120;
    let long: &'static [u8] = b"HTTP/1.1 407 No\r\nTransfer-Encoding: chunked\r\n\
        Proxy-Authenticate: Negotiate\r\n\r\n0\r\n\r\n";
    let proxy = Proxy::with_auth_factory(small, Arc::new(EndlessFactory));
    let second: &'static [u8] = b"HTTP/1.1 200 OK\r\nX: aaaaaaaaaaaaaaaaaaaaaaaaaaaaaaaaaaaaaaaaaaaaaaaaaaaa\
        aaaaaaaaaaaaaaaaaaaaaaaaaaaaaaaaaaaaaaaaaaaaaaaaaaaaaaaaaaaaaaaaaaaa\r\n\r\n";
    let opened = open(&proxy, service(), &[vec![long, second]]);
    assert!(matches!(
        opened.outcome,
        Err(ProxyError::Http(HttpError::HeaderTooLarge))
    ));
}

#[test]
fn a_proxy_can_be_cloned() {
    let networks = vec!["203.0.113.0/24".parse::<IpCidr>().unwrap()];
    let first = proxy(AuthMode::Ntlm).with_routing(RoutingMode::Auto, networks);
    let second = first.clone();
    let lab: IpAddress = "203.0.113.9".parse().unwrap();
    assert_eq!(second.route(&[lab]), Route::Direct(lab));
    assert_eq!(second.config().upstream.to_string(), "127.0.0.1:8080");
    assert_eq!(second.config().auth, AuthMode::Ntlm);
    assert_eq!(second.permits(), first.permits());
}
