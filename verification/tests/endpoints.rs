use fastpx::address::IpAddress;
use fastpx::config::{EndpointParseError, Settings, SettingsError, SocketAddress};
use fastpx::number::NumberError;
use fastpx::{AuthMode, Endpoint};

fn error_of(text: &str) -> EndpointParseError {
    text.parse::<Endpoint>().unwrap_err()
}

fn settings() -> Settings {
    Settings {
        listen: SocketAddress::V4 {
            ipv4: 0x7f00_0001,
            port: 3128,
        },
        upstream: Endpoint::new("proxy.company.example".to_owned(), 8080),
        auth: AuthMode::Disabled,
        connect_timeout_seconds: 10,
        idle_timeout_seconds: 300,
        max_header_bytes: 32 * 1024,
        max_connections: 4096,
    }
}

#[test]
fn parses_dns_and_ipv6_endpoints() {
    let dns: Endpoint = "proxy.example:8080".parse().unwrap();
    assert_eq!(dns.host(), "proxy.example");
    assert_eq!(dns.port(), 8080);

    let ipv6: Endpoint = "[2001:db8::1]:3128".parse().unwrap();
    assert_eq!(ipv6.host(), "2001:db8::1");
    assert_eq!(ipv6.to_string(), "[2001:db8::1]:3128");
}

#[test]
fn rejects_unsafe_or_ambiguous_endpoints() {
    for invalid in [
        "",
        "proxy",
        "proxy:0",
        "user@proxy:80",
        "proxy\r\nInjected: yes:80",
        "2001:db8::1:3128",
    ] {
        assert!(invalid.parse::<Endpoint>().is_err(), "{invalid}");
    }
}

#[test]
fn names_the_fault_of_an_endpoint() {
    assert_eq!(error_of(""), EndpointParseError::Empty);
    assert_eq!(error_of(":80"), EndpointParseError::EmptyHost);
    assert_eq!(error_of("[]:80"), EndpointParseError::EmptyHost);
    assert_eq!(error_of("a b:80"), EndpointParseError::InvalidHost);
    assert_eq!(error_of("a/b:80"), EndpointParseError::InvalidHost);
    assert_eq!(error_of("a\u{c}b:80"), EndpointParseError::InvalidHost);
    assert_eq!(error_of("user@proxy:80"), EndpointParseError::InvalidHost);
    assert_eq!(error_of("proxy"), EndpointParseError::MissingPort);
    assert_eq!(error_of("[::1]"), EndpointParseError::MissingPort);
    assert_eq!(error_of("[::1]80"), EndpointParseError::MissingPort);
    assert_eq!(error_of("::1:80"), EndpointParseError::UnbracketedIpv6);
    assert_eq!(error_of("[::1:80"), EndpointParseError::InvalidIpv6);
    assert_eq!(error_of("proxy:0"), EndpointParseError::ZeroPort);
    assert_eq!(error_of("proxy:00"), EndpointParseError::ZeroPort);
    assert_eq!(
        error_of("proxy:"),
        EndpointParseError::InvalidPort(NumberError::Empty)
    );
    assert_eq!(
        error_of("proxy:80x"),
        EndpointParseError::InvalidPort(NumberError::InvalidDigit)
    );
    assert_eq!(
        error_of("proxy:65536"),
        EndpointParseError::InvalidPort(NumberError::TooLarge)
    );
}

#[test]
fn accepts_the_edges_of_a_port() {
    assert_eq!("h:1".parse::<Endpoint>().unwrap().port(), 1);
    assert_eq!("h:65535".parse::<Endpoint>().unwrap().port(), 65535);
    assert_eq!("h:+00443".parse::<Endpoint>().unwrap().port(), 443);
}

#[test]
fn describes_the_fault_of_an_endpoint() {
    assert_eq!(error_of("").to_string(), "endpoint is empty");
    assert_eq!(error_of(":1").to_string(), "endpoint host is empty");
    assert_eq!(
        error_of("@:1").to_string(),
        "endpoint host contains invalid characters"
    );
    assert_eq!(error_of("a").to_string(), "endpoint is missing a port");
    assert_eq!(
        error_of("a:b:1").to_string(),
        "IPv6 addresses must be enclosed in brackets"
    );
    assert_eq!(
        error_of("[a").to_string(),
        "invalid bracketed IPv6 endpoint"
    );
    assert_eq!(error_of("a:0").to_string(), "port must not be zero");
    assert_eq!(
        error_of("a:").to_string(),
        "invalid port: cannot parse integer from empty string"
    );
    assert_eq!(
        error_of("a:x").to_string(),
        "invalid port: invalid digit found in string"
    );
    assert_eq!(
        error_of("a:99999").to_string(),
        "invalid port: number too large to fit in target type"
    );
}

#[test]
fn written_endpoints_read_back() {
    for text in ["proxy.example:8080", "[2001:db8::1]:3128", "h\u{fc}tte:1"] {
        let endpoint: Endpoint = text.parse().unwrap();
        assert_eq!(endpoint.to_string(), text);
        let again: Endpoint = endpoint.to_string().parse().unwrap();
        assert_eq!(again.host(), endpoint.host());
        assert_eq!(again.port(), endpoint.port());
    }
}

#[test]
fn a_host_with_a_stray_bracket_does_not_read_back() {
    let endpoint: Endpoint = "[[x]:80".parse().unwrap();
    assert_eq!(endpoint.host(), "[x");
    assert_eq!(endpoint.to_string(), "[x:80");
    assert!(endpoint.to_string().parse::<Endpoint>().is_err());
}

#[test]
fn authentication_is_automatic_by_default() {
    assert_eq!(AuthMode::default(), AuthMode::Auto);
}

#[test]
fn settings_become_a_configuration() {
    let config = settings().check(false).unwrap();
    assert_eq!(config.upstream.to_string(), "proxy.company.example:8080");
    assert_eq!(config.connect_timeout, 10_000_000_000);
    assert_eq!(config.idle_timeout, Some(300_000_000_000));
    assert_eq!(config.max_header_bytes, 32768);
    assert_eq!(config.max_connections, 4096);
    assert_eq!(config.listen, settings().listen);
    assert_eq!(config.listen.ip(), IpAddress::V4(0x7f00_0001));

    let mut endless = settings();
    endless.idle_timeout_seconds = 0;
    assert_eq!(endless.check(true).unwrap().idle_timeout, None);
}

#[test]
fn a_scoped_listener_keeps_its_scope() {
    let listen = SocketAddress::V6 {
        ipv6: 0xfe80_0000_0000_0000_0000_0000_0000_0001,
        port: 3128,
        flow_info: 5,
        scope_id: 3,
    };
    let mut scoped = settings();
    scoped.listen = listen;
    let config = scoped.check(false).unwrap().clone();
    assert_eq!(config.listen, listen);
    assert_eq!(config.listen.ip(), "fe80::1".parse::<IpAddress>().unwrap());
}

#[test]
fn settings_are_checked_in_order() {
    let mut small = settings();
    small.max_header_bytes = 1023;
    small.max_connections = 0;
    small.auth = AuthMode::Auto;
    let error = small.check(false).unwrap_err();
    assert_eq!(error, SettingsError::HeaderLimitTooSmall);
    assert_eq!(error.message(), "--max-header-bytes must be at least 1024");

    let mut none = settings();
    none.max_header_bytes = 1024;
    none.max_connections = 0;
    none.auth = AuthMode::Auto;
    let error = none.check(false).unwrap_err();
    assert_eq!(error, SettingsError::NoConnections);
    assert_eq!(
        error.message(),
        "--max-connections must be greater than zero"
    );

    let mut native = settings();
    native.auth = AuthMode::Ntlm;
    let error = native.check(false).unwrap_err();
    assert_eq!(error, SettingsError::NoNativeCredentials);
    assert_eq!(
        error.message(),
        "native SSPI requires Windows; use --auth none on this platform"
    );

    let mut native = settings();
    native.auth = AuthMode::Ntlm;
    assert_eq!(native.check(true).unwrap().auth, AuthMode::Ntlm);
}
