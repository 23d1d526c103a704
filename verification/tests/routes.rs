use fastpx::address::IpAddress;
use fastpx::routing::{choose_route, is_direct_address, IpCidrParseError, Route};
use fastpx::{IpCidr, RoutingMode};

fn address(text: &str) -> IpAddress {
    text.parse().unwrap()
}

#[test]
fn recognizes_internal_address_ranges() {
    for address in [
        "127.0.0.1",
        "10.1.2.3",
        "172.31.255.254",
        "192.168.4.5",
        "169.254.10.20",
        "100.64.0.1",
        "::1",
        "fe80::1",
        "fd12:3456::1",
    ] {
        assert!(
            is_direct_address(address.parse::<IpAddress>().unwrap(), &[]),
            "{address}"
        );
    }
}

#[test]
fn public_addresses_use_the_proxy_by_default() {
    for address in ["1.1.1.1", "8.8.8.8", "172.32.0.1", "2001:4860:4860::8888"] {
        assert!(
            !is_direct_address(address.parse::<IpAddress>().unwrap(), &[]),
            "{address}"
        );
    }
}

#[test]
fn additional_networks_are_direct() {
    let networks = ["203.0.113.0/24".parse::<IpCidr>().unwrap()];
    assert!(is_direct_address(
        "203.0.113.42".parse::<IpAddress>().unwrap(),
        &networks
    ));
}

#[test]
fn the_edges_of_internal_ranges() {
    for inside in [
        "127.255.255.255",
        "10.0.0.0",
        "10.255.255.255",
        "172.16.0.0",
        "192.168.255.255",
        "169.254.0.0",
        "100.127.255.255",
        "febf:ffff::",
        "fc00::",
        "fdff::",
    ] {
        assert!(is_direct_address(address(inside), &[]), "{inside}");
    }
    for outside in [
        "126.255.255.255",
        "128.0.0.0",
        "9.255.255.255",
        "11.0.0.0",
        "172.15.255.255",
        "192.167.255.255",
        "192.169.0.0",
        "169.253.255.255",
        "100.63.255.255",
        "100.128.0.0",
        "::",
        "::2",
        "::ffff:127.0.0.1",
        "fe7f::",
        "fec0::",
        "fbff::",
        "fe00::",
    ] {
        assert!(!is_direct_address(address(outside), &[]), "{outside}");
    }
}

#[test]
fn addresses_are_read() {
    assert_eq!(address("1.2.3.4"), IpAddress::V4(0x0102_0304));
    assert_eq!(address("255.255.255.255"), IpAddress::V4(u32::MAX));
    assert_eq!(address("::"), IpAddress::V6(0));
    assert_eq!(address("1::"), IpAddress::V6(1 << 112));
    assert_eq!(
        address("1:2:3:4:5:6:7:8"),
        IpAddress::V6(0x0001_0002_0003_0004_0005_0006_0007_0008)
    );
    assert_eq!(
        address("FE80::abcd"),
        IpAddress::V6(0xfe80_0000_0000_0000_0000_0000_0000_abcd)
    );
    assert_eq!(
        address("::ffff:1.2.3.4"),
        IpAddress::V6(0xffff_0102_0304)
    );
    assert_eq!(
        address("1:2:3:4:5:6:7.8.9.10"),
        IpAddress::V6(0x0001_0002_0003_0004_0005_0006_0708_090a)
    );
}

#[test]
fn other_texts_are_no_addresses() {
    for text in [
        "",
        "1",
        "1.2.3",
        "1.2.3.4.5",
        "1.2.3.256",
        "1.2.3.04",
        "1.2.3.",
        "1.2.3.-4",
        "1.2.3.+4",
        " 1.2.3.4",
        "1:2:3:4:5:6:7",
        "1:2:3:4:5:6:7:8:9",
        "1::2::3",
        ":1",
        "1:",
        ":::",
        "12345::",
        "g::",
        "::1.2.3",
        "1.2.3.4::",
        "[::1]",
        "localhost",
    ] {
        assert!(text.parse::<IpAddress>().is_err(), "{text}");
    }
}

#[test]
fn networks_hold_the_addresses_with_their_front() {
    let all: IpCidr = "0.0.0.0/0".parse().unwrap();
    assert!(all.contains(address("255.1.2.3")));
    assert!(!all.contains(address("::1")));
    let one: IpCidr = "203.0.113.7/32".parse().unwrap();
    assert!(one.contains(address("203.0.113.7")));
    assert!(!one.contains(address("203.0.113.6")));
    let odd: IpCidr = "203.0.113.128/25".parse().unwrap();
    assert!(odd.contains(address("203.0.113.255")));
    assert!(!odd.contains(address("203.0.113.127")));
    let wide: IpCidr = "2001:db8::/33".parse().unwrap();
    assert!(wide.contains(address("2001:db8:7fff::")));
    assert!(!wide.contains(address("2001:db8:8000::")));
    let every: IpCidr = "::/0".parse().unwrap();
    assert!(every.contains(address("ffff::")));
    assert!(!every.contains(address("1.2.3.4")));
    let host: IpCidr = "::1/128".parse().unwrap();
    assert!(host.contains(address("::1")));
    assert!(!host.contains(address("::2")));
}

#[test]
fn the_fault_of_a_network_is_named() {
    assert_eq!(
        "10.0.0.0".parse::<IpCidr>(),
        Err(IpCidrParseError::MissingPrefix)
    );
    assert_eq!(
        "10.0.0/8".parse::<IpCidr>(),
        Err(IpCidrParseError::InvalidAddress)
    );
    for text in ["10.0.0.0/33", "10.0.0.0/", "10.0.0.0/x", "::/129"] {
        assert_eq!(
            text.parse::<IpCidr>(),
            Err(IpCidrParseError::InvalidPrefix),
            "{text}"
        );
    }
}

#[test]
fn the_first_internal_address_is_reached_directly() {
    let candidates = [address("1.1.1.1"), address("10.0.0.5"), address("10.0.0.6")];
    assert_eq!(
        choose_route(RoutingMode::Auto, &candidates, &[]),
        Route::Direct(address("10.0.0.5"))
    );
    assert_eq!(
        choose_route(RoutingMode::ProxyOnly, &candidates, &[]),
        Route::Upstream
    );
    assert_eq!(
        choose_route(RoutingMode::Auto, &candidates[..1], &[]),
        Route::Upstream
    );
    assert_eq!(choose_route(RoutingMode::Auto, &[], &[]), Route::Upstream);
    let networks = ["1.0.0.0/8".parse::<IpCidr>().unwrap()];
    assert_eq!(
        choose_route(RoutingMode::Auto, &candidates, &networks),
        Route::Direct(address("1.1.1.1"))
    );
    assert_eq!(RoutingMode::default(), RoutingMode::Auto);
}

#[test]
fn loopback_addresses_are_those_of_the_machine() {
    assert!(address("127.0.0.1").is_loopback());
    assert!(address("127.9.9.9").is_loopback());
    assert!(address("::1").is_loopback());
    assert!(!address("128.0.0.1").is_loopback());
    assert!(!address("::").is_loopback());
}
