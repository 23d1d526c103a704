//! Which destinations are reached directly, and which through the upstream proxy.

use core::str::FromStr;
use vstd::prelude::*;
use vstd::string::*;

use crate::address::IpAddress;
use crate::number::parse_number;
use crate::text::{characters, find};

verus! {

/// Which destinations may be reached directly.
#[derive(Clone, Copy, Debug, PartialEq, Eq, Structural)]
pub enum RoutingMode {
    /// Reach internal destinations directly and all others through the upstream proxy.
    Auto,
    /// Reach every destination through the upstream proxy.
    ProxyOnly,
}

impl Default for RoutingMode {
    fn default() -> (mode: Self)
        ensures
            mode == RoutingMode::Auto,
    {
        RoutingMode::Auto
    }
}

/// The way to a destination.
#[derive(Clone, Copy, Debug, PartialEq, Eq, Structural)]
pub enum Route {
    /// To this address of the destination.
    Direct(IpAddress),
    /// Through the upstream proxy.
    Upstream,
}

/// A network: the addresses that agree with an address in a number of leading bits.
#[derive(Clone, Copy, Debug, PartialEq, Eq)]
pub struct IpCidr {
    address: IpAddress,
    prefix: u8,
}

/// A network is an address and the number of bits that count.
impl View for IpCidr {
    type V = (IpAddress, u8);

    closed spec fn view(&self) -> (IpAddress, u8) {
        (self.address, self.prefix)
    }
}

/// Why a text is not a network.
#[derive(Clone, Copy, Debug, PartialEq, Eq, Structural)]
pub enum IpCidrParseError {
    MissingPrefix,
    InvalidAddress,
    InvalidPrefix,
}

/// How many bits an address has.
pub open spec fn width(address: IpAddress) -> int {
    match address {
        IpAddress::V4(_) => 32,
        IpAddress::V6(_) => 128,
    }
}

/// The leading `prefix` bits of an address, as a number.
pub open spec fn leading_bits(address: IpAddress, prefix: int) -> int {
    match address {
        IpAddress::V4(number) => number as int / vstd::arithmetic::power2::pow2((32 - prefix) as nat) as int,
        IpAddress::V6(number) => number as int / vstd::arithmetic::power2::pow2((128 - prefix) as nat) as int,
    }
}

/// Whether an address lies in a network.
pub open spec fn in_network(network: (IpAddress, u8), address: IpAddress) -> bool {
    &&& width(network.0) == width(address)
    &&& leading_bits(network.0, network.1 as int) == leading_bits(address, network.1 as int)
}

/// What reading `s` as a network comes to.
pub open spec fn parsed_network(s: Seq<char>) -> Result<(IpAddress, u8), IpCidrParseError> {
    let slash = crate::text::first_index(s, '/');
    if slash == s.len() {
        Err(IpCidrParseError::MissingPrefix)
    } else {
        match crate::address::parsed_address(s.take(slash)) {
            None => Err(IpCidrParseError::InvalidAddress),
            Some(address) => match crate::number::parsed(s.skip(slash + 1), 10, width(address)) {
                Ok(prefix) => Ok((address, prefix as u8)),
                Err(_) => Err(IpCidrParseError::InvalidPrefix),
            },
        }
    }
}

/// A number below the divisor leaves nothing.
proof fn lemma_no_bits(number: int, divisor: int)
    by (nonlinear_arith)
    requires
        0 <= number < divisor,
    ensures
        number / divisor == 0,
{
}

/// Compares the leading bits of two IPv4 addresses.
fn same_bits_v4(a: u32, b: u32, prefix: u8) -> (answer: bool)
    requires
        prefix <= 32,
    ensures
        answer == (leading_bits(IpAddress::V4(a), prefix as int) == leading_bits(
            IpAddress::V4(b),
            prefix as int,
        )),
{
    if prefix == 0 {
        proof {
            vstd::arithmetic::power2::lemma2_to64();
            lemma_no_bits(a as int, vstd::arithmetic::power2::pow2(32) as int);
            lemma_no_bits(b as int, vstd::arithmetic::power2::pow2(32) as int);
        }
        return true;
    }
    let shift: u32 = 32 - prefix as u32;
    proof {
        vstd::bits::lemma_u32_shr_is_div(a, shift);
        vstd::bits::lemma_u32_shr_is_div(b, shift);
    }
    a >> shift == b >> shift
}

/// Compares the leading bits of two IPv6 addresses.
fn same_bits_v6(a: u128, b: u128, prefix: u8) -> (answer: bool)
    requires
        prefix <= 128,
    ensures
        answer == (leading_bits(IpAddress::V6(a), prefix as int) == leading_bits(
            IpAddress::V6(b),
            prefix as int,
        )),
{
    if prefix == 0 {
        proof {
            vstd::arithmetic::power2::lemma2_to64();
            vstd::arithmetic::power2::lemma2_to64_rest();
            vstd::arithmetic::power2::lemma_pow2_adds(64, 64);
            assert(0x10000000000000000 * 0x10000000000000000
                == 0x100000000000000000000000000000000) by (nonlinear_arith);
            lemma_no_bits(a as int, vstd::arithmetic::power2::pow2(128) as int);
            lemma_no_bits(b as int, vstd::arithmetic::power2::pow2(128) as int);
        }
        return true;
    }
    let shift: u128 = 128 - prefix as u128;
    proof {
        vstd::bits::lemma_u128_shr_is_div(a, shift);
        vstd::bits::lemma_u128_shr_is_div(b, shift);
    }
    a >> shift == b >> shift
}

impl IpCidr {
    #[verifier::type_invariant]
    spec fn well_formed(self) -> bool {
        self.prefix <= width(self.address)
    }

    /// Tells whether an address lies in the network.
    pub fn contains(&self, address: IpAddress) -> (answer: bool)
        ensures
            answer == in_network(self@, address),
    {
        proof {
            use_type_invariant(self);
        }
        match (self.address, address) {
            (IpAddress::V4(network), IpAddress::V4(number)) => same_bits_v4(
                network,
                number,
                self.prefix,
            ),
            (IpAddress::V6(network), IpAddress::V6(number)) => same_bits_v6(
                network,
                number,
                self.prefix,
            ),
            _ => false,
        }
    }
}

impl FromStr for IpCidr {
    type Err = IpCidrParseError;

    /// Reads a network, as an address, a slash and the number of bits that count.
    fn from_str(input: &str) -> (network: Result<Self, IpCidrParseError>)
        ensures
            match network {
                Ok(n) => parsed_network(input@) == Ok::<(IpAddress, u8), IpCidrParseError>(n@),
                Err(e) => parsed_network(input@) == Err::<(IpAddress, u8), IpCidrParseError>(e),
            },
    {
        let chars = characters(input);
        let slash = find(chars.as_slice(), '/');
        if slash == chars.len() {
            return Err(IpCidrParseError::MissingPrefix);
        }
        let front = input.substring_char(0, slash);
        assert(front@ == input@.take(slash as int));
        let address = match IpAddress::from_str(front) {
            Ok(address) => address,
            Err(_) => return Err(IpCidrParseError::InvalidAddress),
        };
        let limit: usize = match address {
            IpAddress::V4(_) => 32,
            IpAddress::V6(_) => 128,
        };
        let digits = vstd::slice::slice_subrange(chars.as_slice(), slash + 1, chars.len());
        assert(digits@ == input@.skip(slash + 1));
        proof {
            if crate::number::parsed(digits@, 10, limit as int) is Ok {
                crate::number::lemma_parsed_range(digits@, 10, limit as int);
            }
        }
        match parse_number(digits, 10, limit) {
            Ok(prefix) => Ok(IpCidr { address, prefix: prefix as u8 }),
            Err(_) => Err(IpCidrParseError::InvalidPrefix),
        }
    }
}

/// The IPv4 addresses of the machine itself, 127.0.0.0/8.
pub open spec fn loopback_v4(number: u32) -> bool {
    0x7f000000 <= number <= 0x7fffffff
}

/// The private IPv4 addresses: 10.0.0.0/8, 172.16.0.0/12 and 192.168.0.0/16.
pub open spec fn private_v4(number: u32) -> bool {
    0x0a000000 <= number <= 0x0affffff || 0xac100000 <= number <= 0xac1fffff || 0xc0a80000
        <= number <= 0xc0a8ffff
}

/// The link-local IPv4 addresses, 169.254.0.0/16.
pub open spec fn link_local_v4(number: u32) -> bool {
    0xa9fe0000 <= number <= 0xa9feffff
}

/// The IPv4 addresses shared by the customers of a carrier, 100.64.0.0/10.
pub open spec fn shared_v4(number: u32) -> bool {
    0x64400000 <= number <= 0x647fffff
}

/// The link-local IPv6 addresses, fe80::/10.
pub open spec fn link_local_v6(number: u128) -> bool {
    0xfe800000000000000000000000000000 <= number <= 0xfebfffffffffffffffffffffffffffff
}

/// The unique local IPv6 addresses, fc00::/7.
pub open spec fn unique_local_v6(number: u128) -> bool {
    0xfc000000000000000000000000000000 <= number <= 0xfdffffffffffffffffffffffffffffff
}

/// The addresses that are internal everywhere.
pub open spec fn internal(address: IpAddress) -> bool {
    match address {
        IpAddress::V4(number) => loopback_v4(number) || private_v4(number) || link_local_v4(number)
            || shared_v4(number),
        IpAddress::V6(number) => number == 1 || link_local_v6(number) || unique_local_v6(number),
    }
}

/// The addresses that are reached directly, with some more networks that are internal here.
pub open spec fn direct(address: IpAddress, additional: Seq<IpCidr>) -> bool {
    internal(address) || exists|i: int|
        0 <= i < additional.len() && in_network((#[trigger] additional[i])@, address)
}

/// Tells whether an IPv4 address is internal everywhere.
fn is_default_direct_v4(number: u32) -> (answer: bool)
    ensures
        answer == internal(IpAddress::V4(number)),
{
    let first: u32 = number / 0x1000000;
    let second: u32 = number / 0x10000 % 0x100;
    first == 127 || first == 10 || (first == 172 && 16 <= second && second <= 31) || (first == 192
        && second == 168) || (first == 169 && second == 254) || (first == 100 && 64 <= second
        && second <= 127)
}

/// Tells whether an IPv6 address is internal everywhere.
fn is_default_direct_v6(number: u128) -> (answer: bool)
    ensures
        answer == internal(IpAddress::V6(number)),
{
    let front: u128 = number / 0x10000000000000000000000000000;
    number == 1 || (0xfe80 <= front && front <= 0xfebf) || (0xfc00 <= front && front <= 0xfdff)
}

/// Tells whether an address is internal everywhere.
fn is_default_direct_address(address: IpAddress) -> (answer: bool)
    ensures
        answer == internal(address),
{
    match address {
        IpAddress::V4(number) => is_default_direct_v4(number),
        IpAddress::V6(number) => is_default_direct_v6(number),
    }
}

/// Tells whether an address is reached directly.
pub fn is_direct_address(address: IpAddress, additional: &[IpCidr]) -> (answer: bool)
    ensures
        answer == direct(address, additional@),
{
    if is_default_direct_address(address) {
        return true;
    }
    for i in 0..additional.len()
        invariant
            forall|j: int| 0 <= j < i ==> !in_network((#[trigger] additional@[j])@, address),
    {
        if additional[i].contains(address) {
            return true;
        }
    }
    false
}

/// The number of addresses before the first that is reached directly.
pub open spec fn first_direct(candidates: Seq<IpAddress>, additional: Seq<IpCidr>) -> int
    decreases candidates.len(),
{
    if candidates.len() == 0 || direct(candidates[0], additional) {
        0
    } else {
        1 + first_direct(candidates.drop_first(), additional)
    }
}

/// The way to a destination with these addresses.
pub open spec fn route_of(
    mode: RoutingMode,
    candidates: Seq<IpAddress>,
    additional: Seq<IpCidr>,
) -> Route {
    let n = first_direct(candidates, additional);
    if mode == RoutingMode::ProxyOnly || n == candidates.len() {
        Route::Upstream
    } else {
        Route::Direct(candidates[n])
    }
}

/// Chooses the way to a destination that has been resolved to `candidates`: directly to the first
/// of them that is internal, or through the upstream proxy.
pub fn choose_route(mode: RoutingMode, candidates: &[IpAddress], additional: &[IpCidr]) -> (route:
    Route)
    ensures
        route == route_of(mode, candidates@, additional@),
{
    if mode == RoutingMode::ProxyOnly {
        return Route::Upstream;
    }
    assert(candidates@.skip(0) == candidates@);
    for i in 0..candidates.len()
        invariant
            mode == RoutingMode::Auto,
            first_direct(candidates@, additional@) == i + first_direct(
                candidates@.skip(i as int),
                additional@,
            ),
    {
        assert(candidates@.skip(i as int).drop_first() == candidates@.skip(i + 1));
        if is_direct_address(candidates[i], additional) {
            return Route::Direct(candidates[i]);
        }
    }
    Route::Upstream
}

/// A destination is reached directly exactly if the mode allows it and one of its addresses is
/// internal, and then at such an address of its own.
pub proof fn law_only_internal_is_direct(
    mode: RoutingMode,
    candidates: Seq<IpAddress>,
    additional: Seq<IpCidr>,
)
    ensures
        match route_of(mode, candidates, additional) {
            Route::Direct(address) => mode == RoutingMode::Auto && candidates.contains(address)
                && direct(address, additional),
            Route::Upstream => mode == RoutingMode::ProxyOnly || forall|i: int|
                0 <= i < candidates.len() ==> !direct(#[trigger] candidates[i], additional),
        },
{
    lemma_first_direct(candidates, additional);
}

/// `first_direct` stops at an address that is reached directly, and passes none.
pub proof fn lemma_first_direct(candidates: Seq<IpAddress>, additional: Seq<IpCidr>)
    ensures
        0 <= first_direct(candidates, additional) <= candidates.len(),
        first_direct(candidates, additional) < candidates.len() ==> direct(
            candidates[first_direct(candidates, additional)],
            additional,
        ),
        forall|i: int|
            0 <= i < first_direct(candidates, additional) ==> !direct(
                #[trigger] candidates[i],
                additional,
            ),
    decreases candidates.len(),
{
    if candidates.len() > 0 && !direct(candidates[0], additional) {
        let rest = candidates.drop_first();
        lemma_first_direct(rest, additional);
        assert forall|i: int| 0 <= i < first_direct(candidates, additional) implies !direct(
            #[trigger] candidates[i],
            additional,
        ) by {
            if i > 0 {
                assert(rest[i - 1] == candidates[i]);
            }
        }
    }
}

impl IpAddress {
    /// Tells whether the address is one of the machine itself.
    pub fn is_loopback(&self) -> (answer: bool)
        ensures
            answer == match *self {
                IpAddress::V4(number) => loopback_v4(number),
                IpAddress::V6(number) => number == 1,
            },
    {
        match *self {
            IpAddress::V4(number) => number / 0x1000000 == 127,
            IpAddress::V6(number) => number == 1,
        }
    }
}

/// The addresses that are internal everywhere, by their leading bytes and bits: 127/8, 10/8,
/// 172.16/12, 192.168/16, 169.254/16 and 100.64/10, and ::1, fe80::/10 and fc00::/7.
pub open spec fn internal_by_prefix(address: IpAddress) -> bool {
    match address {
        IpAddress::V4(number) => {
            let first = number as int / 0x1000000;
            let second = number as int / 0x10000 % 256;
            ||| first == 127
            ||| first == 10
            ||| first == 172 && second / 16 == 1
            ||| first == 192 && second == 168
            ||| first == 169 && second == 254
            ||| first == 100 && second / 64 == 1
        },
        IpAddress::V6(number) => {
            ||| number == 1
            ||| number as int / 0x400000000000000000000000000000 == 0x3fa
            ||| number as int / 0x2000000000000000000000000000000 == 0x7e
        },
    }
}

/// An address is reached directly exactly if it is internal everywhere or lies in one of the
/// networks that are internal here.
pub proof fn law_internal_is_direct(address: IpAddress, additional: &[IpCidr], answer: bool)
    requires
        call_ensures(is_direct_address, (address, additional), answer),
    ensures
        answer == direct(address, additional@),
        internal(address) == internal_by_prefix(address),
        answer <==> internal_by_prefix(address) || exists|i: int|
            0 <= i < additional@.len() && in_network((#[trigger] additional@[i])@, address),
{
}

/// The addresses with the same leading part are those from the first with it on.
proof fn lemma_block(n: int, a: int, block: int)
    requires
        0 <= n,
        0 <= a,
        block > 0,
    ensures
        n / block == a / block <==> n - n % block <= a < n - n % block + block,
{
    vstd::arithmetic::div_mod::lemma_fundamental_div_mod(n, block);
    vstd::arithmetic::div_mod::lemma_fundamental_div_mod(a, block);
    let q = n / block;
    let p = a / block;
    let r = a % block;
    assert(0 <= r < block) by {
        vstd::arithmetic::div_mod::lemma_mod_bound(a, block);
    }
    assert(n - n % block == block * q);
    assert(a == block * p + r);
    if q != p {
        assert(block * q + block <= block * p || block * p + block <= block * q)
            by (nonlinear_arith)
            requires
                q != p,
                block > 0,
        ;
    }
}

/// A network holds the addresses of its kind from the one with zeros behind the leading bits up to
/// the one with ones, all of them and no others.
pub proof fn law_network_is_a_block(network: &IpCidr, address: IpAddress, answer: bool)
    requires
        network@.1 <= width(network@.0),
        call_ensures(IpCidr::contains, (network, address), answer),
    ensures
        answer == in_network(network@, address),
        match (network@.0, address) {
            (IpAddress::V4(n), IpAddress::V4(a)) => {
                let block = vstd::arithmetic::power2::pow2((32 - network@.1) as nat) as int;
                answer <==> n - n as int % block <= a < n - n as int % block + block
            },
            (IpAddress::V6(n), IpAddress::V6(a)) => {
                let block = vstd::arithmetic::power2::pow2((128 - network@.1) as nat) as int;
                answer <==> n - n as int % block <= a < n - n as int % block + block
            },
            _ => !answer,
        },
{
    match (network@.0, address) {
        (IpAddress::V4(n), IpAddress::V4(a)) => {
            let bits = (32 - network@.1) as nat;
            vstd::arithmetic::power2::lemma_pow2_pos(bits);
            lemma_block(n as int, a as int, vstd::arithmetic::power2::pow2(bits) as int);
        },
        (IpAddress::V6(n), IpAddress::V6(a)) => {
            let bits = (128 - network@.1) as nat;
            vstd::arithmetic::power2::lemma_pow2_pos(bits);
            lemma_block(n as int, a as int, vstd::arithmetic::power2::pow2(bits) as int);
        },
        _ => {},
    }
}

/// A network is written as an address, a slash and a number of bits: at most 32 behind an IPv4
/// address, and at most 128 behind an IPv6 address.
pub proof fn law_networks_are_read(address: Seq<char>, bits: Seq<char>)
    requires
        crate::text::lacks(address, '/'),
    ensures
        parsed_network(address) == Err::<(IpAddress, u8), IpCidrParseError>(
            IpCidrParseError::MissingPrefix,
        ),
        parsed_network(address + seq!['/'] + bits) == match crate::address::parsed_address(
            address,
        ) {
            None => Err::<(IpAddress, u8), IpCidrParseError>(IpCidrParseError::InvalidAddress),
            Some(IpAddress::V4(number)) => match crate::number::parsed(bits, 10, 32) {
                Ok(count) => Ok((IpAddress::V4(number), count as u8)),
                Err(_) => Err(IpCidrParseError::InvalidPrefix),
            },
            Some(IpAddress::V6(number)) => match crate::number::parsed(bits, 10, 128) {
                Ok(count) => Ok((IpAddress::V6(number), count as u8)),
                Err(_) => Err(IpCidrParseError::InvalidPrefix),
            },
        },
{
    let n = address.len() as int;
    crate::text::lemma_first_index_unique(address, '/', n);
    let s = address + seq!['/'] + bits;
    assert forall|i: int| 0 <= i < n implies s[i] != '/' by {
        assert(s[i] == address[i]);
    }
    assert(s[n] == '/');
    crate::text::lemma_first_index_unique(s, '/', n);
    assert(s.take(n) == address);
    assert(s.skip(n + 1) == bits);
}

/// A destination is reached at the first of its addresses that is reached directly, if the mode
/// allows that and there is one, and else through the upstream proxy.
pub proof fn law_first_internal_address_is_taken(
    mode: RoutingMode,
    candidates: &[IpAddress],
    additional: &[IpCidr],
    route: Route,
    n: int,
    default: RoutingMode,
)
    requires
        call_ensures(choose_route, (mode, candidates, additional), route),
        call_ensures(<RoutingMode as Default>::default, (), default),
    ensures
        default == RoutingMode::Auto,
        route == route_of(mode, candidates@, additional@),
        mode == RoutingMode::ProxyOnly ==> route == Route::Upstream,
        mode == RoutingMode::Auto && 0 <= n < candidates@.len() && direct(
            candidates@[n],
            additional@,
        ) && (forall|i: int| 0 <= i < n ==> !direct(#[trigger] candidates@[i], additional@))
            ==> route == Route::Direct(candidates@[n]),
        (forall|i: int| 0 <= i < candidates@.len() ==> !direct(#[trigger] candidates@[i], additional@))
            ==> route == Route::Upstream,
{
    lemma_first_direct(candidates@, additional@);
}

/// The addresses of the machine itself are 127/8 and ::1.
pub proof fn law_loopback(address: &IpAddress, answer: bool)
    requires
        call_ensures(IpAddress::is_loopback, (address,), answer),
    ensures
        answer <==> match *address {
            IpAddress::V4(number) => number as int / 0x1000000 == 127,
            IpAddress::V6(number) => number == 1,
        },
{
}

} // verus!
