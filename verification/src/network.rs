//! Settings of the access point's network stack, and the waits before the
//! stack is used.
use vstd::prelude::*;
use crate::config::{GATEWAY_IP, STATIC_IP};
use crate::text::{
    all_decimal_digits, decimal_value, lemma_split_on_extend, lemma_split_on_join, split_on,
};

verus! {

/// A numeral of one to `max_digits` ASCII digits whose value is below `bound`;
/// leading zeros are allowed.
pub open spec fn bounded_numeral(s: Seq<char>, max_digits: nat, bound: int) -> bool {
    1 <= s.len() <= max_digits && all_decimal_digits(s) && decimal_value(s) < bound
}

/// An octet as `core::net::Ipv4Addr` reads it: a decimal numeral below 256
/// without a leading zero (octal and hexadecimal forms are refused).
pub open spec fn canonical_octet(s: Seq<char>) -> bool {
    bounded_numeral(s, 3, 256) && (s.len() == 1 || s[0] != '0')
}

/// What smoltcp's `Ipv4Cidr::from_str` (re-exported by `embassy_net`) reads:
/// four numerals of one to three digits, each below 256, separated by `.`,
/// then `/`, then a numeral of one or two digits below 33, and nothing else.
pub open spec fn cidr_text(text: Seq<char>) -> Option<(u8, u8, u8, u8, u8)> {
    let halves = split_on(text, '/');
    if halves.len() != 2 {
        None
    } else {
        let g = split_on(halves[0], '.');
        if g.len() == 4 && bounded_numeral(g[0], 3, 256) && bounded_numeral(g[1], 3, 256)
            && bounded_numeral(g[2], 3, 256) && bounded_numeral(g[3], 3, 256) && bounded_numeral(
            halves[1],
            2,
            33,
        ) {
            Some(
                (
                    decimal_value(g[0]) as u8,
                    decimal_value(g[1]) as u8,
                    decimal_value(g[2]) as u8,
                    decimal_value(g[3]) as u8,
                    decimal_value(halves[1]) as u8,
                ),
            )
        } else {
            None
        }
    }
}

/// What `core::net::Ipv4Addr::from_str` reads: dotted-decimal notation, four
/// octets without leading zeros separated by `.`, and nothing else.
pub open spec fn dotted_decimal(text: Seq<char>) -> Option<(u8, u8, u8, u8)> {
    let g = split_on(text, '.');
    if g.len() == 4 && canonical_octet(g[0]) && canonical_octet(g[1]) && canonical_octet(g[2])
        && canonical_octet(g[3]) {
        Some(
            (
                decimal_value(g[0]) as u8,
                decimal_value(g[1]) as u8,
                decimal_value(g[2]) as u8,
                decimal_value(g[3]) as u8,
            ),
        )
    } else {
        None
    }
}

/// `<embassy_net::Ipv4Cidr as FromStr>::from_str` (smoltcp's parser), read
/// out as address octets and prefix length.
#[verifier::external_body]
fn parse_ipv4_cidr(text: &str) -> (r: Option<(u8, u8, u8, u8, u8)>)
    ensures
        r == cidr_text(text@),
{
    match <embassy_net::Ipv4Cidr as core::str::FromStr>::from_str(text) {
        Ok(cidr) => {
            let o = cidr.address().octets();
            Some((o[0], o[1], o[2], o[3], cidr.prefix_len()))
        },
        Err(_) => None,
    }
}

/// `<core::net::Ipv4Addr as FromStr>::from_str`, read out as octets.
#[verifier::external_body]
fn parse_ipv4_addr(text: &str) -> (r: Option<(u8, u8, u8, u8)>)
    ensures
        r == dotted_decimal(text@),
{
    match <core::net::Ipv4Addr as core::str::FromStr>::from_str(text) {
        Ok(addr) => {
            let o = addr.octets();
            Some((o[0], o[1], o[2], o[3]))
        },
        Err(_) => None,
    }
}

/// The four octets of an IPv4 address, most significant first.
#[derive(PartialEq, Eq, Structural, Clone, Copy, Debug)]
pub struct Ipv4Octets(pub u8, pub u8, pub u8, pub u8);

/// The static IPv4 configuration of the access point's network stack.
#[derive(PartialEq, Eq, Structural, Clone, Copy, Debug)]
pub struct NetworkSettings {
    /// Octets of the access point's own address.
    pub address: Ipv4Octets,
    /// Prefix length of the access point's network.
    pub prefix_len: u8,
    /// Octets of the gateway address.
    pub gateway: Ipv4Octets,
    /// Seed for the network stack's random numbers.
    pub seed: u64,
}

/// Why the network settings cannot be made.
#[derive(PartialEq, Eq, Structural, Clone, Copy, Debug)]
pub enum NetworkConfigError {
    /// The configured address with prefix length does not parse.
    InvalidStaticIp,
    /// The configured gateway address does not parse.
    InvalidGatewayIp,
}

/// The 64-bit seed made of two 32-bit random numbers: `low` in the low half,
/// `high` in the high half.
pub open spec fn seed_value(low: u32, high: u32) -> int {
    low + high * 0x1_0000_0000
}

/// `low | (high << 32)` as a 64-bit seed.
pub fn combine_seed(low: u32, high: u32) -> (seed: u64)
    ensures
        seed as int == seed_value(low, high),
{
    let l = low as u64;
    let h = high as u64;
    assert((l | (h << 32u64)) == l + h * 0x1_0000_0000u64) by (bit_vector)
        requires
            l <= 0xffff_ffffu64,
            h <= 0xffff_ffffu64,
    ;
    l | (h << 32u64)
}

/// The settings made of a parsed address with prefix, a parsed gateway and
/// the seed halves: the address error first, then the gateway error.
pub open spec fn settings_from(
    low: u32,
    high: u32,
    cidr: Option<(u8, u8, u8, u8, u8)>,
    gateway: Option<(u8, u8, u8, u8)>,
) -> Result<NetworkSettings, NetworkConfigError> {
    match cidr {
        None => Err(NetworkConfigError::InvalidStaticIp),
        Some(c) => match gateway {
            None => Err(NetworkConfigError::InvalidGatewayIp),
            Some(g) => Ok(
                NetworkSettings {
                    address: Ipv4Octets(c.0, c.1, c.2, c.3),
                    prefix_len: c.4,
                    gateway: Ipv4Octets(g.0, g.1, g.2, g.3),
                    seed: seed_value(low, high) as u64,
                },
            ),
        },
    }
}

/// The network settings from already parsed address and gateway.
pub fn network_settings_from(
    low: u32,
    high: u32,
    cidr: Option<(u8, u8, u8, u8, u8)>,
    gateway: Option<(u8, u8, u8, u8)>,
) -> (r: Result<NetworkSettings, NetworkConfigError>)
    ensures
        r == settings_from(low, high, cidr, gateway),
{
    match cidr {
        None => Err(NetworkConfigError::InvalidStaticIp),
        Some(c) => match gateway {
            None => Err(NetworkConfigError::InvalidGatewayIp),
            Some(g) => {
                let seed = combine_seed(low, high);
                Ok(
                    NetworkSettings {
                        address: Ipv4Octets(c.0, c.1, c.2, c.3),
                        prefix_len: c.4,
                        gateway: Ipv4Octets(g.0, g.1, g.2, g.3),
                        seed,
                    },
                )
            },
        },
    }
}

/// The configured address with prefix length reads as 192.168.4.1/24, and
/// the configured gateway as 192.168.4.1.
pub proof fn lemma_configured_addresses_parse()
    ensures
        cidr_text(STATIC_IP@) == Some((192u8, 168u8, 4u8, 1u8, 24u8)),
        dotted_decimal(GATEWAY_IP@) == Some((192u8, 168u8, 4u8, 1u8)),
{
    reveal_strlit("192.168.4.1/24");
    reveal_strlit("192.168.4.1");
    assert(STATIC_IP@ =~= seq!['1', '9', '2', '.', '1', '6', '8', '.', '4', '.', '1', '/', '2', '4']);
    assert(GATEWAY_IP@ =~= seq!['1', '9', '2', '.', '1', '6', '8', '.', '4', '.', '1']);
    let a: Seq<char> = seq!['1', '9', '2', '.', '1', '6', '8', '.', '4', '.', '1'];
    let c: Seq<char> = seq!['1', '9', '2', '.', '1', '6', '8', '.', '4', '.', '1', '/', '2', '4'];
    let n192: Seq<char> = seq!['1', '9', '2'];
    let n168: Seq<char> = seq!['1', '6', '8'];
    let n4: Seq<char> = seq!['4'];
    let n1: Seq<char> = seq!['1'];
    let n24: Seq<char> = seq!['2', '4'];
    let e = Seq::<char>::empty();
    assert(!n192.contains('.') && !n168.contains('.') && !n4.contains('.') && !n1.contains('.'))
        by {
        assert(n192.contains('.') ==> n192[0] == '.' || n192[1] == '.' || n192[2] == '.');
        assert(n168.contains('.') ==> n168[0] == '.' || n168[1] == '.' || n168[2] == '.');
        assert(n4.contains('.') ==> n4[0] == '.');
        assert(n1.contains('.') ==> n1[0] == '.');
    }
    assert(!a.contains('/') && !n24.contains('/')) by {
        if a.contains('/') {
            let i = choose|i: int| 0 <= i < a.len() && a[i] == '/';
            assert(a[i] != '/');
        }
        assert(n24.contains('/') ==> n24[0] == '/' || n24[1] == '/');
    }
    lemma_split_on_extend(e, n192, '.');
    assert(e + n192 =~= n192);
    assert(split_on(e, '.') =~= seq![e]);
    let p1 = n192;
    let p2 = p1.push('.') + n168;
    let p3 = p2.push('.') + n4;
    let p4 = p3.push('.') + n1;
    lemma_split_on_join(p1, '.', n168);
    lemma_split_on_join(p2, '.', n4);
    lemma_split_on_join(p3, '.', n1);
    assert(p4 =~= a);
    assert(split_on(a, '.') =~= seq![n192, n168, n4, n1]);
    lemma_split_on_extend(e, a, '/');
    assert(e + a =~= a);
    assert(split_on(e, '/') =~= seq![e]);
    lemma_split_on_join(a, '/', n24);
    assert(a.push('/') + n24 =~= c);
    assert(split_on(c, '/') =~= seq![a, n24]);
    reveal_with_fuel(decimal_value, 4);
    assert(decimal_value(n192) == 192) by {
        assert(n192.drop_last() =~= seq!['1', '9']);
        assert(n192.drop_last().drop_last() =~= seq!['1']);
        assert(seq!['1'].drop_last() =~= e);
    }
    assert(decimal_value(n168) == 168) by {
        assert(n168.drop_last() =~= seq!['1', '6']);
        assert(n168.drop_last().drop_last() =~= seq!['1']);
        assert(seq!['1'].drop_last() =~= e);
    }
    assert(decimal_value(n24) == 24) by {
        assert(n24.drop_last() =~= seq!['2']);
        assert(seq!['2'].drop_last() =~= e);
    }
    assert(decimal_value(n4) == 4) by {
        assert(n4.drop_last() =~= e);
    }
    assert(decimal_value(n1) == 1) by {
        assert(n1.drop_last() =~= e);
    }
    assert(cidr_text(c) == Some((192u8, 168u8, 4u8, 1u8, 24u8)));
    assert(dotted_decimal(a) == Some((192u8, 168u8, 4u8, 1u8)));
}

/// The network settings of the access point: its configured address with
/// prefix length and its gateway, parsed, and the seed made of two random
/// numbers, `low` drawn first. The configured texts always parse.
pub fn network_settings(low: u32, high: u32) -> (r: Result<NetworkSettings, NetworkConfigError>)
    ensures
        r == settings_from(low, high, cidr_text(STATIC_IP@), dotted_decimal(GATEWAY_IP@)),
        r == Ok::<NetworkSettings, NetworkConfigError>(
            NetworkSettings {
                address: Ipv4Octets(192, 168, 4, 1),
                prefix_len: 24,
                gateway: Ipv4Octets(192, 168, 4, 1),
                seed: seed_value(low, high) as u64,
            },
        ),
{
    proof {
        lemma_configured_addresses_parse();
    }
    let cidr = parse_ipv4_cidr(STATIC_IP);
    let gateway = parse_ipv4_addr(GATEWAY_IP);
    network_settings_from(low, high, cidr, gateway)
}

/// Pause between two looks at the network link or configuration.
pub const POLL_MILLIS: u64 = 500;

/// What to do after looking at whether the network is ready.
#[derive(PartialEq, Eq, Structural, Clone, Copy, Debug)]
pub enum WaitStep {
    /// It is ready: go on.
    Proceed,
    /// It is not: look again after this many milliseconds.
    RetryAfterMillis(u64),
}

/// The step of a wait for the link or for the IP configuration: go on once
/// it is ready, else look again after 500 ms.
pub fn next_wait_step(ready: bool) -> (step: WaitStep)
    ensures
        step == (if ready { WaitStep::Proceed } else { WaitStep::RetryAfterMillis(POLL_MILLIS) }),
{
    if ready {
        WaitStep::Proceed
    } else {
        WaitStep::RetryAfterMillis(POLL_MILLIS)
    }
}

} // verus!
