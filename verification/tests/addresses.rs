//! Addresses: how they are written, the networks that hold them, and which are public.

use abuse_contact::addr::{IpAddr, IpRange, Ipv4Addr, Ipv6Addr};
use abuse_contact::is_public;
use abuse_contact::nat64::{embedded_ipv4, prefixes_from_discovery, translations, under_well_known};
use abuse_contact::number::{read_digits, read_number, write_number};
use abuse_contact::prefix::{contains, parse_range};
use abuse_contact::query::unmap;
use abuse_contact::text;

fn ip(value: &str) -> IpAddr {
    IpAddr::parse(value).unwrap()
}

fn v4(a: u8, b: u8, c: u8, d: u8) -> Ipv4Addr {
    Ipv4Addr::new(a, b, c, d)
}

fn v6(value: &str) -> Ipv6Addr {
    match ip(value) {
        IpAddr::V6(v6) => v6,
        IpAddr::V4(_) => panic!("{value} is not IPv6"),
    }
}

// --- Text --------------------------------------------------------------------

#[test]
fn an_ipv4_address_is_four_decimal_numbers() {
    assert_eq!(IpAddr::parse("104.16.132.229"), Some(IpAddr::V4(v4(104, 16, 132, 229))));
    assert_eq!(IpAddr::V4(v4(255, 0, 10, 1)).to_text(), "255.0.10.1");
    for value in ["1.2.3", "1.2.3.4.5", "256.1.1.1", "01.2.3.4", "1..2.3", "1.2.3.4 ", "+1.2.3.4", ""] {
        assert_eq!(IpAddr::parse(value), None, "{value:?}");
    }
}

#[test]
fn an_ipv6_address_is_read_in_every_form() {
    assert_eq!(v6("::").bits, 0);
    assert_eq!(v6("::1").bits, 1);
    assert_eq!(v6("2001:db8::").bits, 0x2001_0db8u128 << 96);
    assert_eq!(v6("1:2:3:4:5:6:7:8").bits, 0x0001_0002_0003_0004_0005_0006_0007_0008);
    assert_eq!(v6("1:2:3:4:5:6:1.2.3.4").bits, 0x0001_0002_0003_0004_0005_0006_0102_0304);
    assert_eq!(v6("::ffff:8.8.8.8").bits, 0xffff_0808_0808);
    assert_eq!(v6("FE80::A").bits, (0xfe80u128 << 112) + 10);
    for value in ["1:2:3:4:5:6:7", "1::2::3", ":::", "12345::", "1:2:3:4:5:6:7:8:9", "g::", ":1", "1:"] {
        assert_eq!(IpAddr::parse(value), None, "{value:?}");
    }
}

#[test]
fn an_ipv6_address_is_written_the_short_way() {
    for (given, want) in [
        ("0:0:0:0:0:0:0:0", "::"),
        ("0:0:0:0:0:0:0:1", "::1"),
        ("2001:0DB8:0:0:0:0:0:0", "2001:db8::"),
        ("1:0:0:2:0:0:0:3", "1:0:0:2::3"),
        ("1:0:0:2:3:0:0:4", "1::2:3:0:0:4"),
        ("1:0:2:3:4:5:6:7", "1:0:2:3:4:5:6:7"),
        ("::ffff:a9fe:a9fe", "::ffff:169.254.169.254"),
        ("64:ff9b::a9fe:a9fe", "64:ff9b::a9fe:a9fe"),
    ] {
        assert_eq!(ip(given).to_text(), want, "{given}");
    }
}

#[test]
fn the_text_of_an_address_reads_back() {
    for value in ["0.0.0.0", "255.255.255.255", "::", "::1", "1::", "2001:db8:1:2:3:4:5:6", "::ffff:1.2.3.4"] {
        assert_eq!(ip(value).to_text(), value);
        assert_eq!(ip(&ip(value).to_text()), ip(value));
    }
}

#[test]
fn numbers_are_read_and_written() {
    let chars = |value: &str| text::chars_of(value);
    assert_eq!(read_number(&chars("255"), 255), Some(255));
    assert_eq!(read_number(&chars("+7"), 255), Some(7));
    assert_eq!(read_number(&chars("256"), 255), None);
    assert_eq!(read_number(&chars("99999999999999999999999"), u64::MAX), None);
    assert_eq!(read_number(&chars("-1"), 255), None);
    assert_eq!(read_number(&chars(""), 255), None);
    assert_eq!(read_number(&chars("+"), 255), None);
    assert_eq!(read_digits(&chars("fF"), 16, 255), Some(255));
    assert_eq!(text::text_of(&write_number(0, 10)), "0");
    assert_eq!(text::text_of(&write_number(18446744073709551615, 10)), "18446744073709551615");
    assert_eq!(text::text_of(&write_number(48879, 16)), "beef");
}

// --- Networks ----------------------------------------------------------------

#[test]
fn reads_a_range() {
    assert_eq!(parse_range("10.0.0.0/8"), Some((ip("10.0.0.0"), 8)));
    assert_eq!(parse_range("2001:db8::/32"), Some((ip("2001:db8::"), 32)));
}

#[test]
fn a_range_in_another_shape_reads_as_nothing() {
    for text in ["10.0.0.0", "10.0.0.0/", "/8", "10.0.0.0/eight", "not-a-range"] {
        assert_eq!(parse_range(text), None, "{text:?}");
    }
}

#[test]
fn a_network_holds_an_address_inside_it() {
    assert!(contains(ip("10.0.0.0"), 8, ip("10.255.1.2")));
    assert!(contains(ip("2001:db8::"), 32, ip("2001:db8:ffff::1")));
}

#[test]
fn a_network_does_not_hold_an_address_outside_it() {
    assert!(!contains(ip("10.0.0.0"), 8, ip("11.0.0.0")));
    assert!(!contains(ip("2001:db8::"), 32, ip("2001:db9::1")));
}

#[test]
fn the_boundaries_of_a_network_are_inside_it() {
    assert!(contains(ip("172.16.0.0"), 12, ip("172.16.0.0")));
    assert!(contains(ip("172.16.0.0"), 12, ip("172.31.255.255")));
    assert!(!contains(ip("172.16.0.0"), 12, ip("172.32.0.0")));
    assert!(!contains(ip("172.16.0.0"), 12, ip("172.15.255.255")));
}

#[test]
fn a_zero_length_network_holds_every_address_of_its_family() {
    assert!(contains(ip("0.0.0.0"), 0, ip("203.0.113.9")));
    assert!(contains(ip("::"), 0, ip("2c00::1")));
}

#[test]
fn a_full_length_network_holds_one_address() {
    assert!(contains(ip("255.255.255.255"), 32, ip("255.255.255.255")));
    assert!(!contains(ip("255.255.255.255"), 32, ip("255.255.255.254")));
}

#[test]
fn a_network_of_the_other_family_holds_nothing() {
    assert!(!contains(ip("0.0.0.0"), 0, ip("::1")));
    assert!(!contains(ip("::"), 0, ip("8.8.8.8")));
}

#[test]
fn a_length_past_the_width_holds_nothing() {
    assert!(!contains(ip("10.0.0.0"), 33, ip("10.0.0.0")));
    assert!(!contains(ip("::"), 129, ip("::")));
}

#[test]
fn a_range_of_addresses_is_in_one_family_and_in_order() {
    let range = IpRange::new(ip("8.8.8.0"), ip("8.8.8.255")).unwrap();
    assert!(range.contains(ip("8.8.8.0")) && range.contains(ip("8.8.8.255")));
    assert!(!range.contains(ip("8.8.9.0")) && !range.contains(ip("::ffff:808:808")));
    assert_eq!(IpRange::new(ip("8.8.8.1"), ip("8.8.8.0")), None);
    assert_eq!(IpRange::new(ip("8.8.8.1"), ip("::1")), None);
}

// --- NAT64 -------------------------------------------------------------------

#[test]
fn reads_the_ipv4_address_at_every_length_in_the_rfc_examples() {
    // RFC 6052 section 2.4 gives these for 192.0.2.33.
    for (address, length) in [
        ("2001:db8:c000:221::", 32),
        ("2001:db8:1c0:2:21::", 40),
        ("2001:db8:122:c000:2:2100::", 48),
        ("2001:db8:122:3c0:0:221::", 56),
        ("2001:db8:122:344:c0:2:2100:0", 64),
        ("2001:db8:122:344::192.0.2.33", 96),
        ("64:ff9b::192.0.2.33", 96),
    ] {
        assert_eq!(embedded_ipv4(v6(address), length), Some(v4(192, 0, 2, 33)), "{address}/{length}");
    }
}

#[test]
fn a_length_rfc_6052_does_not_allow_reads_nothing() {
    for length in [0, 24, 33, 72, 128] {
        assert_eq!(embedded_ipv4(v6("2001:db8::"), length), None, "/{length}");
    }
}

#[test]
fn a_short_prefix_with_bits_64_to_71_set_reads_nothing() {
    // Byte 8 is 0xff, which RFC 6052 does not allow under a prefix shorter than 96.
    let address = v6("2001:db8:c000:221:ff00::");

    assert_eq!(embedded_ipv4(address, 32), None);
    assert_eq!(embedded_ipv4(address, 96), Some(v4(0, 0, 0, 0)));
}

#[test]
fn learns_the_prefix_from_the_answer_for_ipv4only_arpa() {
    // A network with the prefix 2001:db8:122:344::/96 answers these two.
    let answer = [v6("2001:db8:122:344::192.0.0.170"), v6("2001:db8:122:344::192.0.0.171")];

    assert_eq!(prefixes_from_discovery(&answer), vec![(v6("2001:db8:122:344::"), 96)]);
}

#[test]
fn learns_a_prefix_shorter_than_96() {
    // 192.0.0.170 under 2001:db8:100::/40, laid out as RFC 6052 section 2.2 says.
    let answer = [v6("2001:db8:1c0:0:aa::")];

    assert_eq!(prefixes_from_discovery(&answer), vec![(v6("2001:db8:100::"), 40)]);
}

#[test]
fn an_answer_with_no_known_address_inside_shows_no_prefix() {
    assert_eq!(prefixes_from_discovery(&[v6("2001:db8::1")]), Vec::<(Ipv6Addr, u8)>::new());
    assert_eq!(prefixes_from_discovery(&[]), Vec::<(Ipv6Addr, u8)>::new());
}

#[test]
fn the_well_known_prefix_is_read_without_discovery() {
    // 169.254.169.254, the cloud metadata address, behind 64:ff9b::/96.
    assert_eq!(translations(v6("64:ff9b::a9fe:a9fe"), &[]), vec![v4(169, 254, 169, 254)]);
    assert_eq!(under_well_known(v6("64:ff9b::808:808")), Some(v4(8, 8, 8, 8)));
    assert_eq!(under_well_known(v6("64:ff9b:1::808:808")), None);
}

#[test]
fn a_discovered_prefix_is_read_for_an_address_under_it() {
    let discovered = [(v6("2001:db8:122:344::"), 96)];

    assert_eq!(
        translations(v6("2001:db8:122:344::a9fe:a9fe"), &discovered),
        vec![v4(169, 254, 169, 254)]
    );
}

#[test]
fn an_address_under_no_nat64_prefix_carries_no_ipv4_address() {
    let discovered = [(v6("2001:db8:122:344::"), 96)];

    assert_eq!(translations(v6("2001:4860:4860::8888"), &discovered), Vec::<Ipv4Addr>::new());
}

#[test]
fn a_learned_prefix_translates_the_address_it_was_learned_from() {
    let answer = [v6("2001:db8:1c0:0:aa::")];
    let learned = prefixes_from_discovery(&answer);

    assert_eq!(translations(answer[0], &learned), vec![v4(192, 0, 0, 170)]);
}

// --- Public addresses --------------------------------------------------------

fn public(value: &str) -> bool {
    is_public(ip(value))
}

#[test]
fn a_routable_address_is_public() {
    for value in [
        "8.8.8.8",
        "193.0.6.139",
        "1.1.1.1",
        "2001:4860:4860::8888",
        "2c00::1",
        // 64:ff9b::/96 is globally reachable, unlike its local-use neighbour.
        "64:ff9b::808:808",
        // Inside 2001:200::/23, an APNIC allocation just past the IETF block.
        "2001:200::1",
    ] {
        assert!(public(value), "{value} must be public");
    }
}

#[test]
fn every_reserved_ipv4_range_is_refused() {
    for value in [
        "0.1.2.3", // "this network", past 0.0.0.0 itself
        "10.1.2.3",
        "100.64.0.1",
        "127.0.0.1",
        "169.254.1.1",
        "172.16.0.1",
        "192.0.0.1",
        "192.0.2.1",
        "192.88.99.1",
        "192.168.1.1",
        "198.18.0.1",
        "198.51.100.1",
        "203.0.113.1",
        "224.0.0.1",
        "240.0.0.1",
        "255.255.255.255",
    ] {
        assert!(!public(value), "{value} must not be public");
    }
}

#[test]
fn every_reserved_ipv6_range_is_refused() {
    for value in [
        "::",
        "::1",
        "64:ff9b:1::1",
        "100::1",
        "2001::1",   // Teredo
        "2001:2::1", // benchmarking
        "2001:db8::1",
        "2002::1",
        "3fff::1",
        "5f00::1",
        "fc00::1",
        "fd12:3456::1",
        "fe80::1",
        "ff02::1",
    ] {
        assert!(!public(value), "{value} must not be public");
    }
}

#[test]
fn the_edges_of_a_reserved_range_are_exact() {
    // 172.16.0.0/12 runs to 172.31.255.255.
    assert!(!public("172.16.0.0"));
    assert!(!public("172.31.255.255"));
    assert!(public("172.15.255.255"));
    assert!(public("172.32.0.0"));

    // 100.64.0.0/10 runs to 100.127.255.255.
    assert!(!public("100.127.255.255"));
    assert!(public("100.128.0.0"));
    assert!(public("100.63.255.255"));

    // 2001::/23 ends at 2001:1ff:ffff:..., and 2001:200:: is outside it.
    assert!(!public("2001:1ff:ffff:ffff:ffff:ffff:ffff:ffff"));
    assert!(public("2001:200::"));
}

#[test]
fn an_ipv4_address_written_as_ipv6_is_judged_as_ipv4() {
    // The IPv6 spelling of a private address must not get past the check.
    assert!(!public("::ffff:10.0.0.1"));
    assert!(!public("::ffff:192.168.1.1"));
    assert!(!public("::ffff:127.0.0.1"));
    // The IPv6 spelling of a public address stays public.
    assert!(public("::ffff:8.8.8.8"));
}

#[test]
fn an_address_under_the_well_known_prefix_is_judged_as_ipv4() {
    assert!(!public("64:ff9b::a9fe:a9fe"));
    assert!(!public("64:ff9b::10.0.0.1"));
    assert_eq!(unmap(ip("64:ff9b::10.0.0.1")), ip("10.0.0.1"));
}

#[test]
fn unmap_gives_the_ipv4_address_a_mapped_address_carries() {
    assert_eq!(unmap(ip("::ffff:8.8.8.8")), ip("8.8.8.8"));
    assert_eq!(unmap(ip("2001:4860::8888")), ip("2001:4860::8888"));
    assert_eq!(unmap(ip("8.8.8.8")), ip("8.8.8.8"));
}
