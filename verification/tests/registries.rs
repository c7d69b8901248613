//! The bootstrap registries: which server answers for an address or a name.

use abuse_contact::addr::IpAddr;
use abuse_contact::bootstrap::{preferred, prefix_length_containing, suffix_matches, Bootstrap, Registry};
use abuse_contact::DomainName;

fn ip(value: &str) -> IpAddr {
    IpAddr::parse(value).unwrap()
}

/// Reads a registry out of a bootstrap file.
fn registry(json: &str) -> Registry {
    let file: serde_json::Value = serde_json::from_str(json).unwrap();
    let services = match file.get("services") {
        Some(services) => serde_json::from_value(services.clone()).unwrap(),
        None => Vec::new(),
    };
    Registry::from_services(services)
}

const IPV4: &str = r#"{"version":"1.0","services":[
  [["41.0.0.0/8","102.0.0.0/8"],["https://rdap.afrinic.net/rdap/"]],
  [["1.0.0.0/8","27.0.0.0/8"],["https://rdap.apnic.net/"]],
  [["8.0.0.0/8"],["https://rdap.arin.net/registry/","http://rdap.arin.net/registry/"]]
]}"#;

const DNS: &str = r#"{"version":"1.0","services":[
  [["com","net"],["https://rdap.verisign.com/com/v1/"]],
  [["kg"],["http://rdap.cctld.kg/"]],
  [["uk"],["https://rdap.nominet.uk/uk/"]],
  [["co.uk"],["https://rdap.example.co.uk/"]]
]}"#;

#[test]
fn finds_the_server_for_an_ipv4_address() {
    assert_eq!(
        registry(IPV4).server_for_ip(ip("8.8.8.8")),
        Some("https://rdap.arin.net/registry/")
    );
}

#[test]
fn finds_the_server_for_a_second_registry() {
    assert_eq!(
        registry(IPV4).server_for_ip(ip("27.1.2.3")),
        Some("https://rdap.apnic.net/")
    );
}

#[test]
fn gives_nothing_for_an_address_no_service_holds() {
    assert_eq!(registry(IPV4).server_for_ip(ip("192.0.2.1")), None);
}

#[test]
fn prefers_the_https_server() {
    // The ARIN entry lists HTTPS first and HTTP second.
    let ipv4 = registry(IPV4);

    let found = ipv4.server_for_ip(ip("8.8.8.8"));

    assert_eq!(found, Some("https://rdap.arin.net/registry/"));
}

#[test]
fn uses_an_http_server_when_a_registry_lists_no_other() {
    let domain: DomainName = "example.kg".parse().unwrap();

    assert_eq!(
        registry(DNS).server_for_domain(&domain),
        Some("http://rdap.cctld.kg/")
    );
}

#[test]
fn takes_the_most_specific_range() {
    let wide_and_narrow = registry(
        r#"{"services":[
             [["10.0.0.0/8"],["https://wide.example/"]],
             [["10.1.0.0/16"],["https://narrow.example/"]]
           ]}"#,
    );

    assert_eq!(
        wide_and_narrow.server_for_ip(ip("10.1.2.3")),
        Some("https://narrow.example/")
    );
    assert_eq!(
        wide_and_narrow.server_for_ip(ip("10.2.2.3")),
        Some("https://wide.example/")
    );
}

#[test]
fn takes_the_longest_run_of_labels() {
    let domain: DomainName = "shop.example.co.uk".parse().unwrap();

    assert_eq!(
        registry(DNS).server_for_domain(&domain),
        Some("https://rdap.example.co.uk/")
    );
}

#[test]
fn matches_a_suffix_on_whole_labels() {
    // "mycom" ends with the letters of "com" but is not under it.
    let domain = "mycom".parse::<DomainName>();

    assert!(domain.is_err(), "a name with no dot is not a domain");
    assert!(!suffix_matches("mycom", "com"));
    assert!(suffix_matches("example.com", "com"));
    assert!(suffix_matches("com", "com"));
}

#[test]
fn finds_the_server_for_an_ipv6_address() {
    let ipv6 = registry(
        r#"{"services":[
             [["2001:4200::/23","2c00::/12"],["https://rdap.afrinic.net/rdap/"]],
             [["2001:4800::/23"],["https://rdap.arin.net/registry/"]]
           ]}"#,
    );

    assert_eq!(
        ipv6.server_for_ip(ip("2c00::1")),
        Some("https://rdap.afrinic.net/rdap/")
    );
}

#[test]
fn an_address_of_another_family_matches_nothing() {
    assert_eq!(registry(IPV4).server_for_ip(ip("2c00::1")), None);
}

#[test]
fn a_zero_length_prefix_holds_every_address() {
    let catch_all = registry(r#"{"services":[[["0.0.0.0/0"],["https://any.example/"]]]}"#);

    assert_eq!(
        catch_all.server_for_ip(ip("203.0.113.9")),
        Some("https://any.example/")
    );
}

#[test]
fn skips_a_service_in_a_shape_the_format_does_not_describe() {
    let mixed = registry(
        r#"{"services":[
             [["8.0.0.0/8"]],
             [["not-a-range"],["https://bad.example/"]],
             [["8.0.0.0/8"],["https://good.example/"]]
           ]}"#,
    );

    assert_eq!(mixed.server_for_ip(ip("8.8.8.8")), Some("https://good.example/"));
}

#[test]
fn reads_an_empty_registry() {
    assert_eq!(registry("{}").server_for_ip(ip("8.8.8.8")), None);
    assert_eq!(Registry::default().server_for_ip(ip("8.8.8.8")), None);
}

#[test]
fn bootstrap_picks_the_registry_by_address_family() {
    let bootstrap = Bootstrap {
        ipv4: registry(IPV4),
        ipv6: registry(r#"{"services":[[["2c00::/12"],["https://v6.example/"]]]}"#),
        dns: registry(DNS),
    };

    assert_eq!(
        bootstrap.server_for_ip(ip("8.8.8.8")),
        Some("https://rdap.arin.net/registry/")
    );
    assert_eq!(bootstrap.server_for_ip(ip("2c00::1")), Some("https://v6.example/"));
    let domain: DomainName = "example.net".parse().unwrap();
    assert_eq!(
        bootstrap.server_for_domain(&domain),
        Some("https://rdap.verisign.com/com/v1/")
    );
    assert_eq!(Bootstrap::default().server_for_domain(&domain), None);
}

#[test]
fn the_first_of_two_equal_ranges_answers() {
    let twice = registry(
        r#"{"services":[
             [["8.0.0.0/8"],[]],
             [["8.0.0.0/8"],["https://first.example/"]],
             [["8.0.0.0/8"],["https://second.example/"]]
           ]}"#,
    );

    assert_eq!(twice.server_for_ip(ip("8.8.8.8")), Some("https://first.example/"));
}

#[test]
fn a_suffix_is_read_without_its_dots_and_in_small_letters() {
    let dotted = registry(r#"{"services":[[[".COM."],["https://com.example/"]],[["."],["https://root.example/"]]]}"#);
    let domain: DomainName = "example.com".parse().unwrap();
    let other: DomainName = "example.org".parse().unwrap();

    assert_eq!(dotted.server_for_domain(&domain), Some("https://com.example/"));
    // An empty suffix matches nothing.
    assert_eq!(dotted.server_for_domain(&other), None);
}

#[test]
fn https_is_used_wherever_it_stands_in_the_list() {
    let urls = |values: &[&str]| -> Vec<String> { values.iter().map(|url| (*url).to_owned()).collect() };
    assert_eq!(
        preferred(&urls(&["http://a.example/", "https://b.example/", "https://c.example/"])),
        Some("https://b.example/")
    );
    assert_eq!(preferred(&urls(&["http://a.example/", "ftp://b.example/"])), Some("http://a.example/"));
    assert_eq!(preferred(&[]), None);
}

#[test]
fn a_range_gives_its_length_for_an_address_in_it() {
    assert_eq!(prefix_length_containing("10.1.0.0/16", ip("10.1.2.3")), Some(16));
    assert_eq!(prefix_length_containing("10.1.0.0/16", ip("10.2.2.3")), None);
    assert_eq!(prefix_length_containing("10.1.0.0/33", ip("10.1.2.3")), None);
    assert_eq!(prefix_length_containing("10.1.0.0", ip("10.1.2.3")), None);
}
