//! Where the client may connect, what it asks for, and what an answer means.

use abuse_contact::addr::{IpAddr, Ipv6Addr, SocketAddr};
use abuse_contact::bootstrap::{Bootstrap, Registry};
use abuse_contact::client::{
    check_fetch, decode_error, domain_request, ip_request, prepare_fetch, record_follows, record_url,
    request_error, server_of, Body, Fetch, Record, Request, Sent, USER_AGENT,
};
use abuse_contact::destination::{
    check_redirect, check_url, usable_addresses, Refusal, MAX_REDIRECTS,
};
use abuse_contact::rdap::Response;
use abuse_contact::url::Url;
use abuse_contact::{is_public, Destinations, DomainName, Error, MAX_BOOTSTRAP_BYTES, MAX_RECORD_BYTES};

fn ip(value: &str) -> IpAddr {
    IpAddr::parse(value).unwrap()
}

fn v6(value: &str) -> Ipv6Addr {
    match ip(value) {
        IpAddr::V6(v6) => v6,
        IpAddr::V4(_) => panic!("{value} is not IPv6"),
    }
}

fn url(value: &str) -> Url {
    Url::parse(value).unwrap()
}

fn addresses(values: &[&str]) -> Vec<SocketAddr> {
    values
        .iter()
        .map(|value| SocketAddr { ip: ip(value), port: 0, flow: 0, scope: 0 })
        .collect()
}

// --- URLs --------------------------------------------------------------------

#[test]
fn a_url_is_read_into_its_parts() {
    assert_eq!(
        url("HTTPS://Rdap.Example.NET:8443/ip/8.8.8.8?x#y"),
        Url {
            scheme: "https".to_owned(),
            host: Some("rdap.example.net".to_owned()),
            port: Some(8443),
            text: "https://rdap.example.net:8443/ip/8.8.8.8?x#y".to_owned(),
        }
    );
    assert_eq!(url("http://a.example:80/").port, None);
    assert_eq!(url("file:///etc/passwd").host, None);
    assert_eq!(Url::parse("not a url"), Err("relative URL without a base".to_owned()));
}

#[test]
fn a_public_url_passes() {
    for value in [
        "https://rdap.arin.net/registry/ip/8.8.8.8",
        "http://rdap.cctld.kg/domain/example.kg",
        "https://8.8.8.8/",
        "https://[2001:4860:4860::8888]/",
    ] {
        assert!(check_url(&url(value), Destinations::Public).is_ok(), "{value}");
    }
}

#[test]
fn an_address_that_is_not_public_is_refused() {
    for value in [
        "http://127.0.0.1/",
        "http://169.254.169.254/latest/meta-data/",
        "http://10.0.0.1:8080/",
        "http://[::1]/",
        "http://[fe80::1]/",
        "http://[::ffff:127.0.0.1]/",
    ] {
        let refusal = check_url(&url(value), Destinations::Public).unwrap_err();
        assert!(
            refusal.reason.contains("private, reserved or documentation"),
            "{value}: {}",
            refusal.reason
        );
    }
    assert_eq!(
        check_url(&url("http://127.0.0.1/"), Destinations::Public).unwrap_err().reason,
        "127.0.0.1 is a private, reserved or documentation address, and a registry record must \
         not point inside your network"
    );
}

#[test]
fn an_address_spelled_another_way_is_read_as_the_address() {
    // 2130706433 and 0x7f.1 are both 127.0.0.1.
    for value in ["http://2130706433/", "http://0x7f.1/", "http://127.1/"] {
        assert!(
            check_url(&url(value), Destinations::Public).is_err(),
            "{value} must be refused"
        );
    }
}

#[test]
fn a_scheme_other_than_http_is_refused_whatever_the_destinations() {
    for destinations in [Destinations::Public, Destinations::Any] {
        for value in ["file:///etc/passwd", "ftp://example.com/", "gopher://example.com/"] {
            let refusal = check_url(&url(value), destinations).unwrap_err();
            assert!(refusal.reason.contains("is not HTTP or HTTPS"), "{value}");
        }
    }
    assert_eq!(
        check_url(&url("ftp://example.com/"), Destinations::Any).unwrap_err().reason,
        "the scheme \"ftp\" is not HTTP or HTTPS"
    );
}

#[test]
fn a_name_passes_the_url_check_and_is_checked_when_it_resolves() {
    assert!(check_url(&url("http://localhost/"), Destinations::Public).is_ok());
}

#[test]
fn any_allows_an_address_that_is_not_public() {
    assert!(check_url(&url("http://127.0.0.1:9/"), Destinations::Any).is_ok());
    assert_eq!(Destinations::default(), Destinations::Public);
}

#[test]
fn a_url_without_a_host_is_refused() {
    let no_host = Url { scheme: "http".to_owned(), host: None, port: None, text: "http:".to_owned() };

    assert_eq!(
        check_url(&no_host, Destinations::Public).unwrap_err().reason,
        "the URL names no host"
    );
    assert!(check_url(&no_host, Destinations::Any).is_ok());
}

#[test]
fn a_redirect_to_an_address_that_is_not_public_is_refused() {
    let previous = [url("https://rdap.example.net/ip/8.8.8.8")];

    assert!(check_redirect(&url("https://169.254.169.254/"), &previous, Destinations::Public).is_err());
}

#[test]
fn a_redirect_from_https_to_http_is_refused() {
    let previous = [url("https://rdap.example.net/ip/8.8.8.8")];

    let refusal = check_redirect(
        &url("http://rdap.example.net/ip/8.8.8.8"),
        &previous,
        Destinations::Any,
    )
    .unwrap_err();

    assert_eq!(refusal.reason, "the server redirected from HTTPS to HTTP");
}

#[test]
fn a_redirect_from_http_to_https_is_followed() {
    let previous = [url("http://rdap.example.net/ip/8.8.8.8")];

    assert!(
        check_redirect(
            &url("https://rdap.example.net/ip/8.8.8.8"),
            &previous,
            Destinations::Public
        )
        .is_ok()
    );
}

#[test]
fn stops_after_the_redirect_limit() {
    let hop = url("https://rdap.example.net/");
    let at_limit = vec![hop.clone(); MAX_REDIRECTS];
    let past_limit = vec![hop.clone(); MAX_REDIRECTS + 1];

    assert!(check_redirect(&hop, &at_limit, Destinations::Public).is_ok());
    assert_eq!(
        check_redirect(&hop, &past_limit, Destinations::Public).unwrap_err().reason,
        "the server sent more than 5 redirects"
    );
}

// --- Names that resolve ------------------------------------------------------

#[test]
fn a_name_with_only_public_addresses_is_used_as_it_resolved() {
    let found = addresses(&["8.8.8.8", "2001:4860::8888"]);

    assert_eq!(
        usable_addresses("rdap.example.net", &found, Some(&[])).unwrap(),
        found
    );
}

#[test]
fn one_address_that_is_not_public_refuses_the_whole_name() {
    let found = addresses(&["8.8.8.8", "169.254.169.254"]);

    let refusal = usable_addresses("evil.example", &found, Some(&[])).unwrap_err();

    assert_eq!(
        refusal.reason,
        "evil.example resolves to 169.254.169.254, which is not a public address"
    );
}

#[test]
fn an_address_under_the_nat64_well_known_prefix_is_refused_without_discovery() {
    // DNS64 answers this for a name whose A record is 169.254.169.254.
    let found = addresses(&["64:ff9b::a9fe:a9fe"]);

    let refusal = usable_addresses("evil.example", &found, None).unwrap_err();

    assert_eq!(
        refusal.reason,
        "evil.example resolves to 64:ff9b::a9fe:a9fe, which is 169.254.169.254, and that \
         is not a public address"
    );
}

#[test]
fn an_address_under_a_discovered_nat64_prefix_is_judged_by_the_ipv4_address_inside() {
    // The prefix must be an ordinary public one. Under a documentation prefix such
    // as 2001:db8::/32 the address is refused before the NAT64 check is reached.
    let prefixes = [(v6("2c00:64::"), 96)];
    assert!(is_public(ip("2c00:64::a9fe:a9fe")));

    let refused =
        usable_addresses("evil.example", &addresses(&["2c00:64::a9fe:a9fe"]), Some(&prefixes)).unwrap_err();
    assert_eq!(
        refused.reason,
        "evil.example resolves to 2c00:64::a9fe:a9fe, which the NAT64 gateway of this \
         network translates to 169.254.169.254, and that is not a public address"
    );

    let public = addresses(&["2c00:64::808:808"]);
    assert_eq!(
        usable_addresses("rdap.example.net", &public, Some(&prefixes)).unwrap(),
        public
    );
}

#[test]
fn an_ipv6_address_is_not_used_when_the_nat64_prefix_cannot_be_learned() {
    // The IPv4 address can be checked, so the name still has a usable address.
    let found = addresses(&["8.8.8.8", "2001:4860::8888"]);

    assert_eq!(
        usable_addresses("rdap.example.net", &found, None).unwrap(),
        addresses(&["8.8.8.8"])
    );
}

#[test]
fn a_name_with_only_ipv6_addresses_that_cannot_be_checked_is_refused() {
    let found = addresses(&["2001:4860::8888"]);

    let refusal = usable_addresses("rdap.example.net", &found, None).unwrap_err();

    assert!(
        refusal.reason.contains("NAT64 prefix of this network could not be learned"),
        "{}",
        refusal.reason
    );
}

#[test]
fn a_name_with_no_address_is_refused() {
    let refusal = usable_addresses("rdap.example.net", &[], Some(&[])).unwrap_err();

    assert_eq!(refusal.reason, "rdap.example.net resolves to no address");
}

// --- Requests ----------------------------------------------------------------

#[test]
fn joins_a_base_url_that_ends_with_a_slash() {
    assert_eq!(
        record_url("https://rdap.arin.net/registry/", "ip", "8.8.8.8"),
        "https://rdap.arin.net/registry/ip/8.8.8.8"
    );
}

#[test]
fn joins_a_base_url_that_does_not_end_with_a_slash() {
    assert_eq!(
        record_url("https://rdap.example.net", "domain", "example.com"),
        "https://rdap.example.net/domain/example.com"
    );
}

#[test]
fn the_server_of_a_url_is_its_host() {
    assert_eq!(
        server_of(&url("https://rdap.arin.net/registry/ip/8.8.8.8")),
        "rdap.arin.net"
    );
    assert_eq!(
        server_of(&url("https://rdap.arin.net:443/registry/")),
        "rdap.arin.net"
    );
    assert_eq!(
        server_of(&url("http://127.0.0.1:8080/ip/8.8.8.8")),
        "127.0.0.1:8080"
    );
    assert_eq!(
        server_of(&url("https://[2001:db8::1]:8443/")),
        "[2001:db8::1]:8443"
    );
}

#[test]
fn names_the_crate_and_its_version_to_a_registry() {
    assert!(USER_AGENT.starts_with("abuse-contact/"));
}

fn service(key: &str, server: &str) -> Registry {
    Registry::from_services(vec![vec![vec![key.to_owned()], vec![server.to_owned()]]])
}

fn bootstrap() -> Bootstrap {
    Bootstrap {
        ipv4: service("8.0.0.0/7", "https://rdap.example.net/"),
        ipv6: service("2000::/3", "https://six.example.net"),
        dns: service("com", "https://com.example.net/v1/"),
    }
}

#[test]
fn an_address_is_asked_about_at_the_server_of_its_registry() {
    let request = |url: &str, target: &str| Ok(Request { url: url.to_owned(), target: target.to_owned() });

    assert_eq!(
        ip_request(&bootstrap(), ip("8.8.8.8")),
        request("https://rdap.example.net/ip/8.8.8.8", "8.8.8.8")
    );
    // The IPv6 spelling of an IPv4 address is asked about as IPv4.
    assert_eq!(
        ip_request(&bootstrap(), ip("::ffff:8.8.8.8")),
        request("https://rdap.example.net/ip/8.8.8.8", "8.8.8.8")
    );
    assert_eq!(
        ip_request(&bootstrap(), ip("2001:4860:4860::8888")),
        request("https://six.example.net/ip/2001:4860:4860::8888", "2001:4860:4860::8888")
    );
}

#[test]
fn a_private_address_is_not_asked_about() {
    for (target, named) in [("192.168.1.1", "192.168.1.1"), ("::ffff:10.0.0.1", "10.0.0.1")] {
        assert_eq!(
            ip_request(&bootstrap(), ip(target)),
            Err(Error::NotPublic { target: named.to_owned() })
        );
    }
}

#[test]
fn an_address_no_registry_holds_names_itself_in_the_error() {
    assert_eq!(
        ip_request(&bootstrap(), ip("1.1.1.1")),
        Err(Error::NoServer { target: "1.1.1.1".to_owned() })
    );
}

#[test]
fn a_name_is_asked_about_at_the_server_of_its_registry() {
    let name = |value: &str| DomainName::new(value).unwrap();

    assert_eq!(
        domain_request(&bootstrap(), &name("Example.com")),
        Ok(Request {
            url: "https://com.example.net/v1/domain/example.com".to_owned(),
            target: "example.com".to_owned(),
        })
    );
    assert_eq!(
        domain_request(&bootstrap(), &name("example.org")),
        Err(Error::NoServer { target: "example.org".to_owned() })
    );
}

// --- One fetch ---------------------------------------------------------------

#[test]
fn a_url_that_goes_inside_is_refused_before_a_request() {
    assert_eq!(
        prepare_fetch("http://127.0.0.1/", Destinations::Public),
        Err(Error::Refused {
            server: "http://127.0.0.1/".to_owned(),
            reason: "127.0.0.1 is a private, reserved or documentation address, and a registry \
                     record must not point inside your network"
                .to_owned(),
        })
    );
    assert_eq!(
        prepare_fetch("rdap.example.net", Destinations::Public),
        Err(Error::Refused {
            server: "rdap.example.net".to_owned(),
            reason: "it is not a URL: relative URL without a base".to_owned(),
        })
    );
    assert_eq!(
        prepare_fetch("https://rdap.example.net/a", Destinations::Public),
        Ok(url("https://rdap.example.net/a"))
    );
    assert_eq!(
        check_fetch("x", Err("bad".to_owned()), Destinations::Any),
        Err(Error::Refused { server: "x".to_owned(), reason: "it is not a URL: bad".to_owned() })
    );
}

#[test]
fn a_registry_that_holds_no_record_gives_nothing() {
    assert_eq!(record_follows("u", 404, "t"), Ok(false));
    assert_eq!(record_follows("u", 200, "t"), Ok(true));
    assert_eq!(record_follows("u", 299, "t"), Ok(true));
}

#[test]
fn a_server_that_refuses_gives_the_status() {
    for status in [199, 300, 403, 429, 500] {
        assert_eq!(
            record_follows("https://rdap.example.net/ip/8.8.8.8", status, "8.8.8.8"),
            Err(Error::Status {
                server: "https://rdap.example.net/ip/8.8.8.8".to_owned(),
                status,
                target: "8.8.8.8".to_owned(),
            })
        );
    }
}

#[test]
fn a_refusal_comes_back_out_of_the_transport() {
    let refusal = Refusal { reason: "no".to_owned() };

    assert_eq!(
        request_error("u", Some(&refusal), "broken".to_owned()),
        Error::Refused { server: "u".to_owned(), reason: "no".to_owned() }
    );
    assert_eq!(
        request_error("u", None, "broken".to_owned()),
        Error::Transport { server: "u".to_owned(), source: "broken".to_owned() }
    );
}

#[test]
fn a_body_within_the_limit_is_read_whole() {
    let mut body = Body::start("u", 5, Some(5)).unwrap();
    body.push(b"ab").unwrap();
    body.push(b"").unwrap();
    body.push(b"cde").unwrap();
    assert_eq!(body.into_bytes(), b"abcde");
}

#[test]
fn a_body_past_the_limit_is_refused() {
    let too_large = || Error::TooLarge { server: "u".to_owned(), limit: 5 };

    // A server that announces too much is refused before any of the body is read.
    assert_eq!(Body::start("u", 5, Some(6)).unwrap_err(), too_large());
    // A server that announces nothing, or too little, is stopped as it sends.
    let mut body = Body::start("u", 5, None).unwrap();
    body.push(b"abcd").unwrap();
    assert_eq!(body.push(b"ef"), Err(too_large()));
    assert_eq!(body.into_bytes(), b"abcd");
}

#[test]
fn the_limits_leave_room_for_the_largest_records() {
    assert_eq!(MAX_RECORD_BYTES, 1_048_576);
    assert_eq!(MAX_BOOTSTRAP_BYTES, 4_194_304);
}

fn started() -> Fetch {
    let (fetch, to) = Fetch::start("http://rdap.example.net/ip/8.8.8.8", "8.8.8.8", Destinations::Public).unwrap();
    assert_eq!(to, url("http://rdap.example.net/ip/8.8.8.8"));
    fetch
}

#[test]
fn a_fetch_gives_the_record_with_the_server_that_answered() {
    let sent = Sent::Answered {
        status: 200,
        from: url("https://rdap.arin.net:8443/registry/ip/8.8.8.8"),
        announced: Some(2),
    };

    let mut reading = started().answered(sent).unwrap().unwrap();
    reading.body.push(b"{}").unwrap();
    let (whole, bytes) = reading.into_body();
    assert_eq!(bytes, b"{}");
    let record = whole.finish(Ok(Response::default())).unwrap();

    assert_eq!(record.server, "rdap.arin.net:8443");
    assert_eq!(record.url, "https://rdap.arin.net:8443/registry/ip/8.8.8.8");
    assert_eq!(record.abuse_contacts(abuse_contact::Scope::Network), Vec::new());
}

#[test]
fn a_fetch_ends_with_the_error_of_the_step_that_failed() {
    let given = "http://rdap.example.net/ip/8.8.8.8".to_owned();
    let answered = |status, announced| Sent::Answered { status, from: url("http://rdap.example.net/"), announced };

    assert!(matches!(started().answered(answered(404, Some(9_999_999))), Ok(None)));
    assert!(matches!(
        started().answered(answered(500, None)),
        Err(Error::Status { status: 500, .. })
    ));
    assert_eq!(
        started().answered(answered(200, Some(1_048_577))).unwrap_err(),
        Error::TooLarge { server: given.clone(), limit: MAX_RECORD_BYTES }
    );
    assert_eq!(
        started()
            .answered(Sent::Failed { refusal: None, source: "timed out".to_owned() })
            .unwrap_err(),
        Error::Transport { server: given.clone(), source: "timed out".to_owned() }
    );
    let reading = started().answered(answered(200, None)).unwrap().unwrap();
    assert_eq!(
        reading.into_body().0.finish(Err("expected value".to_owned())).unwrap_err(),
        decode_error(&given, "expected value".to_owned())
    );
    assert!(matches!(
        Fetch::start("file:///etc/passwd", "x", Destinations::Any),
        Err(Error::Refused { .. })
    ));
}

#[test]
fn a_record_names_where_it_came_from() {
    let record = Record::new(Response::default(), url("http://127.0.0.1:8080/ip/8.8.8.8"));

    assert_eq!(record.server, "127.0.0.1:8080");
    assert_eq!(record.url, "http://127.0.0.1:8080/ip/8.8.8.8");
}

#[test]
fn each_error_says_what_went_wrong() {
    let text = |value: &str| value.to_owned();
    for (error, said) in [
        (
            Error::Transport { server: text("s"), source: text("broken") },
            "the request to s did not complete: broken",
        ),
        (
            Error::Decode { server: text("s"), source: text("bad") },
            "s answered with a body that is not RDAP: bad",
        ),
        (Error::Status { server: text("s"), status: 429, target: text("t") }, "s answered 429 for t"),
        (
            Error::TooLarge { server: text("s"), limit: 1024 },
            "s sent a body longer than 1024 bytes, which is more than a record",
        ),
        (
            Error::Refused { server: text("s"), reason: text("no") },
            "the client does not connect to s: no",
        ),
        (
            Error::Dns { name: text("n."), source: text("timed out") },
            "the DNS lookup for n. did not finish: timed out",
        ),
        (
            Error::NoServer { target: text("t") },
            "no RDAP server answers for t. Check that it is a public address or a registered \
             name, and not a private or reserved range",
        ),
        (
            Error::NotPublic { target: text("10.0.0.1") },
            "10.0.0.1 is a private, reserved or documentation address. The registries describe \
             the reserved block, not the host, so a report about it has no owner. Use the public \
             address that carried the traffic",
        ),
    ] {
        assert_eq!(error.message(), said);
    }
    let error: Error = DomainName::new("").unwrap_err().into();
    assert_eq!(error.message(), "the domain name is empty. Give a name such as \"example.com\"");
}
