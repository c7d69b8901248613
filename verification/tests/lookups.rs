//! One lookup: what is held, which hosts are asked about, and how the answers merge.

use abuse_contact::addr::{IpAddr, IpRange};
use abuse_contact::cache::{width, Entries};
use abuse_contact::finder::{merge, public_hosts};
use abuse_contact::{Cache, Contact, DomainName, EmailAddress, Error, Failure, Found, Origin, Scope, Source};

const HOUR: u128 = 3_600_000_000_000;

fn ip(value: &str) -> IpAddr {
    IpAddr::parse(value).unwrap()
}

fn ips(values: &[&str]) -> Vec<IpAddr> {
    values.iter().map(|value| ip(value)).collect()
}

fn name(value: &str) -> DomainName {
    DomainName::new(value).unwrap()
}

fn range(start: &str, end: &str) -> IpRange {
    IpRange::new(ip(start), ip(end)).unwrap()
}

fn contact(email: &str, scope: Scope, source: Source) -> Contact {
    Contact { email: EmailAddress::new(email).unwrap(), scope, source }
}

fn contacts(email: &str) -> Vec<Contact> {
    vec![contact(email, Scope::Network, Source::Rdap { server: "rdap.example".to_owned() })]
}

fn emails(found: Option<Vec<Contact>>) -> Option<Vec<String>> {
    found.map(|contacts| contacts.iter().map(|c| c.email.as_str().to_owned()).collect())
}

fn held(email: &str) -> Option<Vec<String>> {
    Some(vec![email.to_owned()])
}

// --- The cache ---------------------------------------------------------------

#[test]
fn a_range_answers_for_every_address_in_it() {
    let now = 1_000;
    let mut entries = Entries::default();
    entries.put_network(range("8.8.8.0", "8.8.8.255"), contacts("abuse@example.com"), now, now + HOUR);

    for address in ["8.8.8.0", "8.8.8.8", "8.8.8.255"] {
        assert_eq!(emails(entries.network(ip(address), now)), held("abuse@example.com"), "{address}");
    }
    for address in ["8.8.7.255", "8.8.9.0", "::ffff:808:808"] {
        assert_eq!(entries.network(ip(address), now), None, "{address}");
    }
}

#[test]
fn the_narrowest_range_answers_for_an_address_in_two() {
    let now = 0;
    let mut entries = Entries::default();
    entries.put_network(range("8.8.8.0", "8.8.8.7"), contacts("customer@example.com"), now, now + HOUR);
    entries.put_network(range("8.8.0.0", "8.8.255.255"), contacts("isp@example.com"), now, now + HOUR);

    assert_eq!(emails(entries.network(ip("8.8.8.1"), now)), held("customer@example.com"));
    assert_eq!(emails(entries.network(ip("8.8.9.1"), now)), held("isp@example.com"));
}

#[test]
fn an_answer_whose_time_is_over_is_not_given() {
    let now = 5;
    let mut entries = Entries::default();
    entries.put_network(range("8.8.8.0", "8.8.8.255"), contacts("abuse@example.com"), now, now + HOUR);
    let domain = name("example.com");
    entries.put_domain(domain.clone(), contacts("abuse@example.com"), now, now + HOUR);

    let later = now + HOUR;
    assert_eq!(entries.network(ip("8.8.8.8"), later), None);
    assert_eq!(entries.domain(&domain, later), None);
    assert_eq!(emails(entries.network(ip("8.8.8.8"), later - 1)), held("abuse@example.com"));
    assert_eq!(emails(entries.domain(&domain, later - 1)), held("abuse@example.com"));
}

#[test]
fn storing_an_answer_drops_the_answers_whose_time_is_over() {
    let now = 0;
    let mut entries = Entries::default();
    entries.put_network(range("8.8.8.0", "8.8.8.255"), contacts("old@example.com"), now, now + HOUR);
    entries.put_domain(name("old.example"), contacts("old@example.com"), now, now + HOUR);
    assert_eq!(entries.len(), 2);

    let later = now + HOUR;
    entries.put_domain(name("new.example"), contacts("new@example.com"), later, later + HOUR);

    assert_eq!(entries.len(), 1);
}

#[test]
fn storing_the_same_range_again_replaces_it() {
    let now = 0;
    let mut entries = Entries::default();
    for email in ["old@example.com", "new@example.com"] {
        entries.put_network(range("8.8.8.0", "8.8.8.255"), contacts(email), now, now + HOUR);
    }

    assert_eq!(entries.len(), 1);
    assert_eq!(emails(entries.network(ip("8.8.8.8"), now)), held("new@example.com"));
}

#[test]
fn storing_the_same_name_again_replaces_it() {
    let mut entries = Entries::default();
    entries.put_domain(name("a.example"), contacts("old@example.com"), 0, HOUR);
    entries.put_domain(name("b.example"), contacts("other@example.com"), 0, HOUR);
    entries.put_domain(name("a.example"), contacts("new@example.com"), 0, HOUR);

    assert_eq!(entries.len(), 2);
    assert_eq!(emails(entries.domain(&name("a.example"), 0)), held("new@example.com"));
    assert_eq!(emails(entries.domain(&name("b.example"), 0)), held("other@example.com"));
    assert_eq!(entries.domain(&name("c.example"), 0), None);
}

#[test]
fn the_first_of_two_ranges_of_one_width_answers() {
    let mut entries = Entries::default();
    entries.put_network(range("8.8.8.0", "8.8.8.10"), contacts("first@example.com"), 0, HOUR);
    entries.put_network(range("8.8.8.5", "8.8.8.15"), contacts("second@example.com"), 0, HOUR);

    assert_eq!(emails(entries.network(ip("8.8.8.7"), 0)), held("first@example.com"));
    assert_eq!(emails(entries.network(ip("8.8.8.12"), 0)), held("second@example.com"));
}

#[test]
fn a_range_that_is_over_leaves_the_wider_one_to_answer() {
    let mut entries = Entries::default();
    entries.put_network(range("8.8.8.0", "8.8.8.7"), contacts("customer@example.com"), 0, 10);
    entries.put_network(range("8.8.0.0", "8.8.255.255"), contacts("isp@example.com"), 0, 20);

    assert_eq!(emails(entries.network(ip("8.8.8.1"), 9)), held("customer@example.com"));
    assert_eq!(emails(entries.network(ip("8.8.8.1"), 10)), held("isp@example.com"));
}

#[test]
fn a_hold_of_zero_holds_nothing() {
    let mut cache = Cache::new(0);
    cache.put_network(range("8.8.8.0", "8.8.8.255"), contacts("abuse@example.com"), 7);

    assert_eq!(cache.network(ip("8.8.8.8"), 7), None);
    cache.put_domain(name("example.com"), contacts("abuse@example.com"), 7);
    assert_eq!(cache.domain(&name("example.com"), 7), None);
}

#[test]
fn clear_drops_every_answer() {
    let mut cache = Cache::default();
    assert_eq!(cache.hold, HOUR);
    assert!(cache.is_empty());
    cache.put_domain(name("example.com"), contacts("abuse@example.com"), 0);

    assert_eq!(cache.len(), 1);
    assert_eq!(emails(cache.domain(&name("example.com"), HOUR - 1)), held("abuse@example.com"));
    cache.clear();
    assert!(cache.is_empty());
    assert_eq!(cache.hold, HOUR);
}

#[test]
fn measures_the_width_of_a_range() {
    assert_eq!(width(&range("8.8.8.0", "8.8.8.255")), 255);
    assert_eq!(width(&range("2001:db8::", "2001:db8::ffff")), 0xffff);
}

// --- Merging -----------------------------------------------------------------

fn timeout(name: &str) -> Error {
    Error::Dns { name: name.to_owned(), source: "timed out".to_owned() }
}

#[test]
fn a_failed_source_keeps_the_contacts_of_the_others() {
    let rdap = contact(
        "abuse@registrar.example",
        Scope::Registrar,
        Source::Rdap { server: "rdap.example".to_owned() },
    );

    let found = merge(vec![
        (Origin::Rdap, Ok(vec![rdap])),
        (Origin::AbuseNet, Err(timeout("example.com.contacts.abuse.net."))),
    ]);

    let emails: Vec<&str> = found.contacts.iter().map(|c| c.email.as_str()).collect();
    assert_eq!(emails, ["abuse@registrar.example"]);
    assert_eq!(found.failures.len(), 1);
    assert_eq!(found.failures[0].origin, Origin::AbuseNet);
}

#[test]
fn the_contacts_are_ranked_and_a_repeat_is_dropped() {
    let found = merge(vec![
        (
            Origin::Abusix,
            Ok(vec![contact("abuse@example.net", Scope::Network, Source::Abusix)]),
        ),
        (
            Origin::Rdap,
            Ok(vec![contact(
                "abuse@example.net",
                Scope::Network,
                Source::Rdap { server: "rdap.example".to_owned() },
            )]),
        ),
    ]);

    assert_eq!(
        found.contacts,
        [contact(
            "abuse@example.net",
            Scope::Network,
            Source::Rdap { server: "rdap.example".to_owned() },
        )]
    );
    assert_eq!(found.failures.len(), 0);
}

#[test]
fn every_source_failing_gives_no_contacts_and_every_failure() {
    let found = merge(vec![
        (Origin::Rdap, Err(timeout("rdap.example"))),
        (Origin::Abusix, Err(timeout("abusix.example"))),
    ]);

    assert_eq!(found.contacts, []);
    let origins: Vec<Origin> = found.failures.iter().map(|f| f.origin).collect();
    assert_eq!(origins, [Origin::Rdap, Origin::Abusix]);
}

#[test]
fn a_source_with_nothing_to_say_is_no_failure() {
    let found = merge(vec![(Origin::Rdap, Ok(Vec::new())), (Origin::Abusix, Ok(Vec::new()))]);

    assert_eq!(found.contacts, []);
    assert_eq!(found.failures.len(), 0);
    let none = Found::default();
    assert_eq!(none.contacts.len() + none.failures.len(), 0);
}

#[test]
fn a_failure_says_which_source_failed_and_why() {
    let failure = Failure {
        origin: Origin::Rdap,
        error: Error::NoServer { target: "example.invalid".to_owned() },
    };

    assert!(
        failure
            .message()
            .starts_with("RDAP did not answer: no RDAP server answers for example.invalid"),
        "{}",
        failure.message()
    );
    for (origin, text) in [
        (Origin::Rdap, "RDAP"),
        (Origin::Abusix, "Abusix"),
        (Origin::AbuseNet, "abuse.net"),
        (Origin::Rfc2142, "the RFC 2142 check"),
        (Origin::Host, "the address lookup of the domain"),
    ] {
        assert_eq!(origin.to_text(), text);
    }
}

// --- Hosts -------------------------------------------------------------------

#[test]
fn public_hosts_keeps_each_public_address_one_time() {
    let tests = [
        ("no addresses", vec![], vec![]),
        ("a repeat", vec!["8.8.8.8", "8.8.8.8"], vec!["8.8.8.8"]),
        (
            "a private and a loopback address",
            vec!["10.0.0.1", "8.8.8.8", "127.0.0.1", "::1"],
            vec!["8.8.8.8"],
        ),
        (
            "an IPv4 address in IPv6 form",
            vec!["::ffff:8.8.8.8", "8.8.8.8"],
            vec!["8.8.8.8"],
        ),
        (
            "more than the limit",
            vec!["8.8.8.1", "8.8.8.2", "8.8.8.3", "8.8.8.4", "8.8.8.5"],
            vec!["8.8.8.1", "8.8.8.2", "8.8.8.3", "8.8.8.4"],
        ),
        (
            "a private address does not count toward the limit",
            vec!["10.0.0.1", "8.8.8.1", "8.8.8.2", "8.8.8.3", "8.8.8.4"],
            vec!["8.8.8.1", "8.8.8.2", "8.8.8.3", "8.8.8.4"],
        ),
    ];

    for (name, given, want) in tests {
        assert_eq!(public_hosts(&ips(&given)), ips(&want), "{name}");
    }
}
