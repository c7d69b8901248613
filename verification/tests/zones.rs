//! The DNS sources: the names to ask for, and what each answer means.

use abuse_contact::addr::IpAddr;
use abuse_contact::dns::{
    abuse_net_name, abusix_name, contacts_from_txt, names_a_mail_host, rfc2142_contact,
};
use abuse_contact::resolver::{
    absolute, abuse_net, abuse_net_question, abusix, abusix_question, addresses, has_address,
    mail_from_mx, rfc2142, rfc2142_from, txt, txt_value, Lookup, Mail,
};
use abuse_contact::{Contact, DomainName, Error, Scope, Source, ValidationError};

fn ip(value: &str) -> IpAddr {
    IpAddr::parse(value).unwrap()
}

fn domain(value: &str) -> DomainName {
    DomainName::new(value).unwrap()
}

fn emails(contacts: &[Contact]) -> Vec<&str> {
    contacts.iter().map(|c| c.email.as_str()).collect()
}

/// One TXT record for each list of strings.
fn records(values: &[&[&[u8]]]) -> Vec<Vec<Box<[u8]>>> {
    values
        .iter()
        .map(|strings| strings.iter().map(|bytes| bytes.to_vec().into_boxed_slice()).collect())
        .collect()
}

#[test]
fn builds_the_abusix_name_for_v4() {
    assert_eq!(
        abusix_name(ip("104.16.132.229")),
        "229.132.16.104.abuse-contacts.abusix.zone"
    );
}

#[test]
fn builds_the_abusix_name_for_v6() {
    assert_eq!(
        abusix_name(ip("2001:4860:4860::8888")),
        "8.8.8.8.0.0.0.0.0.0.0.0.0.0.0.0.0.0.0.0.0.6.8.4.0.6.8.4.1.0.0.2.\
         abuse-contacts.abusix.zone"
    );
}

#[test]
fn the_nibbles_of_a_name_are_in_small_letters() {
    assert!(abusix_name(ip("2001:db8::abcd")).starts_with("d.c.b.a.0."));
    assert_ne!(abusix_name(ip("1.2.3.4")), abusix_name(ip("4.3.2.1")));
}

#[test]
fn builds_the_abuse_net_name() {
    let domain: DomainName = "Google.com.".parse().unwrap();

    assert_eq!(abuse_net_name(&domain), "google.com.contacts.abuse.net");
}

#[test]
fn builds_the_rfc2142_address() {
    let domain: DomainName = "example.com".parse().unwrap();
    let contact = rfc2142_contact(&domain).unwrap();

    assert_eq!(contact.email.as_str(), "abuse@example.com");
    assert_eq!(contact.scope, Scope::Domain);
    assert_eq!(contact.source, Source::Rfc2142);
}

#[test]
fn a_domain_that_spells_a_placeholder_has_no_rfc2142_address() {
    assert_eq!(
        rfc2142_contact(&domain("redacted.example")).unwrap_err(),
        ValidationError::RedactedEmail { value: "abuse@redacted.example".to_owned() }
    );
}

#[test]
fn dns_splits_a_record_that_holds_more_than_one_address() {
    let records = vec!["arin-contact@google.com,network-abuse@google.com".to_owned()];

    let got = contacts_from_txt(&records, Scope::Network, Source::Abusix);

    assert_eq!(emails(&got), ["arin-contact@google.com", "network-abuse@google.com"]);
}

#[test]
fn drops_a_record_that_is_not_an_address() {
    let records = vec!["not-an-address".to_owned(), "abuse@example.com".to_owned()];

    let got = contacts_from_txt(&records, Scope::Network, Source::Abusix);

    assert_eq!(emails(&got), ["abuse@example.com"]);
}

#[test]
fn returns_nothing_when_the_zone_had_no_records() {
    assert_eq!(contacts_from_txt(&[], Scope::Network, Source::Abusix), Vec::new());
}

#[test]
fn a_bad_value_loses_nothing_beside_it() {
    let records = vec![
        "a@example.com, nobody ,b@example.com".to_owned(),
        "DATA REDACTED".to_owned(),
        " c@example.com ".to_owned(),
    ];

    let got = contacts_from_txt(&records, Scope::Domain, Source::AbuseNet);

    assert_eq!(emails(&got), ["a@example.com", "b@example.com", "c@example.com"]);
    assert!(got.iter().all(|c| c.scope == Scope::Domain && c.source == Source::AbuseNet));
}

#[test]
fn a_null_mx_names_no_mail_host() {
    let names = |values: &[&str]| {
        let exchanges: Vec<String> = values.iter().map(|value| (*value).to_owned()).collect();
        names_a_mail_host(&exchanges)
    };
    assert!(names(&["mx1.example.com."]));
    assert!(names(&[".", "mx1.example.com."]));
    assert!(!names(&["."]));
    assert!(!names(&[""]));
    assert!(!names(&[]));
}

#[test]
fn a_name_gets_the_trailing_dot_that_keeps_it_from_a_search_domain() {
    assert_eq!(
        absolute("229.132.16.104.abuse-contacts.abusix.zone"),
        "229.132.16.104.abuse-contacts.abusix.zone."
    );
    assert_eq!(absolute("example.com."), "example.com.");
}

#[test]
fn the_strings_of_a_record_join_into_its_value() {
    let strings: Vec<Box<[u8]>> = vec![
        b"arin-contact@google.com,".to_vec().into_boxed_slice(),
        b"network-abuse@google.com".to_vec().into_boxed_slice(),
    ];

    assert_eq!(
        txt_value(&strings),
        Some("arin-contact@google.com,network-abuse@google.com".to_owned())
    );
}

#[test]
fn a_character_split_across_two_strings_is_kept_whole() {
    // "\xc3\xa6" is "æ" in UTF-8.
    let strings: Vec<Box<[u8]>> = vec![
        b"abuse@ex\xc3".to_vec().into_boxed_slice(),
        b"\xa6mple.com".to_vec().into_boxed_slice(),
    ];

    assert_eq!(txt_value(&strings), Some("abuse@exæmple.com".to_owned()));
}

#[test]
fn a_record_that_is_not_utf8_has_no_value() {
    let strings: Vec<Box<[u8]>> = vec![b"abuse@\xffexample.com".to_vec().into_boxed_slice()];

    assert_eq!(txt_value(&strings), None);
}

// --- Outcomes ----------------------------------------------------------------

const ABUSIX_NAME: &str = "229.132.16.104.abuse-contacts.abusix.zone.";

#[test]
fn asks_the_zone_for_the_reversed_address_once() {
    assert_eq!(abusix_question(ip("104.16.132.229")).unwrap(), ABUSIX_NAME);
    // The IPv6 spelling asks about the IPv4 address.
    assert_eq!(abusix_question(ip("::ffff:104.16.132.229")).unwrap(), ABUSIX_NAME);
}

#[test]
fn resolver_splits_a_record_that_holds_more_than_one_address() {
    let answer = records(&[&[b"arin-contact@google.com,network-abuse@google.com"]]);

    let contacts = abusix(ABUSIX_NAME, Lookup::Found(answer)).unwrap();

    assert_eq!(emails(&contacts), ["arin-contact@google.com", "network-abuse@google.com"]);
    assert!(contacts.iter().all(|c| c.scope == Scope::Network && c.source == Source::Abusix));
}

#[test]
fn joins_the_strings_of_a_long_record() {
    let answer = records(&[&[b"arin-contact@google.com,", b"network-abuse@google.com"]]);

    let contacts = abusix(ABUSIX_NAME, Lookup::Found(answer)).unwrap();

    assert_eq!(emails(&contacts), ["arin-contact@google.com", "network-abuse@google.com"]);
}

#[test]
fn a_name_the_zone_does_not_hold_gives_no_contacts() {
    assert_eq!(abusix(ABUSIX_NAME, Lookup::NoDomain).unwrap(), Vec::new());
    assert_eq!(abusix(ABUSIX_NAME, Lookup::NoRecords).unwrap(), Vec::new());
}

#[test]
fn the_address_abusix_gives_for_a_withheld_lacnic_contact_is_dropped() {
    let answer = records(&[&[b"removed@lacnic.net"]]);

    assert_eq!(abusix(ABUSIX_NAME, Lookup::Found(answer)).unwrap(), Vec::new());
}

#[test]
fn a_private_address_is_refused_before_a_query_goes_out() {
    for (target, named) in [
        ("192.168.1.1", "192.168.1.1"),
        ("::ffff:10.0.0.1", "10.0.0.1"),
        ("64:ff9b::a9fe:a9fe", "169.254.169.254"),
    ] {
        assert_eq!(
            abusix_question(ip(target)),
            Err(Error::NotPublic { target: named.to_owned() })
        );
    }
}

#[test]
fn a_server_failure_is_an_error_and_not_an_empty_answer() {
    // A zone that fails must not look like a zone that holds no contact.
    assert_eq!(
        abusix(ABUSIX_NAME, Lookup::Failed("server failure".to_owned())),
        Err(Error::Dns { name: ABUSIX_NAME.to_owned(), source: "server failure".to_owned() })
    );
}

#[test]
fn reads_the_abuse_net_contacts_for_a_domain() {
    let name = abuse_net_question(&domain("google.com")).unwrap();
    assert_eq!(name, "google.com.contacts.abuse.net.");

    let contacts = abuse_net(&name, Lookup::Found(records(&[&[b"abuse@google.com"]]))).unwrap();

    assert_eq!(emails(&contacts), ["abuse@google.com"]);
    assert_eq!(contacts[0].scope, Scope::Domain);
    assert_eq!(contacts[0].source, Source::AbuseNet);
}

#[test]
fn a_domain_too_long_for_the_abuse_net_zone_gives_no_contacts() {
    // 253 bytes, the longest a domain can be. With the zone appended, the name is
    // longer than DNS allows, so the zone cannot hold it.
    let long = format!("{0}.{0}.{0}.{1}", "a".repeat(63), "b".repeat(61));
    assert_eq!(long.len(), 253);

    assert_eq!(abuse_net_question(&domain(&long)), None);
    // The zone takes 19 bytes with its dot.
    let fits = format!("{0}.{0}.{0}.{1}", "a".repeat(63), "b".repeat(42));
    assert!(abuse_net_question(&domain(&fits)).is_some());
    let past = format!("{0}.{0}.{0}.{1}", "a".repeat(63), "b".repeat(43));
    assert!(abuse_net_question(&domain(&past)).is_none());
}

#[test]
fn a_record_that_is_not_utf8_is_dropped() {
    let answer = records(&[&[b"\xff"], &[b"abuse@example.com"]]);

    assert_eq!(txt("x.", Lookup::Found(answer)).unwrap(), ["abuse@example.com"]);
}

// --- Mail --------------------------------------------------------------------

fn exchanges(values: &[&str]) -> Lookup<Vec<String>> {
    Lookup::Found(values.iter().map(|value| (*value).to_owned()).collect())
}

#[test]
fn a_domain_with_an_mx_gives_abuse_at_the_domain() {
    let contact = rfc2142_from(&domain("example.com"), exchanges(&["mx1.example.com."]), Lookup::NoRecords)
        .unwrap()
        .expect("the domain takes mail");

    assert_eq!(contact.email.as_str(), "abuse@example.com");
    assert_eq!(contact.scope, Scope::Domain);
    assert_eq!(contact.source, Source::Rfc2142);
}

#[test]
fn a_domain_with_a_null_mx_gives_nothing() {
    // The address is not asked for, so it does not matter that it has one.
    let address = Lookup::Found(vec![ip("93.184.215.14")]);

    assert_eq!(rfc2142_from(&domain("example.com"), exchanges(&["."]), address), Ok(None));
}

#[test]
fn a_domain_with_no_mx_but_an_address_takes_mail_at_that_address() {
    // RFC 5321 section 5.1: with no MX, mail goes to the address of the domain.
    let address = || Lookup::Found(vec![ip("93.184.215.14")]);

    for mx in [Lookup::NoRecords, exchanges(&[])] {
        let found = rfc2142_from(&domain("example.com"), mx, address()).unwrap();
        assert_eq!(
            found.map(|c| c.email.as_str().to_owned()),
            Some("abuse@example.com".to_owned())
        );
    }
}

#[test]
fn a_domain_that_does_not_exist_gives_nothing() {
    let found = rfc2142_from(&domain("no-such-domain.example"), Lookup::NoDomain, Lookup::NoDomain);

    assert_eq!(found, Ok(None));
}

#[test]
fn a_domain_with_no_mx_and_no_address_gives_nothing() {
    for address in [Lookup::NoRecords, Lookup::NoDomain, Lookup::Found(Vec::new())] {
        assert_eq!(rfc2142_from(&domain("example.com"), Lookup::NoRecords, address), Ok(None));
    }
}

#[test]
fn a_mail_lookup_that_does_not_finish_is_an_error() {
    let failed = Error::Dns { name: "example.com.".to_owned(), source: "timed out".to_owned() };
    let timeout = || Lookup::Failed("timed out".to_owned());

    assert_eq!(
        rfc2142_from(&domain("example.com"), timeout(), Lookup::NoRecords).unwrap_err(),
        failed
    );
    assert_eq!(
        rfc2142_from(&domain("example.com"), Lookup::NoRecords, Lookup::Failed("timed out".to_owned()))
            .unwrap_err(),
        failed
    );
    assert!(matches!(mail_from_mx("example.com.", timeout()), Err(Error::Dns { .. })));
    assert!(matches!(mail_from_mx("example.com.", Lookup::NoRecords), Ok(Mail::AskAddress)));
    assert!(matches!(mail_from_mx("example.com.", Lookup::NoDomain), Ok(Mail::Known(false))));
}

#[test]
fn a_guess_that_is_no_address_is_an_error() {
    assert_eq!(
        rfc2142(&domain("redacted.example"), true).unwrap_err(),
        Error::Validation(ValidationError::RedactedEmail { value: "abuse@redacted.example".to_owned() })
    );
    assert_eq!(rfc2142(&domain("redacted.example"), false), Ok(None));
}

#[test]
fn a_name_without_addresses_has_none() {
    let given = vec![ip("8.8.8.8"), ip("2001:4860:4860::8888")];
    assert_eq!(addresses("x.", Lookup::Found(given.clone())), Ok(given.clone()));
    assert_eq!(addresses("x.", Lookup::NoDomain), Ok(Vec::new()));
    assert_eq!(addresses("x.", Lookup::NoRecords), Ok(Vec::new()));
    assert_eq!(has_address("x.", Lookup::Found(given)), Ok(true));
    assert_eq!(has_address("x.", Lookup::NoRecords), Ok(false));
    assert_eq!(
        addresses("x.", Lookup::Failed("refused".to_owned())),
        Err(Error::Dns { name: "x.".to_owned(), source: "refused".to_owned() })
    );
}
