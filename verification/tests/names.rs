//! Domain names and email addresses: what is accepted, and what each refusal says.

use abuse_contact::{DomainName, EmailAddress, Query, ValidationError};
use abuse_contact::addr::IpAddr;

#[test]
fn lowercases_and_drops_the_trailing_dot() {
    assert_eq!(DomainName::new("Example.COM.").unwrap().as_str(), "example.com");
}

#[test]
fn rejects_an_empty_name() {
    assert_eq!(DomainName::new("   "), Err(ValidationError::EmptyDomain));
    assert_eq!(DomainName::new("."), Err(ValidationError::EmptyDomain));
}

#[test]
fn rejects_names_that_cannot_be_domains() {
    for value in ["localhost", "a..b.com", "a b.com", "user@example.com", "example.com/path"] {
        assert!(
            matches!(DomainName::new(value), Err(ValidationError::InvalidDomain { .. })),
            "expected {value:?} to be rejected"
        );
    }
}

#[test]
fn rejects_a_character_that_would_change_the_url() {
    // Each of these puts URL syntax into the path and asks for another name.
    for value in ["foo?.com", "foo#x.com", "foo%2f.com", "foo&x.com", "foo;x.com", "foo+x.com"] {
        assert_eq!(
            DomainName::new(value),
            Err(ValidationError::InvalidDomain {
                value: value.to_owned(),
                problem: "it has a character other than a letter, a digit, a hyphen or a dot",
            }),
            "expected {value:?} to be rejected"
        );
    }
}

#[test]
fn rejects_an_international_name_and_says_to_use_the_ascii_form() {
    assert_eq!(
        DomainName::new("bücher.de"),
        Err(ValidationError::InvalidDomain {
            value: "bücher.de".to_owned(),
            problem: "it has a character outside ASCII. Write an international name in \
                      its xn-- form",
        })
    );
}

#[test]
fn accepts_the_ascii_form_of_an_international_name() {
    assert_eq!(DomainName::new("xn--bcher-kva.de").unwrap().as_str(), "xn--bcher-kva.de");
}

#[test]
fn rejects_a_label_that_starts_or_ends_with_a_hyphen() {
    for value in ["-example.com", "example-.com", "example.-com"] {
        assert!(
            matches!(
                DomainName::new(value),
                Err(ValidationError::InvalidDomain { problem: "a label starts or ends with a hyphen", .. })
            ),
            "expected {value:?} to be rejected"
        );
    }
}

#[test]
fn accepts_a_hyphen_inside_a_label() {
    assert_eq!(
        DomainName::new("my-shop.example.co.uk").unwrap().as_str(),
        "my-shop.example.co.uk"
    );
}

#[test]
fn rejects_a_name_over_the_length_limit() {
    let long = format!("{}.com", "a".repeat(250));

    assert!(matches!(
        DomainName::new(&long),
        Err(ValidationError::InvalidDomain { problem: "it is longer than 253 bytes", .. })
    ));
}

#[test]
fn names_the_first_problem_of_a_name() {
    for (value, problem) in [
        ("localhost", "it has no dot, so it is not a full domain name"),
        ("a..b.com", "it has an empty label"),
        ("example.com..", "it has an empty label"),
        (".com", "it has an empty label"),
        ("a b.com", "it has a character other than a letter, a digit, a hyphen or a dot"),
    ] {
        match DomainName::new(value) {
            Err(ValidationError::InvalidDomain { problem: found, .. }) => assert_eq!(found, problem, "{value:?}"),
            other => panic!("{value:?}: {other:?}"),
        }
    }
    let label = format!("{}.com", "a".repeat(64));
    assert!(matches!(
        DomainName::new(&label),
        Err(ValidationError::InvalidDomain { problem: "it has a label longer than 63 bytes", .. })
    ));
    assert!(DomainName::new(&format!("{}.com", "a".repeat(63))).is_ok());
}

#[test]
fn the_longest_name_is_accepted() {
    let name = format!("{0}.{0}.{0}.{1}", "a".repeat(63), "b".repeat(61));
    assert_eq!(name.len(), DomainName::MAX_BYTES);
    assert_eq!(DomainName::new(&name).unwrap().as_str(), name);
    assert_eq!(DomainName::problem(&format!("{name}b")), Some("it is longer than 253 bytes"));
}

#[test]
fn a_name_reads_back_and_its_spelling_does_not_matter() {
    let name = DomainName::new("shop.example.com").unwrap();
    assert_eq!(DomainName::new(name.as_str()).unwrap(), name);
    for spelled in ["SHOP.example.com", "shop.example.COM.", "  Shop.Example.Com \n"] {
        assert_eq!(DomainName::new(spelled).unwrap(), name, "{spelled:?}");
    }
    assert_eq!(name.clone(), name);
    assert_eq!("Shop.Example.com".parse::<DomainName>(), Ok(name));
}

#[test]
fn a_capital_outside_ascii_is_made_small() {
    // U+212A, the Kelvin sign, is the capital of k.
    assert_eq!(DomainName::new("\u{212a}.example").unwrap().as_str(), "k.example");
    assert!(matches!(
        DomainName::new("BÜCHER.de"),
        Err(ValidationError::InvalidDomain { value, .. }) if value == "bücher.de"
    ));
}

#[test]
fn a_query_is_an_address_or_a_name() {
    let ip = IpAddr::parse("8.8.8.8").unwrap();
    let name = DomainName::new("example.com").unwrap();
    assert_eq!(Query::from(ip), Query::Ip(ip));
    assert_eq!(Query::from(name.clone()), Query::Domain(name));
}

// --- Email addresses ---------------------------------------------------------

#[test]
fn accepts_a_plain_address() {
    assert_eq!(
        EmailAddress::new("network-abuse@google.com").unwrap().as_str(),
        "network-abuse@google.com"
    );
}

#[test]
fn trims_surrounding_space() {
    assert_eq!(
        EmailAddress::new("  abuse@example.com\n").unwrap().as_str(),
        "abuse@example.com"
    );
}

#[test]
fn rejects_registry_placeholders() {
    for value in [
        "DATA REDACTED",
        "REDACTED FOR PRIVACY",
        "Not Disclosed",
        "please query the RDDS service of the Registrar of Record",
    ] {
        assert!(
            matches!(EmailAddress::new(value), Err(ValidationError::RedactedEmail { .. })),
            "expected {value:?} to be rejected as a placeholder"
        );
    }
}

#[test]
fn rejects_the_address_a_source_sends_when_it_has_no_contact() {
    for value in ["removed@lacnic.net", "REMOVED@LACNIC.NET"] {
        assert!(
            matches!(EmailAddress::new(value), Err(ValidationError::WithheldEmail { .. })),
            "expected {value:?} to be rejected"
        );
    }
}

#[test]
fn keeps_a_real_address_at_the_same_domain() {
    assert!(EmailAddress::new("ipadmin@lacnic.net").is_ok());
}

#[test]
fn rejects_values_that_are_not_addresses() {
    for value in ["", "abuse", "abuse@", "@example.com", "a@b@c.com", "abuse@localhost"] {
        assert!(
            matches!(EmailAddress::new(value), Err(ValidationError::InvalidEmail { .. })),
            "expected {value:?} to be rejected"
        );
    }
}

#[test]
fn names_the_first_problem_of_an_address() {
    for (value, problem) in [
        ("", "it is empty"),
        ("abuse @example.com", "it has a space or a control character"),
        ("abuse\u{7}@example.com", "it has a space or a control character"),
        ("abuse\u{2003}@example.com", "it has a space or a control character"),
        ("abuse", "it must have one \"@\""),
        ("a@b@c.com", "it must have one \"@\""),
        ("@example.com", "there is nothing before the \"@\""),
        ("abuse@", "there is nothing after the \"@\""),
        ("abuse@localhost", "the part after the \"@\" is not a domain name"),
    ] {
        assert_eq!(
            EmailAddress::new(value),
            Err(ValidationError::InvalidEmail { value: value.to_owned(), problem }),
            "{value:?}"
        );
    }
}

#[test]
fn an_accepted_address_is_accepted_again() {
    let address = EmailAddress::new(" Abuse@Example.com ").unwrap();
    assert_eq!(address.as_str(), "Abuse@Example.com");
    assert_eq!(EmailAddress::new(address.as_str()).unwrap(), address);
    assert_eq!(address.clone(), address);
}

#[test]
fn a_placeholder_in_other_letters_is_found() {
    // The small long s, U+017F, has S as its capital.
    assert!(matches!(
        EmailAddress::new("not di\u{17f}closed"),
        Err(ValidationError::RedactedEmail { .. })
    ));
}

#[test]
fn each_refusal_says_what_to_do() {
    assert_eq!(
        ValidationError::EmptyDomain.message(),
        "the domain name is empty. Give a name such as \"example.com\""
    );
    assert_eq!(
        DomainName::new("localhost").unwrap_err().message(),
        "\"localhost\" is not a domain name: it has no dot, so it is not a full domain name"
    );
    assert_eq!(
        EmailAddress::new("abuse").unwrap_err().message(),
        "\"abuse\" is not an email address: it must have one \"@\""
    );
    assert_eq!(
        EmailAddress::new("removed@lacnic.net").unwrap_err().message(),
        "\"removed@lacnic.net\" is the address a source returns when it has no contact for the \
         network, not a contact. Ask the regional registry, or use the technical contact from RDAP"
    );
    assert_eq!(
        EmailAddress::new("DATA REDACTED").unwrap_err().message(),
        "\"DATA REDACTED\" is a placeholder the registry sends in place of an address, not an \
         address. Look for the abuse contact of the network instead"
    );
}
