//! The ranked list of contacts.

use abuse_contact::{rank, Contact, EmailAddress, Scope, Source};

fn contact(email: &str, scope: Scope, source: Source) -> Contact {
    Contact { email: EmailAddress::new(email).unwrap(), scope, source }
}

fn rdap(server: &str) -> Source {
    Source::Rdap { server: server.to_owned() }
}

fn emails(contacts: &[Contact]) -> Vec<&str> {
    contacts.iter().map(|c| c.email.as_str()).collect()
}

#[test]
fn rank_puts_rdap_first_and_rfc2142_last() {
    let ranked = rank(vec![
        contact("abuse@example.com", Scope::Domain, Source::Rfc2142),
        contact("noc@example.com", Scope::Network, Source::Abusix),
        contact("registrar-abuse@example.com", Scope::Registrar, rdap("rdap.example.com")),
    ]);

    assert_eq!(
        emails(&ranked),
        ["registrar-abuse@example.com", "noc@example.com", "abuse@example.com"]
    );
}

#[test]
fn rank_drops_the_same_address_in_the_same_scope() {
    let ranked = rank(vec![
        contact("abuse@example.com", Scope::Network, Source::Abusix),
        contact("abuse@example.com", Scope::Network, Source::AbuseNet),
    ]);

    assert_eq!(ranked.len(), 1);
    assert_eq!(ranked[0].source, Source::Abusix);
}

#[test]
fn rank_drops_a_repeat_with_another_address_between() {
    let ranked = rank(vec![
        contact("abuse@example.com", Scope::Network, Source::Abusix),
        contact("abuse@example.com", Scope::Network, rdap("rdap.example")),
        contact("noc@example.com", Scope::Network, rdap("rdap.example")),
    ]);

    assert_eq!(
        ranked,
        [
            contact("abuse@example.com", Scope::Network, rdap("rdap.example")),
            contact("noc@example.com", Scope::Network, rdap("rdap.example")),
        ]
    );
}

#[test]
fn rank_keeps_the_same_address_in_a_different_scope() {
    let ranked = rank(vec![
        contact("abuse@example.com", Scope::Network, Source::Abusix),
        contact("abuse@example.com", Scope::Domain, Source::Rfc2142),
    ]);

    assert_eq!(ranked.len(), 2);
}

#[test]
fn the_first_of_two_servers_keeps_the_address() {
    let ranked = rank(vec![
        contact("abuse@example.com", Scope::Network, rdap("b.example")),
        contact("abuse@example.com", Scope::Network, rdap("a.example")),
    ]);

    assert_eq!(ranked, [contact("abuse@example.com", Scope::Network, rdap("b.example"))]);
}

#[test]
fn contacts_of_one_source_go_by_address() {
    let ranked = rank(vec![
        contact("m@example.com", Scope::Network, Source::AbuseNet),
        contact("z@example.com", Scope::Network, Source::AbuseNet),
        contact("a@example.com", Scope::Domain, Source::AbuseNet),
        contact("B@example.com", Scope::Network, Source::AbuseNet),
        contact("m@example.com", Scope::Registrar, Source::AbuseNet),
    ]);

    assert_eq!(
        emails(&ranked),
        ["B@example.com", "a@example.com", "m@example.com", "m@example.com", "z@example.com"]
    );
    // One address in two scopes is listed by scope.
    let scopes: Vec<Scope> = ranked.iter().map(|c| c.scope).collect();
    assert_eq!(scopes[2..4], [Scope::Network, Scope::Registrar]);
}

#[test]
fn ranking_twice_is_ranking_once() {
    let list = || {
        vec![
            contact("abuse@example.com", Scope::Domain, Source::Rfc2142),
            contact("noc@example.org", Scope::Network, Source::Abusix),
            contact("abuse@example.com", Scope::Domain, Source::AbuseNet),
        ]
    };
    let once = rank(list());
    assert_eq!(rank(rank(list())), once);
    assert_eq!(emails(&once), ["noc@example.org", "abuse@example.com"]);
    assert_eq!(rank(Vec::new()), Vec::new());
}

#[test]
fn scopes_and_sources_have_names() {
    assert_eq!(Scope::Network.to_text(), "network");
    assert_eq!(Scope::Registrar.to_text(), "registrar");
    assert_eq!(Scope::Domain.to_text(), "domain");
    assert_eq!(rdap("rdap.arin.net").to_text(), "rdap.arin.net");
    assert_eq!(Source::Abusix.to_text(), "abusix");
    assert_eq!(Source::AbuseNet.to_text(), "abuse.net");
    assert_eq!(Source::Rfc2142.to_text(), "rfc2142");
    assert_eq!(Source::Rfc2142.rank(), 3);
    let kept = contact("abuse@example.com", Scope::Domain, rdap("rdap.example"));
    assert_eq!(kept.clone(), kept);
}
