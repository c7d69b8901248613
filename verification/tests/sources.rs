//! Whole lookups, with the answers of a registry and of the DNS zones given by the test.

use abuse_contact::addr::{IpAddr, Ipv4Addr};
use abuse_contact::bootstrap::{Bootstrap, Registry};
use abuse_contact::client::{domain_request, ip_request, Fetch, Record, Sent};
use abuse_contact::finder::{
    domain_found, ip_found, public_hosts, public_target, rdap_domain, rdap_domain_fetched, rdap_ip,
    rdap_ip_fetched, NetworkAnswer, RdapStep,
};
use abuse_contact::json::Json;
use abuse_contact::rdap::{Entity, Response};
use abuse_contact::resolver::{
    abuse_net, abuse_net_question, abusix, abusix_question, addresses, rfc2142_from, Lookup,
};
use abuse_contact::url::Url;
use abuse_contact::{Cache, Contact, Destinations, DomainName, Error, Found, Origin, Scope, Source};

/// An IP record for 8.8.8.0/24 with one abuse contact at the top level.
const IP_RECORD: &str = r#"{
  "startAddress": "8.8.8.0",
  "endAddress": "8.8.8.255",
  "entities": [{
    "roles": ["abuse"],
    "vcardArray": ["vcard", [["email", {}, "text", "network-abuse@example.com"]]]
  }]
}"#;

/// A domain record with the abuse contact of the registrar under the registrar.
const DOMAIN_RECORD: &str = r#"{
  "entities": [{
    "roles": ["registrar"],
    "entities": [{
      "roles": ["abuse"],
      "vcardArray": ["vcard", [["email", {}, "text", "registrar-abuse@example.net"]]]
    }]
  }]
}"#;

/// An answer with one abuse contact, in the shape ARIN uses.
const RECORD: &str = r#"{
  "entities": [{
    "roles": ["registrant"],
    "entities": [{
      "roles": ["abuse"],
      "vcardArray": ["vcard", [["email", {}, "text", "network-abuse@example.com"]]]
    }]
  }]
}"#;

fn ip(value: &str) -> IpAddr {
    IpAddr::parse(value).unwrap()
}

fn name(value: &str) -> DomainName {
    DomainName::new(value).unwrap()
}

fn emails(contacts: &[Contact]) -> Vec<&str> {
    contacts.iter().map(|c| c.email.as_str()).collect()
}

fn scopes(contacts: &[Contact]) -> Vec<Scope> {
    contacts.iter().map(|c| c.scope).collect()
}

// --- Reading bodies ----------------------------------------------------------

fn value_of(value: &serde_json::Value) -> Json {
    match value {
        serde_json::Value::Null => Json::Null,
        serde_json::Value::Bool(b) => Json::Bool(*b),
        serde_json::Value::Number(n) => Json::Number(n.as_u64()),
        serde_json::Value::String(text) => Json::Text(text.clone()),
        serde_json::Value::Array(items) => Json::List(items.iter().map(value_of).collect()),
        serde_json::Value::Object(fields) => {
            Json::Object(fields.iter().map(|(key, value)| (key.clone(), value_of(value))).collect())
        }
    }
}

fn entities_at(value: &serde_json::Value) -> Vec<Entity> {
    let Some(entities) = value.get("entities").and_then(|v| v.as_array()) else {
        return Vec::new();
    };
    entities
        .iter()
        .map(|entity| Entity {
            roles: serde_json::from_value(entity["roles"].clone()).unwrap(),
            vcard_array: entity.get("vcardArray").map(value_of),
            entities: entities_at(entity),
            ..Entity::default()
        })
        .collect()
}

fn decode(body: &[u8]) -> Result<Response, String> {
    let value: serde_json::Value = serde_json::from_slice(body).map_err(|error| error.to_string())?;
    Ok(Response {
        entities: entities_at(&value),
        start_address: value.get("startAddress").map(value_of),
        end_address: value.get("endAddress").map(value_of),
        ..Response::default()
    })
}

// --- A registry --------------------------------------------------------------

/// A registry that answers for every target: each path with its status and its body.
struct Rdap {
    answers: Vec<(&'static str, u16, &'static str)>,
    asked: Vec<String>,
}

const BASE: &str = "http://127.0.0.1:9";

fn rdap(answers: &[(&'static str, u16, &'static str)]) -> Rdap {
    Rdap { answers: answers.to_vec(), asked: Vec::new() }
}

fn bootstrap() -> Bootstrap {
    let services = |key: &str| Registry::from_services(vec![vec![vec![key.to_owned()], vec![BASE.to_owned()]]]);
    Bootstrap { ipv4: services("0.0.0.0/0"), ipv6: services("::/0"), dns: services("com") }
}

impl Rdap {
    /// Fetches one record by its URL.
    fn fetch(&mut self, url: &str, target: &str) -> Result<Option<Record>, Error> {
        let (fetch, to) = Fetch::start(url, target, Destinations::Any)?;
        let path = to.text.strip_prefix(BASE).unwrap().to_owned();
        let (status, body) = self
            .answers
            .iter()
            .find(|(known, _, _)| *known == path)
            .map_or((404, ""), |(_, status, body)| (*status, *body));
        self.asked.push(path);
        let sent = Sent::Answered { status, from: to, announced: Some(body.len() as u64) };
        let Some(mut reading) = fetch.answered(sent)? else {
            return Ok(None);
        };
        for chunk in body.as_bytes().chunks(7) {
            reading.body.push(chunk)?;
        }
        let (whole, bytes) = reading.into_body();
        whole.finish(decode(&bytes)).map(Some)
    }

    fn lookup_ip(&mut self, target: &str) -> Result<Option<Record>, Error> {
        let request = ip_request(&bootstrap(), ip(target))?;
        self.fetch(&request.url, &request.target)
    }

    fn lookup_domain(&mut self, target: &str) -> Result<Option<Record>, Error> {
        let request = domain_request(&bootstrap(), &name(target))?;
        self.fetch(&request.url, &request.target)
    }

    fn contacts_of_ip(&mut self, cache: &mut Cache, target: IpAddr, now: u128) -> Result<Vec<Contact>, Error> {
        match rdap_ip(cache, &bootstrap(), target, now)? {
            RdapStep::Held(contacts) => Ok(contacts),
            RdapStep::Fetch(request) => {
                let fetched = self.fetch(&request.url, &request.target);
                rdap_ip_fetched(cache, target, fetched, now)
            }
        }
    }

    fn contacts_of_domain(
        &mut self,
        cache: &mut Cache,
        target: &DomainName,
        now: u128,
    ) -> Result<Vec<Contact>, Error> {
        match rdap_domain(cache, &bootstrap(), target, now)? {
            RdapStep::Held(contacts) => Ok(contacts),
            RdapStep::Fetch(request) => {
                let fetched = self.fetch(&request.url, &request.target);
                rdap_domain_fetched(cache, target, fetched, now)
            }
        }
    }
}

// --- The zones ---------------------------------------------------------------

/// What a name server holds at a name.
#[derive(Clone)]
enum Held {
    Txt(&'static str),
    Mx(&'static str),
    A(Vec<IpAddr>),
    ServFail,
}

/// A name server. A name that it does not hold does not exist.
struct Zones {
    held: Vec<(&'static str, Held)>,
    asked: Vec<String>,
}

fn zones(held: &[(&'static str, Held)]) -> Zones {
    Zones { held: held.to_vec(), asked: Vec::new() }
}

fn timed_out<T>() -> Lookup<T> {
    Lookup::Failed("server failure".to_owned())
}

impl Zones {
    fn txt(&mut self, asked: &str) -> Lookup<Vec<Vec<Box<[u8]>>>> {
        self.asked.push(asked.to_owned());
        for (known, held) in &self.held {
            if format!("{known}.") == asked {
                match held {
                    Held::Txt(text) => return Lookup::Found(vec![vec![text.as_bytes().into()]]),
                    Held::ServFail => return timed_out(),
                    _ => {}
                }
            }
        }
        Lookup::NoDomain
    }

    fn mx(&self, domain: &str) -> Lookup<Vec<String>> {
        let mut known = false;
        for (at, held) in &self.held {
            if *at == domain {
                known = true;
                if let Held::Mx(exchange) = held {
                    return Lookup::Found(vec![(*exchange).to_owned()]);
                }
            }
        }
        if known { Lookup::NoRecords } else { Lookup::NoDomain }
    }

    fn a(&self, domain: &str) -> Lookup<Vec<IpAddr>> {
        for (at, held) in &self.held {
            if *at == domain {
                match held {
                    Held::A(list) => return Lookup::Found(list.clone()),
                    Held::ServFail => return timed_out(),
                    _ => {}
                }
            }
        }
        Lookup::NoDomain
    }

    fn abusix(&mut self, target: IpAddr) -> Result<Vec<Contact>, Error> {
        let question = abusix_question(target)?;
        let answer = self.txt(&question);
        abusix(&question, answer)
    }
}

// --- Lookups -----------------------------------------------------------------

fn network(rdap: &mut Rdap, zones: &mut Zones, cache: &mut Cache, target: IpAddr, now: u128) -> NetworkAnswer {
    NetworkAnswer { rdap: rdap.contacts_of_ip(cache, target, now), abusix: zones.abusix(target) }
}

fn lookup_ip(rdap: &mut Rdap, zones: &mut Zones, cache: &mut Cache, target: &str) -> Result<Found, Error> {
    let target = public_target(ip(target))?;
    Ok(ip_found(network(rdap, zones, cache, target, 0)))
}

fn lookup_domain(rdap: &mut Rdap, zones: &mut Zones, cache: &mut Cache, target: &str) -> Found {
    let domain = name(target);
    let registry = rdap.contacts_of_domain(cache, &domain, 0);
    let operator = match abuse_net_question(&domain) {
        Some(question) => {
            let answer = zones.txt(&question);
            abuse_net(&question, answer)
        }
        None => Ok(Vec::new()),
    };
    let guess = rfc2142_from(&domain, zones.mx(target), zones.a(target));
    let hosts = addresses(&format!("{target}."), zones.a(target)).map(|found| {
        public_hosts(&found)
            .into_iter()
            .map(|host| network(rdap, zones, cache, host, 0))
            .collect()
    });
    domain_found(registry, operator, guess, hosts)
}

#[test]
fn reads_the_abusix_contacts_for_an_address() {
    let contacts = zones(&[(
        "229.132.16.104.abuse-contacts.abusix.zone",
        Held::Txt("abuse@cloudflare.com"),
    )])
    .abusix(ip("104.16.132.229"))
    .unwrap();

    assert_eq!(emails(&contacts), ["abuse@cloudflare.com"]);
    assert_eq!(contacts[0].scope, Scope::Network);
    assert_eq!(contacts[0].source, Source::Abusix);
}

#[test]
fn fetches_and_reads_an_ip_record() {
    let record = rdap(&[("/ip/8.8.8.8", 200, RECORD)]).lookup_ip("8.8.8.8").unwrap().unwrap();

    let contacts = record.response.abuse_contacts(Scope::Network, "test");

    assert_eq!(contacts.len(), 1);
    assert_eq!(contacts[0].email.as_str(), "network-abuse@example.com");
    assert_eq!(abuse_contact::client::RDAP_MEDIA_TYPE, "application/rdap+json");
    // A copy of a record holds what the record holds.
    let copy = record.clone();
    assert_eq!(copy.abuse_contacts(Scope::Network), record.abuse_contacts(Scope::Network));
    assert_eq!((copy.server, copy.url), (record.server, record.url));
}

#[test]
fn fetches_a_domain_record() {
    let found = rdap(&[("/domain/example.com", 200, RECORD)]).lookup_domain("Example.COM.").unwrap();

    assert!(found.is_some(), "the server answered with a record");
}

#[test]
fn a_body_that_is_not_rdap_gives_a_decode_error() {
    let error = rdap(&[("/ip/8.8.8.8", 200, "<html>down for maintenance")])
        .lookup_ip("8.8.8.8")
        .unwrap_err();

    assert!(
        matches!(error, Error::Decode { .. }),
        "expected a decode error, got {error:?}"
    );
}

#[test]
fn a_private_address_is_refused_before_a_request_goes_out() {
    let mut server = rdap(&[]);
    for target in ["192.168.1.1", "127.0.0.1", "10.0.0.1", "fe80::1"] {
        let error = server.lookup_ip(target).unwrap_err();

        match &error {
            Error::NotPublic { target: named } => assert_eq!(named, target),
            other => panic!("expected {target} to be refused, got {other:?}"),
        }

        // The message must say what to do instead.
        let message = error.message();
        assert!(message.contains(target), "message was: {message}");
        assert!(message.contains("public address"), "message was: {message}");
    }
    assert_eq!(server.asked.len(), 0);
}

#[test]
fn follows_a_link_out_of_a_record() {
    let url = format!("{BASE}/rdap/v1/domain/EXAMPLE.COM");

    let found = rdap(&[("/rdap/v1/domain/EXAMPLE.COM", 200, RECORD)])
        .fetch(&url, "example.com")
        .unwrap();

    assert!(found.is_some());
    assert_eq!(Url::parse(&url).unwrap().text, url);
}

#[test]
fn an_address_gets_the_contacts_of_rdap_and_abusix_ranked() {
    let mut rdap = rdap(&[("/ip/8.8.8.8", 200, IP_RECORD)]);
    let mut dns = zones(&[(
        "8.8.8.8.abuse-contacts.abusix.zone",
        Held::Txt("network-abuse@example.com,abuse@example.net"),
    )]);

    let found = lookup_ip(&mut rdap, &mut dns, &mut Cache::default(), "8.8.8.8").unwrap();

    // The address both sources give is kept once, from RDAP.
    assert_eq!(
        emails(&found.contacts),
        ["network-abuse@example.com", "abuse@example.net"]
    );
    assert!(matches!(found.contacts[0].source, Source::Rdap { .. }));
    assert_eq!(found.contacts[1].source, Source::Abusix);
    assert!(
        found.contacts.iter().all(|c| c.scope == Scope::Network),
        "{:?}",
        found.contacts
    );
    assert_eq!(found.failures.len(), 0);
}

#[test]
fn a_failing_zone_keeps_the_rdap_answer() {
    let mut rdap = rdap(&[("/ip/8.8.8.8", 200, IP_RECORD)]);
    let mut dns = zones(&[("8.8.8.8.abuse-contacts.abusix.zone", Held::ServFail)]);

    let found = lookup_ip(&mut rdap, &mut dns, &mut Cache::default(), "8.8.8.8").unwrap();

    assert_eq!(emails(&found.contacts), ["network-abuse@example.com"]);
    assert_eq!(found.failures.len(), 1);
    assert_eq!(found.failures[0].origin, Origin::Abusix);
    assert!(
        matches!(found.failures[0].error, Error::Dns { .. }),
        "{:?}",
        found.failures[0].error
    );
}

#[test]
fn a_private_address_is_an_error_and_asks_no_source() {
    let mut rdap = rdap(&[("/ip/10.0.0.1", 200, IP_RECORD)]);
    let mut dns = zones(&[]);

    let error = lookup_ip(&mut rdap, &mut dns, &mut Cache::default(), "10.0.0.1").unwrap_err();

    match error {
        Error::NotPublic { target } => assert_eq!(target, "10.0.0.1"),
        other => panic!("expected NotPublic, got {other:?}"),
    }
    assert_eq!(rdap.asked.len(), 0);
    assert_eq!(dns.asked.len(), 0);
    assert_eq!(public_target(ip("::ffff:8.8.8.8")), Ok(ip("8.8.8.8")));
}

#[test]
fn a_domain_gets_the_contacts_of_rdap_abuse_net_and_rfc2142_ranked() {
    let mut rdap = rdap(&[("/domain/example.com", 200, DOMAIN_RECORD)]);
    let mut dns = zones(&[
        ("example.com.contacts.abuse.net", Held::Txt("security@example.com")),
        ("example.com", Held::Mx("mx1.example.com.")),
    ]);

    let found = lookup_domain(&mut rdap, &mut dns, &mut Cache::default(), "example.com");

    assert_eq!(
        emails(&found.contacts),
        ["registrar-abuse@example.net", "security@example.com", "abuse@example.com"]
    );
    assert_eq!(scopes(&found.contacts), [Scope::Registrar, Scope::Domain, Scope::Domain]);
    assert_eq!(found.failures.len(), 0);
}

#[test]
fn a_failing_registry_keeps_the_dns_answers() {
    let mut rdap = rdap(&[("/domain/example.com", 500, "")]);
    let mut dns = zones(&[("example.com.contacts.abuse.net", Held::Txt("security@example.com"))]);

    let found = lookup_domain(&mut rdap, &mut dns, &mut Cache::default(), "example.com");

    // example.com is not in the zone, so RFC 2142 finds no mail host and gives nothing.
    assert_eq!(emails(&found.contacts), ["security@example.com"]);
    assert_eq!(found.failures.len(), 1);
    assert_eq!(found.failures[0].origin, Origin::Rdap);
    assert!(
        matches!(found.failures[0].error, Error::Status { status: 500, .. }),
        "{:?}",
        found.failures[0].error
    );
}

#[test]
fn a_registry_that_holds_no_record_is_not_a_failure() {
    let mut rdap = rdap(&[("/domain/example.com", 404, "")]);

    let found = lookup_domain(&mut rdap, &mut zones(&[]), &mut Cache::default(), "example.com");

    assert_eq!(emails(&found.contacts), Vec::<&str>::new());
    assert_eq!(found.failures.len(), 0);
}

#[test]
fn two_addresses_in_one_network_ask_the_registry_once() {
    let mut rdap = rdap(&[("/ip/8.8.8.8", 200, IP_RECORD), ("/ip/8.8.8.9", 200, IP_RECORD)]);
    let mut dns = zones(&[]);
    let mut cache = Cache::default();

    lookup_ip(&mut rdap, &mut dns, &mut cache, "8.8.8.8").unwrap();
    let found = lookup_ip(&mut rdap, &mut dns, &mut cache, "8.8.8.9").unwrap();

    assert_eq!(emails(&found.contacts), ["network-abuse@example.com"]);
    assert_eq!(rdap.asked, ["/ip/8.8.8.8"]);
}

#[test]
fn an_address_outside_the_network_asks_the_registry_again() {
    let mut rdap = rdap(&[("/ip/8.8.8.8", 200, IP_RECORD), ("/ip/8.8.9.8", 200, IP_RECORD)]);
    let mut dns = zones(&[]);
    let mut cache = Cache::default();

    lookup_ip(&mut rdap, &mut dns, &mut cache, "8.8.8.8").unwrap();
    lookup_ip(&mut rdap, &mut dns, &mut cache, "8.8.9.8").unwrap();

    assert_eq!(rdap.asked, ["/ip/8.8.8.8", "/ip/8.8.9.8"]);
    // The range of the second record does not hold the address, so it is not held for it.
    assert_eq!(cache.len(), 1);
}

#[test]
fn a_domain_asks_the_registry_once() {
    let mut rdap = rdap(&[("/domain/example.com", 200, DOMAIN_RECORD)]);
    let mut dns = zones(&[]);
    let mut cache = Cache::default();

    lookup_domain(&mut rdap, &mut dns, &mut cache, "example.com");
    let found = lookup_domain(&mut rdap, &mut dns, &mut cache, "example.com");

    assert_eq!(emails(&found.contacts), ["registrar-abuse@example.net"]);
    assert_eq!(rdap.asked, ["/domain/example.com"]);
}

#[test]
fn a_name_that_is_not_registered_asks_the_registry_once() {
    let mut rdap = rdap(&[]);
    let mut cache = Cache::default();

    lookup_domain(&mut rdap, &mut zones(&[]), &mut cache, "example.com");
    lookup_domain(&mut rdap, &mut zones(&[]), &mut cache, "example.com");

    assert_eq!(rdap.asked, ["/domain/example.com"]);
    // An address with no record is asked about again.
    lookup_ip(&mut rdap, &mut zones(&[]), &mut cache, "8.8.8.8").unwrap();
    lookup_ip(&mut rdap, &mut zones(&[]), &mut cache, "8.8.8.8").unwrap();
    assert_eq!(rdap.asked.len(), 3);
}

#[test]
fn a_held_answer_is_given_until_its_time_is_over() {
    let mut rdap = rdap(&[("/ip/8.8.8.8", 200, IP_RECORD)]);
    let mut cache = Cache::new(10);

    for (now, asked) in [(5, 1), (14, 1), (15, 2), (24, 2)] {
        let contacts = rdap.contacts_of_ip(&mut cache, ip("8.8.8.8"), now).unwrap();
        assert_eq!(emails(&contacts), ["network-abuse@example.com"]);
        assert_eq!(rdap.asked.len(), asked, "at {now}");
    }
}

#[test]
fn a_failure_is_not_held() {
    let mut failing = rdap(&[("/ip/8.8.8.8", 500, "")]);
    let mut rdap = rdap(&[("/ip/8.8.8.8", 200, IP_RECORD)]);
    let mut dns = zones(&[]);
    let mut cache = Cache::default();

    let first = lookup_ip(&mut failing, &mut dns, &mut cache, "8.8.8.8").unwrap();
    assert!(cache.is_empty());
    let second = lookup_ip(&mut rdap, &mut dns, &mut cache, "8.8.8.8").unwrap();

    assert_eq!(first.failures.len(), 1);
    assert_eq!(emails(&second.contacts), ["network-abuse@example.com"]);
}

#[test]
fn a_cache_that_holds_nothing_asks_the_registry_every_time() {
    let mut rdap = rdap(&[("/ip/8.8.8.8", 200, IP_RECORD)]);
    let mut dns = zones(&[]);
    let mut cache = Cache::new(0);

    lookup_ip(&mut rdap, &mut dns, &mut cache, "8.8.8.8").unwrap();
    lookup_ip(&mut rdap, &mut dns, &mut cache, "8.8.8.8").unwrap();

    assert_eq!(rdap.asked.len(), 2);
}

#[test]
fn a_domain_gets_the_network_contacts_of_its_host() {
    let mut rdap = rdap(&[
        ("/domain/example.com", 200, DOMAIN_RECORD),
        ("/ip/8.8.8.8", 200, IP_RECORD),
    ]);
    let mut dns = zones(&[
        ("example.com", Held::A(vec![IpAddr::V4(Ipv4Addr::new(8, 8, 8, 8))])),
        ("8.8.8.8.abuse-contacts.abusix.zone", Held::Txt("noc@example.org")),
    ]);

    let found = lookup_domain(&mut rdap, &mut dns, &mut Cache::default(), "example.com");

    // The domain has an address and no MX, so RFC 2142 gives abuse@ at the domain.
    assert_eq!(
        emails(&found.contacts),
        [
            "network-abuse@example.com",
            "registrar-abuse@example.net",
            "noc@example.org",
            "abuse@example.com"
        ]
    );
    assert_eq!(
        scopes(&found.contacts),
        [Scope::Network, Scope::Registrar, Scope::Network, Scope::Domain]
    );
    assert_eq!(found.failures.len(), 0);
}

#[test]
fn two_hosts_in_one_network_ask_the_registry_once() {
    let mut rdap = rdap(&[("/ip/8.8.8.8", 200, IP_RECORD), ("/ip/8.8.8.9", 200, IP_RECORD)]);
    let mut dns = zones(&[("example.com", Held::A(vec![ip("8.8.8.8"), ip("8.8.8.9")]))]);

    let found = lookup_domain(&mut rdap, &mut dns, &mut Cache::default(), "example.com");

    let network: Vec<&str> = found
        .contacts
        .iter()
        .filter(|c| c.scope == Scope::Network)
        .map(|c| c.email.as_str())
        .collect();
    assert_eq!(network, ["network-abuse@example.com"]);
    assert_eq!(rdap.asked, ["/domain/example.com", "/ip/8.8.8.8"]);
}

#[test]
fn a_host_at_a_private_address_asks_no_network_source() {
    let mut rdap = rdap(&[("/ip/10.0.0.1", 200, IP_RECORD)]);
    let mut dns = zones(&[("example.com", Held::A(vec![ip("10.0.0.1")]))]);

    let found = lookup_domain(&mut rdap, &mut dns, &mut Cache::default(), "example.com");

    // A private host has no network to report to. That is not a failure.
    assert_eq!(emails(&found.contacts), ["abuse@example.com"]);
    assert_eq!(found.failures.len(), 0);
    assert_eq!(rdap.asked, ["/domain/example.com"]);
    assert!(
        !dns.asked.iter().any(|name| name.ends_with("abuse-contacts.abusix.zone.")),
        "{:?}",
        dns.asked
    );
}

#[test]
fn a_failing_address_lookup_keeps_the_other_answers() {
    let mut rdap = rdap(&[("/domain/example.com", 200, DOMAIN_RECORD)]);
    let mut dns = zones(&[
        ("example.com", Held::Mx("mx1.example.com.")),
        ("example.com", Held::ServFail),
    ]);

    let found = lookup_domain(&mut rdap, &mut dns, &mut Cache::default(), "example.com");

    assert_eq!(
        emails(&found.contacts),
        ["registrar-abuse@example.net", "abuse@example.com"]
    );
    assert_eq!(found.failures.len(), 1);
    assert_eq!(found.failures[0].origin, Origin::Host);
    assert!(
        matches!(found.failures[0].error, Error::Dns { .. }),
        "{:?}",
        found.failures[0].error
    );
}
