//! RDAP records: where the abuse contact is, and the range a record is for.

use abuse_contact::addr::{IpAddr, IpRange};
use abuse_contact::json::Json;
use abuse_contact::rdap::{emails, preference, Entity, Link, Response};
use abuse_contact::{Scope, Source};

fn ip(value: &str) -> IpAddr {
    IpAddr::parse(value).unwrap()
}

fn value_of(value: &serde_json::Value) -> Json {
    match value {
        serde_json::Value::Null => Json::Null,
        serde_json::Value::Bool(b) => Json::Bool(*b),
        serde_json::Value::Number(n) => Json::Number(n.as_u64()),
        serde_json::Value::String(text) => Json::Text(text.clone()),
        serde_json::Value::Array(items) => Json::List(items.iter().map(value_of).collect()),
        serde_json::Value::Object(fields) => {
            Json::Object(fields.iter().map(|(key, value)| (key.clone(), value_of(value))).collect())
        }
    }
}

fn text_at(value: &serde_json::Value, key: &str) -> Option<String> {
    value.get(key).and_then(|v| v.as_str()).map(|text| text.to_owned())
}

fn entities_at(value: &serde_json::Value) -> Vec<Entity> {
    let Some(entities) = value.get("entities").and_then(|v| v.as_array()) else {
        return Vec::new();
    };
    entities
        .iter()
        .map(|entity| Entity {
            roles: match entity.get("roles") {
                Some(roles) => serde_json::from_value(roles.clone()).unwrap(),
                None => Vec::new(),
            },
            handle: text_at(entity, "handle"),
            vcard_array: entity.get("vcardArray").map(value_of),
            entities: entities_at(entity),
        })
        .collect()
}

/// Reads a record out of the body of an answer.
fn parse(json: &str) -> Response {
    let body: serde_json::Value = serde_json::from_str(json).unwrap();
    let links = match body.get("links").and_then(|v| v.as_array()) {
        Some(links) => links
            .iter()
            .map(|link| Link { rel: text_at(link, "rel"), href: text_at(link, "href") })
            .collect(),
        None => Vec::new(),
    };
    Response {
        entities: entities_at(&body),
        links,
        start_address: body.get("startAddress").map(value_of),
        end_address: body.get("endAddress").map(value_of),
    }
}

fn emails_of(response: &Response, scope: Scope) -> Vec<String> {
    response
        .abuse_contacts(scope, "rdap.example.net")
        .iter()
        .map(|c| c.email.as_str().to_owned())
        .collect()
}

/// An ARIN answer for an IP address. The abuse entity is under the registrant.
const ARIN_IP: &str = r#"{
  "entities": [{
    "handle": "GOGL",
    "roles": ["registrant"],
    "vcardArray": ["vcard", [["version", {}, "text", "4.0"], ["fn", {}, "text", "Google LLC"]]],
    "entities": [{
      "handle": "ABUSE5250-ARIN",
      "roles": ["abuse"],
      "vcardArray": ["vcard", [
        ["fn", {}, "text", "Abuse"],
        ["email", {}, "text", "network-abuse@google.com"],
        ["tel", {"type": ["work", "voice"]}, "text", "+1-650-253-0000"]
      ]]
    }, {
      "handle": "ZG39-ARIN",
      "roles": ["administrative", "technical"],
      "vcardArray": ["vcard", [["email", {}, "text", "arin-contact@google.com"]]]
    }]
  }]
}"#;

/// A RIPE answer for an IP address. The abuse entity is at the top level.
const RIPE_IP: &str = r#"{
  "entities": [{
    "handle": "MDIR-RIPE",
    "roles": ["administrative"],
    "vcardArray": ["vcard", [["fn", {}, "text", "Managing Director"]]]
  }, {
    "handle": "OPS4-RIPE",
    "roles": ["abuse"],
    "vcardArray": ["vcard", [
      ["fn", {}, "text", "RIPE NCC Operations"],
      ["email", {}, "text", "abuse@ripe.net"]
    ]]
  }]
}"#;

/// A registry answer for a domain. The abuse entity is under the registrar.
const REGISTRY_DOMAIN: &str = r#"{
  "entities": [{
    "roles": ["registrar"],
    "vcardArray": ["vcard", [["fn", {}, "text", "Cloudflare, Inc."]]],
    "entities": [{
      "roles": ["abuse"],
      "vcardArray": ["vcard", [["email", {}, "text", "registrar-abuse@cloudflare.com"]]]
    }]
  }],
  "links": [
    {"rel": "self", "href": "https://rdap.verisign.com/com/v1/domain/cloudflare.com"},
    {"rel": "related", "href": "https://rdap.cloudflare.com/rdap/v1/domain/CLOUDFLARE.COM"}
  ]
}"#;

/// A registrar answer. The abuse entity is under the registrar, and every other
/// contact is redacted.
const REGISTRAR_DOMAIN: &str = r#"{
  "entities": [{
    "roles": ["registrar"],
    "vcardArray": ["vcard", [["email", {}, "text", "registrar-admin@cloudflare.com"]]],
    "entities": [{
      "roles": ["abuse"],
      "vcardArray": ["vcard", [
        ["fn", {}, "text", "Cloudflare Registrar Abuse"],
        ["email", {}, "text", "registrar-abuse@cloudflare.com"]
      ]]
    }]
  }, {
    "roles": ["registrant"],
    "vcardArray": ["vcard", [
      ["fn", {}, "text", "DATA REDACTED"],
      ["email", {}, "text", "DATA REDACTED"]
    ]]
  }]
}"#;

#[test]
fn finds_an_abuse_entity_nested_under_the_registrant() {
    assert_eq!(emails_of(&parse(ARIN_IP), Scope::Network), ["network-abuse@google.com"]);
}

#[test]
fn finds_an_abuse_entity_at_the_top_level() {
    assert_eq!(emails_of(&parse(RIPE_IP), Scope::Network), ["abuse@ripe.net"]);
}

#[test]
fn ignores_entities_without_the_abuse_role() {
    let contacts = emails_of(&parse(ARIN_IP), Scope::Network);

    assert!(!contacts.contains(&"arin-contact@google.com".to_owned()));
}

#[test]
fn finds_an_abuse_entity_nested_under_the_registrar() {
    assert_eq!(
        emails_of(&parse(REGISTRY_DOMAIN), Scope::Registrar),
        ["registrar-abuse@cloudflare.com"]
    );
}

#[test]
fn returns_a_repeated_abuse_entity_one_time() {
    let response = parse(
        r#"{"entities":[
             {"roles":["abuse"],"vcardArray":["vcard",[["email",{},"text","a@example.com"]]]},
             {"roles":["registrant"],"entities":[
               {"roles":["abuse"],"vcardArray":["vcard",[["email",{},"text","a@example.com"]]]}
             ]}
           ]}"#,
    );

    assert_eq!(emails_of(&response, Scope::Network), ["a@example.com"]);
}

#[test]
fn a_registry_domain_record_points_at_the_registrar() {
    assert_eq!(
        parse(REGISTRY_DOMAIN).related_href(),
        Some("https://rdap.cloudflare.com/rdap/v1/domain/CLOUDFLARE.COM")
    );
}

#[test]
fn finds_the_registrar_abuse_contact_and_drops_the_redacted_one() {
    assert_eq!(
        emails_of(&parse(REGISTRAR_DOMAIN), Scope::Registrar),
        ["registrar-abuse@cloudflare.com"]
    );
}

#[test]
fn records_which_server_answered() {
    let contacts = parse(RIPE_IP).abuse_contacts(Scope::Network, "rdap.db.ripe.net");

    assert_eq!(
        contacts[0].source,
        Source::Rdap { server: "rdap.db.ripe.net".to_owned() }
    );
    assert_eq!(contacts[0].scope, Scope::Network);
}

#[test]
fn reads_the_preferred_address_first() {
    // APNIC lists a help desk and an abuse mailbox, and marks the abuse one.
    let response = parse(
        r#"{"entities":[{"roles":["abuse"],"vcardArray":["vcard",[
             ["email", {}, "text", "helpdesk@apnic.net"],
             ["email", {"pref": "1"}, "text", "abuse@apnic.net"]
           ]]}]}"#,
    );

    assert_eq!(
        emails_of(&response, Scope::Network),
        ["abuse@apnic.net", "helpdesk@apnic.net"]
    );
}

#[test]
fn reads_a_numeric_pref() {
    let response = parse(
        r#"{"entities":[{"roles":["abuse"],"vcardArray":["vcard",[
             ["email", {}, "text", "second@example.com"],
             ["email", {"pref": 1}, "text", "first@example.com"]
           ]]}]}"#,
    );

    assert_eq!(
        emails_of(&response, Scope::Network),
        ["first@example.com", "second@example.com"]
    );
}

#[test]
fn keeps_document_order_when_no_property_names_a_preference() {
    let response = parse(
        r#"{"entities":[{"roles":["abuse"],"vcardArray":["vcard",[
             ["email", {}, "text", "one@example.com"],
             ["email", {}, "text", "two@example.com"]
           ]]}]}"#,
    );

    assert_eq!(
        emails_of(&response, Scope::Network),
        ["one@example.com", "two@example.com"]
    );
}

#[test]
fn finds_an_entity_that_carries_the_abuse_role_beside_another() {
    // registro.br marks one entity both technical and abuse.
    let response = parse(
        r#"{"entities":[{"roles":["technical","abuse"],"vcardArray":["vcard",[
             ["email", {}, "text", "noc@example.com"]
           ]]}]}"#,
    );

    assert_eq!(emails_of(&response, Scope::Network), ["noc@example.com"]);
}

#[test]
fn an_abuse_entity_without_an_address_gives_nothing() {
    // registro.br publishes an abuse entity whose jCard holds only a name.
    let response = parse(
        r#"{"entities":[{"roles":["technical","abuse"],"vcardArray":["vcard",[
             ["fn", {}, "text", "Frederico Augusto de Carvalho Neves"],
             ["lang", {}, "language-tag", "pt"]
           ]]}]}"#,
    );

    assert_eq!(emails_of(&response, Scope::Network), Vec::<String>::new());
}

#[test]
fn reads_an_empty_response() {
    let response = parse("{}");

    assert_eq!(response.abuse_contacts(Scope::Network, "x"), Vec::new());
    assert_eq!(response.related_href(), None);
    assert_eq!(Response::default().abuse_contacts(Scope::Network, "x"), Vec::new());
}

#[test]
fn skips_a_jcard_property_in_a_shape_it_does_not_know() {
    let response = parse(
        r#"{"entities":[{"roles":["abuse"],"vcardArray":["vcard",[
             ["email"],
             ["email", {}, "text", ["abuse@example.com"]],
             ["email", {}, "text", "good@example.com"]
           ]]}]}"#,
    );

    assert_eq!(emails_of(&response, Scope::Network), ["good@example.com"]);
}

#[test]
fn reads_the_range_of_a_network() {
    let response = parse(r#"{"startAddress": "8.8.8.0", "endAddress": "8.8.8.255", "entities": []}"#);

    assert_eq!(
        response.range(),
        Some(IpRange { start: ip("8.8.8.0"), end: ip("8.8.8.255") })
    );
}

#[test]
fn a_range_that_cannot_be_read_is_none() {
    for json in [
        // A domain record carries no range.
        r#"{}"#,
        r#"{"startAddress": "8.8.8.0"}"#,
        r#"{"startAddress": "8.8.8.0", "endAddress": "not an address"}"#,
        // The two ends are in different families.
        r#"{"startAddress": "8.8.8.0", "endAddress": "2001:db8::ff"}"#,
        // The range ends before it starts.
        r#"{"startAddress": "8.8.8.255", "endAddress": "8.8.8.0"}"#,
        // The field is not a string. The rest of the record is still read.
        r#"{"startAddress": 1, "endAddress": 2}"#,
    ] {
        assert_eq!(parse(json).range(), None, "{json}");
    }
}

#[test]
fn an_abuse_entity_is_found_at_any_depth() {
    let response = parse(
        r#"{"entities":[{"roles":["a"],"entities":[{"roles":["b"],"entities":[{"roles":["c"],"entities":[
             {"roles":["abuse"],"vcardArray":["vcard",[["email",{},"text","deep@example.com"]]]}
           ]}]}]},
           {"roles":["abuse"],"vcardArray":["vcard",[["email",{},"text","top@example.com"]]]}]}"#,
    );

    assert_eq!(
        emails_of(&response, Scope::Network),
        ["deep@example.com", "top@example.com"]
    );
}

#[test]
fn values_of_one_preference_stay_in_document_order() {
    let vcard = value_of(
        &serde_json::from_str(
            r#"["vcard",[
                 ["email", {"pref": 2}, "text", "c"],
                 ["email", {"pref": "1"}, "text", "a"],
                 ["email", {}, "text", "e"],
                 ["email", {"pref": 2}, "text", "d"],
                 ["email", {"pref": 1}, "text", "b"],
                 ["tel", {"pref": 1}, "text", "x"],
                 ["email", {"pref": 100}, "text", "f"]
               ]]"#,
        )
        .unwrap(),
    );

    assert_eq!(emails(Some(&vcard)), ["a", "b", "c", "d", "e", "f"]);
    assert_eq!(emails(None), Vec::<&str>::new());
    assert_eq!(emails(Some(&Json::Text("vcard".to_owned()))), Vec::<&str>::new());
}

#[test]
fn a_preference_that_cannot_be_read_is_the_lowest() {
    let pref = |json: &str| preference(Some(&value_of(&serde_json::from_str(json).unwrap())));
    assert_eq!(pref(r#"{"pref": "7"}"#), 7);
    assert_eq!(pref(r#"{"pref": 7}"#), 7);
    assert_eq!(pref(r#"{"pref": "first"}"#), 100);
    assert_eq!(pref(r#"{"pref": 4294967296}"#), 100);
    assert_eq!(pref(r#"{"pref": "4294967296"}"#), 100);
    assert_eq!(pref(r#"{"pref": 4294967295}"#), 4294967295);
    assert_eq!(pref(r#"{"pref": -1}"#), 100);
    assert_eq!(pref(r#"{"pref": 1.5}"#), 100);
    assert_eq!(pref(r#"{"pref": true}"#), 100);
    assert_eq!(pref(r#"{}"#), 100);
    assert_eq!(pref(r#"["pref"]"#), 100);
    assert_eq!(preference(None), 100);
}

#[test]
fn the_first_related_link_is_the_one_that_is_read() {
    let response = parse(
        r#"{"links":[{"rel":"related"},{"rel":"related","href":"https://second.example/"},{"href":"https://none.example/"}]}"#,
    );

    assert_eq!(response.related_href(), None);
}

#[test]
fn a_json_value_copies_whole() {
    let value = value_of(&serde_json::from_str(r#"{"a":[1,{"b":null}],"c":"d","e":true}"#).unwrap());

    assert_eq!(value.clone(), value);
    assert_eq!(value.field("c").and_then(|v| v.as_text()), Some("d"));
    assert_eq!(value.field("a").and_then(|v| v.item(0)).and_then(|v| v.as_number()), Some(1));
    assert_eq!(value.field("f"), None);
    assert_eq!(value.item(0), None);
}
