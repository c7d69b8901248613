//! The command: its arguments, its targets, and what it writes.

use abuse_contact::addr::IpAddr;
use abuse_contact::cli::{
    parse_args, parse_target, target_of, to_json, write_text, Command, Format, UsageError, USAGE, USAGE_STATUS,
    VERSION,
};
use abuse_contact::json::Json;
use abuse_contact::{Contact, DomainName, EmailAddress, Error, Failure, Found, Origin, Query, Scope, Source};

fn strings(values: &[&str]) -> Vec<String> {
    values.iter().map(|value| (*value).to_owned()).collect()
}

fn found() -> Found {
    Found {
        contacts: vec![
            Contact {
                email: EmailAddress::new("network-abuse@example.com").unwrap(),
                scope: Scope::Network,
                source: Source::Rdap { server: "rdap.arin.net".to_owned() },
            },
            Contact {
                email: EmailAddress::new("noc@example.org").unwrap(),
                scope: Scope::Network,
                source: Source::Abusix,
            },
        ],
        failures: Vec::new(),
    }
}

fn abusix_timeout() -> Failure {
    Failure {
        origin: Origin::Abusix,
        error: Error::Dns {
            name: "8.8.8.8.abuse-contacts.abusix.zone.".to_owned(),
            source: "timed out".to_owned(),
        },
    }
}

fn not_public() -> Error {
    Error::NotPublic { target: "10.0.0.1".to_owned() }
}

#[test]
fn parse_args_reads_the_options_and_the_targets() {
    let lookup = |format, targets: &[&str]| Command::Lookup { format, targets: strings(targets) };
    let tests = [
        ("no arguments", vec![], Ok(lookup(Format::Text, &[]))),
        (
            "two targets",
            vec!["8.8.8.8", "example.com"],
            Ok(lookup(Format::Text, &["8.8.8.8", "example.com"])),
        ),
        (
            "json after a target",
            vec!["8.8.8.8", "--json"],
            Ok(lookup(Format::Json, &["8.8.8.8"])),
        ),
        ("short help", vec!["-h"], Ok(Command::Help)),
        ("help after a target", vec!["8.8.8.8", "--help"], Ok(Command::Help)),
        ("short version", vec!["-V"], Ok(Command::Version)),
        ("long version", vec!["--version"], Ok(Command::Version)),
        (
            "an unknown option",
            vec!["--yaml"],
            Err(UsageError(
                "the option --yaml is not known. Run abuse-contact --help to see the options".to_owned(),
            )),
        ),
    ];

    for (name, args, want) in tests {
        assert_eq!(parse_args(strings(&args)), want, "{name}");
    }
}

#[test]
fn the_first_option_decides() {
    assert_eq!(parse_args(strings(&["--json", "a.b", "-V", "--yaml"])), Ok(Command::Version));
    assert!(parse_args(strings(&["--yaml", "-h"])).is_err());
    assert!(parse_args(strings(&["-"])).is_err());
    assert_eq!(
        parse_args(strings(&["", "--json", "--json"])),
        Ok(Command::Lookup { format: Format::Json, targets: strings(&[""]) })
    );
}

#[test]
fn target_of_skips_empty_lines_and_comments() {
    let tests = [
        ("8.8.8.8", Some("8.8.8.8")),
        ("  example.com \r", Some("example.com")),
        ("", None),
        ("   ", None),
        ("# from the mail log", None),
        ("  # indented", None),
    ];

    for (line, want) in tests {
        assert_eq!(target_of(line), want, "{line:?}");
    }
    assert_eq!(target_of("\u{2003}bücher.de\u{a0}"), Some("bücher.de"));
}

#[test]
fn parse_target_reads_an_address_and_else_a_domain() {
    assert_eq!(
        parse_target("8.8.8.8").unwrap(),
        Query::Ip(IpAddr::parse("8.8.8.8").unwrap())
    );
    assert_eq!(
        parse_target("2001:db8::1").unwrap(),
        Query::Ip(IpAddr::parse("2001:db8::1").unwrap())
    );
    assert_eq!(
        parse_target("Example.COM").unwrap(),
        Query::Domain("example.com".parse::<DomainName>().unwrap())
    );
    assert!(
        matches!(parse_target("not a name"), Err(Error::Validation(_))),
        "{:?}",
        parse_target("not a name")
    );
}

fn text(found: &Result<Found, Error>) -> (String, String) {
    write_text("8.8.8.8", found)
}

#[test]
fn write_text_writes_one_line_for_each_contact() {
    let (out, err) = text(&Ok(found()));

    assert_eq!(
        out,
        "8.8.8.8\tnetwork-abuse@example.com\tnetwork\trdap.arin.net\n\
         8.8.8.8\tnoc@example.org\tnetwork\tabusix\n"
    );
    assert_eq!(err, "");
}

#[test]
fn write_text_writes_a_failure_to_standard_error() {
    let mut found = found();
    found.failures.push(abusix_timeout());

    let (out, err) = text(&Ok(found));

    assert_eq!(out.lines().count(), 2, "{out}");
    assert!(
        err.starts_with("8.8.8.8: Abusix did not answer: the DNS lookup for "),
        "{err}"
    );
}

#[test]
fn write_text_says_when_no_source_gave_a_contact() {
    let (out, err) = text(&Ok(Found::default()));

    assert_eq!(out, "");
    assert_eq!(err, "8.8.8.8: no source gave an abuse contact\n");
}

#[test]
fn write_text_writes_a_target_that_was_not_looked_up_to_standard_error() {
    let (out, err) = text(&Err(not_public()));

    assert_eq!(out, "");
    assert!(
        err.starts_with("8.8.8.8: 10.0.0.1 is a private, reserved or documentation address"),
        "{err}"
    );
}

fn object(fields: &[(&str, &str)]) -> Json {
    Json::Object(
        fields
            .iter()
            .map(|(key, value)| ((*key).to_owned(), Json::Text((*value).to_owned())))
            .collect(),
    )
}

fn field(value: &Json, key: &str) -> Json {
    value.field(key).unwrap().clone()
}

#[test]
fn to_json_gives_the_contacts_and_the_failures() {
    let mut found = found();
    found.failures.push(abusix_timeout());

    let value = to_json("8.8.8.8", &Ok(found));

    assert_eq!(field(&value, "target"), Json::Text("8.8.8.8".to_owned()));
    assert_eq!(
        field(&value, "contacts"),
        Json::List(vec![
            object(&[
                ("email", "network-abuse@example.com"),
                ("scope", "network"),
                ("source", "rdap.arin.net")
            ]),
            object(&[("email", "noc@example.org"), ("scope", "network"), ("source", "abusix")]),
        ])
    );
    let failure = field(&value, "failures").item(0).unwrap().clone();
    assert_eq!(field(&failure, "origin"), Json::Text("Abusix".to_owned()));
    assert!(
        field(&failure, "error")
            .as_text()
            .unwrap()
            .starts_with("the DNS lookup for 8.8.8.8.abuse-contacts.abusix.zone. did not finish"),
        "{value:?}"
    );
    assert_eq!(field(&value, "error"), Json::Null);
}

#[test]
fn to_json_gives_the_error_of_a_target_that_was_not_looked_up() {
    let value = to_json("10.0.0.1", &Err(not_public()));

    assert_eq!(field(&value, "target"), Json::Text("10.0.0.1".to_owned()));
    assert_eq!(field(&value, "contacts"), Json::List(Vec::new()));
    assert_eq!(field(&value, "failures"), Json::List(Vec::new()));
    assert!(
        field(&value, "error")
            .as_text()
            .unwrap()
            .starts_with("10.0.0.1 is a private, reserved or documentation address"),
        "{value:?}"
    );
}

#[test]
fn help_shows_the_usage() {
    assert!(USAGE.starts_with("Usage: abuse-contact [--json] [TARGET]...\n"), "{USAGE}");
    assert!(USAGE.ends_with("  2  The command line is not correct\n"), "{USAGE}");
}

#[test]
fn version_shows_the_version_of_the_crate() {
    assert_eq!(VERSION, "abuse-contact 0.1.0");
}

#[test]
fn an_unknown_option_is_a_usage_error() {
    assert_eq!(USAGE_STATUS, 2);
    assert_eq!(
        parse_args(strings(&["--yaml", "8.8.8.8"])).unwrap_err().0,
        "the option --yaml is not known. Run abuse-contact --help to see the options"
    );
}
