//! The `abuse-contact` command, without the process around it: what the command line
//! asks for, and how what was found is written.

use vstd::prelude::*;
use vstd::string::*;

use crate::addr;
use crate::addr::IpAddr;
use crate::contact;
use crate::contact::ContactView;
use crate::error::{Error, ErrorView};
use crate::finder;
use crate::finder::{FailureView, Found};
use crate::json;
use crate::json::{Json, JsonView};
use crate::list;
use crate::query;
use crate::query::{DomainName, Query, QueryView};
use crate::text;

verus! {

/// What `--help` shows.
pub const USAGE: &'static str = "\
Usage: abuse-contact [--json] [TARGET]...

Finds where to report abuse for an IP address or a domain name.

Give each target as an argument. With no argument, the command reads one target
from each line of standard input. It skips empty lines and lines that start with #.

Options:
  --json         Write one JSON object for each target, one object on each line
  -h, --help     Show this help
  -V, --version  Show the version

Output:
  Each contact is one line: the target, the address, the scope and the source,
  divided by tabs. A source that did not answer goes to standard error.

Exit status:
  0  Each target was looked up. A source that did not answer does not change this.
  1  A target could not be looked up
  2  The command line is not correct
";

/// What `--version` shows.
pub const VERSION: &'static str = "abuse-contact 0.1.0";

/// The exit status for a command line that is not correct.
pub const USAGE_STATUS: u8 = 2;

// --- The command line --------------------------------------------------------

/// How the command writes what it found.
#[derive(Clone, Copy, Debug, PartialEq, Eq, Structural)]
pub enum Format {
    /// One line for each contact, with the fields divided by tabs.
    Text,
    /// One JSON object for each target.
    Json,
}

/// What the command line asks for.
#[derive(Debug, PartialEq, Eq)]
pub enum Command {
    /// Show the usage.
    Help,
    /// Show the version.
    Version,
    /// Look up targets.
    Lookup {
        /// How to write what was found.
        format: Format,
        /// The targets.
        targets: Vec<String>,
    },
}

/// A command line that is not correct. The message says what to change.
#[derive(Debug, PartialEq, Eq)]
pub struct UsageError(pub String);

/// What a [`Command`] holds.
pub enum CommandView {
    Help,
    Version,
    Lookup { format: Format, targets: Seq<Seq<char>> },
}

impl View for Command {
    type V = CommandView;

    open spec fn view(&self) -> CommandView {
        match *self {
            Command::Help => CommandView::Help,
            Command::Version => CommandView::Version,
            Command::Lookup { format, targets } => CommandView::Lookup {
                format,
                targets: text::texts_view(targets@),
            },
        }
    }
}

/// Whether an argument is an option. A target never starts with a hyphen: an address
/// starts with a digit or a colon, and a domain name cannot start with a hyphen.
pub open spec fn is_option(arg: Seq<char>) -> bool {
    arg.len() > 0 && arg[0] == '-'
}

/// The first option other than `--json`, which decides what the command does.
pub open spec fn deciding_option(args: Seq<Seq<char>>) -> Option<Seq<char>>
    decreases args.len(),
{
    if args.len() == 0 {
        None
    } else if is_option(args[0]) && args[0] != "--json"@ {
        Some(args[0])
    } else {
        deciding_option(args.drop_first())
    }
}

/// What an option other than `--json` asks for, or why it is not correct.
pub open spec fn decided(option: Seq<char>) -> Result<CommandView, Seq<char>> {
    if option == "-h"@ || option == "--help"@ {
        Ok(CommandView::Help)
    } else if option == "-V"@ || option == "--version"@ {
        Ok(CommandView::Version)
    } else {
        Err("the option "@ + option + " is not known. Run abuse-contact --help to see the options"@)
    }
}

/// The arguments that are targets.
pub open spec fn targets_of(args: Seq<Seq<char>>) -> Seq<Seq<char>> {
    args.filter(|arg: Seq<char>| !is_option(arg))
}

/// What a command line asks for, or why it is not correct.
pub open spec fn command_of(args: Seq<Seq<char>>) -> Result<CommandView, Seq<char>> {
    match deciding_option(args) {
        Some(option) => decided(option),
        None => Ok(
            CommandView::Lookup {
                format: if args.contains("--json"@) {
                    Format::Json
                } else {
                    Format::Text
                },
                targets: targets_of(args),
            },
        ),
    }
}

/// Reads an option other than `--json`.
fn read_option(option: &str) -> (command: Result<Command, UsageError>)
    ensures
        match (command, decided(option@)) {
            (Ok(command), Ok(wanted)) => command@ == wanted,
            (Err(error), Err(wanted)) => error.0@ == wanted,
            _ => false,
        },
{
    if text::same_text(option, "-h") || text::same_text(option, "--help") {
        return Ok(Command::Help);
    }
    if text::same_text(option, "-V") || text::same_text(option, "--version") {
        return Ok(Command::Version);
    }
    let mut message = "the option ".to_owned();
    message.append(option);
    message.append(" is not known. Run abuse-contact --help to see the options");
    Err(UsageError(message))
}

/// Returns whether an argument is an option.
fn starts_with_hyphen(arg: &str) -> (yes: bool)
    ensures
        yes == is_option(arg@),
{
    let chars = text::chars_of(arg);
    chars.len() > 0 && chars[0] == '-'
}

/// Reads what the command line asks for.
///
/// # Errors
///
/// Returns [`UsageError`] when an option is not known.
pub fn parse_args(args: Vec<String>) -> (command: Result<Command, UsageError>)
    ensures
        match (command, command_of(text::texts_view(args@))) {
            (Ok(command), Ok(wanted)) => command@ == wanted,
            (Err(error), Err(wanted)) => error.0@ == wanted,
            _ => false,
        },
{
    let ghost all = text::texts_view(args@);
    let ghost keep = |arg: Seq<char>| !is_option(arg);
    let mut format = Format::Text;
    let mut targets: Vec<String> = Vec::new();
    let mut i: usize = 0;
    proof {
        reveal(Seq::filter);
        assert(all.skip(0) =~= all);
        assert(text::texts_view(targets@) =~= targets_of(all.take(0)));
    }
    while i < args.len()
        invariant
            i <= args@.len(),
            all == text::texts_view(args@),
            keep == (|arg: Seq<char>| !is_option(arg)),
            deciding_option(all) == deciding_option(all.skip(i as int)),
            text::texts_view(targets@) == targets_of(all.take(i as int)),
            format == Format::Json <==> exists|k: int| 0 <= k < i && #[trigger] all[k] == "--json"@,
        decreases args@.len() - i,
    {
        let arg = args[i].as_str();
        assert(all[i as int] == arg@);
        proof {
            list::lemma_filter_next(all, keep, i as int);
            assert(all.skip(i as int).drop_first() =~= all.skip(i + 1));
        }
        if !starts_with_hyphen(arg) {
            let ghost before = text::texts_view(targets@);
            proof {
                reveal_strlit("--json");
            }
            targets.push(arg.to_owned());
            assert(text::texts_view(targets@) =~= before.push(arg@));
        } else if text::same_text(arg, "--json") {
            format = Format::Json;
        } else {
            return read_option(arg);
        }
        i += 1;
    }
    proof {
        assert(all.take(i as int) =~= all);
        if all.contains("--json"@) {
            let k = choose|k: int| 0 <= k < all.len() && all[k] == "--json"@;
            assert(all[k] == "--json"@);
        }
    }
    Ok(Command::Lookup { format, targets })
}

/// The target on one line of input: the line without the space around it, when it is
/// not empty and no comment.
pub open spec fn target_on(line: Seq<char>) -> Option<Seq<char>> {
    let t = text::trim(line);
    if t.len() > 0 && t[0] != '#' {
        Some(t)
    } else {
        None
    }
}

/// Returns the target on one line of input, or `None` for an empty line or a comment.
pub fn target_of(line: &str) -> (target: Option<&str>)
    ensures
        target is Some <==> target_on(line@) is Some,
        target matches Some(target) ==> target_on(line@) == Some(target@),
{
    let chars = text::chars_of(line);
    let (from, to) = text::trim_bounds(chars.as_slice());
    if from < to && chars[from] != '#' {
        assert(chars@.subrange(from as int, to as int)[0] == chars@[from as int]);
        Some(line.substring_char(from, to))
    } else {
        None
    }
}

/// What a target is: an IP address, and else a domain name.
pub open spec fn query_of(target: Seq<char>) -> Result<QueryView, ErrorView> {
    match addr::ip_of_text(target) {
        Some(ip) => Ok(QueryView::Ip(ip)),
        None => match query::domain_of_text(target) {
            Ok(name) => Ok(QueryView::Domain(name)),
            Err(error) => Err(ErrorView::Validation(error)),
        },
    }
}

/// Reads a target as an IP address, and else as a domain name.
///
/// # Errors
///
/// Returns [`Error::Validation`] when the target is neither.
pub fn parse_target(target: &str) -> (query: Result<Query, Error>)
    ensures
        match (query, query_of(target@)) {
            (Ok(query), Ok(wanted)) => query@ == wanted,
            (Err(error), Err(wanted)) => error@ == wanted,
            _ => false,
        },
{
    match IpAddr::parse(target) {
        Some(ip) => Ok(Query::Ip(ip)),
        None => match DomainName::new(target) {
            Ok(name) => Ok(Query::Domain(name)),
            Err(error) => Err(Error::Validation(error)),
        },
    }
}

// --- What was found, as text -------------------------------------------------

/// The line for one contact: the target, the address, the scope and the source, divided
/// by tabs.
pub open spec fn contact_line(target: Seq<char>, contact: ContactView) -> Seq<char> {
    target + "\t"@ + contact.email + "\t"@ + contact.scope.name() + "\t"@ + contact.source.name() + "\n"@
}

/// The lines for a list of contacts.
pub open spec fn contact_lines(target: Seq<char>, contacts: Seq<ContactView>) -> Seq<char>
    decreases contacts.len(),
{
    if contacts.len() == 0 {
        Seq::<char>::empty()
    } else {
        contact_lines(target, contacts.drop_last()) + contact_line(target, contacts.last())
    }
}

/// A line about a target.
pub open spec fn said_line(target: Seq<char>, said: Seq<char>) -> Seq<char> {
    target + ": "@ + said + "\n"@
}

/// The lines for a list of failures.
pub open spec fn failure_lines(target: Seq<char>, failures: Seq<FailureView>) -> Seq<char>
    decreases failures.len(),
{
    if failures.len() == 0 {
        Seq::<char>::empty()
    } else {
        failure_lines(target, failures.drop_last()) + said_line(target, failures.last().text())
    }
}

/// What goes to standard output for a target.
pub open spec fn out_text(target: Seq<char>, found: Result<Found, Error>) -> Seq<char> {
    match found {
        Ok(found) => contact_lines(target, contact::contact_views(found.contacts@)),
        Err(_) => Seq::<char>::empty(),
    }
}

/// What goes to standard error for a target.
pub open spec fn err_text(target: Seq<char>, found: Result<Found, Error>) -> Seq<char> {
    match found {
        Ok(found) => if found.contacts@.len() == 0 && found.failures@.len() == 0 {
            said_line(target, "no source gave an abuse contact"@)
        } else {
            failure_lines(target, finder::failure_views(found.failures@))
        },
        Err(error) => said_line(target, error@.text()),
    }
}

/// Adds a line about a target.
fn say(text: &mut String, target: &str, said: &str)
    ensures
        final(text)@ == old(text)@ + said_line(target@, said@),
{
    text.append(target);
    text.append(": ");
    text.append(said);
    text.append("\n");
    assert(text@ =~= old(text)@ + said_line(target@, said@));
}

/// Returns what goes to standard output and what goes to standard error for a target:
/// one line for each contact, and one line for each failure.
pub fn write_text(target: &str, found: &Result<Found, Error>) -> (written: (String, String))
    ensures
        written.0@ == out_text(target@, *found),
        written.1@ == err_text(target@, *found),
{
    let mut out = String::new();
    let mut err = String::new();
    let found = match found {
        Ok(found) => found,
        Err(error) => {
            say(&mut err, target, error.message().as_str());
            assert(err@ =~= said_line(target@, error@.text()));
            return (out, err);
        },
    };
    let ghost contacts = contact::contact_views(found.contacts@);
    let mut i: usize = 0;
    while i < found.contacts.len()
        invariant
            i <= found.contacts@.len(),
            contacts == contact::contact_views(found.contacts@),
            out@ == contact_lines(target@, contacts.take(i as int)),
        decreases found.contacts@.len() - i,
    {
        let contact = &found.contacts[i];
        let ghost before = out@;
        out.append(target);
        out.append("\t");
        out.append(contact.email.as_str());
        out.append("\t");
        out.append(contact.scope.to_text().as_str());
        out.append("\t");
        out.append(contact.source.to_text().as_str());
        out.append("\n");
        proof {
            assert(out@ =~= before + contact_line(target@, contact@));
            assert(contacts.take(i + 1).drop_last() =~= contacts.take(i as int));
            assert(contacts.take(i + 1).last() == contact@);
        }
        i += 1;
    }
    assert(contacts.take(i as int) =~= contacts);
    let ghost failures = finder::failure_views(found.failures@);
    let mut k: usize = 0;
    while k < found.failures.len()
        invariant
            k <= found.failures@.len(),
            failures == finder::failure_views(found.failures@),
            err@ == failure_lines(target@, failures.take(k as int)),
        decreases found.failures@.len() - k,
    {
        say(&mut err, target, found.failures[k].message().as_str());
        proof {
            assert(failures.take(k + 1).drop_last() =~= failures.take(k as int));
            assert(failures.take(k + 1).last() == found.failures@[k as int]@);
        }
        k += 1;
    }
    assert(failures.take(k as int) =~= failures);
    if found.contacts.len() == 0 && found.failures.len() == 0 {
        say(&mut err, target, "no source gave an abuse contact");
        assert(err@ =~= said_line(target@, "no source gave an abuse contact"@));
    }
    (out, err)
}

// --- What was found, as JSON -------------------------------------------------

/// A contact as a JSON object.
pub open spec fn contact_json(contact: ContactView) -> JsonView {
    JsonView::Object(
        seq![
            ("email"@, JsonView::Text(contact.email)),
            ("scope"@, JsonView::Text(contact.scope.name())),
            ("source"@, JsonView::Text(contact.source.name())),
        ],
    )
}

/// A failure as a JSON object.
pub open spec fn failure_json(failure: FailureView) -> JsonView {
    JsonView::Object(
        seq![
            ("origin"@, JsonView::Text(failure.origin.name())),
            ("error"@, JsonView::Text(failure.error.text())),
        ],
    )
}

/// What was found for one target as a JSON object.
///
/// Each object has the same four keys, so a reader does not need to test for a
/// missing one. `error` is `null` when the target was looked up.
pub open spec fn found_json(target: Seq<char>, found: Result<Found, Error>) -> JsonView {
    let (contacts, failures, error) = match found {
        Ok(found) => (
            contact::contact_views(found.contacts@).map_values(|c: ContactView| contact_json(c)),
            finder::failure_views(found.failures@).map_values(|f: FailureView| failure_json(f)),
            JsonView::Null,
        ),
        Err(error) => (Seq::<JsonView>::empty(), Seq::<JsonView>::empty(), JsonView::Text(error@.text())),
    };
    JsonView::Object(
        seq![
            ("target"@, JsonView::Text(target)),
            ("contacts"@, JsonView::List(contacts)),
            ("failures"@, JsonView::List(failures)),
            ("error"@, error),
        ],
    )
}

/// Returns an object of text fields.
fn text_object(fields: Vec<(String, String)>) -> (value: Json)
    ensures
        value@ == JsonView::Object(
            fields@.map_values(|field: (String, String)| (field.0@, JsonView::Text(field.1@))),
        ),
{
    broadcast use json::lemma_json_view;

    let ghost wanted = fields@.map_values(|field: (String, String)| (field.0@, JsonView::Text(field.1@)));
    let mut made: Vec<(String, Json)> = Vec::new();
    let mut i: usize = 0;
    while i < fields.len()
        invariant
            i <= fields@.len(),
            wanted == fields@.map_values(|field: (String, String)| (field.0@, JsonView::Text(field.1@))),
            json::field_views(made@) == wanted.take(i as int),
        decreases fields@.len() - i,
    {
        let ghost before = json::field_views(made@);
        made.push((fields[i].0.clone(), Json::Text(fields[i].1.clone())));
        assert(json::field_views(made@) =~= before.push(wanted[i as int]));
        assert(wanted.take(i + 1) =~= before.push(wanted[i as int]));
        i += 1;
    }
    assert(wanted.take(i as int) =~= wanted);
    Json::Object(made)
}

/// Returns the object for a target, from its parts.
fn found_object(target: &str, contacts: Vec<Json>, failures: Vec<Json>, error: Json) -> (value: Json)
    ensures
        value@ == JsonView::Object(
            seq![
                ("target"@, JsonView::Text(target@)),
                ("contacts"@, JsonView::List(json::json_views(contacts@))),
                ("failures"@, JsonView::List(json::json_views(failures@))),
                ("error"@, error@),
            ],
        ),
{
    broadcast use json::lemma_json_view;

    let fields: Vec<(String, Json)> = vec![
        ("target".to_owned(), Json::Text(target.to_owned())),
        ("contacts".to_owned(), Json::List(contacts)),
        ("failures".to_owned(), Json::List(failures)),
        ("error".to_owned(), error),
    ];
    assert(json::field_views(fields@) =~= seq![
        ("target"@, JsonView::Text(target@)),
        ("contacts"@, JsonView::List(json::json_views(contacts@))),
        ("failures"@, JsonView::List(json::json_views(failures@))),
        ("error"@, error@),
    ]);
    Json::Object(fields)
}

/// Returns what was found for one target as a JSON object.
///
/// Each object has the same four keys, so a reader does not need to test for a
/// missing one. `error` is `null` when the target was looked up.
pub fn to_json(target: &str, found: &Result<Found, Error>) -> (value: Json)
    ensures
        value@ == found_json(target@, *found),
{
    let mut contacts: Vec<Json> = Vec::new();
    let mut failures: Vec<Json> = Vec::new();
    assert(json::json_views(contacts@) =~= Seq::<JsonView>::empty());
    assert(json::json_views(failures@) =~= Seq::<JsonView>::empty());
    let found = match found {
        Ok(found) => found,
        Err(error) => {
            return found_object(target, contacts, failures, Json::Text(error.message()));
        },
    };
    let ghost all = contact::contact_views(found.contacts@).map_values(|c: ContactView| contact_json(c));
    let mut i: usize = 0;
    while i < found.contacts.len()
        invariant
            i <= found.contacts@.len(),
            all == contact::contact_views(found.contacts@).map_values(|c: ContactView| contact_json(c)),
            json::json_views(contacts@) == all.take(i as int),
        decreases found.contacts@.len() - i,
    {
        let contact = &found.contacts[i];
        let ghost before = json::json_views(contacts@);
        let fields: Vec<(String, String)> = vec![
            ("email".to_owned(), contact.email.as_str().to_owned()),
            ("scope".to_owned(), contact.scope.to_text()),
            ("source".to_owned(), contact.source.to_text()),
        ];
        let ghost shown = fields@.map_values(|field: (String, String)| (field.0@, JsonView::Text(field.1@)));
        contacts.push(text_object(fields));
        proof {
            assert(shown =~= contact_json(contact@)->Object_0);
            assert(all[i as int] == contact_json(contact@));
            assert(json::json_views(contacts@) =~= before.push(all[i as int]));
            assert(all.take(i + 1) =~= before.push(all[i as int]));
        }
        i += 1;
    }
    assert(all.take(i as int) =~= all);
    let ghost rest = finder::failure_views(found.failures@).map_values(|f: FailureView| failure_json(f));
    let mut k: usize = 0;
    while k < found.failures.len()
        invariant
            k <= found.failures@.len(),
            rest == finder::failure_views(found.failures@).map_values(|f: FailureView| failure_json(f)),
            json::json_views(failures@) == rest.take(k as int),
        decreases found.failures@.len() - k,
    {
        let failure = &found.failures[k];
        let ghost before = json::json_views(failures@);
        let fields: Vec<(String, String)> = vec![
            ("origin".to_owned(), failure.origin.to_text()),
            ("error".to_owned(), failure.error.message()),
        ];
        let ghost shown = fields@.map_values(|field: (String, String)| (field.0@, JsonView::Text(field.1@)));
        failures.push(text_object(fields));
        proof {
            assert(shown =~= failure_json(failure@)->Object_0);
            assert(rest[k as int] == failure_json(failure@));
            assert(json::json_views(failures@) =~= before.push(rest[k as int]));
            assert(rest.take(k + 1) =~= before.push(rest[k as int]));
        }
        k += 1;
    }
    assert(rest.take(k as int) =~= rest);
    found_object(target, contacts, failures, Json::Null)
}

// --- What the command promises -----------------------------------------------

/// Each object has the same four keys, in one order, and `error` is `null` exactly when
/// the target was looked up.
pub proof fn law_object_has_four_keys(target: Seq<char>, found: Result<Found, Error>)
    ensures
        found_json(target, found) matches JsonView::Object(fields) && {
            &&& fields.len() == 4
            &&& fields[0] == ("target"@, JsonView::Text(target))
            &&& fields[1].0 == "contacts"@ && fields[1].1 is List
            &&& fields[2].0 == "failures"@ && fields[2].1 is List
            &&& fields[3].0 == "error"@
            &&& fields[3].1 is Null <==> found is Ok
            &&& found is Err ==> fields[1].1->List_0.len() == 0 && fields[2].1->List_0.len() == 0
        },
{
}

/// The command says something about every target: a contact, a failure, or that there is
/// none. A contact goes to standard output, and all else to standard error.
pub proof fn law_every_target_is_reported(target: Seq<char>, found: Result<Found, Error>)
    ensures
        out_text(target, found).len() + err_text(target, found).len() > 0,
        out_text(target, found).len() > 0 <==> (found matches Ok(found) && found.contacts@.len() > 0),
{
    reveal_strlit("\n");
    if let Ok(found) = found {
        let contacts = contact::contact_views(found.contacts@);
        let failures = finder::failure_views(found.failures@);
        if contacts.len() > 0 {
            assert(contact_line(target, contacts.last()).len() > 0);
        }
        if failures.len() > 0 {
            assert(said_line(target, failures.last().text()).len() > 0);
        }
    }
}

/// An option that is not known is an error, whatever targets stand around it, unless an
/// option before it decides.
pub proof fn law_first_option_decides(before: Seq<Seq<char>>, option: Seq<char>, after: Seq<Seq<char>>)
    requires
        deciding_option(before) is None,
        is_option(option),
        option != "--json"@,
    ensures
        command_of(before + seq![option] + after) == decided(option),
{
    lemma_decides(before, option, after);
}

/// The first option other than `--json` is the one that decides.
proof fn lemma_decides(before: Seq<Seq<char>>, option: Seq<char>, after: Seq<Seq<char>>)
    requires
        deciding_option(before) is None,
        is_option(option),
        option != "--json"@,
    ensures
        deciding_option(before + seq![option] + after) == Some(option),
    decreases before.len(),
{
    let args = before + seq![option] + after;
    if before.len() == 0 {
        assert(args[0] == option);
    } else {
        assert(args[0] == before[0]);
        assert(args.drop_first() =~= before.drop_first() + seq![option] + after);
        lemma_decides(before.drop_first(), option, after);
    }
}

/// White space around a target on a line does not change the target.
pub proof fn law_lines_are_trimmed(target: Seq<char>, before: Seq<char>, after: Seq<char>)
    requires
        target.len() > 0,
        target[0] != '#',
        !text::is_space(target[0]),
        !text::is_space(target.last()),
        text::all_space(before),
        text::all_space(after),
    ensures
        target_on(before + target + after) == Some(target),
{
    text::lemma_trim_around(before, target, after);
}

/// Every target that a `DomainName` or an address is written as reads back as itself.
pub proof fn law_targets_read_back(ip: IpAddr, name: Seq<char>)
    requires
        query::is_domain_name(name),
        addr::ip_of_text(name) is None,
    ensures
        query_of(addr::ip_text(ip)) == Ok::<QueryView, ErrorView>(QueryView::Ip(ip)),
        query_of(name) == Ok::<QueryView, ErrorView>(QueryView::Domain(name)),
{
    addr::law_text_reads_back(ip);
    query::law_name_reads_back(name);
}

/// Whether an argument starts with a hyphen.
pub open spec fn has_hyphen_first(arg: Seq<char>) -> bool {
    arg.len() >= 1 && arg[0] == '-'
}

/// Without an option but `--json`, the command looks up every argument that does not
/// start with a hyphen, in order, and writes JSON exactly when `--json` is given.
pub proof fn law_command_without_options(args: Seq<Seq<char>>)
    requires
        forall|i: int| 0 <= i < args.len() && has_hyphen_first(#[trigger] args[i]) ==> args[i] == "--json"@,
    ensures
        command_of(args) is Ok,
        command_of(args)->Ok_0 matches CommandView::Lookup { format, targets } && {
            &&& targets == args.filter(|arg: Seq<char>| !has_hyphen_first(arg))
            &&& format is Json <==> exists|i: int| 0 <= i < args.len() && #[trigger] args[i] == "--json"@
        },
{
    lemma_nothing_decides(args);
    list::lemma_filter_same(args, |arg: Seq<char>| !is_option(arg), |arg: Seq<char>| !has_hyphen_first(arg));
    if exists|i: int| 0 <= i < args.len() && #[trigger] args[i] == "--json"@ {
        let i = choose|i: int| 0 <= i < args.len() && #[trigger] args[i] == "--json"@;
        assert(args.contains("--json"@));
    }
    if args.contains("--json"@) {
        let i = choose|i: int| 0 <= i < args.len() && args[i] == "--json"@;
        assert(args[i] == "--json"@);
    }
}

/// Where every option is `--json`, none decides.
proof fn lemma_nothing_decides(args: Seq<Seq<char>>)
    requires
        forall|i: int| 0 <= i < args.len() && has_hyphen_first(#[trigger] args[i]) ==> args[i] == "--json"@,
    ensures
        deciding_option(args) is None,
    decreases args.len(),
{
    if args.len() > 0 {
        let rest = args.drop_first();
        assert(has_hyphen_first(args[0]) ==> args[0] == "--json"@);
        assert forall|i: int| 0 <= i < rest.len() && has_hyphen_first(#[trigger] rest[i]) implies rest[i]
            == "--json"@ by {
            assert(rest[i] == args[i + 1]);
        }
        lemma_nothing_decides(rest);
    }
}

/// The first option other than `--json` decides: for help, for the version, or that it is
/// not known.
pub proof fn law_command_with_an_option(before: Seq<Seq<char>>, option: Seq<char>, after: Seq<Seq<char>>)
    requires
        forall|i: int| 0 <= i < before.len() && has_hyphen_first(#[trigger] before[i]) ==> before[i] == "--json"@,
        has_hyphen_first(option),
        option != "--json"@,
    ensures
        ({
            let command = command_of(before + seq![option] + after);
            if option == "-h"@ || option == "--help"@ {
                command is Ok && command->Ok_0 is Help
            } else if option == "-V"@ || option == "--version"@ {
                command is Ok && command->Ok_0 is Version
            } else {
                command is Err && command->Err_0 == "the option "@ + option
                    + " is not known. Run abuse-contact --help to see the options"@
            }
        }),
{
    lemma_nothing_decides(before);
    lemma_decides(before, option, after);
}

/// A line with nothing but white space, or whose first other character is `#`, has no
/// target. Every other line has what stands between its white space.
pub proof fn law_which_lines_have_a_target(before: Seq<char>, middle: Seq<char>, after: Seq<char>)
    requires
        forall|i: int| 0 <= i < before.len() ==> text::is_space(#[trigger] before[i]),
        forall|i: int| 0 <= i < after.len() ==> text::is_space(#[trigger] after[i]),
        middle.len() > 0 ==> !text::is_space(middle[0]) && !text::is_space(middle.last()),
    ensures
        target_on(before + middle + after) == (if middle.len() == 0 || middle[0] == '#' {
            None
        } else {
            Some(middle)
        }),
{
    text::law_trimming_leaves_the_middle(before, middle, after);
}

/// A target that spells an address is the address, and any other is a domain name or an
/// error.
pub proof fn law_what_a_target_is(target: Seq<char>)
    ensures
        addr::ip_of_text(target) matches Some(ip) ==> query_of(target) == Ok::<QueryView, ErrorView>(
            QueryView::Ip(ip),
        ),
        addr::ip_of_text(target) is None ==> match query::domain_of_text(target) {
            Ok(name) => query_of(target) == Ok::<QueryView, ErrorView>(QueryView::Domain(name)),
            Err(error) => query_of(target) == Err::<QueryView, ErrorView>(ErrorView::Validation(error)),
        },
{
}

/// Each contact is one line, in order: the target, the address, the name of the scope and
/// the name of the source, with a tab between each two.
pub proof fn law_contacts_as_lines(target: Seq<char>, contacts: Seq<ContactView>, contact: ContactView)
    ensures
        contact_lines(target, Seq::<ContactView>::empty()) == Seq::<char>::empty(),
        contact_lines(target, contacts.push(contact)) == contact_lines(target, contacts) + target + seq!['\t']
            + contact.email + seq!['\t'] + contact.scope.name() + seq!['\t'] + contact.source.name()
            + seq!['\n'],
{
    reveal_strlit("\t");
    reveal_strlit("\n");
    assert(contacts.push(contact).drop_last() =~= contacts);
    assert(contact_lines(target, contacts.push(contact)) =~= contact_lines(target, contacts) + target
        + seq!['\t'] + contact.email + seq!['\t'] + contact.scope.name() + seq!['\t'] + contact.source.name()
        + seq!['\n']);
}

/// Each failure is one line, in order: the target, a colon, and what the failure says.
pub proof fn law_failures_as_lines(target: Seq<char>, failures: Seq<FailureView>, failure: FailureView)
    ensures
        failure_lines(target, Seq::<FailureView>::empty()) == Seq::<char>::empty(),
        failure_lines(target, failures.push(failure)) == failure_lines(target, failures) + target + ": "@
            + failure.text() + seq!['\n'],
{
    reveal_strlit("\n");
    assert(failures.push(failure).drop_last() =~= failures);
    assert(failure_lines(target, failures.push(failure)) =~= failure_lines(target, failures) + target + ": "@
        + failure.text() + seq!['\n']);
}

/// The contacts go to standard output. The failures go to standard error, and so does the
/// error of a target that was not looked up, or that nothing was found.
pub proof fn law_what_is_written(target: Seq<char>, found: Result<Found, Error>)
    ensures
        found matches Err(error) ==> out_text(target, found).len() == 0 && err_text(target, found) == target
            + ": "@ + error@.text() + seq!['\n'],
        found matches Ok(all) ==> {
            &&& out_text(target, found) == contact_lines(target, contact::contact_views(all.contacts@))
            &&& all.failures@.len() > 0 || all.contacts@.len() > 0 ==> err_text(target, found) == failure_lines(
                target,
                finder::failure_views(all.failures@),
            )
            &&& all.failures@.len() == 0 && all.contacts@.len() == 0 ==> err_text(target, found) == target
                + ": no source gave an abuse contact"@ + seq!['\n']
        },
{
    reveal_strlit("\n");
    reveal_strlit(": ");
    reveal_strlit("no source gave an abuse contact");
    reveal_strlit(": no source gave an abuse contact");
    if let Ok(all) = found {
        if all.failures@.len() == 0 && all.contacts@.len() == 0 {
            assert(err_text(target, found) =~= target + ": no source gave an abuse contact"@ + seq!['\n']);
        }
    }
    if let Err(error) = found {
        assert(err_text(target, found) =~= target + ": "@ + error@.text() + seq!['\n']);
    }
}

/// The object for a target lists each contact with its address, scope and source, and each
/// failure with its source and error, in order.
pub proof fn law_what_the_object_lists(target: Seq<char>, found: Found, i: int)
    ensures
        ({
            let fields = found_json(target, Ok(found))->Object_0;
            let contacts = fields[1].1->List_0;
            let failures = fields[2].1->List_0;
            &&& contacts.len() == found.contacts@.len()
            &&& failures.len() == found.failures@.len()
            &&& 0 <= i < contacts.len() ==> contacts[i] == JsonView::Object(
                seq![
                    ("email"@, JsonView::Text(found.contacts@[i].email@)),
                    ("scope"@, JsonView::Text(found.contacts@[i].scope.name())),
                    ("source"@, JsonView::Text(found.contacts@[i].source@.name())),
                ],
            )
            &&& 0 <= i < failures.len() ==> failures[i] == JsonView::Object(
                seq![
                    ("origin"@, JsonView::Text(found.failures@[i].origin.name())),
                    ("error"@, JsonView::Text(found.failures@[i].error@.text())),
                ],
            )
        }),
{
}

/// The object for a target that was not looked up gives the error, and the status of a
/// command line that is not correct is 2.
pub proof fn law_what_the_object_says_of_an_error(target: Seq<char>, error: Error)
    ensures
        found_json(target, Err(error))->Object_0[3].1 == JsonView::Text(error@.text()),
        USAGE_STATUS == 2,
        VERSION@ == "abuse-contact 0.1.0"@,
{
}

/// A command is seen with its format and its targets.
pub proof fn law_command_is_seen_whole(command: Command, i: int)
    ensures
        command is Help <==> command@ is Help,
        command is Version <==> command@ is Version,
        command matches Command::Lookup { format, targets } ==> {
            &&& command@ is Lookup
            &&& command@->format == format
            &&& command@->targets.len() == targets@.len()
            &&& 0 <= i < targets@.len() ==> command@->targets[i] == targets@[i]@
        },
{
}

} // verus!
