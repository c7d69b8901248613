//! The DNS sources: the Abusix and abuse.net zones, and the mail host of a domain.
//!
//! [`crate::dns`] builds the names to ask for and reads the answers. This module decides
//! what to ask, and what each outcome of a lookup means. The caller does the lookup.

use vstd::prelude::*;
use vstd::string::*;
use vstd::utf8::*;

use crate::addr;
use crate::addr::IpAddr;
use crate::contact;
use crate::contact::{Contact, ContactView, Scope, Source, SourceView};
use crate::dns;
use crate::error::{Error, ErrorView};
use crate::query;
use crate::query::DomainName;
use crate::text;

verus! {

/// The name with one trailing dot.
pub open spec fn absolute_text(name: Seq<char>) -> Seq<char> {
    text::drop_tail(name, '.').push('.')
}

/// Returns the name with one trailing dot, so the resolver asks for it as it is.
///
/// Without the dot, a name that does not exist is asked for again with each search
/// domain of the system appended, and a zone of the local network could answer.
pub fn absolute(name: &str) -> (dotted: String)
    ensures
        dotted@ == absolute_text(name@),
{
    let chars = text::chars_of(name);
    let mut dotted = text::text_of(text::drop_tail_chars(chars.as_slice(), '.'));
    dotted.push('.');
    dotted
}

/// The bytes of the character strings of one TXT record, one after the other.
pub open spec fn joined_bytes(strings: Seq<Box<[u8]>>) -> Seq<u8>
    decreases strings.len(),
{
    if strings.len() == 0 {
        Seq::<u8>::empty()
    } else {
        joined_bytes(strings.drop_last()) + strings.last()@
    }
}

/// Joins the character strings of one TXT record into its value.
///
/// A value longer than 255 bytes is sent as more than one string, and the strings
/// together are the value. A string can end in the middle of a character, so the
/// bytes are joined before they are read as UTF-8. Returns `None` when the value is
/// not UTF-8.
pub fn txt_value(strings: &[Box<[u8]>]) -> (value: Option<String>)
    ensures
        value is Some <==> valid_utf8(joined_bytes(strings@)),
        value matches Some(value) ==> value@ == decode_utf8(joined_bytes(strings@)),
{
    let mut bytes: Vec<u8> = Vec::new();
    let mut i: usize = 0;
    while i < strings.len()
        invariant
            i <= strings@.len(),
            bytes@ == joined_bytes(strings@.take(i as int)),
        decreases strings@.len() - i,
    {
        let string: &[u8] = &strings[i];
        bytes.extend_from_slice(string);
        assert(strings@.take(i + 1).drop_last() =~= strings@.take(i as int));
        i += 1;
    }
    assert(strings@.take(i as int) =~= strings@);
    text::text_from_utf8(bytes)
}

// --- Outcomes ----------------------------------------------------------------

/// What came of a DNS lookup.
#[derive(Debug)]
pub enum Lookup<T> {
    /// The records that were found.
    Found(T),
    /// The name does not exist.
    NoDomain,
    /// The name exists, and has no record of the kind asked for.
    NoRecords,
    /// The lookup did not finish. Holds what the resolver reported.
    Failed(String),
}

/// Returns the error for a lookup that did not finish.
pub fn dns_error(name: &str, source: String) -> (error: Error)
    ensures
        error@ == (ErrorView::Dns { name: name@, source: source@ }),
{
    Error::Dns { name: name.to_owned(), source }
}

/// The values of TXT records. A record that is not UTF-8 has none.
pub open spec fn record_values(records: Seq<Vec<Box<[u8]>>>) -> Seq<Seq<char>>
    decreases records.len(),
{
    if records.len() == 0 {
        Seq::<Seq<char>>::empty()
    } else {
        let before = record_values(records.drop_last());
        let bytes = joined_bytes(records.last()@);
        if valid_utf8(bytes) {
            before.push(decode_utf8(bytes))
        } else {
            before
        }
    }
}

/// The values at a name, or why they are not known.
///
/// A name that does not exist, or has no TXT records, gives no values. That is an
/// answer, not a failure.
pub open spec fn txt_outcome(name: Seq<char>, answer: Lookup<Vec<Vec<Box<[u8]>>>>) -> Result<
    Seq<Seq<char>>,
    ErrorView,
> {
    match answer {
        Lookup::Found(records) => Ok(record_values(records@)),
        Lookup::NoDomain => Ok(Seq::<Seq<char>>::empty()),
        Lookup::NoRecords => Ok(Seq::<Seq<char>>::empty()),
        Lookup::Failed(source) => Err(ErrorView::Dns { name, source: source@ }),
    }
}

/// Returns the TXT records at a name, each as one string.
///
/// A name that does not exist, or has no TXT records, gives no records. That is
/// an answer, not a failure. A record that is not UTF-8 is dropped.
///
/// # Errors
///
/// Returns [`Error::Dns`] when the lookup did not finish.
pub fn txt(name: &str, answer: Lookup<Vec<Vec<Box<[u8]>>>>) -> (values: Result<Vec<String>, Error>)
    ensures
        match (values, txt_outcome(name@, answer)) {
            (Ok(values), Ok(wanted)) => text::texts_view(values@) == wanted,
            (Err(error), Err(wanted)) => error@ == wanted,
            _ => false,
        },
{
    let mut values: Vec<String> = Vec::new();
    assert(text::texts_view(values@) =~= Seq::<Seq<char>>::empty());
    let records = match answer {
        Lookup::Found(records) => records,
        Lookup::NoDomain => return Ok(values),
        Lookup::NoRecords => return Ok(values),
        Lookup::Failed(source) => return Err(dns_error(name, source)),
    };
    let mut i: usize = 0;
    while i < records.len()
        invariant
            i <= records@.len(),
            text::texts_view(values@) == record_values(records@.take(i as int)),
        decreases records@.len() - i,
    {
        let ghost before = text::texts_view(values@);
        proof {
            assert(records@.take(i + 1).drop_last() =~= records@.take(i as int));
            assert(records@.take(i + 1).last() == records@[i as int]);
        }
        if let Some(value) = txt_value(records[i].as_slice()) {
            let ghost added = value@;
            values.push(value);
            assert(text::texts_view(values@) =~= before.push(added));
        }
        i += 1;
    }
    assert(records@.take(i as int) =~= records@);
    Ok(values)
}

/// Whether contacts are what a zone gave, or an error is why it gave none.
pub open spec fn is_zone_outcome(
    outcome: Result<Vec<Contact>, Error>,
    values: Result<Seq<Seq<char>>, ErrorView>,
    scope: Scope,
    source: SourceView,
) -> bool {
    match (outcome, values) {
        (Ok(contacts), Ok(values)) => contact::contact_views(contacts@) == dns::contacts_of(
            dns::txt_values(values),
            scope,
            source,
        ),
        (Err(error), Err(wanted)) => error@ == wanted,
        _ => false,
    }
}

/// Returns the name to ask Abusix for an address.
///
/// The zone has no record for the IPv6 spelling of an IPv4 address, so the name is for
/// the IPv4 address.
///
/// # Errors
///
/// Returns [`Error::NotPublic`] for a private or reserved address, which has no network
/// to report to.
pub fn abusix_question(ip: IpAddr) -> (name: Result<String, Error>)
    ensures
        match name {
            Ok(name) => query::public_address(ip) && name@ == absolute_text(
                dns::abusix_name_text(query::unmapped(ip)),
            ),
            Err(error) => !query::public_address(ip) && error@ == (ErrorView::NotPublic {
                target: addr::ip_text(query::unmapped(ip)),
            }),
        },
{
    let inner = query::unmap(ip);
    if !query::is_public(inner) {
        return Err(Error::NotPublic { target: inner.to_text() });
    }
    Ok(absolute(dns::abusix_name(inner).as_str()))
}

/// Returns the contacts Abusix gives for the network that holds an address.
///
/// Abusix answers for AFRINIC space, where RDAP publishes no abuse entity.
///
/// # Errors
///
/// Returns [`Error::Dns`] when the lookup did not finish.
pub fn abusix(name: &str, answer: Lookup<Vec<Vec<Box<[u8]>>>>) -> (outcome: Result<Vec<Contact>, Error>)
    ensures
        is_zone_outcome(outcome, txt_outcome(name@, answer), Scope::Network, SourceView::Abusix),
{
    match txt(name, answer) {
        Ok(values) => Ok(dns::contacts_from_txt(values.as_slice(), Scope::Network, Source::Abusix)),
        Err(error) => Err(error),
    }
}

/// Returns the name to ask abuse.net for a domain, or `None` when the name is longer
/// than DNS allows.
///
/// The zone cannot hold such a name, and the resolver refuses to ask for it.
pub fn abuse_net_question(domain: &DomainName) -> (name: Option<String>)
    ensures
        match name {
            Some(name) => encode_utf8(dns::abuse_net_name_text(domain@)).len() <= DomainName::MAX_BYTES
                && name@ == absolute_text(dns::abuse_net_name_text(domain@)),
            None => encode_utf8(dns::abuse_net_name_text(domain@)).len() > DomainName::MAX_BYTES,
        },
{
    let name = dns::abuse_net_name(domain);
    if name.as_str().as_bytes().len() > DomainName::MAX_BYTES {
        return None;
    }
    Some(absolute(name.as_str()))
}

/// Returns the contacts abuse.net gives for a domain.
///
/// # Errors
///
/// Returns [`Error::Dns`] when the lookup did not finish.
pub fn abuse_net(name: &str, answer: Lookup<Vec<Vec<Box<[u8]>>>>) -> (outcome: Result<Vec<Contact>, Error>)
    ensures
        is_zone_outcome(outcome, txt_outcome(name@, answer), Scope::Domain, SourceView::AbuseNet),
{
    match txt(name, answer) {
        Ok(values) => Ok(dns::contacts_from_txt(values.as_slice(), Scope::Domain, Source::AbuseNet)),
        Err(error) => Err(error),
    }
}

// --- The mail host of a domain -----------------------------------------------

/// What is known of the mail of a domain after its MX records were asked for.
#[derive(Debug)]
pub enum Mail {
    /// The domain takes mail, or it does not.
    Known(bool),
    /// The domain has no MX record. RFC 5321 section 5.1: with no MX, mail goes to the
    /// address of the domain, so ask for that.
    AskAddress,
}

/// Whether the exchanges of a domain name a host.
pub open spec fn has_mail_host(exchanges: Seq<String>) -> bool {
    exists|i: int| 0 <= i < exchanges.len() && dns::is_mail_host((#[trigger] exchanges[i])@)
}

/// Reads what came of asking for the MX records of a domain.
///
/// # Errors
///
/// Returns [`Error::Dns`] when the lookup did not finish.
pub fn mail_from_mx(name: &str, answer: Lookup<Vec<String>>) -> (mail: Result<Mail, Error>)
    ensures
        match (mail, answer) {
            (Ok(Mail::Known(takes)), Lookup::Found(exchanges)) => exchanges@.len() > 0 && takes
                == has_mail_host(exchanges@),
            (Ok(Mail::AskAddress), Lookup::Found(exchanges)) => exchanges@.len() == 0,
            (Ok(Mail::Known(takes)), Lookup::NoDomain) => !takes,
            (Ok(Mail::AskAddress), Lookup::NoRecords) => true,
            (Err(error), Lookup::Failed(source)) => error@ == (ErrorView::Dns {
                name: name@,
                source: source@,
            }),
            _ => false,
        },
{
    match answer {
        Lookup::Found(exchanges) => if exchanges.len() == 0 {
            Ok(Mail::AskAddress)
        } else {
            Ok(Mail::Known(dns::names_a_mail_host(exchanges.as_slice())))
        },
        Lookup::NoDomain => Ok(Mail::Known(false)),
        Lookup::NoRecords => Ok(Mail::AskAddress),
        Lookup::Failed(source) => Err(dns_error(name, source)),
    }
}

/// Reads the addresses of a name. A name that does not exist has none.
///
/// # Errors
///
/// Returns [`Error::Dns`] when the lookup did not finish.
pub fn addresses(name: &str, answer: Lookup<Vec<IpAddr>>) -> (found: Result<Vec<IpAddr>, Error>)
    ensures
        match (found, answer) {
            (Ok(found), Lookup::Found(given)) => found@ == given@,
            (Ok(found), Lookup::NoDomain) => found@.len() == 0,
            (Ok(found), Lookup::NoRecords) => found@.len() == 0,
            (Err(error), Lookup::Failed(source)) => error@ == (ErrorView::Dns {
                name: name@,
                source: source@,
            }),
            _ => false,
        },
{
    match answer {
        Lookup::Found(given) => Ok(given),
        Lookup::NoDomain => Ok(Vec::new()),
        Lookup::NoRecords => Ok(Vec::new()),
        Lookup::Failed(source) => Err(dns_error(name, source)),
    }
}

/// Returns whether a name has an IPv4 or IPv6 address.
///
/// # Errors
///
/// Returns [`Error::Dns`] when the lookup did not finish.
pub fn has_address(name: &str, answer: Lookup<Vec<IpAddr>>) -> (known: Result<bool, Error>)
    ensures
        match (known, answer) {
            (Ok(yes), Lookup::Found(given)) => yes == (given@.len() > 0),
            (Ok(yes), Lookup::NoDomain) => !yes,
            (Ok(yes), Lookup::NoRecords) => !yes,
            (Err(error), Lookup::Failed(source)) => error@ == (ErrorView::Dns {
                name: name@,
                source: source@,
            }),
            _ => false,
        },
{
    match addresses(name, answer) {
        Ok(found) => Ok(found.len() > 0),
        Err(error) => Err(error),
    }
}

/// Whether a guess is `abuse@` at the domain when the domain takes mail, and nothing
/// when it does not.
pub open spec fn is_guess(
    guess: Result<Option<Contact>, Error>,
    domain: Seq<char>,
    takes_mail: bool,
) -> bool {
    if takes_mail {
        match (guess, contact::email_of_text(dns::rfc2142_address(domain))) {
            (Ok(Some(contact)), Ok(email)) => contact@ == (ContactView {
                email,
                scope: Scope::Domain,
                source: SourceView::Rfc2142,
            }),
            (Err(error), Err(wanted)) => error@ == ErrorView::Validation(wanted),
            _ => false,
        }
    } else {
        guess matches Ok(None)
    }
}

/// Returns `abuse@` at the domain, when the domain takes mail.
///
/// RFC 2142 requires the mailbox, and many domains do not have it, so the address
/// is a guess. A domain that takes no mail cannot have it at all, and gives `None`:
/// a name that does not exist, a null MX, or no MX and no address.
///
/// # Errors
///
/// Returns [`Error::Validation`] when `abuse@` at this domain is not a usable address.
pub fn rfc2142(domain: &DomainName, takes_mail: bool) -> (guess: Result<Option<Contact>, Error>)
    ensures
        is_guess(guess, domain@, takes_mail),
{
    if !takes_mail {
        return Ok(None);
    }
    match dns::rfc2142_contact(domain) {
        Ok(contact) => Ok(Some(contact)),
        Err(error) => Err(Error::Validation(error)),
    }
}

// --- What the outcomes promise -----------------------------------------------

/// Whether a domain takes mail, from what came of asking for its MX records and, where
/// it has none, its addresses. `None` when the lookups do not tell.
pub open spec fn mail_known(mx: Lookup<Vec<String>>, address: Lookup<Vec<IpAddr>>) -> Option<bool> {
    let no_mx = match mx {
        Lookup::Found(exchanges) => exchanges@.len() == 0,
        Lookup::NoRecords => true,
        _ => false,
    };
    if no_mx {
        match address {
            Lookup::Found(given) => Some(given@.len() > 0),
            Lookup::Failed(_) => None,
            _ => Some(false),
        }
    } else {
        match mx {
            Lookup::Found(exchanges) => Some(has_mail_host(exchanges@)),
            Lookup::Failed(_) => None,
            _ => Some(false),
        }
    }
}

/// Returns `abuse@` at the domain when it takes mail, from what came of both lookups.
///
/// The address lookup is read only when the domain has no MX record.
///
/// # Errors
///
/// Returns [`Error::Dns`] when a lookup that is read did not finish, and
/// [`Error::Validation`] when `abuse@` at this domain is not a usable address.
pub fn rfc2142_from(
    domain: &DomainName,
    mx: Lookup<Vec<String>>,
    address: Lookup<Vec<IpAddr>>,
) -> (guess: Result<Option<Contact>, Error>)
    ensures
        match mail_known(mx, address) {
            Some(takes) => is_guess(guess, domain@, takes),
            None => guess matches Err(error) && error@ == (ErrorView::Dns {
                name: absolute_text(domain@),
                source: (match (mx, address) {
                    (Lookup::Failed(source), _) => source@,
                    (_, Lookup::Failed(source)) => source@,
                    _ => Seq::<char>::empty(),
                }),
            }),
        },
{
    let name = absolute(domain.as_str());
    let takes = match mail_from_mx(name.as_str(), mx) {
        Ok(Mail::Known(takes)) => takes,
        Ok(Mail::AskAddress) => match has_address(name.as_str(), address) {
            Ok(takes) => takes,
            Err(error) => return Err(error),
        },
        Err(error) => return Err(error),
    };
    rfc2142(domain, takes)
}

/// The name that is asked for has one dot at its end, so no search domain is appended.
pub proof fn law_asked_names_are_absolute(name: Seq<char>)
    ensures
        absolute_text(name).last() == '.',
        absolute_text(name).len() >= 2 ==> absolute_text(name)[absolute_text(name).len() - 2] != '.',
        absolute_text(absolute_text(name)) == absolute_text(name),
    decreases name.len(),
{
    let dotted = absolute_text(name);
    let bare = text::drop_tail(name, '.');
    lemma_drop_tail(name);
    assert(dotted.drop_last() =~= bare);
    assert(text::drop_tail(dotted, '.') == text::drop_tail(bare, '.'));
}

/// What is left without its dots does not end with one.
proof fn lemma_drop_tail(name: Seq<char>)
    ensures
        text::drop_tail(name, '.').len() > 0 ==> text::drop_tail(name, '.').last() != '.',
    decreases name.len(),
{
    if name.len() > 0 && name.last() == '.' {
        lemma_drop_tail(name.drop_last());
    }
}

/// A zone that fails is an error that names what was asked for, and a zone with nothing
/// to say is not: the two do not look the same.
pub proof fn law_failing_zone_is_not_an_empty_one(
    name: Seq<char>,
    answer: Lookup<Vec<Vec<Box<[u8]>>>>,
    outcome: Result<Vec<Contact>, Error>,
    scope: Scope,
    source: SourceView,
)
    requires
        is_zone_outcome(outcome, txt_outcome(name, answer), scope, source),
    ensures
        outcome is Err <==> answer is Failed,
        outcome matches Err(error) ==> (error@ matches ErrorView::Dns { name: asked, .. } && asked == name),
        answer is NoDomain || answer is NoRecords ==> (outcome matches Ok(contacts) && contacts@.len() == 0),
{
    if let Ok(contacts) = outcome {
        if answer is NoDomain || answer is NoRecords {
            assert(dns::txt_values(Seq::<Seq<char>>::empty()) =~= Seq::<Seq<char>>::empty());
            assert(contact::contact_views(contacts@).len() == 0);
        }
    }
}

// --- Each outcome in turn ----------------------------------------------------

/// A name is asked for with one dot after it, however many dots it ends with.
pub proof fn law_one_dot_after_a_name(name: Seq<char>, dots: Seq<char>)
    requires
        name.len() > 0 ==> name[name.len() - 1] != '.',
        forall|i: int| 0 <= i < dots.len() ==> #[trigger] dots[i] == '.',
    ensures
        absolute_text(name + dots) == name + seq!['.'],
{
    text::law_run_after_is_dropped(name, dots, '.');
    assert(name.push('.') =~= name + seq!['.']);
}

/// The bytes of a record are those of its strings, one string after the other.
pub proof fn law_strings_are_joined(strings: Seq<Box<[u8]>>, string: Box<[u8]>)
    ensures
        joined_bytes(Seq::<Box<[u8]>>::empty()) == Seq::<u8>::empty(),
        joined_bytes(strings.push(string)) == joined_bytes(strings) + string@,
{
    assert(strings.push(string).drop_last() =~= strings);
}

/// Each record that is UTF-8 gives one value, in order, and a record that is not gives
/// none.
pub proof fn law_records_give_values_in_order(records: Seq<Vec<Box<[u8]>>>, record: Vec<Box<[u8]>>)
    ensures
        record_values(Seq::<Vec<Box<[u8]>>>::empty()) == Seq::<Seq<char>>::empty(),
        record_values(records.push(record)) == (if valid_utf8(joined_bytes(record@)) {
            record_values(records) + seq![decode_utf8(joined_bytes(record@))]
        } else {
            record_values(records)
        }),
{
    assert(records.push(record).drop_last() =~= records);
    if valid_utf8(joined_bytes(record@)) {
        let value = decode_utf8(joined_bytes(record@));
        assert(record_values(records).push(value) =~= record_values(records) + seq![value]);
    }
}

/// What a lookup of TXT records gives: the values that were found, none for a name that
/// does not exist or has no records, and an error that names what was asked for when it
/// did not finish.
pub proof fn law_what_a_txt_lookup_gives(name: Seq<char>, answer: Lookup<Vec<Vec<Box<[u8]>>>>)
    ensures
        answer matches Lookup::Found(records) ==> txt_outcome(name, answer) == Ok::<Seq<Seq<char>>, ErrorView>(
            record_values(records@),
        ),
        answer is NoDomain || answer is NoRecords ==> (txt_outcome(name, answer) matches Ok(values) && values.len()
            == 0),
        answer matches Lookup::Failed(source) ==> txt_outcome(name, answer) == Err::<
            Seq<Seq<char>>,
            ErrorView,
        >(ErrorView::Dns { name, source: source@ }),
{
}

/// A domain takes mail when an MX record names a host. A domain without MX records takes
/// mail when it has an address. A name that does not exist takes none. A lookup that is
/// needed and did not finish leaves it open.
pub proof fn law_which_domains_take_mail(mx: Lookup<Vec<String>>, address: Lookup<Vec<IpAddr>>)
    ensures
        mx matches Lookup::Found(exchanges) ==> exchanges@.len() > 0 ==> (mail_known(mx, address) == Some(true)
            <==> exists|i: int, k: int|
            0 <= i < exchanges@.len() && 0 <= k < exchanges@[i]@.len() && #[trigger] exchanges@[i]@[k] != '.'),
        mx matches Lookup::Found(exchanges) ==> exchanges@.len() > 0 ==> mail_known(mx, address) is Some,
        mx is NoDomain ==> mail_known(mx, address) == Some(false),
        mx is Failed ==> mail_known(mx, address) is None,
        mx is NoRecords || (mx matches Lookup::Found(exchanges) && exchanges@.len() == 0) ==> match address {
            Lookup::Found(given) => mail_known(mx, address) == Some(given@.len() > 0),
            Lookup::NoDomain => mail_known(mx, address) == Some(false),
            Lookup::NoRecords => mail_known(mx, address) == Some(false),
            Lookup::Failed(_) => mail_known(mx, address) is None,
        },
{
    if let Lookup::Found(exchanges) = mx {
        if has_mail_host(exchanges@) {
            let i = choose|i: int| 0 <= i < exchanges@.len() && dns::is_mail_host((#[trigger] exchanges@[i])@);
            let k = choose|k: int| 0 <= k < exchanges@[i]@.len() && #[trigger] exchanges@[i]@[k] != '.';
            assert(exchanges@[i]@[k] != '.');
        }
        if exists|i: int, k: int|
            0 <= i < exchanges@.len() && 0 <= k < exchanges@[i]@.len() && #[trigger] exchanges@[i]@[k] != '.' {
            let (i, k) = choose|i: int, k: int|
                0 <= i < exchanges@.len() && 0 <= k < exchanges@[i]@.len() && #[trigger] exchanges@[i]@[k] != '.';
            assert(dns::is_mail_host(exchanges@[i]@));
        }
    }
}

/// The guess for a domain that takes mail is `abuse@` at the domain, with the domain as its
/// scope, and a domain that takes none has no guess.
pub proof fn law_what_is_guessed(guess: Result<Option<Contact>, Error>, domain: Seq<char>, takes_mail: bool)
    requires
        is_guess(guess, domain, takes_mail),
    ensures
        !takes_mail ==> (guess matches Ok(found) && found is None),
        takes_mail ==> match contact::email_of_text("abuse@"@ + domain) {
            Ok(email) => guess is Ok && guess->Ok_0 is Some && guess->Ok_0->0.email@ == email
                && guess->Ok_0->0.scope is Domain && guess->Ok_0->0.source is Rfc2142,
            Err(error) => guess is Err && guess->Err_0@ == ErrorView::Validation(error),
        },
{
    dns::law_names_for_a_domain(domain);
    if takes_mail {
        if let Ok(Some(contact)) = guess {
            assert(contact@.source is Rfc2142);
        }
    }
}

/// What a zone gives is a contact for each address among its values, in order, with the
/// scope and the source of the zone.
pub proof fn law_zone_gives_every_address(
    outcome: Result<Vec<Contact>, Error>,
    values: Seq<Seq<char>>,
    scope: Scope,
    source: SourceView,
    i: int,
    email: Seq<char>,
)
    requires
        is_zone_outcome(outcome, Ok(values), scope, source),
        0 <= i < dns::txt_values(values).len(),
        contact::email_of_text(dns::txt_values(values)[i]) == Ok::<
            Seq<char>,
            crate::error::ValidationErrorView,
        >(email),
    ensures
        outcome is Ok,
        exists|k: int|
            0 <= k < outcome->Ok_0@.len() && (#[trigger] outcome->Ok_0@[k]).email@ == email && outcome->Ok_0@[k].scope
                == scope && outcome->Ok_0@[k].source@ == source,
{
    let pieces = dns::txt_values(values);
    dns::law_every_address_is_read(pieces, i, scope, source);
    let all = dns::contacts_of(pieces, scope, source);
    let wanted = ContactView { email, scope, source };
    let k = choose|k: int| 0 <= k < all.len() && all[k] == wanted;
    assert(contact::contact_views(outcome->Ok_0@)[k] == outcome->Ok_0@[k]@);
    assert(outcome->Ok_0@[k].email@ == email);
}

/// Every contact of a zone is an address among its values, with the scope and the source
/// of the zone.
pub proof fn law_zone_invents_nothing(
    outcome: Result<Vec<Contact>, Error>,
    values: Seq<Seq<char>>,
    scope: Scope,
    source: SourceView,
    k: int,
)
    requires
        is_zone_outcome(outcome, Ok(values), scope, source),
        outcome is Ok,
        0 <= k < outcome->Ok_0@.len(),
    ensures
        outcome->Ok_0@[k].scope == scope,
        outcome->Ok_0@[k].source@ == source,
        exists|i: int|
            0 <= i < dns::txt_values(values).len() && contact::email_of_text(#[trigger] dns::txt_values(values)[i])
                == Ok::<Seq<char>, crate::error::ValidationErrorView>(outcome->Ok_0@[k].email@),
{
    let all = dns::contacts_of(dns::txt_values(values), scope, source);
    assert(contact::contact_views(outcome->Ok_0@)[k] == outcome->Ok_0@[k]@);
    dns::law_contacts_come_from_values(dns::txt_values(values), k, scope, source);
}

} // verus!
