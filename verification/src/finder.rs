//! One lookup that asks every source that answers for a target.
//!
//! The functions here decide what to ask about, what to hold, and how the answers merge.
//! The caller asks the sources, all at the same time.

use vstd::prelude::*;
use vstd::string::*;

use crate::addr;
use crate::addr::{IpAddr, IpRange};
use crate::bootstrap;
use crate::bootstrap::Bootstrap;
use crate::cache;
use crate::cache::{Cache, EntriesView, HeldView};
use crate::client;
use crate::client::{Record, Request};
use crate::contact;
use crate::contact::{rank, Contact, ContactView, Scope};
use crate::error::{Error, ErrorView};
use crate::list;
use crate::query;
use crate::query::DomainName;
use crate::rdap;

verus! {

/// The most hosts of one domain that the finder asks the network sources about.
///
/// Each host costs an RDAP request and an Abusix lookup. A domain with many addresses
/// is usually one service in one or two networks, so the first few are enough.
pub const MAX_HOSTS: usize = 4;

// --- What was found ----------------------------------------------------------

/// A source that a lookup asks.
///
/// [`crate::contact::Source`] names where a contact came from, and for RDAP it names the
/// server that answered. A source that failed can have no server to name, so a
/// failure names the source with this.
#[derive(Clone, Copy, Debug, PartialEq, Eq, Hash, Structural)]
#[non_exhaustive]
pub enum Origin {
    /// RDAP, from the server the bootstrap registry names.
    Rdap,
    /// The Abusix `abuse-contacts` DNS zone.
    Abusix,
    /// The abuse.net `contacts` DNS zone.
    AbuseNet,
    /// The MX and address lookups that decide whether `abuse@` at the domain is given.
    Rfc2142,
    /// The address lookup that finds the hosts of a domain.
    Host,
}

impl Origin {
    /// The name of a source.
    pub open spec fn name(self) -> Seq<char> {
        match self {
            Origin::Rdap => "RDAP"@,
            Origin::Abusix => "Abusix"@,
            Origin::AbuseNet => "abuse.net"@,
            Origin::Rfc2142 => "the RFC 2142 check"@,
            Origin::Host => "the address lookup of the domain"@,
        }
    }

    /// Returns the name of the source.
    pub fn to_text(&self) -> (name: String)
        ensures
            name@ == self.name(),
    {
        match self {
            Origin::Rdap => "RDAP".to_owned(),
            Origin::Abusix => "Abusix".to_owned(),
            Origin::AbuseNet => "abuse.net".to_owned(),
            Origin::Rfc2142 => "the RFC 2142 check".to_owned(),
            Origin::Host => "the address lookup of the domain".to_owned(),
        }
    }
}

/// A source that did not answer.
#[derive(Debug)]
pub struct Failure {
    /// The source that failed.
    pub origin: Origin,
    /// Why it failed.
    pub error: Error,
}

/// What a [`Failure`] holds.
pub struct FailureView {
    pub origin: Origin,
    pub error: ErrorView,
}

impl View for Failure {
    type V = FailureView;

    open spec fn view(&self) -> FailureView {
        FailureView { origin: self.origin, error: self.error@ }
    }
}

impl FailureView {
    /// What the failure says.
    pub open spec fn text(self) -> Seq<char> {
        self.origin.name() + " did not answer: "@ + self.error.text()
    }
}

impl Failure {
    /// Returns what the failure says, for a person to read.
    pub fn message(&self) -> (said: String)
        ensures
            said@ == self@.text(),
    {
        let mut said = self.origin.to_text();
        said.append(" did not answer: ");
        said.append(self.error.message().as_str());
        said
    }
}

/// What each failure of a list holds.
pub open spec fn failure_views(failures: Seq<Failure>) -> Seq<FailureView> {
    failures.map_values(|failure: Failure| failure@)
}

/// What a lookup found: the contacts, and the sources that did not answer.
#[derive(Debug)]
pub struct Found {
    /// The contacts from every source that answered, ordered by [`rank`].
    pub contacts: Vec<Contact>,
    /// The sources that did not answer, with the reason.
    ///
    /// A source that answered with no contact is not here. Check this list before
    /// you read an empty [`Found::contacts`] as "no contact is published".
    pub failures: Vec<Failure>,
}

impl Default for Found {
    /// Returns that nothing was found, and no source failed.
    fn default() -> (found: Self)
        ensures
            found.contacts@.len() == 0,
            found.failures@.len() == 0,
    {
        Found { contacts: Vec::new(), failures: Vec::new() }
    }
}

// --- Merging -----------------------------------------------------------------

/// What one source gave, or why it did not answer.
pub struct AnswerView {
    pub origin: Origin,
    pub outcome: Result<Seq<ContactView>, ErrorView>,
}

/// What a source gave, or why it did not answer.
pub open spec fn outcome_view(outcome: Result<Vec<Contact>, Error>) -> Result<Seq<ContactView>, ErrorView> {
    match outcome {
        Ok(contacts) => Ok(contact::contact_views(contacts@)),
        Err(error) => Err(error@),
    }
}

/// What each source of a list gave.
pub open spec fn answer_views(answers: Seq<(Origin, Result<Vec<Contact>, Error>)>) -> Seq<AnswerView> {
    answers.map_values(
        |answer: (Origin, Result<Vec<Contact>, Error>)|
            AnswerView { origin: answer.0, outcome: outcome_view(answer.1) },
    )
}

/// The contacts of every source that answered, one source after the other.
pub open spec fn given(answers: Seq<AnswerView>) -> Seq<ContactView>
    decreases answers.len(),
{
    if answers.len() == 0 {
        Seq::<ContactView>::empty()
    } else {
        let before = given(answers.drop_last());
        match answers.last().outcome {
            Ok(contacts) => before + contacts,
            Err(_) => before,
        }
    }
}

/// The sources that did not answer, in order.
pub open spec fn failed(answers: Seq<AnswerView>) -> Seq<FailureView>
    decreases answers.len(),
{
    if answers.len() == 0 {
        Seq::<FailureView>::empty()
    } else {
        let before = failed(answers.drop_last());
        match answers.last().outcome {
            Ok(_) => before,
            Err(error) => before.push(FailureView { origin: answers.last().origin, error }),
        }
    }
}

/// Whether this is what these answers make: the contacts ranked, and the failures
/// beside them.
pub open spec fn is_merged(found: Found, answers: Seq<AnswerView>) -> bool {
    &&& contact::is_ranking(given(answers), contact::contact_views(found.contacts@))
    &&& failure_views(found.failures@) == failed(answers)
}

/// Joins what each source gave into one ranked list, and keeps the failures beside it.
pub fn merge(answers: Vec<(Origin, Result<Vec<Contact>, Error>)>) -> (found: Found)
    ensures
        is_merged(found, answer_views(answers@)),
{
    let ghost all = answers@;
    let ghost shown = answer_views(answers@);
    let mut left = answers;
    let mut contacts: Vec<Contact> = Vec::new();
    let mut failures: Vec<Failure> = Vec::new();
    let ghost mut k: int = 0;
    assert(contact::contact_views(contacts@) =~= Seq::<ContactView>::empty());
    assert(failure_views(failures@) =~= Seq::<FailureView>::empty());
    assert(all.skip(0) =~= all);
    while left.len() > 0
        invariant
            0 <= k <= all.len(),
            shown == answer_views(all),
            left@ == all.skip(k),
            contact::contact_views(contacts@) == given(shown.take(k)),
            failure_views(failures@) == failed(shown.take(k)),
        decreases left@.len(),
    {
        let (origin, answer) = left.remove(0);
        proof {
            assert(all.skip(k)[0] == all[k]);
            assert(all[k] == (origin, answer));
            assert(left@ =~= all.skip(k + 1));
            assert(shown.take(k + 1).drop_last() =~= shown.take(k));
            assert(shown.take(k + 1).last() == shown[k]);
        }
        match answer {
            Ok(found) => {
                let ghost before = contact::contact_views(contacts@);
                let mut found = found;
                let ghost more = contact::contact_views(found@);
                contacts.append(&mut found);
                assert(contact::contact_views(contacts@) =~= before + more);
            },
            Err(error) => {
                let ghost before = failure_views(failures@);
                let failure = Failure { origin, error };
                let ghost added = failure@;
                failures.push(failure);
                assert(failure_views(failures@) =~= before.push(added));
            },
        }
        proof {
            k = k + 1;
        }
    }
    assert(shown.take(k) =~= shown);
    Found { contacts: rank(contacts), failures }
}

// --- One lookup --------------------------------------------------------------

/// What RDAP and Abusix give for the network of one address.
pub struct NetworkAnswer {
    /// What RDAP gave.
    pub rdap: Result<Vec<Contact>, Error>,
    /// What Abusix gave.
    pub abusix: Result<Vec<Contact>, Error>,
}

/// What RDAP and Abusix give for the network of one address, RDAP first.
pub open spec fn network_answers(network: NetworkAnswer) -> Seq<AnswerView> {
    seq![
        AnswerView { origin: Origin::Rdap, outcome: outcome_view(network.rdap) },
        AnswerView { origin: Origin::Abusix, outcome: outcome_view(network.abusix) },
    ]
}

/// What RDAP and Abusix give for the networks of hosts, one host after the other.
pub open spec fn host_answers(hosts: Seq<NetworkAnswer>) -> Seq<AnswerView>
    decreases hosts.len(),
{
    if hosts.len() == 0 {
        Seq::<AnswerView>::empty()
    } else {
        host_answers(hosts.drop_last()) + network_answers(hosts.last())
    }
}

/// What the RFC 2142 check gives: one contact, none, or why it is not known.
pub open spec fn guess_view(guess: Result<Option<Contact>, Error>) -> Result<Seq<ContactView>, ErrorView> {
    match guess {
        Ok(Some(contact)) => Ok(seq![contact@]),
        Ok(None) => Ok(Seq::<ContactView>::empty()),
        Err(error) => Err(error@),
    }
}

/// What every source gives for a domain: RDAP, abuse.net, the RFC 2142 check, and the
/// networks of the hosts. When the hosts are not known, the address lookup failed.
pub open spec fn domain_answers(
    rdap: Result<Vec<Contact>, Error>,
    abuse_net: Result<Vec<Contact>, Error>,
    rfc2142: Result<Option<Contact>, Error>,
    hosts: Result<Vec<NetworkAnswer>, Error>,
) -> Seq<AnswerView> {
    seq![
        AnswerView { origin: Origin::Rdap, outcome: outcome_view(rdap) },
        AnswerView { origin: Origin::AbuseNet, outcome: outcome_view(abuse_net) },
        AnswerView { origin: Origin::Rfc2142, outcome: guess_view(rfc2142) },
    ] + match hosts {
        Ok(hosts) => host_answers(hosts@),
        Err(error) => seq![AnswerView { origin: Origin::Host, outcome: Err(error@) }],
    }
}

/// Returns what a lookup of an address found, from what RDAP and Abusix gave.
pub fn ip_found(network: NetworkAnswer) -> (found: Found)
    ensures
        is_merged(found, network_answers(network)),
{
    let mut answers: Vec<(Origin, Result<Vec<Contact>, Error>)> = Vec::new();
    answers.push((Origin::Rdap, network.rdap));
    answers.push((Origin::Abusix, network.abusix));
    assert(answer_views(answers@) =~= network_answers(network));
    merge(answers)
}

/// Returns what a lookup of a domain found, from what every source gave.
///
/// `hosts` holds what the network sources gave for each host of the domain, or why its
/// addresses are not known.
pub fn domain_found(
    rdap: Result<Vec<Contact>, Error>,
    abuse_net: Result<Vec<Contact>, Error>,
    rfc2142: Result<Option<Contact>, Error>,
    hosts: Result<Vec<NetworkAnswer>, Error>,
) -> (found: Found)
    ensures
        is_merged(found, domain_answers(rdap, abuse_net, rfc2142, hosts)),
{
    let ghost wanted = domain_answers(rdap, abuse_net, rfc2142, hosts);
    let guess = match rfc2142 {
        Ok(guess) => {
            let mut list: Vec<Contact> = Vec::new();
            if let Some(contact) = guess {
                list.push(contact);
            }
            assert(contact::contact_views(list@) =~= guess_view(rfc2142)->Ok_0);
            Ok(list)
        },
        Err(error) => Err(error),
    };
    let mut answers: Vec<(Origin, Result<Vec<Contact>, Error>)> = Vec::new();
    answers.push((Origin::Rdap, rdap));
    answers.push((Origin::AbuseNet, abuse_net));
    answers.push((Origin::Rfc2142, guess));
    let ghost first = answer_views(answers@);
    match hosts {
        Ok(hosts) => {
            let ghost all = hosts@;
            let ghost mut k: int = 0;
            let mut left = hosts;
            assert(all.skip(0) =~= all);
            assert(first + host_answers(all.take(0)) =~= first);
            while left.len() > 0
                invariant
                    0 <= k <= all.len(),
                    left@ == all.skip(k),
                    answer_views(answers@) == first + host_answers(all.take(k)),
                decreases left@.len(),
            {
                let ghost before = answer_views(answers@);
                let network = left.remove(0);
                proof {
                    assert(all.skip(k)[0] == all[k]);
                    assert(left@ =~= all.skip(k + 1));
                    assert(all.take(k + 1).drop_last() =~= all.take(k));
                    assert(all.take(k + 1).last() == all[k]);
                }
                answers.push((Origin::Rdap, network.rdap));
                answers.push((Origin::Abusix, network.abusix));
                assert(answer_views(answers@) =~= before + network_answers(all[k]));
                proof {
                    k = k + 1;
                }
            }
            assert(all.take(k) =~= all);
        },
        Err(error) => {
            answers.push((Origin::Host, Err(error)));
        },
    }
    assert(answer_views(answers@) =~= wanted);
    merge(answers)
}

// --- Hosts -------------------------------------------------------------------

/// The public addresses of a list, each as the IPv4 address it carries where it carries
/// one.
pub open spec fn public_ones(addresses: Seq<IpAddr>) -> Seq<IpAddr> {
    addresses.map_values(|ip: IpAddr| query::unmapped(ip)).filter(|ip: IpAddr| query::public_address(ip))
}

/// The hosts to ask the network sources about: the public addresses, each one time, and
/// at most [`MAX_HOSTS`] of them.
pub open spec fn hosts_of(addresses: Seq<IpAddr>) -> Seq<IpAddr> {
    let hosts = list::distinct(public_ones(addresses));
    if hosts.len() > MAX_HOSTS {
        hosts.take(MAX_HOSTS as int)
    } else {
        hosts
    }
}

/// Returns whether an address is in a list.
fn holds_address(list: &Vec<IpAddr>, ip: IpAddr) -> (found: bool)
    ensures
        found == list@.contains(ip),
{
    let mut i: usize = 0;
    while i < list.len()
        invariant
            i <= list@.len(),
            forall|k: int| 0 <= k < i ==> list@[k] != ip,
        decreases list@.len() - i,
    {
        if list[i] == ip {
            assert(list@[i as int] == ip);
            return true;
        }
        i += 1;
    }
    false
}

/// The hosts of the first addresses of a list are the first hosts of the list.
proof fn lemma_hosts_of_more(addresses: Seq<IpAddr>, k: int)
    requires
        0 <= k <= addresses.len(),
    ensures
        list::distinct(public_ones(addresses.take(k))).is_prefix_of(list::distinct(public_ones(addresses))),
    decreases addresses.len() - k,
{
    if k == addresses.len() {
        assert(addresses.take(k) =~= addresses);
    } else {
        lemma_hosts_of_more(addresses, k + 1);
        lemma_one_more_host(addresses, k);
        let now = list::distinct(public_ones(addresses.take(k)));
        let next = list::distinct(public_ones(addresses.take(k + 1)));
        let all = list::distinct(public_ones(addresses));
        assert(now.is_prefix_of(next));
        assert(now =~= all.subrange(0, now.len() as int));
    }
}

/// The hosts with one more address.
proof fn lemma_one_more_host(addresses: Seq<IpAddr>, k: int)
    requires
        0 <= k < addresses.len(),
    ensures
        ({
            let now = list::distinct(public_ones(addresses.take(k)));
            let next = list::distinct(public_ones(addresses.take(k + 1)));
            let ip = query::unmapped(addresses[k]);
            next == (if query::public_address(ip) && !now.contains(ip) {
                now.push(ip)
            } else {
                now
            })
        }),
{
    reveal(Seq::filter);
    let unmap = |ip: IpAddr| query::unmapped(ip);
    let a = addresses.take(k).map_values(unmap);
    let b = addresses.take(k + 1).map_values(unmap);
    assert(b.drop_last() =~= a);
    assert(b.last() == query::unmapped(addresses[k]));
    let now = public_ones(addresses.take(k));
    let next = public_ones(addresses.take(k + 1));
    if query::public_address(b.last()) {
        assert(next == now.push(b.last()));
        assert(next.drop_last() =~= now);
    }
}

/// Returns the hosts to ask the network sources about: the public addresses, each
/// one time, and at most [`MAX_HOSTS`] of them.
///
/// The addresses past the last host that is kept are not looked at.
pub fn public_hosts(addresses: &[IpAddr]) -> (hosts: Vec<IpAddr>)
    ensures
        hosts@ == hosts_of(addresses@),
{
    let mut hosts: Vec<IpAddr> = Vec::new();
    let mut i: usize = 0;
    proof {
        reveal(Seq::filter);
        assert(addresses@.take(0).map_values(|ip: IpAddr| query::unmapped(ip)) =~= Seq::<IpAddr>::empty());
        assert(public_ones(addresses@.take(0)) =~= Seq::<IpAddr>::empty());
    }
    while i < addresses.len() && hosts.len() < MAX_HOSTS
        invariant
            i <= addresses@.len(),
            hosts@.len() <= MAX_HOSTS,
            hosts@ == list::distinct(public_ones(addresses@.take(i as int))),
        decreases addresses@.len() - i,
    {
        let ip = query::unmap(addresses[i]);
        proof {
            lemma_one_more_host(addresses@, i as int);
        }
        if query::is_public(ip) && !holds_address(&hosts, ip) {
            hosts.push(ip);
        }
        i += 1;
    }
    proof {
        lemma_hosts_of_more(addresses@, i as int);
        let all = list::distinct(public_ones(addresses@));
        if i == addresses@.len() {
            assert(addresses@.take(i as int) =~= addresses@);
        }
        assert(hosts@ =~= all.subrange(0, hosts@.len() as int));
        assert(hosts@ =~= hosts_of(addresses@));
    }
    hosts
}

// --- Targets and held answers ------------------------------------------------

/// Returns the address to ask the sources about.
///
/// Each source makes this check too. It is made here as well, so that a query that no
/// source can answer is an error and not two failures.
///
/// # Errors
///
/// Returns [`Error::NotPublic`] for a private or reserved address.
pub fn public_target(ip: IpAddr) -> (target: Result<IpAddr, Error>)
    ensures
        match target {
            Ok(target) => query::public_address(ip) && target == query::unmapped(ip),
            Err(error) => !query::public_address(ip) && error@ == (ErrorView::NotPublic {
                target: addr::ip_text(query::unmapped(ip)),
            }),
        },
{
    let inner = query::unmap(ip);
    if query::is_public(inner) {
        Ok(inner)
    } else {
        Err(Error::NotPublic { target: inner.to_text() })
    }
}

/// The contacts of a record that may be missing.
pub open spec fn record_contacts(record: Option<Record>, scope: Scope) -> Seq<ContactView> {
    match record {
        Some(record) => rdap::contacts_in(record.response@.entities, scope, record.server@),
        None => Seq::<ContactView>::empty(),
    }
}

/// The range a record is held for: the one it gives, when that holds the address.
pub open spec fn held_range(record: Option<Record>, ip: IpAddr) -> Option<IpRange> {
    match record {
        Some(record) => match rdap::range_of(record.response@) {
            Some(range) if range.holds(ip) => Some(range),
            _ => None,
        },
        None => None,
    }
}

/// What to do for the RDAP contacts of a target.
#[derive(Debug)]
pub enum RdapStep {
    /// The contacts are held, and no registry is asked.
    Held(Vec<Contact>),
    /// The record is to be fetched.
    Fetch(Request),
}

/// Whether a step takes what is held, and else makes this request.
pub open spec fn is_step(
    step: Result<RdapStep, Error>,
    held: Option<Seq<ContactView>>,
    list: Seq<bootstrap::Entry>,
    fit: spec_fn(bootstrap::Entry) -> Option<nat>,
    kind: Seq<char>,
    target: Seq<char>,
) -> bool {
    match step {
        Ok(RdapStep::Held(contacts)) => held == Some(contact::contact_views(contacts@)),
        Ok(RdapStep::Fetch(request)) => held is None && client::asks_server(
            Ok(request),
            list,
            fit,
            kind,
            target,
        ),
        Err(error) => held is None && client::asks_server(Err(error), list, fit, kind, target),
    }
}

/// Returns what to do for the RDAP contacts of an address: take them from the cache when
/// it holds them, and else fetch the record.
///
/// # Errors
///
/// Returns [`Error::NotPublic`] for a private or reserved address that is not held, and
/// [`Error::NoServer`] when no registry answers for it.
pub fn rdap_ip(cache: &Cache, bootstrap: &Bootstrap, ip: IpAddr, now: u128) -> (step: Result<RdapStep, Error>)
    ensures
        exists|held: Option<Seq<ContactView>>| #[trigger]
            cache::is_network_answer(cache.entries@.networks, ip, now, held) && (if held is Some
                || query::public_address(ip) {
                is_step(
                    step,
                    held,
                    bootstrap.ip_entries(query::unmapped(ip)),
                    |entry: bootstrap::Entry| bootstrap::ip_fit(entry, query::unmapped(ip)),
                    "ip"@,
                    addr::ip_text(query::unmapped(ip)),
                )
            } else {
                step matches Err(error) && error@ == (ErrorView::NotPublic {
                    target: addr::ip_text(query::unmapped(ip)),
                })
            }),
{
    let held = cache.network(ip, now);
    assert(cache::is_network_answer(cache.entries@.networks, ip, now, cache::answer_view(held)));
    if let Some(contacts) = held {
        return Ok(RdapStep::Held(contacts));
    }
    match client::ip_request(bootstrap, ip) {
        Ok(request) => Ok(RdapStep::Fetch(request)),
        Err(error) => Err(error),
    }
}

/// Returns the RDAP contacts for an address from what came of the fetch, and holds them.
///
/// The answer is held for the range the registry gives. A registry that holds no
/// record, or gives no range that holds the address, gives nothing to hold. A fetch
/// that failed is not held.
///
/// # Errors
///
/// Returns the error of the fetch.
pub fn rdap_ip_fetched(
    cache: &mut Cache,
    ip: IpAddr,
    fetched: Result<Option<Record>, Error>,
    now: u128,
) -> (outcome: Result<Vec<Contact>, Error>)
    requires
        now + old(cache).hold <= u128::MAX,
    ensures
        final(cache).hold == old(cache).hold,
        match fetched {
            Ok(record) => {
                &&& outcome_view(outcome) == Ok::<Seq<ContactView>, ErrorView>(
                    record_contacts(record, Scope::Network),
                )
                &&& final(cache).entries@ == (match held_range(record, ip) {
                    Some(range) => cache::with_network(
                        old(cache).entries@,
                        range,
                        HeldView {
                            contacts: record_contacts(record, Scope::Network),
                            until: (now + old(cache).hold) as u128,
                        },
                        now,
                    ),
                    None => old(cache).entries@,
                })
            },
            Err(error) => outcome_view(outcome) == Err::<Seq<ContactView>, ErrorView>(error@)
                && final(cache).entries@ == old(cache).entries@,
        },
{
    let record = match fetched {
        Ok(Some(record)) => record,
        Ok(None) => {
            let none: Vec<Contact> = Vec::new();
            assert(contact::contact_views(none@) =~= Seq::<ContactView>::empty());
            return Ok(none);
        },
        Err(error) => return Err(error),
    };
    let contacts = record.abuse_contacts(Scope::Network);
    if let Some(range) = record.response.range() {
        if range.contains(ip) {
            let copy = contact::copy_contacts(contacts.as_slice());
            cache.put_network(range, copy, now);
        }
    }
    Ok(contacts)
}

/// Returns what to do for the RDAP contacts of a domain: take them from the cache when it
/// holds them, and else fetch the record.
///
/// # Errors
///
/// Returns [`Error::NoServer`] when no registry answers for the name.
pub fn rdap_domain(cache: &Cache, bootstrap: &Bootstrap, domain: &DomainName, now: u128) -> (step: Result<
    RdapStep,
    Error,
>)
    ensures
        is_step(
            step,
            cache::domain_answer(cache.entries@, domain@, now),
            bootstrap::entries(bootstrap.dns@),
            |entry: bootstrap::Entry| bootstrap::domain_fit(entry, domain@),
            "domain"@,
            domain@,
        ),
{
    if let Some(contacts) = cache.domain(domain, now) {
        return Ok(RdapStep::Held(contacts));
    }
    match client::domain_request(bootstrap, domain) {
        Ok(request) => Ok(RdapStep::Fetch(request)),
        Err(error) => Err(error),
    }
}

/// Returns the RDAP contacts for a domain from what came of the fetch, and holds them.
///
/// A registry that holds no record is held too: the name is not registered. A fetch
/// that failed is not held.
///
/// # Errors
///
/// Returns the error of the fetch.
pub fn rdap_domain_fetched(
    cache: &mut Cache,
    domain: &DomainName,
    fetched: Result<Option<Record>, Error>,
    now: u128,
) -> (outcome: Result<Vec<Contact>, Error>)
    requires
        now + old(cache).hold <= u128::MAX,
    ensures
        final(cache).hold == old(cache).hold,
        match fetched {
            Ok(record) => {
                &&& outcome_view(outcome) == Ok::<Seq<ContactView>, ErrorView>(
                    record_contacts(record, Scope::Registrar),
                )
                &&& final(cache).entries@ == cache::with_domain(
                    old(cache).entries@,
                    domain@,
                    HeldView {
                        contacts: record_contacts(record, Scope::Registrar),
                        until: (now + old(cache).hold) as u128,
                    },
                    now,
                )
            },
            Err(error) => outcome_view(outcome) == Err::<Seq<ContactView>, ErrorView>(error@)
                && final(cache).entries@ == old(cache).entries@,
        },
{
    let contacts = match fetched {
        Ok(Some(record)) => record.abuse_contacts(Scope::Registrar),
        Ok(None) => {
            let none: Vec<Contact> = Vec::new();
            assert(contact::contact_views(none@) =~= Seq::<ContactView>::empty());
            none
        },
        Err(error) => return Err(error),
    };
    let copy = contact::copy_contacts(contacts.as_slice());
    cache.put_domain(domain.clone(), copy, now);
    Ok(contacts)
}

// --- What a lookup promises --------------------------------------------------

/// What two lists of answers give is what one gives, then what the other gives.
proof fn lemma_answers_add(a: Seq<AnswerView>, b: Seq<AnswerView>)
    ensures
        given(a + b) == given(a) + given(b),
        failed(a + b) == failed(a) + failed(b),
    decreases b.len(),
{
    if b.len() == 0 {
        assert(a + b =~= a);
        assert(given(a) + given(b) =~= given(a));
        assert(failed(a) + failed(b) =~= failed(a));
    } else {
        lemma_answers_add(a, b.drop_last());
        assert((a + b).drop_last() =~= a + b.drop_last());
        assert((a + b).last() == b.last());
        assert(given(a + b) =~= given(a) + given(b));
        assert(failed(a + b) =~= failed(a) + failed(b));
    }
}

/// A source that fails does not fail the lookup: the contacts are those of a lookup
/// without it, and the failure stands among the failures.
pub proof fn law_failed_source_keeps_the_others(
    a: Seq<AnswerView>,
    origin: Origin,
    error: ErrorView,
    b: Seq<AnswerView>,
    found: Found,
    without: Found,
)
    requires
        is_merged(found, a + seq![AnswerView { origin, outcome: Err(error) }] + b),
        is_merged(without, a + b),
    ensures
        contact::contact_views(found.contacts@) == contact::contact_views(without.contacts@),
        failure_views(found.failures@) == failed(a) + seq![FailureView { origin, error }] + failed(b),
        failure_views(without.failures@) == failed(a) + failed(b),
{
    let failure = AnswerView { origin, outcome: Err(error) };
    let one = seq![failure];
    let none = Seq::<AnswerView>::empty();
    assert(given(none) =~= Seq::<ContactView>::empty() && failed(none) =~= Seq::<FailureView>::empty());
    assert(one.drop_last() =~= none);
    assert(one.last() == failure);
    assert(given(one) =~= Seq::<ContactView>::empty());
    assert(failed(one) =~= seq![FailureView { origin, error }]);
    lemma_answers_add(a, one);
    lemma_answers_add(a + one, b);
    lemma_answers_add(a, b);
    assert(given(a) + given(one) =~= given(a));
    contact::law_ranking_is_one(
        given(a + b),
        contact::contact_views(found.contacts@),
        contact::contact_views(without.contacts@),
    );
}

/// A source that answers is no failure, even when it gives no contact: there are no
/// failures exactly when every source answered.
pub proof fn law_answering_source_is_no_failure(answers: Seq<AnswerView>, found: Found)
    requires
        is_merged(found, answers),
    ensures
        found.failures@.len() == 0 <==> forall|i: int|
            0 <= i < answers.len() ==> (#[trigger] answers[i]).outcome is Ok,
{
    assert(failure_views(found.failures@).len() == found.failures@.len());
    lemma_failures(answers);
}

/// There are no failures exactly when every source answered.
proof fn lemma_failures(answers: Seq<AnswerView>)
    ensures
        failed(answers).len() == 0 <==> forall|i: int|
            0 <= i < answers.len() ==> (#[trigger] answers[i]).outcome is Ok,
    decreases answers.len(),
{
    if answers.len() > 0 {
        let short = answers.drop_last();
        lemma_failures(short);
        assert(answers.last() == answers[answers.len() - 1]);
        if failed(answers).len() == 0 {
            assert forall|i: int| 0 <= i < answers.len() implies (#[trigger] answers[i]).outcome is Ok by {
                if i < short.len() {
                    assert(short[i] == answers[i]);
                }
            }
        } else if answers.last().outcome is Ok {
            let i = choose|i: int| 0 <= i < short.len() && (#[trigger] short[i]).outcome is Err;
            assert(answers[i] == short[i]);
        }
    }
}

/// What a source gave is among what all gave.
proof fn lemma_given(answers: Seq<AnswerView>, i: int, j: int)
    requires
        0 <= i < answers.len(),
        answers[i].outcome is Ok,
        0 <= j < answers[i].outcome->Ok_0.len(),
    ensures
        given(answers).contains(answers[i].outcome->Ok_0[j]),
    decreases answers.len(),
{
    let short = answers.drop_last();
    let before = given(short);
    let wanted = answers[i].outcome->Ok_0[j];
    if i < short.len() {
        assert(short[i] == answers[i]);
        lemma_given(short, i, j);
        let k = choose|k: int| 0 <= k < before.len() && before[k] == wanted;
        assert(given(answers)[k] == wanted);
    } else {
        assert(given(answers)[before.len() + j] == wanted);
    }
}

/// Every contact that a source gave is in what was found: its mailbox, with its scope,
/// from that source or a better one.
pub proof fn law_every_source_is_heard(answers: Seq<AnswerView>, found: Found, i: int, j: int)
    requires
        is_merged(found, answers),
        0 <= i < answers.len(),
        answers[i].outcome is Ok,
        0 <= j < answers[i].outcome->Ok_0.len(),
    ensures
        exists|k: int|
            0 <= k < found.contacts@.len() && contact::same_mailbox(
                (#[trigger] found.contacts@[k])@,
                answers[i].outcome->Ok_0[j],
            ) && found.contacts@[k]@.source.rank() <= answers[i].outcome->Ok_0[j].source.rank(),
{
    let list = given(answers);
    let ranked = contact::contact_views(found.contacts@);
    lemma_given(answers, i, j);
    let n = choose|n: int| 0 <= n < list.len() && list[n] == answers[i].outcome->Ok_0[j];
    contact::law_every_mailbox_is_listed(list, ranked, n);
    let k = choose|k: int|
        0 <= k < ranked.len() && (#[trigger] ranked[k]).email == list[n].email && ranked[k].scope
            == list[n].scope && ranked[k].source.rank() <= list[n].source.rank();
    assert(ranked[k] == found.contacts@[k]@);
}

/// What each host gives stands at its place among what all hosts give.
proof fn lemma_host_answers(hosts: Seq<NetworkAnswer>, i: int)
    requires
        0 <= i < hosts.len(),
    ensures
        host_answers(hosts).len() == 2 * hosts.len(),
        host_answers(hosts)[2 * i] == (AnswerView {
            origin: Origin::Rdap,
            outcome: outcome_view(hosts[i].rdap),
        }),
        host_answers(hosts)[2 * i + 1] == (AnswerView {
            origin: Origin::Abusix,
            outcome: outcome_view(hosts[i].abusix),
        }),
    decreases hosts.len(),
{
    let short = hosts.drop_last();
    if short.len() > 0 {
        lemma_host_answers(short, if i < short.len() { i } else { 0 });
        if i < short.len() {
            assert(short[i] == hosts[i]);
        }
    } else {
        assert(host_answers(short) =~= Seq::<AnswerView>::empty());
    }
}

/// The answers stand in one order: RDAP, abuse.net and the RFC 2142 check for the domain,
/// and then RDAP and Abusix for each host in turn.
pub proof fn law_answers_stand_in_order(
    rdap: Result<Vec<Contact>, Error>,
    abuse_net: Result<Vec<Contact>, Error>,
    rfc2142: Result<Option<Contact>, Error>,
    hosts: Vec<NetworkAnswer>,
    i: int,
)
    requires
        0 <= i < hosts@.len(),
    ensures
        ({
            let answers = domain_answers(rdap, abuse_net, rfc2142, Ok(hosts));
            &&& answers.len() == 3 + 2 * hosts@.len()
            &&& answers[0].origin == Origin::Rdap && answers[0].outcome == outcome_view(rdap)
            &&& answers[1].origin == Origin::AbuseNet && answers[1].outcome == outcome_view(abuse_net)
            &&& answers[2].origin == Origin::Rfc2142 && answers[2].outcome == guess_view(rfc2142)
            &&& answers[3 + 2 * i].origin == Origin::Rdap && answers[3 + 2 * i].outcome == outcome_view(
                hosts@[i].rdap,
            )
            &&& answers[4 + 2 * i].origin == Origin::Abusix && answers[4 + 2 * i].outcome == outcome_view(
                hosts@[i].abusix,
            )
        }),
{
    let answers = domain_answers(rdap, abuse_net, rfc2142, Ok(hosts));
    lemma_host_answers(hosts@, i);
    assert(answers[3 + 2 * i] == host_answers(hosts@)[2 * i]);
    assert(answers[3 + (2 * i + 1)] == host_answers(hosts@)[2 * i + 1]);
}

/// There are two answers for each host.
proof fn lemma_host_answers_len(hosts: Seq<NetworkAnswer>)
    ensures
        host_answers(hosts).len() == 2 * hosts.len(),
{
    if hosts.len() > 0 {
        lemma_host_answers(hosts, 0);
    }
}

/// A source that failed is among the failures.
proof fn lemma_failed(answers: Seq<AnswerView>, i: int)
    requires
        0 <= i < answers.len(),
        answers[i].outcome is Err,
    ensures
        failed(answers).contains(
            FailureView { origin: answers[i].origin, error: answers[i].outcome->Err_0 },
        ),
    decreases answers.len(),
{
    let short = answers.drop_last();
    let before = failed(short);
    let wanted = FailureView { origin: answers[i].origin, error: answers[i].outcome->Err_0 };
    if i < short.len() {
        assert(short[i] == answers[i]);
        lemma_failed(short, i);
        let k = choose|k: int| 0 <= k < before.len() && before[k] == wanted;
        assert(failed(answers)[k] == wanted);
    } else {
        assert(failed(answers)[before.len() as int] == wanted);
    }
}

/// What was given, one of the sources gave.
proof fn lemma_given_by(answers: Seq<AnswerView>, n: int) -> (at: (int, int))
    requires
        0 <= n < given(answers).len(),
    ensures
        0 <= at.0 < answers.len(),
        answers[at.0].outcome is Ok,
        0 <= at.1 < answers[at.0].outcome->Ok_0.len(),
        answers[at.0].outcome->Ok_0[at.1] == given(answers)[n],
    decreases answers.len(),
{
    let short = answers.drop_last();
    let before = given(short);
    if n < before.len() {
        let at = lemma_given_by(short, n);
        assert(short[at.0] == answers[at.0]);
        at
    } else {
        (answers.len() - 1, n - before.len())
    }
}

/// What failed is one of the sources.
proof fn lemma_failed_by(answers: Seq<AnswerView>, n: int) -> (at: int)
    requires
        0 <= n < failed(answers).len(),
    ensures
        0 <= at < answers.len(),
        answers[at].outcome is Err,
        failed(answers)[n] == (FailureView { origin: answers[at].origin, error: answers[at].outcome->Err_0 }),
    decreases answers.len(),
{
    let short = answers.drop_last();
    let before = failed(short);
    if n < before.len() {
        let at = lemma_failed_by(short, n);
        assert(short[at] == answers[at]);
        at
    } else {
        answers.len() - 1
    }
}

/// Whether what was found has this address in this scope, from this source or a better
/// one.
pub open spec fn finds(found: Found, contact: Contact) -> bool {
    exists|k: int|
        0 <= k < found.contacts@.len() && (#[trigger] found.contacts@[k]).email@ == contact.email@
            && found.contacts@[k].scope == contact.scope && found.contacts@[k].source@.rank()
            <= contact.source@.rank()
}

/// Whether the failures beside what was found name this source with this error.
pub open spec fn reports(found: Found, origin: Origin, error: Error) -> bool {
    exists|k: int|
        0 <= k < found.failures@.len() && (#[trigger] found.failures@[k]).origin == origin
            && found.failures@[k].error@ == error@
}

/// What a source that answered gave is found, and what kept it from answering is
/// reported.
pub open spec fn is_heard(found: Found, origin: Origin, outcome: Result<Vec<Contact>, Error>) -> bool {
    match outcome {
        Ok(contacts) => forall|j: int| 0 <= j < contacts@.len() ==> finds(found, #[trigger] contacts@[j]),
        Err(error) => reports(found, origin, error),
    }
}

/// A source among the answers is heard.
proof fn lemma_is_heard(
    answers: Seq<AnswerView>,
    found: Found,
    i: int,
    origin: Origin,
    outcome: Result<Vec<Contact>, Error>,
)
    requires
        is_merged(found, answers),
        0 <= i < answers.len(),
        answers[i] == (AnswerView { origin, outcome: outcome_view(outcome) }),
    ensures
        is_heard(found, origin, outcome),
{
    match outcome {
        Ok(contacts) => {
            assert forall|j: int| 0 <= j < contacts@.len() implies finds(found, #[trigger] contacts@[j]) by {
                let shown = contact::contact_views(contacts@);
                assert(shown[j] == contacts@[j]@);
                law_every_source_is_heard(answers, found, i, j);
                let k = choose|k: int|
                    0 <= k < found.contacts@.len() && contact::same_mailbox(
                        (#[trigger] found.contacts@[k])@,
                        shown[j],
                    ) && found.contacts@[k]@.source.rank() <= shown[j].source.rank();
                assert(found.contacts@[k].email@ == contacts@[j].email@);
            }
        },
        Err(error) => {
            lemma_failed(answers, i);
            let list = failure_views(found.failures@);
            let k = choose|k: int| 0 <= k < list.len() && list[k] == (FailureView { origin, error: error@ });
            assert(list[k] == found.failures@[k]@);
            assert(found.failures@[k].origin == origin);
        },
    }
}

/// A lookup of an address hears both sources: every contact that RDAP or Abusix gave is
/// found, and a source that failed is reported.
pub proof fn law_address_lookup_hears_both_sources(network: NetworkAnswer, found: Found)
    requires
        is_merged(found, network_answers(network)),
    ensures
        is_heard(found, Origin::Rdap, network.rdap),
        is_heard(found, Origin::Abusix, network.abusix),
{
    let answers = network_answers(network);
    lemma_is_heard(answers, found, 0, Origin::Rdap, network.rdap);
    lemma_is_heard(answers, found, 1, Origin::Abusix, network.abusix);
}

/// A lookup of a domain hears its own sources: every contact that RDAP, abuse.net or the
/// RFC 2142 check gave is found, and a source that failed is reported. When the hosts
/// are not known, that is reported too.
pub proof fn law_domain_lookup_hears_its_sources(
    rdap: Result<Vec<Contact>, Error>,
    abuse_net: Result<Vec<Contact>, Error>,
    rfc2142: Result<Option<Contact>, Error>,
    hosts: Result<Vec<NetworkAnswer>, Error>,
    found: Found,
)
    requires
        is_merged(found, domain_answers(rdap, abuse_net, rfc2142, hosts)),
    ensures
        is_heard(found, Origin::Rdap, rdap),
        is_heard(found, Origin::AbuseNet, abuse_net),
        rfc2142 matches Ok(Some(contact)) ==> finds(found, contact),
        rfc2142 matches Err(error) ==> reports(found, Origin::Rfc2142, error),
        hosts matches Err(error) ==> reports(found, Origin::Host, error),
{
    let answers = domain_answers(rdap, abuse_net, rfc2142, hosts);
    lemma_is_heard(answers, found, 0, Origin::Rdap, rdap);
    lemma_is_heard(answers, found, 1, Origin::AbuseNet, abuse_net);
    let list = failure_views(found.failures@);
    match rfc2142 {
        Ok(Some(contact)) => {
            assert(answers[2].outcome->Ok_0[0] == contact@);
            law_every_source_is_heard(answers, found, 2, 0);
            let k = choose|k: int|
                0 <= k < found.contacts@.len() && contact::same_mailbox(
                    (#[trigger] found.contacts@[k])@,
                    contact@,
                ) && found.contacts@[k]@.source.rank() <= contact@.source.rank();
            assert(found.contacts@[k].email@ == contact.email@);
        },
        Ok(None) => {},
        Err(error) => {
            lemma_failed(answers, 2);
            let k = choose|k: int|
                0 <= k < list.len() && list[k] == (FailureView { origin: Origin::Rfc2142, error: error@ });
            assert(list[k] == found.failures@[k]@);
            assert(found.failures@[k].origin == Origin::Rfc2142);
        },
    }
    if let Err(error) = hosts {
        assert(answers[3] == (AnswerView { origin: Origin::Host, outcome: Err(error@) }));
        lemma_failed(answers, 3);
        let k = choose|k: int|
            0 <= k < list.len() && list[k] == (FailureView { origin: Origin::Host, error: error@ });
        assert(list[k] == found.failures@[k]@);
        assert(found.failures@[k].origin == Origin::Host);
    }
}

/// A lookup of a domain hears every host: each contact that RDAP or Abusix gave for the
/// network of a host is found, with its address and its scope and from that source or a
/// better one, and each error of a host is among the failures.
pub proof fn law_domain_lookup_hears_every_host(
    rdap: Result<Vec<Contact>, Error>,
    abuse_net: Result<Vec<Contact>, Error>,
    rfc2142: Result<Option<Contact>, Error>,
    hosts: Vec<NetworkAnswer>,
    found: Found,
    i: int,
    j: int,
)
    requires
        is_merged(found, domain_answers(rdap, abuse_net, rfc2142, Ok(hosts))),
        0 <= i < hosts@.len(),
    ensures
        hosts@[i].rdap matches Ok(contacts) ==> (0 <= j < contacts@.len() ==> exists|k: int|
            0 <= k < found.contacts@.len() && (#[trigger] found.contacts@[k]).email@ == contacts@[j].email@
                && found.contacts@[k].scope == contacts@[j].scope && found.contacts@[k].source@.rank()
                <= contacts@[j].source@.rank()),
        hosts@[i].abusix matches Ok(contacts) ==> (0 <= j < contacts@.len() ==> exists|k: int|
            0 <= k < found.contacts@.len() && (#[trigger] found.contacts@[k]).email@ == contacts@[j].email@
                && found.contacts@[k].scope == contacts@[j].scope && found.contacts@[k].source@.rank()
                <= contacts@[j].source@.rank()),
        hosts@[i].rdap matches Err(error) ==> exists|k: int|
            0 <= k < found.failures@.len() && (#[trigger] found.failures@[k]).origin == Origin::Rdap
                && found.failures@[k].error@ == error@,
        hosts@[i].abusix matches Err(error) ==> exists|k: int|
            0 <= k < found.failures@.len() && (#[trigger] found.failures@[k]).origin == Origin::Abusix
                && found.failures@[k].error@ == error@,
{
    let answers = domain_answers(rdap, abuse_net, rfc2142, Ok(hosts));
    lemma_host_answers(hosts@, i);
    assert(answers[3 + 2 * i] == host_answers(hosts@)[2 * i]);
    assert(answers[3 + (2 * i + 1)] == host_answers(hosts@)[2 * i + 1]);
    lemma_is_heard(answers, found, 3 + 2 * i, Origin::Rdap, hosts@[i].rdap);
    lemma_is_heard(answers, found, 3 + (2 * i + 1), Origin::Abusix, hosts@[i].abusix);
    if let Ok(contacts) = hosts@[i].rdap {
        if 0 <= j < contacts@.len() {
            assert(finds(found, contacts@[j]));
        }
    }
    if let Ok(contacts) = hosts@[i].abusix {
        if 0 <= j < contacts@.len() {
            assert(finds(found, contacts@[j]));
        }
    }
}

/// Whether a source gave exactly this contact.
pub open spec fn gives(outcome: Result<Vec<Contact>, Error>, contact: ContactView) -> bool {
    outcome matches Ok(contacts) && exists|j: int|
        0 <= j < contacts@.len() && (#[trigger] contacts@[j])@ == contact
}

/// Whether a source failed with this error.
pub open spec fn fails(outcome: Result<Vec<Contact>, Error>, error: ErrorView) -> bool {
    outcome matches Err(why) && why@ == error
}

/// A contact at a place of what a source gave is one it gave.
proof fn lemma_gives(outcome: Result<Vec<Contact>, Error>, j: int)
    requires
        outcome is Ok,
        0 <= j < outcome->Ok_0@.len(),
    ensures
        gives(outcome, contact::contact_views(outcome->Ok_0@)[j]),
{
    assert(outcome->Ok_0@[j]@ == contact::contact_views(outcome->Ok_0@)[j]);
}

/// A lookup of an address invents nothing: each contact was given by one of the two
/// sources, and each failure is the error of one.
pub proof fn law_address_lookup_invents_nothing(network: NetworkAnswer, found: Found, k: int)
    requires
        is_merged(found, network_answers(network)),
    ensures
        0 <= k < found.contacts@.len() ==> gives(network.rdap, found.contacts@[k]@) || gives(
            network.abusix,
            found.contacts@[k]@,
        ),
        0 <= k < found.failures@.len() ==> {
            ||| found.failures@[k].origin == Origin::Rdap && fails(network.rdap, found.failures@[k].error@)
            ||| found.failures@[k].origin == Origin::Abusix && fails(network.abusix, found.failures@[k].error@)
        },
        found.failures@.len() == (if network.rdap is Err { 1int } else { 0 }) + (if network.abusix is Err {
            1int
        } else {
            0
        }),
{
    let answers = network_answers(network);
    let list = given(answers);
    let ranked = contact::contact_views(found.contacts@);
    let errors = failure_views(found.failures@);
    reveal_with_fuel(failed, 3);
    assert(answers.drop_last().last() == answers[0]);
    if 0 <= k < found.contacts@.len() {
        contact::law_ranking_invents_nothing(list, ranked, k);
        let n = choose|n: int| 0 <= n < list.len() && #[trigger] list[n] == ranked[k];
        let at = lemma_given_by(answers, n);
        if at.0 == 0 {
            lemma_gives(network.rdap, at.1);
        } else {
            lemma_gives(network.abusix, at.1);
        }
        assert(ranked[k] == found.contacts@[k]@);
    }
    if 0 <= k < found.failures@.len() {
        let at = lemma_failed_by(answers, k);
        assert(errors[k] == found.failures@[k]@);
    }
    assert(errors.len() == found.failures@.len());
}

/// A lookup of a domain invents nothing: each contact was given by one of its sources or
/// for one of its hosts, and each failure is the error of one.
pub proof fn law_domain_lookup_invents_nothing(
    rdap: Result<Vec<Contact>, Error>,
    abuse_net: Result<Vec<Contact>, Error>,
    rfc2142: Result<Option<Contact>, Error>,
    hosts: Result<Vec<NetworkAnswer>, Error>,
    found: Found,
    k: int,
)
    requires
        is_merged(found, domain_answers(rdap, abuse_net, rfc2142, hosts)),
    ensures
        0 <= k < found.contacts@.len() ==> {
            let contact = found.contacts@[k]@;
            ||| gives(rdap, contact)
            ||| gives(abuse_net, contact)
            ||| rfc2142 matches Ok(Some(guess)) && guess@ == contact
            ||| hosts matches Ok(list) && exists|i: int|
                0 <= i < list@.len() && (gives((#[trigger] list@[i]).rdap, contact) || gives(
                    list@[i].abusix,
                    contact,
                ))
        },
        0 <= k < found.failures@.len() ==> {
            let failure = found.failures@[k]@;
            ||| failure.origin == Origin::Rdap && fails(rdap, failure.error)
            ||| failure.origin == Origin::AbuseNet && fails(abuse_net, failure.error)
            ||| failure.origin == Origin::Rfc2142 && (rfc2142 matches Err(error) && error@ == failure.error)
            ||| failure.origin == Origin::Host && (hosts matches Err(error) && error@ == failure.error)
            ||| hosts matches Ok(list) && exists|i: int|
                0 <= i < list@.len() && ((failure.origin == Origin::Rdap && fails(
                    (#[trigger] list@[i]).rdap,
                    failure.error,
                )) || (failure.origin == Origin::Abusix && fails(list@[i].abusix, failure.error)))
        },
{
    let answers = domain_answers(rdap, abuse_net, rfc2142, hosts);
    let list = given(answers);
    let ranked = contact::contact_views(found.contacts@);
    let errors = failure_views(found.failures@);
    if let Ok(hosts) = hosts {
        lemma_host_answers_len(hosts@);
    }
    if 0 <= k < found.contacts@.len() {
        contact::law_ranking_invents_nothing(list, ranked, k);
        let n = choose|n: int| 0 <= n < list.len() && #[trigger] list[n] == ranked[k];
        let at = lemma_given_by(answers, n);
        assert(ranked[k] == found.contacts@[k]@);
        if at.0 == 0 {
            lemma_gives(rdap, at.1);
        } else if at.0 == 1 {
            lemma_gives(abuse_net, at.1);
        } else if at.0 >= 3 {
            let hosts = hosts->Ok_0;
            let i = (at.0 - 3) / 2;
            lemma_host_answers(hosts@, i);
            assert(answers[at.0] == host_answers(hosts@)[at.0 - 3]);
            if (at.0 - 3) % 2 == 0 {
                assert(at.0 - 3 == 2 * i);
                lemma_gives(hosts@[i].rdap, at.1);
            } else {
                assert(at.0 - 3 == 2 * i + 1);
                lemma_gives(hosts@[i].abusix, at.1);
            }
        }
    }
    if 0 <= k < found.failures@.len() {
        let at = lemma_failed_by(answers, k);
        assert(errors[k] == found.failures@[k]@);
        if at >= 3 {
            if let Ok(hosts) = hosts {
                let i = (at - 3) / 2;
                lemma_host_answers(hosts@, i);
                assert(answers[at] == host_answers(hosts@)[at - 3]);
                if (at - 3) % 2 == 0 {
                    assert(at - 3 == 2 * i);
                    assert(fails(hosts@[i].rdap, errors[k].error));
                } else {
                    assert(at - 3 == 2 * i + 1);
                    assert(fails(hosts@[i].abusix, errors[k].error));
                }
            }
        }
    }
}

/// What was found names no mailbox twice in one scope, and better sources come first.
pub proof fn law_found_contacts_are_ranked(answers: Seq<AnswerView>, found: Found, i: int, j: int)
    requires
        is_merged(found, answers),
        0 <= i < j < found.contacts@.len(),
    ensures
        !contact::same_mailbox(found.contacts@[i]@, found.contacts@[j]@),
        found.contacts@[i]@.source.rank() <= found.contacts@[j]@.source.rank(),
{
    let ranked = contact::contact_views(found.contacts@);
    contact::law_no_mailbox_twice(given(answers), ranked, i, j);
    contact::law_better_source_first(given(answers), ranked, i, j);
    assert(ranked[i] == found.contacts@[i]@ && ranked[j] == found.contacts@[j]@);
}

/// A registry is asked about a network once: after a record was held for a range, the
/// step for every address of the range takes the held contacts until their time is over,
/// unless another range as narrow that was held before answers for the address.
pub proof fn law_network_is_asked_once(
    before: EntriesView,
    range: IpRange,
    held: HeldView,
    now: u128,
    ip: IpAddr,
    later: u128,
    answer: Option<Seq<ContactView>>,
    step: Result<RdapStep, Error>,
    list: Seq<bootstrap::Entry>,
    fit: spec_fn(bootstrap::Entry) -> Option<nat>,
    kind: Seq<char>,
    target: Seq<char>,
)
    requires
        range.holds(ip),
        held.is_live(later),
        forall|i: int|
            0 <= i < before.networks.len() && (#[trigger] before.networks[i]).0 != range && cache::answers_ip(
                before.networks[i],
                ip,
                later,
            ) ==> range.span() < before.networks[i].0.span(),
        cache::is_network_answer(cache::with_network(before, range, held, now).networks, ip, later, answer),
        is_step(step, answer, list, fit, kind, target),
    ensures
        step matches Ok(RdapStep::Held(contacts)) && contact::contact_views(contacts@) == held.contacts,
{
    cache::law_stored_range_answers(before, range, held, now, ip, later);
    cache::law_network_answer_is_one(
        cache::with_network(before, range, held, now).networks,
        ip,
        later,
        answer,
        Some(held.contacts),
    );
}

/// A registry is asked about a name once: after an answer was held for it, the step for
/// the name takes the held contacts until their time is over.
pub proof fn law_name_is_asked_once(
    before: EntriesView,
    name: Seq<char>,
    held: HeldView,
    now: u128,
    later: u128,
    step: Result<RdapStep, Error>,
    list: Seq<bootstrap::Entry>,
    fit: spec_fn(bootstrap::Entry) -> Option<nat>,
    kind: Seq<char>,
    target: Seq<char>,
)
    requires
        held.is_live(later),
        is_step(
            step,
            cache::domain_answer(cache::with_domain(before, name, held, now), name, later),
            list,
            fit,
            kind,
            target,
        ),
    ensures
        step matches Ok(RdapStep::Held(contacts)) && contact::contact_views(contacts@) == held.contacts,
{
}

/// The hosts that are asked about are public, differ from each other, and are few.
pub proof fn law_hosts_are_public_and_few(addresses: Seq<IpAddr>, i: int, j: int)
    requires
        0 <= i < hosts_of(addresses).len(),
    ensures
        hosts_of(addresses).len() <= MAX_HOSTS,
        query::public_address(hosts_of(addresses)[i]),
        exists|k: int|
            0 <= k < addresses.len() && query::unmapped(#[trigger] addresses[k]) == hosts_of(addresses)[i],
        i < j < hosts_of(addresses).len() ==> hosts_of(addresses)[i] != hosts_of(addresses)[j],
{
    let unmap = |ip: IpAddr| query::unmapped(ip);
    let keep = |ip: IpAddr| query::public_address(ip);
    let inner = addresses.map_values(unmap);
    let public = public_ones(addresses);
    let all = list::distinct(public);
    let host = hosts_of(addresses)[i];
    list::lemma_distinct(public);
    assert(host == all[i]);
    assert(public.contains(all[i]));
    let n = choose|n: int| 0 <= n < public.len() && public[n] == host;
    list::lemma_filter_keeps(inner, keep, n);
    let k = choose|k: int| 0 <= k < inner.len() && inner[k] == host;
    assert(query::unmapped(addresses[k]) == host);
    if i < j < hosts_of(addresses).len() {
        assert(hosts_of(addresses)[j] == all[j]);
    }
}

/// Every public address is a host, while there are fewer hosts than the limit.
pub proof fn law_public_addresses_are_hosts(addresses: Seq<IpAddr>, k: int)
    requires
        0 <= k < addresses.len(),
        query::public_address(addresses[k]),
        hosts_of(addresses).len() < MAX_HOSTS,
    ensures
        hosts_of(addresses).contains(query::unmapped(addresses[k])),
{
    let unmap = |ip: IpAddr| query::unmapped(ip);
    let keep = |ip: IpAddr| query::public_address(ip);
    let inner = addresses.map_values(unmap);
    let public = public_ones(addresses);
    assert(inner[k] == query::unmapped(addresses[k]));
    query::law_unmap_is_settled(addresses[k]);
    inner.lemma_filter_contains(keep, k);
    let n = choose|n: int| 0 <= n < public.len() && public[n] == inner[k];
    list::lemma_distinct(public);
    assert(list::distinct(public).contains(public[n]));
}

/// At most four hosts are asked about. One more address is one more host when it is
/// public, is not a host yet, and there are fewer than four. It is asked about as the IPv4
/// address it carries, where it carries one.
pub proof fn law_hosts_one_by_one(addresses: Seq<IpAddr>, ip: IpAddr)
    ensures
        hosts_of(Seq::<IpAddr>::empty()) == Seq::<IpAddr>::empty(),
        hosts_of(addresses).len() <= 4,
        ({
            let inner = query::unmapped(ip);
            let hosts = hosts_of(addresses);
            hosts_of(addresses.push(ip)) == (if hosts.len() < 4 && query::public_address(ip) && !hosts.contains(
                inner,
            ) {
                hosts.push(inner)
            } else {
                hosts
            })
        }),
{
    reveal(Seq::filter);
    let none = Seq::<IpAddr>::empty();
    assert(none.map_values(|ip: IpAddr| query::unmapped(ip)) =~= none);
    assert(public_ones(none) =~= none);
    assert(hosts_of(none) =~= none);
    let longer = addresses.push(ip);
    let k = addresses.len() as int;
    assert(longer.take(k) =~= addresses);
    assert(longer.take(k + 1) =~= longer);
    lemma_one_more_host(longer, k);
    query::law_unmap_is_settled(ip);
    let now = list::distinct(public_ones(addresses));
    let next = list::distinct(public_ones(longer));
    if now.len() >= 4 {
        assert(next.take(4) =~= now.take(4));
        assert(now.take(4) =~= hosts_of(addresses));
        assert(hosts_of(longer) =~= hosts_of(addresses));
    }
}

/// What the sources give stands in the order they were asked: the contacts of each that
/// answered, and one failure for each that did not.
pub proof fn law_answers_are_read_in_order(answers: Seq<AnswerView>, answer: AnswerView, more: Seq<AnswerView>)
    ensures
        given(answers + seq![answer] + more) == given(answers) + (match answer.outcome {
            Ok(contacts) => contacts,
            Err(_) => Seq::<ContactView>::empty(),
        }) + given(more),
        failed(answers + seq![answer] + more) == failed(answers) + (match answer.outcome {
            Ok(_) => Seq::<FailureView>::empty(),
            Err(error) => seq![FailureView { origin: answer.origin, error }],
        }) + failed(more),
{
    let one = seq![answer];
    let none = Seq::<AnswerView>::empty();
    assert(given(none) =~= Seq::<ContactView>::empty() && failed(none) =~= Seq::<FailureView>::empty());
    assert(one.drop_last() =~= none);
    assert(one.last() == answer);
    lemma_answers_add(answers, one);
    lemma_answers_add(answers + one, more);
    match answer.outcome {
        Ok(contacts) => {
            assert(given(one) =~= contacts);
            assert(failed(one) =~= Seq::<FailureView>::empty());
        },
        Err(error) => {
            assert(given(one) =~= Seq::<ContactView>::empty());
            assert(failed(one) =~= seq![FailureView { origin: answer.origin, error }]);
        },
    }
}

/// A record is held for the range it gives when that range holds the address, and its
/// contacts are those of its entities, from the server that sent it. No record gives no
/// contacts and is held for no range.
pub proof fn law_what_a_record_gives(record: Record, ip: IpAddr, scope: Scope)
    ensures
        record_contacts(Some(record), scope) == rdap::contacts_in(
            record.response@.entities,
            scope,
            record.server@,
        ),
        record_contacts(None, scope).len() == 0,
        held_range(None, ip) is None,
        held_range(Some(record), ip) is Some <==> (rdap::range_of(record.response@) matches Some(range)
            && cache::covers(range, ip)),
        held_range(Some(record), ip) matches Some(range) ==> rdap::range_of(record.response@) == Some(range),
{
    if let Some(range) = rdap::range_of(record.response@) {
        addr::law_ranges_hold_by_number(range, ip);
    }
}

/// What is held is taken and no registry is asked, and where nothing is held the registry
/// is asked.
pub proof fn law_held_answers_are_taken(
    step: Result<RdapStep, Error>,
    held: Option<Seq<ContactView>>,
    list: Seq<bootstrap::Entry>,
    fit: spec_fn(bootstrap::Entry) -> Option<nat>,
    kind: Seq<char>,
    target: Seq<char>,
)
    requires
        is_step(step, held, list, fit, kind, target),
    ensures
        held matches Some(contacts) ==> (step matches Ok(RdapStep::Held(taken)) && contact::contact_views(taken@)
            == contacts),
        held is None ==> match step {
            Ok(RdapStep::Held(_)) => false,
            Ok(RdapStep::Fetch(request)) => client::asks_server(Ok(request), list, fit, kind, target),
            Err(error) => client::asks_server(Err(error), list, fit, kind, target),
        },
{
}

/// What a failure says names the source and the error, and the names of the sources.
pub proof fn law_what_a_failure_says(failure: FailureView)
    ensures
        failure.text() == failure.origin.name() + " did not answer: "@ + failure.error.text(),
        Origin::Rdap.name() == "RDAP"@,
        Origin::Abusix.name() == "Abusix"@,
        Origin::AbuseNet.name() == "abuse.net"@,
        Origin::Rfc2142.name() == "the RFC 2142 check"@,
        Origin::Host.name() == "the address lookup of the domain"@,
{
}

/// What was found is seen failure by failure, each with its source and its error.
pub proof fn law_failures_are_seen_whole(failures: Seq<Failure>, answers: Seq<(Origin, Result<Vec<Contact>, Error>)>, i: int)
    ensures
        failure_views(failures).len() == failures.len(),
        0 <= i < failures.len() ==> failure_views(failures)[i].origin == failures[i].origin,
        0 <= i < failures.len() ==> failure_views(failures)[i].error == failures[i].error@,
        answer_views(answers).len() == answers.len(),
        0 <= i < answers.len() ==> answer_views(answers)[i].origin == answers[i].0,
        0 <= i < answers.len() ==> match answers[i].1 {
            Ok(contacts) => answer_views(answers)[i].outcome == Ok::<Seq<ContactView>, ErrorView>(
                contact::contact_views(contacts@),
            ),
            Err(error) => answer_views(answers)[i].outcome == Err::<Seq<ContactView>, ErrorView>(error@),
        },
{
}

} // verus!
