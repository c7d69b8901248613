//! The RDAP answers a finder holds, so it does not ask a registry again.
//!
//! Time is counted in nanoseconds from a start that the caller picks. The caller reads
//! the clock and says what time it is.

use vstd::prelude::*;

use crate::addr::{IpAddr, IpRange};
use crate::contact;
use crate::contact::{Contact, ContactView};
use crate::list;
use crate::query::DomainName;
use crate::text;

verus! {

// --- Answers -----------------------------------------------------------------

/// The contacts of one answer, and the time it is good until.
#[derive(Debug)]
pub struct Held {
    /// The contacts.
    pub contacts: Vec<Contact>,
    /// The time the answer is good until.
    pub until: u128,
}

/// What a [`Held`] holds.
pub struct HeldView {
    pub contacts: Seq<ContactView>,
    pub until: u128,
}

impl HeldView {
    /// Whether the time of the answer is not over.
    pub open spec fn is_live(self, now: u128) -> bool {
        now < self.until
    }
}

impl View for Held {
    type V = HeldView;

    open spec fn view(&self) -> HeldView {
        HeldView { contacts: contact::contact_views(self.contacts@), until: self.until }
    }
}

impl Held {
    /// Returns whether the time of the answer is not over.
    pub fn is_live(&self, now: u128) -> (live: bool)
        ensures
            live == self@.is_live(now),
    {
        now < self.until
    }
}

/// Returns how many addresses a range covers, less one.
pub fn width(range: &IpRange) -> (width: u128)
    requires
        range.wf(),
    ensures
        width == range.span(),
{
    range.end.number() - range.start.number()
}

/// The answers, and the time each one is good until.
///
/// No range is held twice, and no name is held twice.
#[derive(Debug)]
pub struct Entries {
    networks: Vec<(IpRange, Held)>,
    domains: Vec<(DomainName, Held)>,
}

/// What an [`Entries`] holds: the answer for each range, in the order they were stored,
/// and the answer for each name.
pub struct EntriesView {
    pub networks: Seq<(IpRange, HeldView)>,
    pub domains: Map<Seq<char>, HeldView>,
}

/// What each network answer of a list holds.
pub open spec fn network_views(list: Seq<(IpRange, Held)>) -> Seq<(IpRange, HeldView)> {
    list.map_values(|entry: (IpRange, Held)| (entry.0, entry.1@))
}

/// What each domain answer of a list holds.
pub open spec fn domain_views(list: Seq<(DomainName, Held)>) -> Seq<(Seq<char>, HeldView)> {
    list.map_values(|entry: (DomainName, Held)| (entry.0@, entry.1@))
}

/// The answers of a list by name.
pub open spec fn by_name(list: Seq<(Seq<char>, HeldView)>) -> Map<Seq<char>, HeldView>
    decreases list.len(),
{
    if list.len() == 0 {
        Map::<Seq<char>, HeldView>::empty()
    } else {
        by_name(list.drop_last()).insert(list.last().0, list.last().1)
    }
}

/// Whether no name is in the list twice.
pub open spec fn names_differ(list: Seq<(Seq<char>, HeldView)>) -> bool {
    forall|i: int, j: int| 0 <= i < j < list.len() ==> (#[trigger] list[i]).0 != (#[trigger] list[j]).0
}

/// Whether no range is in the list twice, and each is in order.
pub open spec fn ranges_differ(list: Seq<(IpRange, HeldView)>) -> bool {
    &&& forall|i: int, j: int| 0 <= i < j < list.len() ==> (#[trigger] list[i]).0 != (#[trigger] list[j]).0
    &&& forall|i: int| 0 <= i < list.len() ==> (#[trigger] list[i]).0.wf()
}

impl View for Entries {
    type V = EntriesView;

    closed spec fn view(&self) -> EntriesView {
        EntriesView {
            networks: network_views(self.networks@),
            domains: by_name(domain_views(self.domains@)),
        }
    }
}

/// Whether a network answer is for a range that holds the address, and is live.
pub open spec fn answers_ip(entry: (IpRange, HeldView), ip: IpAddr, now: u128) -> bool {
    entry.0.holds(ip) && entry.1.is_live(now)
}

/// Whether a network answer is the one for an address: the narrowest live range that
/// holds it, and the one stored first among equals.
pub open spec fn is_narrowest(list: Seq<(IpRange, HeldView)>, ip: IpAddr, now: u128, i: int) -> bool {
    &&& 0 <= i < list.len()
    &&& answers_ip(list[i], ip, now)
    &&& forall|j: int|
        0 <= j < list.len() && answers_ip(#[trigger] list[j], ip, now) ==> list[i].0.span() < list[j].0.span()
            || (list[i].0.span() == list[j].0.span() && i <= j)
}

/// Whether these are the contacts held for an address.
pub open spec fn is_network_answer(
    networks: Seq<(IpRange, HeldView)>,
    ip: IpAddr,
    now: u128,
    answer: Option<Seq<ContactView>>,
) -> bool {
    match answer {
        Some(contacts) => exists|i: int|
            #[trigger] is_narrowest(networks, ip, now, i) && networks[i].1.contacts == contacts,
        None => forall|i: int| 0 <= i < networks.len() ==> !answers_ip(#[trigger] networks[i], ip, now),
    }
}

/// The contacts held for a name.
pub open spec fn domain_answer(entries: EntriesView, name: Seq<char>, now: u128) -> Option<Seq<ContactView>> {
    if entries.domains.contains_key(name) && entries.domains[name].is_live(now) {
        Some(entries.domains[name].contacts)
    } else {
        None
    }
}

/// The names whose answers are live.
pub open spec fn live_domains(domains: Map<Seq<char>, HeldView>, now: u128) -> Map<Seq<char>, HeldView> {
    Map::new(
        |name: Seq<char>| domains.contains_key(name) && domains[name].is_live(now),
        |name: Seq<char>| domains[name],
    )
}

/// The network answers whose time is not over.
pub open spec fn live_networks(networks: Seq<(IpRange, HeldView)>, now: u128) -> Seq<(IpRange, HeldView)> {
    networks.filter(|entry: (IpRange, HeldView)| entry.1.is_live(now))
}

/// The answers without those whose time is over.
pub open spec fn live_entries(entries: EntriesView, now: u128) -> EntriesView {
    EntriesView {
        networks: live_networks(entries.networks, now),
        domains: live_domains(entries.domains, now),
    }
}

/// The network answers without the one for this range.
pub open spec fn other_ranges(networks: Seq<(IpRange, HeldView)>, range: IpRange) -> Seq<(IpRange, HeldView)> {
    networks.filter(|entry: (IpRange, HeldView)| differs(entry.0, range))
}

/// Whether two values differ.
pub open spec fn differs<T>(a: T, b: T) -> bool {
    a != b
}

/// The answers after one for a range is stored: those whose time is over are gone, and
/// so is an answer for the same range.
pub open spec fn with_network(entries: EntriesView, range: IpRange, held: HeldView, now: u128) -> EntriesView {
    let live = live_entries(entries, now);
    EntriesView { networks: other_ranges(live.networks, range).push((range, held)), domains: live.domains }
}

/// The answers after one for a name is stored: those whose time is over are gone, and
/// so is an answer for the same name.
pub open spec fn with_domain(entries: EntriesView, name: Seq<char>, held: HeldView, now: u128) -> EntriesView {
    let live = live_entries(entries, now);
    EntriesView { networks: live.networks, domains: live.domains.insert(name, held) }
}

/// What an optional list of contacts holds.
pub open spec fn answer_view(answer: Option<Vec<Contact>>) -> Option<Seq<ContactView>> {
    match answer {
        Some(contacts) => Some(contact::contact_views(contacts@)),
        None => None,
    }
}

// --- Lists by name -----------------------------------------------------------

/// A list by name has the names of the list, each with its answer.
proof fn lemma_by_name(list: Seq<(Seq<char>, HeldView)>)
    requires
        names_differ(list),
    ensures
        by_name(list).dom().finite(),
        by_name(list).len() == list.len(),
        forall|i: int|
            0 <= i < list.len() ==> by_name(list).contains_key((#[trigger] list[i]).0) && by_name(
                list,
            )[list[i].0] == list[i].1,
        forall|name: Seq<char>|
            #[trigger] by_name(list).contains_key(name) ==> exists|i: int|
                0 <= i < list.len() && (#[trigger] list[i]).0 == name,
    decreases list.len(),
{
    if list.len() > 0 {
        let short = list.drop_last();
        let last = list.last();
        assert forall|i: int, j: int| 0 <= i < j < short.len() implies (#[trigger] short[i]).0
            != (#[trigger] short[j]).0 by {
            assert(short[i] == list[i] && short[j] == list[j]);
        }
        lemma_by_name(short);
        assert(last == list[list.len() - 1]);
        if by_name(short).contains_key(last.0) {
            let i = choose|i: int| 0 <= i < short.len() && (#[trigger] short[i]).0 == last.0;
            assert(list[i] == short[i]);
        }
        assert forall|i: int| 0 <= i < list.len() implies by_name(list).contains_key((#[trigger] list[i]).0)
            && by_name(list)[list[i].0] == list[i].1 by {
            if i < short.len() {
                assert(short[i] == list[i]);
                assert(by_name(short).contains_key(short[i].0));
            }
        }
        assert forall|name: Seq<char>| #[trigger] by_name(list).contains_key(name) implies exists|i: int|
            0 <= i < list.len() && (#[trigger] list[i]).0 == name by {
            if name != last.0 {
                assert(by_name(short).contains_key(name));
                let i = choose|i: int| 0 <= i < short.len() && (#[trigger] short[i]).0 == name;
                assert(list[i] == short[i]);
            }
        }
    }
}

/// Two lists with the same answers for the same names are one by name.
proof fn lemma_same_by_name(list: Seq<(Seq<char>, HeldView)>, map: Map<Seq<char>, HeldView>)
    requires
        names_differ(list),
        forall|i: int|
            0 <= i < list.len() ==> map.contains_key((#[trigger] list[i]).0) && map[list[i].0] == list[i].1,
        forall|name: Seq<char>|
            #[trigger] map.contains_key(name) ==> exists|i: int|
                0 <= i < list.len() && (#[trigger] list[i]).0 == name,
    ensures
        by_name(list) == map,
{
    lemma_by_name(list);
    assert forall|name: Seq<char>| by_name(list).contains_key(name) == map.contains_key(name) && (
    map.contains_key(name) ==> by_name(list)[name] == map[name]) by {
        if by_name(list).contains_key(name) {
            let i = choose|i: int| 0 <= i < list.len() && (#[trigger] list[i]).0 == name;
            assert(map.contains_key(list[i].0));
        }
        if map.contains_key(name) {
            let i = choose|i: int| 0 <= i < list.len() && (#[trigger] list[i]).0 == name;
            assert(by_name(list).contains_key(list[i].0));
        }
    }
    assert(by_name(list) =~= map);
}

/// The domain answers of a list that are live.
spec fn live_names(list: Seq<(Seq<char>, HeldView)>, now: u128) -> Seq<(Seq<char>, HeldView)> {
    list.filter(|entry: (Seq<char>, HeldView)| entry.1.is_live(now))
}

/// The domain answers of a list for other names.
spec fn other_names(list: Seq<(Seq<char>, HeldView)>, name: Seq<char>) -> Seq<(Seq<char>, HeldView)> {
    list.filter(|entry: (Seq<char>, HeldView)| differs(entry.0, name))
}

/// The live answers of a list, by name.
proof fn lemma_live_by_name(list: Seq<(Seq<char>, HeldView)>, now: u128)
    requires
        names_differ(list),
    ensures
        names_differ(live_names(list, now)),
        by_name(live_names(list, now)) == live_domains(by_name(list), now),
{
    let keep = |entry: (Seq<char>, HeldView)| entry.1.is_live(now);
    let kept = live_names(list, now);
    let map = live_domains(by_name(list), now);
    lemma_by_name(list);
    list::lemma_filter_pairs(list, keep, |a: (Seq<char>, HeldView), b: (Seq<char>, HeldView)| a.0 != b.0);
    assert forall|i: int| 0 <= i < kept.len() implies map.contains_key((#[trigger] kept[i]).0) && map[kept[i].0]
        == kept[i].1 by {
        list::lemma_filter_keeps(list, keep, i);
        let k = choose|k: int| 0 <= k < list.len() && list[k] == kept[i];
        assert(by_name(list).contains_key(list[k].0));
    }
    assert forall|name: Seq<char>| #[trigger] map.contains_key(name) implies exists|i: int|
        0 <= i < kept.len() && (#[trigger] kept[i]).0 == name by {
        assert(by_name(list).contains_key(name));
        let k = choose|k: int| 0 <= k < list.len() && (#[trigger] list[k]).0 == name;
        list.lemma_filter_contains(keep, k);
        let i = choose|i: int| 0 <= i < kept.len() && kept[i] == list[k];
        assert(kept[i].0 == name);
    }
    lemma_same_by_name(kept, map);
}

/// The answers of a list for other names, by name.
proof fn lemma_others_by_name(list: Seq<(Seq<char>, HeldView)>, name: Seq<char>)
    requires
        names_differ(list),
    ensures
        names_differ(other_names(list, name)),
        by_name(other_names(list, name)) == by_name(list).remove(name),
        forall|i: int| 0 <= i < other_names(list, name).len() ==> (#[trigger] other_names(list, name)[i]).0 != name,
{
    let keep = |entry: (Seq<char>, HeldView)| differs(entry.0, name);
    let kept = other_names(list, name);
    let map = by_name(list).remove(name);
    lemma_by_name(list);
    list::lemma_filter_pairs(list, keep, |a: (Seq<char>, HeldView), b: (Seq<char>, HeldView)| a.0 != b.0);
    assert forall|i: int| 0 <= i < kept.len() implies map.contains_key((#[trigger] kept[i]).0) && map[kept[i].0]
        == kept[i].1 && kept[i].0 != name by {
        list::lemma_filter_keeps(list, keep, i);
        let k = choose|k: int| 0 <= k < list.len() && list[k] == kept[i];
        assert(by_name(list).contains_key(list[k].0));
    }
    assert forall|wanted: Seq<char>| #[trigger] map.contains_key(wanted) implies exists|i: int|
        0 <= i < kept.len() && (#[trigger] kept[i]).0 == wanted by {
        assert(by_name(list).contains_key(wanted));
        let k = choose|k: int| 0 <= k < list.len() && (#[trigger] list[k]).0 == wanted;
        list.lemma_filter_contains(keep, k);
        let i = choose|i: int| 0 <= i < kept.len() && kept[i] == list[k];
        assert(kept[i].0 == wanted);
    }
    lemma_same_by_name(kept, map);
}

/// Keeping some of the ranges keeps them apart.
proof fn lemma_kept_ranges(list: Seq<(IpRange, HeldView)>, keep: spec_fn((IpRange, HeldView)) -> bool)
    requires
        ranges_differ(list),
    ensures
        ranges_differ(list.filter(keep)),
{
    let kept = list.filter(keep);
    list::lemma_filter_pairs(list, keep, |a: (IpRange, HeldView), b: (IpRange, HeldView)| a.0 != b.0);
    assert forall|i: int| 0 <= i < kept.len() implies (#[trigger] kept[i]).0.wf() by {
        list::lemma_filter_keeps(list, keep, i);
        let k = choose|k: int| 0 <= k < list.len() && list[k] == kept[i];
        assert(list[k].0.wf());
    }
}

// --- Changing the lists ------------------------------------------------------

/// Drops the network answers whose time is over.
fn drop_dead_networks(list: &mut Vec<(IpRange, Held)>, now: u128)
    ensures
        network_views(final(list)@) == live_networks(network_views(old(list)@), now),
{
    let ghost all = network_views(list@);
    let ghost keep = |entry: (IpRange, HeldView)| entry.1.is_live(now);
    let ghost mut k: int = 0;
    let mut i: usize = 0;
    proof {
        reveal(Seq::filter);
        assert(live_networks(all.take(0), now) + all.skip(0) =~= all);
    }
    while i < list.len()
        invariant
            0 <= k <= all.len(),
            i <= list@.len(),
            i == live_networks(all.take(k), now).len(),
            network_views(list@) == live_networks(all.take(k), now) + all.skip(k),
            keep == (|entry: (IpRange, HeldView)| entry.1.is_live(now)),
        decreases list@.len() - i,
    {
        let ghost kept = live_networks(all.take(k), now);
        let ghost shown = network_views(list@);
        proof {
            assert(shown[i as int] == all[k]);
            list::lemma_filter_next(all, keep, k);
        }
        if list[i].1.is_live(now) {
            assert(kept.push(all[k]) + all.skip(k + 1) =~= kept + all.skip(k));
            i += 1;
        } else {
            list.remove(i);
            assert(network_views(list@) =~= shown.remove(i as int));
            assert(shown.remove(i as int) =~= kept + all.skip(k + 1));
        }
        proof {
            k = k + 1;
        }
    }
    assert(all.take(k) =~= all);
    assert(network_views(list@) =~= live_networks(all, now));
}

/// Drops the network answer for a range.
fn drop_range(list: &mut Vec<(IpRange, Held)>, range: IpRange)
    ensures
        network_views(final(list)@) == other_ranges(network_views(old(list)@), range),
{
    let ghost all = network_views(list@);
    let ghost keep = |entry: (IpRange, HeldView)| differs(entry.0, range);
    let ghost mut k: int = 0;
    let mut i: usize = 0;
    proof {
        reveal(Seq::filter);
        assert(other_ranges(all.take(0), range) + all.skip(0) =~= all);
    }
    while i < list.len()
        invariant
            0 <= k <= all.len(),
            i <= list@.len(),
            i == other_ranges(all.take(k), range).len(),
            network_views(list@) == other_ranges(all.take(k), range) + all.skip(k),
            keep == (|entry: (IpRange, HeldView)| differs(entry.0, range)),
        decreases list@.len() - i,
    {
        let ghost kept = other_ranges(all.take(k), range);
        let ghost shown = network_views(list@);
        proof {
            assert(shown[i as int] == all[k]);
            list::lemma_filter_next(all, keep, k);
        }
        if list[i].0 != range {
            assert(kept.push(all[k]) + all.skip(k + 1) =~= kept + all.skip(k));
            i += 1;
        } else {
            list.remove(i);
            assert(network_views(list@) =~= shown.remove(i as int));
            assert(shown.remove(i as int) =~= kept + all.skip(k + 1));
        }
        proof {
            k = k + 1;
        }
    }
    assert(all.take(k) =~= all);
    assert(network_views(list@) =~= other_ranges(all, range));
}

/// Drops the domain answers whose time is over.
fn drop_dead_domains(list: &mut Vec<(DomainName, Held)>, now: u128)
    ensures
        domain_views(final(list)@) == live_names(domain_views(old(list)@), now),
{
    let ghost all = domain_views(list@);
    let ghost keep = |entry: (Seq<char>, HeldView)| entry.1.is_live(now);
    let ghost mut k: int = 0;
    let mut i: usize = 0;
    proof {
        reveal(Seq::filter);
        assert(live_names(all.take(0), now) + all.skip(0) =~= all);
    }
    while i < list.len()
        invariant
            0 <= k <= all.len(),
            i <= list@.len(),
            i == live_names(all.take(k), now).len(),
            domain_views(list@) == live_names(all.take(k), now) + all.skip(k),
            keep == (|entry: (Seq<char>, HeldView)| entry.1.is_live(now)),
        decreases list@.len() - i,
    {
        let ghost kept = live_names(all.take(k), now);
        let ghost shown = domain_views(list@);
        proof {
            assert(shown[i as int] == all[k]);
            list::lemma_filter_next(all, keep, k);
        }
        if list[i].1.is_live(now) {
            assert(kept.push(all[k]) + all.skip(k + 1) =~= kept + all.skip(k));
            i += 1;
        } else {
            list.remove(i);
            assert(domain_views(list@) =~= shown.remove(i as int));
            assert(shown.remove(i as int) =~= kept + all.skip(k + 1));
        }
        proof {
            k = k + 1;
        }
    }
    assert(all.take(k) =~= all);
    assert(domain_views(list@) =~= live_names(all, now));
}

/// Drops the domain answer for a name.
fn drop_name(list: &mut Vec<(DomainName, Held)>, name: &DomainName)
    ensures
        domain_views(final(list)@) == other_names(domain_views(old(list)@), name@),
{
    let ghost all = domain_views(list@);
    let ghost keep = |entry: (Seq<char>, HeldView)| differs(entry.0, name@);
    let ghost mut k: int = 0;
    let mut i: usize = 0;
    proof {
        reveal(Seq::filter);
        assert(other_names(all.take(0), name@) + all.skip(0) =~= all);
    }
    while i < list.len()
        invariant
            0 <= k <= all.len(),
            i <= list@.len(),
            i == other_names(all.take(k), name@).len(),
            domain_views(list@) == other_names(all.take(k), name@) + all.skip(k),
            keep == (|entry: (Seq<char>, HeldView)| differs(entry.0, name@)),
        decreases list@.len() - i,
    {
        let ghost kept = other_names(all.take(k), name@);
        let ghost shown = domain_views(list@);
        proof {
            assert(shown[i as int] == all[k]);
            list::lemma_filter_next(all, keep, k);
        }
        if !text::same_text(list[i].0.as_str(), name.as_str()) {
            assert(kept.push(all[k]) + all.skip(k + 1) =~= kept + all.skip(k));
            i += 1;
        } else {
            list.remove(i);
            assert(domain_views(list@) =~= shown.remove(i as int));
            assert(shown.remove(i as int) =~= kept + all.skip(k + 1));
        }
        proof {
            k = k + 1;
        }
    }
    assert(all.take(k) =~= all);
    assert(domain_views(list@) =~= other_names(all, name@));
}

// --- The answers -------------------------------------------------------------

impl Default for Entries {
    /// Returns no answers.
    fn default() -> (entries: Self)
        ensures
            entries@ == (EntriesView {
                networks: Seq::<(IpRange, HeldView)>::empty(),
                domains: Map::<Seq<char>, HeldView>::empty(),
            }),
    {
        let networks: Vec<(IpRange, Held)> = Vec::new();
        let domains: Vec<(DomainName, Held)> = Vec::new();
        assert(network_views(networks@) =~= Seq::<(IpRange, HeldView)>::empty());
        assert(domain_views(domains@) =~= Seq::<(Seq<char>, HeldView)>::empty());
        Entries { networks, domains }
    }
}

impl Entries {
    #[verifier::type_invariant]
    spec fn nothing_is_held_twice(self) -> bool {
        &&& ranges_differ(network_views(self.networks@))
        &&& names_differ(domain_views(self.domains@))
    }

    /// Returns how many answers there are, including answers whose time is over and
    /// that were not dropped yet.
    pub fn len(&self) -> (count: usize)
        requires
            self@.networks.len() + self@.domains.len() <= usize::MAX,
        ensures
            count == self@.networks.len() + self@.domains.len(),
    {
        proof {
            use_type_invariant(&*self);
            lemma_by_name(domain_views(self.domains@));
        }
        self.networks.len() + self.domains.len()
    }

    /// Returns whether there are no answers.
    pub fn is_empty(&self) -> (empty: bool)
        ensures
            empty == (self@.networks.len() + self@.domains.len() == 0),
    {
        proof {
            use_type_invariant(&*self);
            lemma_by_name(domain_views(self.domains@));
        }
        self.networks.len() == 0 && self.domains.len() == 0
    }

    /// Returns the contacts of the narrowest live range that holds the address.
    ///
    /// Ranges can nest: a registry gives a large block to one holder, and a small
    /// part of it to another. The narrowest range is the one the registry gives for
    /// an address inside it.
    pub fn network(&self, ip: IpAddr, now: u128) -> (answer: Option<Vec<Contact>>)
        ensures
            is_network_answer(self@.networks, ip, now, answer_view(answer)),
    {
        proof {
            use_type_invariant(&*self);
        }
        let ghost all = network_views(self.networks@);
        let mut best: Option<usize> = None;
        let mut i: usize = 0;
        while i < self.networks.len()
            invariant
                i <= self.networks@.len(),
                all == network_views(self.networks@),
                ranges_differ(all),
                best is None ==> forall|k: int| 0 <= k < i ==> !answers_ip(#[trigger] all[k], ip, now),
                best matches Some(at) ==> at < i && is_narrowest(all.take(i as int), ip, now, at as int),
            decreases self.networks@.len() - i,
        {
            let (range, held) = &self.networks[i];
            assert(all[i as int] == (*range, held@));
            let answers = range.contains(ip) && held.is_live(now);
            let better = answers && match best {
                Some(at) => {
                    assert(all[at as int].0 == self.networks@[at as int].0);
                    width(range) < width(&self.networks[at].0)
                },
                None => true,
            };
            let ghost before = best;
            if better {
                best = Some(i);
            }
            proof {
                lemma_narrowest_so_far(all, ip, now, i as int, before, best);
            }
            i += 1;
        }
        assert(all.take(i as int) =~= all);
        match best {
            Some(at) => {
                assert(all[at as int].1 == self.networks@[at as int].1@);
                assert(is_narrowest(self@.networks, ip, now, at as int));
                Some(contact::copy_contacts(self.networks[at].1.contacts.as_slice()))
            },
            None => None,
        }
    }

    /// Holds the contacts for a network range.
    pub fn put_network(&mut self, range: IpRange, contacts: Vec<Contact>, now: u128, until: u128)
        requires
            range.wf(),
        ensures
            final(self)@ == with_network(
                old(self)@,
                range,
                HeldView { contacts: contact::contact_views(contacts@), until },
                now,
            ),
    {
        self.drop_expired(now);
        proof {
            use_type_invariant(&*self);
        }
        let ghost live = network_views(self.networks@);
        let mut networks: Vec<(IpRange, Held)> = Vec::new();
        std::mem::swap(&mut networks, &mut self.networks);
        drop_range(&mut networks, range);
        let ghost others = network_views(networks@);
        let held = Held { contacts, until };
        let ghost added = (range, held@);
        networks.push((range, held));
        proof {
            let keep = |entry: (IpRange, HeldView)| differs(entry.0, range);
            lemma_kept_ranges(live, keep);
            assert(network_views(networks@) =~= others.push(added));
            assert forall|i: int| 0 <= i < others.len() implies (#[trigger] others[i]).0 != range by {
                list::lemma_filter_keeps(live, keep, i);
            }
        }
        self.networks = networks;
    }

    /// Returns the contacts held for a domain.
    pub fn domain(&self, domain: &DomainName, now: u128) -> (answer: Option<Vec<Contact>>)
        ensures
            answer_view(answer) == domain_answer(self@, domain@, now),
    {
        proof {
            use_type_invariant(&*self);
            lemma_by_name(domain_views(self.domains@));
        }
        let ghost all = domain_views(self.domains@);
        let mut i: usize = 0;
        while i < self.domains.len()
            invariant
                i <= self.domains@.len(),
                all == domain_views(self.domains@),
                self@.domains == by_name(all),
                forall|k: int| 0 <= k < i ==> (#[trigger] all[k]).0 != domain@,
                forall|k: int|
                    0 <= k < all.len() ==> by_name(all).contains_key((#[trigger] all[k]).0) && by_name(
                        all,
                    )[all[k].0] == all[k].1,
            decreases self.domains@.len() - i,
        {
            let (name, held) = &self.domains[i];
            assert(all[i as int] == (name@, held@));
            if text::same_text(name.as_str(), domain.as_str()) {
                return if held.is_live(now) {
                    Some(contact::copy_contacts(held.contacts.as_slice()))
                } else {
                    None
                };
            }
            i += 1;
        }
        None
    }

    /// Holds the contacts for a domain.
    pub fn put_domain(&mut self, domain: DomainName, contacts: Vec<Contact>, now: u128, until: u128)
        ensures
            final(self)@ == with_domain(
                old(self)@,
                domain@,
                HeldView { contacts: contact::contact_views(contacts@), until },
                now,
            ),
    {
        self.drop_expired(now);
        proof {
            use_type_invariant(&*self);
        }
        let ghost live = domain_views(self.domains@);
        let mut domains: Vec<(DomainName, Held)> = Vec::new();
        std::mem::swap(&mut domains, &mut self.domains);
        drop_name(&mut domains, &domain);
        let ghost others = domain_views(domains@);
        let held = Held { contacts, until };
        let ghost added = (domain@, held@);
        domains.push((domain, held));
        proof {
            lemma_others_by_name(live, added.0);
            assert(domain_views(domains@) =~= others.push(added));
            assert(others.push(added).drop_last() =~= others);
            assert(by_name(others.push(added)) =~= by_name(live).insert(added.0, added.1));
        }
        self.domains = domains;
    }

    /// Drops the answers whose time is over.
    pub fn drop_expired(&mut self, now: u128)
        ensures
            final(self)@ == live_entries(old(self)@, now),
    {
        proof {
            use_type_invariant(&*self);
        }
        let ghost ranges = network_views(self.networks@);
        let ghost names = domain_views(self.domains@);
        let mut networks: Vec<(IpRange, Held)> = Vec::new();
        std::mem::swap(&mut networks, &mut self.networks);
        drop_dead_networks(&mut networks, now);
        proof {
            lemma_kept_ranges(ranges, |entry: (IpRange, HeldView)| entry.1.is_live(now));
        }
        self.networks = networks;
        let mut domains: Vec<(DomainName, Held)> = Vec::new();
        std::mem::swap(&mut domains, &mut self.domains);
        drop_dead_domains(&mut domains, now);
        proof {
            lemma_live_by_name(names, now);
        }
        self.domains = domains;
    }
}

/// One more answer: it is the narrowest when it answers and no answer before it is as
/// narrow.
proof fn lemma_narrowest_so_far(
    all: Seq<(IpRange, HeldView)>,
    ip: IpAddr,
    now: u128,
    i: int,
    before: Option<usize>,
    after: Option<usize>,
)
    requires
        0 <= i < all.len(),
        i <= usize::MAX,
        before is None ==> forall|k: int| 0 <= k < i ==> !answers_ip(#[trigger] all[k], ip, now),
        before matches Some(at) ==> at < i && is_narrowest(all.take(i), ip, now, at as int),
        after == (if answers_ip(all[i], ip, now) && (before matches Some(at) ==> all[i].0.span()
            < all[at as int].0.span()) {
            Some(i as usize)
        } else {
            before
        }),
    ensures
        after is None ==> forall|k: int| 0 <= k < i + 1 ==> !answers_ip(#[trigger] all[k], ip, now),
        after matches Some(at) ==> at < i + 1 && is_narrowest(all.take(i + 1), ip, now, at as int),
{
    let short = all.take(i);
    let list = all.take(i + 1);
    if let Some(at) = after {
        assert forall|j: int| 0 <= j < list.len() && answers_ip(#[trigger] list[j], ip, now) implies list[at
            as int].0.span() < list[j].0.span() || (list[at as int].0.span() == list[j].0.span() && at
            <= j) by {
            assert(list[j] == all[j]);
            if j < i {
                assert(short[j] == all[j]);
            }
            if let Some(was) = before {
                assert(short[was as int] == all[was as int]);
            }
        }
        if let Some(was) = before {
            assert(short[was as int] == all[was as int]);
        }
    }
}

// --- The cache ---------------------------------------------------------------

/// The RDAP answers a finder holds, and for how long.
///
/// The regional registries limit how often you can ask, and a run that reports a
/// spam wave asks about the same few networks again and again. An answer for an
/// address is held for the whole network range the registry returned, so it also
/// answers for every other address in that range. An answer for a domain is held for
/// that name.
///
/// The cache drops an answer when its time is over, the next time it stores one. It
/// sets no other limit on its size. Read [`Cache::len`] and call [`Cache::clear`]
/// when you want one.
///
/// DNS answers are not held here. The resolver holds them for the TTL of the record.
#[derive(Debug)]
pub struct Cache {
    /// How long an answer is held, in nanoseconds.
    pub hold: u128,
    /// The answers.
    pub entries: Entries,
}

impl Cache {
    /// How long [`Cache::default`] holds an answer, in nanoseconds: one hour.
    pub const DEFAULT_HOLD: u128 = 3_600_000_000_000;

    /// Returns an empty cache that holds each answer for this long, in nanoseconds.
    ///
    /// A hold of zero holds nothing, so every lookup asks the registry.
    pub fn new(hold: u128) -> (cache: Self)
        ensures
            cache.hold == hold,
            cache.entries@ == (EntriesView {
                networks: Seq::<(IpRange, HeldView)>::empty(),
                domains: Map::<Seq<char>, HeldView>::empty(),
            }),
    {
        Cache { hold, entries: Entries::default() }
    }

    /// Returns how many answers the cache holds, including answers whose time is over
    /// and that it has not dropped yet.
    pub fn len(&self) -> (count: usize)
        requires
            self.entries@.networks.len() + self.entries@.domains.len() <= usize::MAX,
        ensures
            count == self.entries@.networks.len() + self.entries@.domains.len(),
    {
        self.entries.len()
    }

    /// Returns whether the cache holds no answers.
    pub fn is_empty(&self) -> (empty: bool)
        ensures
            empty == (self.entries@.networks.len() + self.entries@.domains.len() == 0),
    {
        self.entries.is_empty()
    }

    /// Drops every answer.
    pub fn clear(&mut self)
        ensures
            final(self).hold == old(self).hold,
            final(self).entries@ == (EntriesView {
                networks: Seq::<(IpRange, HeldView)>::empty(),
                domains: Map::<Seq<char>, HeldView>::empty(),
            }),
    {
        self.entries = Entries::default();
    }

    /// Returns the contacts held for the network that holds this address.
    pub fn network(&self, ip: IpAddr, now: u128) -> (answer: Option<Vec<Contact>>)
        ensures
            is_network_answer(self.entries@.networks, ip, now, answer_view(answer)),
    {
        self.entries.network(ip, now)
    }

    /// Holds the contacts for a network range.
    pub fn put_network(&mut self, range: IpRange, contacts: Vec<Contact>, now: u128)
        requires
            range.wf(),
            now + old(self).hold <= u128::MAX,
        ensures
            final(self).hold == old(self).hold,
            final(self).entries@ == with_network(
                old(self).entries@,
                range,
                HeldView {
                    contacts: contact::contact_views(contacts@),
                    until: (now + old(self).hold) as u128,
                },
                now,
            ),
    {
        let until = now + self.hold;
        self.entries.put_network(range, contacts, now, until);
    }

    /// Returns the contacts held for a domain.
    pub fn domain(&self, domain: &DomainName, now: u128) -> (answer: Option<Vec<Contact>>)
        ensures
            answer_view(answer) == domain_answer(self.entries@, domain@, now),
    {
        self.entries.domain(domain, now)
    }

    /// Holds the contacts for a domain.
    pub fn put_domain(&mut self, domain: DomainName, contacts: Vec<Contact>, now: u128)
        requires
            now + old(self).hold <= u128::MAX,
        ensures
            final(self).hold == old(self).hold,
            final(self).entries@ == with_domain(
                old(self).entries@,
                domain@,
                HeldView {
                    contacts: contact::contact_views(contacts@),
                    until: (now + old(self).hold) as u128,
                },
                now,
            ),
    {
        let until = now + self.hold;
        self.entries.put_domain(domain, contacts, now, until);
    }
}

impl Default for Cache {
    /// Returns an empty cache that holds each answer for [`Cache::DEFAULT_HOLD`].
    fn default() -> (cache: Self)
        ensures
            cache.hold == Cache::DEFAULT_HOLD,
            cache.entries@ == (EntriesView {
                networks: Seq::<(IpRange, HeldView)>::empty(),
                domains: Map::<Seq<char>, HeldView>::empty(),
            }),
    {
        Cache::new(Cache::DEFAULT_HOLD)
    }
}

// --- What the cache promises -------------------------------------------------

/// There is one answer for an address.
pub proof fn law_network_answer_is_one(
    list: Seq<(IpRange, HeldView)>,
    ip: IpAddr,
    now: u128,
    a: Option<Seq<ContactView>>,
    b: Option<Seq<ContactView>>,
)
    requires
        is_network_answer(list, ip, now, a),
        is_network_answer(list, ip, now, b),
    ensures
        a == b,
{
    if let Some(x) = a {
        let i = choose|i: int| #[trigger] is_narrowest(list, ip, now, i) && list[i].1.contacts == x;
        assert(answers_ip(list[i], ip, now));
        if let Some(y) = b {
            let j = choose|j: int| #[trigger] is_narrowest(list, ip, now, j) && list[j].1.contacts == y;
            assert(answers_ip(list[j], ip, now));
            assert(i == j);
        }
    } else if let Some(y) = b {
        let j = choose|j: int| #[trigger] is_narrowest(list, ip, now, j) && list[j].1.contacts == y;
        assert(answers_ip(list[j], ip, now));
    }
}

/// An answer that was stored for a range is given for every address in the range, until
/// its time is over, unless a range as narrow or narrower that was stored before it
/// holds the address too.
pub proof fn law_stored_range_answers(
    entries: EntriesView,
    range: IpRange,
    held: HeldView,
    now: u128,
    ip: IpAddr,
    later: u128,
)
    requires
        range.holds(ip),
        held.is_live(later),
        forall|i: int|
            0 <= i < entries.networks.len() && (#[trigger] entries.networks[i]).0 != range && answers_ip(
                entries.networks[i],
                ip,
                later,
            ) ==> range.span() < entries.networks[i].0.span(),
    ensures
        is_network_answer(with_network(entries, range, held, now).networks, ip, later, Some(held.contacts)),
{
    let after = with_network(entries, range, held, now).networks;
    let live = live_networks(entries.networks, now);
    let others = other_ranges(live, range);
    let at = others.len() as int;
    assert(after[at] == (range, held));
    assert forall|j: int| 0 <= j < after.len() && answers_ip(#[trigger] after[j], ip, later) implies after[at].0.span()
        < after[j].0.span() || (after[at].0.span() == after[j].0.span() && at <= j) by {
        if j < at {
            assert(after[j] == others[j]);
            list::lemma_filter_keeps(live, |entry: (IpRange, HeldView)| differs(entry.0, range), j);
            let n = choose|n: int| 0 <= n < live.len() && live[n] == others[j];
            list::lemma_filter_keeps(entries.networks, |entry: (IpRange, HeldView)| entry.1.is_live(now), n);
            let m = choose|m: int| 0 <= m < entries.networks.len() && entries.networks[m] == live[n];
            assert(entries.networks[m].0 != range);
        }
    }
    assert(is_narrowest(after, ip, later, at));
}

/// The network answers that are for an address, and live.
spec fn answering(list: Seq<(IpRange, HeldView)>, ip: IpAddr, now: u128) -> Seq<(IpRange, HeldView)> {
    list.filter(|entry: (IpRange, HeldView)| answers_ip(entry, ip, now))
}

/// Answers that are not for an address, or not live, do not change the answer for it.
proof fn lemma_only_answering_count(list: Seq<(IpRange, HeldView)>, ip: IpAddr, now: u128, i: int)
    requires
        is_narrowest(list, ip, now, i),
    ensures
        exists|k: int|
            #[trigger] is_narrowest(answering(list, ip, now), ip, now, k) && answering(list, ip, now)[k]
                == list[i],
    decreases list.len(),
{
    reveal(Seq::filter);
    let keep = |entry: (IpRange, HeldView)| answers_ip(entry, ip, now);
    let short = list.drop_last();
    let last = list.last();
    let before = answering(short, ip, now);
    let after = answering(list, ip, now);
    assert(last == list[list.len() - 1]);
    if i < short.len() {
        assert(short[i] == list[i]);
        assert forall|j: int| 0 <= j < short.len() && answers_ip(#[trigger] short[j], ip, now) implies short[i].0.span()
            < short[j].0.span() || (short[i].0.span() == short[j].0.span() && i <= j) by {
            assert(short[j] == list[j]);
        }
        assert(is_narrowest(short, ip, now, i));
        lemma_only_answering_count(short, ip, now, i);
        let k = choose|k: int| #[trigger] is_narrowest(before, ip, now, k) && before[k] == short[i];
        assert forall|j: int| 0 <= j < after.len() && answers_ip(#[trigger] after[j], ip, now) implies after[k].0.span()
            < after[j].0.span() || (after[k].0.span() == after[j].0.span() && k <= j) by {
            if j < before.len() {
                assert(after[j] == before[j]);
            }
        }
        assert(after[k] == before[k]);
        assert(is_narrowest(after, ip, now, k));
    } else {
        let k = before.len() as int;
        assert(after[k] == last);
        assert forall|j: int| 0 <= j < after.len() && answers_ip(#[trigger] after[j], ip, now) implies after[k].0.span()
            < after[j].0.span() || (after[k].0.span() == after[j].0.span() && k <= j) by {
            if j < before.len() {
                assert(after[j] == before[j]);
                list::lemma_filter_keeps(short, keep, j);
                let n = choose|n: int| 0 <= n < short.len() && short[n] == before[j];
                assert(list[n] == before[j]);
            }
        }
        assert(is_narrowest(after, ip, now, k));
    }
}

/// What answers is what answers among those that answer.
proof fn lemma_answer_of_answering(
    list: Seq<(IpRange, HeldView)>,
    ip: IpAddr,
    now: u128,
    answer: Option<Seq<ContactView>>,
)
    requires
        is_network_answer(list, ip, now, answer),
    ensures
        is_network_answer(answering(list, ip, now), ip, now, answer),
{
    let kept = answering(list, ip, now);
    let keep = |entry: (IpRange, HeldView)| answers_ip(entry, ip, now);
    if let Some(contacts) = answer {
        let i = choose|i: int| #[trigger] is_narrowest(list, ip, now, i) && list[i].1.contacts == contacts;
        lemma_only_answering_count(list, ip, now, i);
        let k = choose|k: int| #[trigger] is_narrowest(kept, ip, now, k) && kept[k] == list[i];
        assert(is_narrowest(kept, ip, now, k));
    } else {
        assert forall|i: int| 0 <= i < kept.len() implies !answers_ip(#[trigger] kept[i], ip, now) by {
            list::lemma_filter_keeps(list, keep, i);
            let n = choose|n: int| 0 <= n < list.len() && list[n] == kept[i];
            assert(!answers_ip(list[n], ip, now));
        }
    }
}

/// Storing an answer for a range does not change the answer for an address outside it.
pub proof fn law_other_addresses_keep_their_answer(
    entries: EntriesView,
    range: IpRange,
    held: HeldView,
    now: u128,
    ip: IpAddr,
    later: u128,
    before: Option<Seq<ContactView>>,
    after: Option<Seq<ContactView>>,
)
    requires
        !range.holds(ip),
        now <= later,
        is_network_answer(entries.networks, ip, later, before),
        is_network_answer(with_network(entries, range, held, now).networks, ip, later, after),
    ensures
        before == after,
{
    let stored = with_network(entries, range, held, now);
    let keep = |entry: (IpRange, HeldView)| answers_ip(entry, ip, later);
    let live = live_networks(entries.networks, now);
    let others = other_ranges(live, range);
    list::lemma_filter_twice(entries.networks, |entry: (IpRange, HeldView)| entry.1.is_live(now), keep);
    list::lemma_filter_twice(live, |entry: (IpRange, HeldView)| differs(entry.0, range), keep);
    reveal(Seq::filter);
    assert(others.push((range, held)).drop_last() =~= others);
    assert(answering(stored.networks, ip, later) == answering(entries.networks, ip, later));
    lemma_answer_of_answering(entries.networks, ip, later, before);
    lemma_answer_of_answering(stored.networks, ip, later, after);
    law_network_answer_is_one(answering(entries.networks, ip, later), ip, later, before, after);
}

/// An answer that was stored for a name is given for the name until its time is over,
/// and the answers for other names stay as they were.
pub proof fn law_stored_name_answers(
    entries: EntriesView,
    name: Seq<char>,
    held: HeldView,
    now: u128,
    other: Seq<char>,
    later: u128,
)
    requires
        now <= later,
        other != name,
    ensures
        domain_answer(with_domain(entries, name, held, now), name, later) == (if held.is_live(later) {
            Some(held.contacts)
        } else {
            None
        }),
        domain_answer(with_domain(entries, name, held, now), other, later) == domain_answer(
            entries,
            other,
            later,
        ),
{
}

/// Storing an answer drops every answer whose time is over, and a range or a name is not
/// held twice.
pub proof fn law_storing_drops_the_dead(
    entries: EntriesView,
    range: IpRange,
    name: Seq<char>,
    held: HeldView,
    now: u128,
    i: int,
    other: Seq<char>,
)
    ensures
        ({
            let after = with_network(entries, range, held, now);
            &&& 0 <= i < after.networks.len() - 1 ==> after.networks[i].1.is_live(now) && after.networks[i].0
                != range
            &&& after.networks.last() == (range, held)
            &&& after.domains.contains_key(other) ==> after.domains[other].is_live(now)
        }),
        ({
            let after = with_domain(entries, name, held, now);
            &&& 0 <= i < after.networks.len() ==> after.networks[i].1.is_live(now)
            &&& after.domains.contains_key(other) && other != name ==> after.domains[other].is_live(now)
            &&& after.domains.contains_key(name) && after.domains[name] == held
        }),
{
    let live = live_networks(entries.networks, now);
    let alive = |entry: (IpRange, HeldView)| entry.1.is_live(now);
    let others = other_ranges(live, range);
    if 0 <= i < live.len() {
        list::lemma_filter_keeps(entries.networks, alive, i);
    }
    if 0 <= i < others.len() {
        list::lemma_filter_keeps(live, |entry: (IpRange, HeldView)| differs(entry.0, range), i);
        let n = choose|n: int| 0 <= n < live.len() && live[n] == others[i];
        list::lemma_filter_keeps(entries.networks, alive, n);
        assert(with_network(entries, range, held, now).networks[i] == others[i]);
    }
}

/// Whether no answer is live.
pub open spec fn nothing_live(entries: EntriesView, now: u128) -> bool {
    &&& forall|i: int| 0 <= i < entries.networks.len() ==> !(#[trigger] entries.networks[i]).1.is_live(now)
    &&& forall|name: Seq<char>|
        #[trigger] entries.domains.contains_key(name) ==> !entries.domains[name].is_live(now)
}

/// A hold of zero holds nothing: an answer that is good until the time it is stored is
/// never given, so no answer is ever live.
pub proof fn law_hold_of_zero_holds_nothing(
    entries: EntriesView,
    range: IpRange,
    name: Seq<char>,
    held: HeldView,
    now: u128,
    later: u128,
)
    requires
        nothing_live(entries, now),
        held.until == now,
        now <= later,
    ensures
        nothing_live(with_network(entries, range, held, now), later),
        nothing_live(with_domain(entries, name, held, now), later),
{
    let live = live_networks(entries.networks, now);
    let alive = |entry: (IpRange, HeldView)| entry.1.is_live(now);
    assert(live.len() == 0) by {
        if live.len() > 0 {
            list::lemma_filter_keeps(entries.networks, alive, 0);
            let n = choose|n: int| 0 <= n < entries.networks.len() && entries.networks[n] == live[0];
            assert(!entries.networks[n].1.is_live(now));
        }
    }
    let others = other_ranges(live, range);
    assert(others.len() == 0) by {
        if others.len() > 0 {
            list::lemma_filter_keeps(live, |entry: (IpRange, HeldView)| differs(entry.0, range), 0);
        }
    }
}

// --- The answers by number ---------------------------------------------------

/// Whether a range covers an address: one of the same family, and no lower than the start
/// and no higher than the end.
pub open spec fn covers(range: IpRange, ip: IpAddr) -> bool {
    match (range.start, ip, range.end) {
        (IpAddr::V4(a), IpAddr::V4(n), IpAddr::V4(b)) => a.bits <= n.bits <= b.bits,
        (IpAddr::V6(a), IpAddr::V6(n), IpAddr::V6(b)) => a.bits <= n.bits <= b.bits,
        _ => false,
    }
}

/// How many numbers a range covers, less one.
pub open spec fn size(range: IpRange) -> int {
    match (range.start, range.end) {
        (IpAddr::V4(a), IpAddr::V4(b)) => b.bits - a.bits,
        (IpAddr::V6(a), IpAddr::V6(b)) => b.bits - a.bits,
        _ => 0,
    }
}

/// An answer is live before its time is over, and not at it.
pub proof fn law_answers_live_until_their_time(held: HeldView, now: u128)
    ensures
        held.is_live(now) <==> now < held.until,
{
}

/// The contacts given for an address are those of a range that covers it and is live, and
/// no other such range is narrower, or as narrow and stored before. None are given exactly
/// when no live range covers the address.
pub proof fn law_answer_for_an_address(
    networks: Seq<(IpRange, HeldView)>,
    ip: IpAddr,
    now: u128,
    answer: Option<Seq<ContactView>>,
)
    requires
        forall|i: int| 0 <= i < networks.len() ==> (#[trigger] networks[i]).0.wf(),
        is_network_answer(networks, ip, now, answer),
    ensures
        answer is None <==> forall|j: int|
            0 <= j < networks.len() ==> !(covers((#[trigger] networks[j]).0, ip) && now < networks[j].1.until),
        answer matches Some(contacts) ==> exists|i: int|
            0 <= i < networks.len() && covers((#[trigger] networks[i]).0, ip) && now < networks[i].1.until
                && networks[i].1.contacts == contacts && forall|j: int|
                0 <= j < networks.len() && covers((#[trigger] networks[j]).0, ip) && now < networks[j].1.until
                    ==> size(networks[i].0) < size(networks[j].0) || (size(networks[i].0) == size(
                    networks[j].0,
                ) && i <= j),
{
    assert forall|j: int| 0 <= j < networks.len() implies (answers_ip(#[trigger] networks[j], ip, now) <==> covers(
        networks[j].0,
        ip,
    ) && now < networks[j].1.until) && networks[j].0.span() == size(networks[j].0) by {
        crate::addr::law_ranges_hold_by_number(networks[j].0, ip);
    }
    if let Some(contacts) = answer {
        let i = choose|i: int|
            #[trigger] is_narrowest(networks, ip, now, i) && networks[i].1.contacts == contacts;
        assert(covers(networks[i].0, ip) && now < networks[i].1.until);
        assert forall|j: int|
            0 <= j < networks.len() && covers((#[trigger] networks[j]).0, ip) && now < networks[j].1.until implies size(
            networks[i].0,
        ) < size(networks[j].0) || (size(networks[i].0) == size(networks[j].0) && i <= j) by {
            assert(answers_ip(networks[j], ip, now));
        }
    }
}

/// Storing an answer for a range keeps, in order, every answer for another range whose
/// time is not over, drops all others, and puts the new one last. The answers for names
/// whose time is not over stay, and those whose time is over go.
pub proof fn law_what_storing_a_range_keeps(
    entries: EntriesView,
    range: IpRange,
    held: HeldView,
    now: u128,
    name: Seq<char>,
)
    ensures
        with_network(entries, range, held, now).networks == entries.networks.filter(
            |entry: (IpRange, HeldView)|
                now < entry.1.until && !(entry.0.start == range.start && entry.0.end == range.end),
        ).push((range, held)),
        with_network(entries, range, held, now).domains.contains_key(name) <==> entries.domains.contains_key(name)
            && now < entries.domains[name].until,
        with_network(entries, range, held, now).domains.contains_key(name) ==> with_network(
            entries,
            range,
            held,
            now,
        ).domains[name] == entries.domains[name],
{
    let alive = |entry: (IpRange, HeldView)| entry.1.is_live(now);
    let other = |entry: (IpRange, HeldView)| differs(entry.0, range);
    let both = |entry: (IpRange, HeldView)| entry.1.is_live(now) && differs(entry.0, range);
    let plain = |entry: (IpRange, HeldView)|
        now < entry.1.until && !(entry.0.start == range.start && entry.0.end == range.end);
    list::lemma_filter_twice(entries.networks, alive, both);
    let live = live_networks(entries.networks, now);
    assert forall|i: int| 0 <= i < live.len() implies other(#[trigger] live[i]) == both(live[i]) by {
        list::lemma_filter_keeps(entries.networks, alive, i);
    }
    list::lemma_filter_same(live, other, both);
    list::lemma_filter_same(entries.networks, both, plain);
}

/// Storing an answer for a name puts it in the place of any other answer for the name, and
/// keeps, in order, the answers whose time is not over.
pub proof fn law_what_storing_a_name_keeps(
    entries: EntriesView,
    name: Seq<char>,
    held: HeldView,
    now: u128,
    other: Seq<char>,
)
    requires
        other != name,
    ensures
        ({
            let after = with_domain(entries, name, held, now);
            &&& after.networks == entries.networks.filter(|entry: (IpRange, HeldView)| now < entry.1.until)
            &&& after.domains.contains_key(name) && after.domains[name] == held
            &&& after.domains.contains_key(other) <==> entries.domains.contains_key(other) && now
                < entries.domains[other].until
            &&& after.domains.contains_key(other) ==> after.domains[other] == entries.domains[other]
        }),
{
    list::lemma_filter_same(
        entries.networks,
        |entry: (IpRange, HeldView)| entry.1.is_live(now),
        |entry: (IpRange, HeldView)| now < entry.1.until,
    );
}

/// The contacts given for a name are those that are held for it, until their time is over.
pub proof fn law_answer_for_a_name(entries: EntriesView, name: Seq<char>, now: u128)
    ensures
        domain_answer(entries, name, now) is Some <==> entries.domains.contains_key(name) && now
            < entries.domains[name].until,
        domain_answer(entries, name, now) matches Some(contacts) ==> contacts == entries.domains[name].contacts,
{
}

/// An answer is held for an hour unless the cache was made with another time.
pub proof fn law_default_hold_is_one_hour()
    ensures
        Cache::DEFAULT_HOLD == 60 * 60 * 1_000_000_000,
{
}

/// An answer is seen with its contacts and its time, and a list answer by answer.
pub proof fn law_answers_are_seen_whole(
    held: Held,
    networks: Seq<(IpRange, Held)>,
    domains: Seq<(DomainName, Held)>,
    answer: Option<Vec<Contact>>,
    i: int,
)
    ensures
        held@.until == held.until,
        held@.contacts == contact::contact_views(held.contacts@),
        network_views(networks).len() == networks.len(),
        0 <= i < networks.len() ==> network_views(networks)[i].0 == networks[i].0 && network_views(networks)[i].1
            == networks[i].1@,
        domain_views(domains).len() == domains.len(),
        0 <= i < domains.len() ==> domain_views(domains)[i].0 == domains[i].0@ && domain_views(domains)[i].1
            == domains[i].1@,
        answer is None ==> answer_view(answer) is None,
        answer matches Some(contacts) ==> answer_view(answer) == Some(contact::contact_views(contacts@)),
{
}

/// The last answer of a list for a name is the answer for it.
pub proof fn law_answers_by_name(list: Seq<(Seq<char>, HeldView)>, name: Seq<char>, held: HeldView, other: Seq<char>)
    requires
        other != name,
    ensures
        by_name(list.push((name, held))).contains_key(name),
        by_name(list.push((name, held)))[name] == held,
        by_name(list.push((name, held))).contains_key(other) <==> by_name(list).contains_key(other),
        by_name(list).contains_key(other) ==> by_name(list.push((name, held)))[other] == by_name(list)[other],
        !by_name(Seq::<(Seq<char>, HeldView)>::empty()).contains_key(name),
{
    assert(list.push((name, held)).drop_last() =~= list);
}

} // verus!
