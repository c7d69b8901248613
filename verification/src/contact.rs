//! What a lookup returns: an address, what it governs, and where it came from.

use vstd::prelude::*;
use vstd::string::*;

use crate::error::{ValidationError, ValidationErrorView};
use crate::text;

verus! {

// --- Addresses ---------------------------------------------------------------

/// Whether a text holds a string registries put in a contact field when they hide the
/// real value.
pub open spec fn is_placeholder(value: Seq<char>) -> bool {
    ||| text::has_part(text::upper(value), "REDACTED"@)
    ||| text::has_part(text::upper(value), "NOT DISCLOSED"@)
    ||| text::has_part(text::upper(value), "PLEASE QUERY"@)
}

/// Whether a text is the address a source returns when it has no contact for the
/// network.
///
/// One address stands for every network in the region, so it cannot be the contact of
/// any one of them.
pub open spec fn is_withheld(value: Seq<char>) -> bool {
    text::lower(value) == "removed@lacnic.net"@
}

/// What is wrong with the shape of an address, or `None` when it is usable.
pub open spec fn email_problem(value: Seq<char>) -> Option<Seq<char>> {
    let parts = text::split(value, '@');
    if value.len() == 0 {
        Some("it is empty"@)
    } else if exists|i: int|
        0 <= i < value.len() && (text::is_space(#[trigger] value[i]) || text::is_control(value[i])) {
        Some("it has a space or a control character"@)
    } else if parts.len() != 2 {
        Some("it must have one \"@\""@)
    } else if parts[0].len() == 0 {
        Some("there is nothing before the \"@\""@)
    } else if parts[1].len() == 0 {
        Some("there is nothing after the \"@\""@)
    } else if !parts[1].contains('.') {
        Some("the part after the \"@\" is not a domain name"@)
    } else {
        None
    }
}

/// Whether a text is an address that an [`EmailAddress`] can hold.
pub open spec fn is_email(value: Seq<char>) -> bool {
    &&& !is_placeholder(value)
    &&& !is_withheld(value)
    &&& email_problem(value) is None
}

/// The address a text gives, or why it gives none.
pub open spec fn email_of_text(value: Seq<char>) -> Result<Seq<char>, ValidationErrorView> {
    let address = text::trim(value);
    if is_placeholder(address) {
        Err(ValidationErrorView::RedactedEmail { value: address })
    } else if is_withheld(address) {
        Err(ValidationErrorView::WithheldEmail { value: address })
    } else if email_problem(address) is Some {
        Err(ValidationErrorView::InvalidEmail { value: address, problem: email_problem(address)->0 })
    } else {
        Ok(address)
    }
}

/// An email address that accepts abuse reports.
///
/// The constructor rejects the placeholder strings that registries send in place of
/// a real address, so a caller never mails `DATA REDACTED`.
#[derive(Debug, PartialEq, Eq, PartialOrd, Ord, Hash)]
pub struct EmailAddress(String);

impl View for EmailAddress {
    type V = Seq<char>;

    closed spec fn view(&self) -> Seq<char> {
        self.0@
    }
}

impl EmailAddress {
    #[verifier::type_invariant]
    spec fn holds_an_address(self) -> bool {
        is_email(self.0@)
    }

    /// Wraps an address that a source gave for abuse reports.
    ///
    /// # Errors
    ///
    /// Returns [`ValidationError::RedactedEmail`] if the value is a registry
    /// placeholder, [`ValidationError::WithheldEmail`] if it is the marker a source
    /// sends when it has no contact, and [`ValidationError::InvalidEmail`] if it is not
    /// shaped like an address.
    pub fn new(value: &str) -> (address: Result<Self, ValidationError>)
        ensures
            match (address, email_of_text(value@)) {
                (Ok(address), Ok(wanted)) => address@ == wanted && is_email(address@),
                (Err(error), Err(wanted)) => error@ == wanted,
                _ => false,
            },
    {
        let chars = text::chars_of(value);
        let address = text::text_of(text::trim_chars(chars.as_slice()));
        let upper = text::chars_of(text::to_upper(address.as_str()).as_str());
        if text::holds_part(upper.as_slice(), text::chars_of("REDACTED").as_slice()) || text::holds_part(
            upper.as_slice(),
            text::chars_of("NOT DISCLOSED").as_slice(),
        ) || text::holds_part(upper.as_slice(), text::chars_of("PLEASE QUERY").as_slice()) {
            return Err(ValidationError::RedactedEmail { value: address });
        }
        if text::same_text(text::to_lower(address.as_str()).as_str(), "removed@lacnic.net") {
            return Err(ValidationError::WithheldEmail { value: address });
        }
        match Self::problem(address.as_str()) {
            Some(problem) => Err(ValidationError::InvalidEmail { value: address, problem }),
            None => Ok(EmailAddress(address)),
        }
    }

    /// Returns what is wrong with the value, or `None` when it is usable.
    ///
    /// This is a shape check, not a proof that the mailbox exists. It rejects what
    /// cannot be an address so a bad value fails here and not in the mail queue.
    pub fn problem(value: &str) -> (problem: Option<&'static str>)
        ensures
            problem is Some <==> email_problem(value@) is Some,
            problem is Some ==> problem->0@ == email_problem(value@)->0,
    {
        let chars = text::chars_of(value);
        if chars.len() == 0 {
            return Some("it is empty");
        }
        let mut i: usize = 0;
        while i < chars.len()
            invariant
                i <= chars@.len(),
                chars@ == value@,
                0 < chars@.len(),
                forall|k: int|
                    0 <= k < i ==> !text::is_space(#[trigger] value@[k]) && !text::is_control(value@[k]),
            decreases chars@.len() - i,
        {
            if text::space(chars[i]) || text::control(chars[i]) {
                assert(text::is_space(value@[i as int]) || text::is_control(value@[i as int]));
                return Some("it has a space or a control character");
            }
            i += 1;
        }
        let parts = text::split_chars(chars.as_slice(), '@');
        let ghost all = text::split(value@, '@');
        assert(text::chars_view(parts@) == all);
        if parts.len() != 2 {
            return Some("it must have one \"@\"");
        }
        assert(all[0] == parts@[0]@ && all[1] == parts@[1]@);
        if parts[0].len() == 0 {
            return Some("there is nothing before the \"@\"");
        }
        if parts[1].len() == 0 {
            return Some("there is nothing after the \"@\"");
        }
        proof {
            text::lemma_first_index(all[1], '.');
        }
        if text::find_char(parts[1].as_slice(), '.') >= parts[1].len() {
            return Some("the part after the \"@\" is not a domain name");
        }
        None
    }

    /// Returns the address.
    pub fn as_str(&self) -> (address: &str)
        ensures
            address@ == self@,
            is_email(self@),
    {
        proof {
            use_type_invariant(&*self);
        }
        self.0.as_str()
    }
}

impl Clone for EmailAddress {
    fn clone(&self) -> (copy: Self)
        ensures
            copy@ == self@,
    {
        proof {
            use_type_invariant(&*self);
        }
        EmailAddress(self.0.clone())
    }
}

/// An address that was accepted is accepted again as it is, whatever white space stands
/// around it.
pub proof fn law_address_reads_back(address: Seq<char>, before: Seq<char>, after: Seq<char>)
    requires
        is_email(address),
        text::all_space(before),
        text::all_space(after),
    ensures
        email_of_text(before + address + after) == Ok::<Seq<char>, ValidationErrorView>(address),
{
    assert(!text::is_space(address[0]));
    assert(!text::is_space(address[address.len() - 1]));
    text::lemma_trim_around(before, address, after);
}

/// An accepted address is one name, one `@` and a domain with a dot, and nothing a
/// registry writes to hide an address is accepted.
pub proof fn law_accepted_addresses(value: Seq<char>)
    ensures
        email_of_text(value) matches Ok(address) ==> {
            &&& address == text::trim(value)
            &&& text::split(address, '@').len() == 2
            &&& text::split(address, '@')[0].len() > 0
            &&& text::split(address, '@')[1].contains('.')
            &&& forall|i: int| 0 <= i < address.len() ==> !text::is_space(#[trigger] address[i])
            &&& !is_placeholder(address)
            &&& !is_withheld(address)
        },
{
}

// --- Contacts ----------------------------------------------------------------

/// What the contact has authority over.
///
/// The three are not interchangeable. A phishing site needs the registrar to suspend
/// the name and the network to take down the host. Pick by what you want to happen.
#[derive(Clone, Copy, Debug, PartialEq, Eq, PartialOrd, Ord, Hash, Structural)]
pub enum Scope {
    /// The network that holds the IP address. This contact can null-route it.
    Network,
    /// The registrar of the domain name. This contact can suspend the name.
    Registrar,
    /// The operator of the domain itself. This contact runs the service.
    Domain,
}

impl Scope {
    /// The place of a scope in a ranked list.
    pub open spec fn place(self) -> int {
        match self {
            Scope::Network => 0,
            Scope::Registrar => 1,
            Scope::Domain => 2,
        }
    }

    /// The name of a scope.
    pub open spec fn name(self) -> Seq<char> {
        match self {
            Scope::Network => "network"@,
            Scope::Registrar => "registrar"@,
            Scope::Domain => "domain"@,
        }
    }

    /// Returns the name of the scope.
    pub fn to_text(&self) -> (name: String)
        ensures
            name@ == self.name(),
    {
        match self {
            Scope::Network => "network".to_owned(),
            Scope::Registrar => "registrar".to_owned(),
            Scope::Domain => "domain".to_owned(),
        }
    }

    /// Returns the place of the scope in a ranked list.
    fn order(&self) -> (place: u8)
        ensures
            place == self.place(),
    {
        match self {
            Scope::Network => 0,
            Scope::Registrar => 1,
            Scope::Domain => 2,
        }
    }
}

/// Where a contact came from.
#[derive(Debug, PartialEq, Eq, PartialOrd, Ord, Hash)]
pub enum Source {
    /// An RDAP entity with the `abuse` role, from the server named here.
    Rdap {
        /// The RDAP server that answered.
        server: String,
    },
    /// The Abusix `abuse-contacts` DNS zone.
    Abusix,
    /// The abuse.net `contacts` DNS zone.
    AbuseNet,
    /// `abuse@` at the domain, as RFC 2142 requires.
    Rfc2142,
}

/// What a [`Source`] holds.
pub enum SourceView {
    Rdap { server: Seq<char> },
    Abusix,
    AbuseNet,
    Rfc2142,
}

impl View for Source {
    type V = SourceView;

    open spec fn view(&self) -> SourceView {
        match *self {
            Source::Rdap { server } => SourceView::Rdap { server: server@ },
            Source::Abusix => SourceView::Abusix,
            Source::AbuseNet => SourceView::AbuseNet,
            Source::Rfc2142 => SourceView::Rfc2142,
        }
    }
}

impl SourceView {
    /// How much weight a contact from this source has, the most at zero.
    pub open spec fn rank(self) -> int {
        match self {
            SourceView::Rdap { .. } => 0,
            SourceView::Abusix => 1,
            SourceView::AbuseNet => 2,
            SourceView::Rfc2142 => 3,
        }
    }

    /// The name of a source. RDAP is named by the server that answered.
    pub open spec fn name(self) -> Seq<char> {
        match self {
            SourceView::Rdap { server } => server,
            SourceView::Abusix => "abusix"@,
            SourceView::AbuseNet => "abuse.net"@,
            SourceView::Rfc2142 => "rfc2142"@,
        }
    }
}

impl Source {
    /// Returns how much weight to give a contact from this source, highest first.
    ///
    /// RDAP comes first because a registry publishes it and keeps it current, but it
    /// does not answer everywhere: one regional registry publishes no abuse entity.
    /// RFC 2142 comes last because the address is a guess: the RFC says the mailbox
    /// must exist, and many domains do not honour that.
    pub fn rank(&self) -> (rank: u8)
        ensures
            rank == self@.rank(),
    {
        match self {
            Source::Rdap { .. } => 0,
            Source::Abusix => 1,
            Source::AbuseNet => 2,
            Source::Rfc2142 => 3,
        }
    }

    /// Returns the name of the source. RDAP is named by the server that answered.
    pub fn to_text(&self) -> (name: String)
        ensures
            name@ == self@.name(),
    {
        match self {
            Source::Rdap { server } => server.clone(),
            Source::Abusix => "abusix".to_owned(),
            Source::AbuseNet => "abuse.net".to_owned(),
            Source::Rfc2142 => "rfc2142".to_owned(),
        }
    }
}

impl Clone for Source {
    fn clone(&self) -> (copy: Self)
        ensures
            copy@ == self@,
    {
        match self {
            Source::Rdap { server } => Source::Rdap { server: server.clone() },
            Source::Abusix => Source::Abusix,
            Source::AbuseNet => Source::AbuseNet,
            Source::Rfc2142 => Source::Rfc2142,
        }
    }
}

/// One address that accepts reports, with what it governs and where it was found.
#[derive(Debug, PartialEq, Eq, Hash)]
pub struct Contact {
    /// The address to write to.
    pub email: EmailAddress,
    /// What this contact has authority over.
    pub scope: Scope,
    /// Where the address came from.
    pub source: Source,
}

/// What a [`Contact`] holds.
pub struct ContactView {
    pub email: Seq<char>,
    pub scope: Scope,
    pub source: SourceView,
}

impl View for Contact {
    type V = ContactView;

    open spec fn view(&self) -> ContactView {
        ContactView { email: self.email@, scope: self.scope, source: self.source@ }
    }
}

impl Clone for Contact {
    fn clone(&self) -> (copy: Self)
        ensures
            copy@ == self@,
    {
        Contact { email: self.email.clone(), scope: self.scope, source: self.source.clone() }
    }
}

/// What each contact of a list holds.
pub open spec fn contact_views(contacts: Seq<Contact>) -> Seq<ContactView> {
    contacts.map_values(|contact: Contact| contact@)
}

/// Returns a list with the same contacts.
pub fn copy_contacts(contacts: &[Contact]) -> (copy: Vec<Contact>)
    ensures
        contact_views(copy@) == contact_views(contacts@),
{
    let mut copy: Vec<Contact> = Vec::new();
    let mut i: usize = 0;
    while i < contacts.len()
        invariant
            i <= contacts@.len(),
            contact_views(copy@) == contact_views(contacts@).take(i as int),
        decreases contacts@.len() - i,
    {
        let ghost before = contact_views(copy@);
        copy.push(contacts[i].clone());
        assert(contact_views(copy@) =~= before.push(contacts@[i as int]@));
        i += 1;
    }
    assert(contact_views(contacts@).take(i as int) =~= contact_views(contacts@));
    copy
}

// --- Ranking -----------------------------------------------------------------

/// Whether two contacts are one mailbox with one authority.
pub open spec fn same_mailbox(a: ContactView, b: ContactView) -> bool {
    a.email == b.email && a.scope == b.scope
}

/// Whether one contact is listed before another: by the rank of the source, then by
/// address. One address in two scopes is listed by scope.
pub open spec fn listed_before(a: ContactView, b: ContactView) -> bool {
    if a.source.rank() != b.source.rank() {
        a.source.rank() < b.source.rank()
    } else if a.email != b.email {
        text::text_before(a.email, b.email)
    } else {
        a.scope.place() < b.scope.place()
    }
}

/// Whether a contact is the one its mailbox is listed by: from the best source that
/// gave the mailbox, and the first one given by that source.
pub open spec fn is_best(list: Seq<ContactView>, i: int) -> bool {
    &&& 0 <= i < list.len()
    &&& forall|j: int|
        0 <= j < list.len() && same_mailbox(#[trigger] list[j], list[i]) ==> list[i].source.rank()
            < list[j].source.rank() || (list[i].source.rank() == list[j].source.rank() && i <= j)
}

/// Whether a contact is one its mailbox is listed by.
pub open spec fn is_chosen(list: Seq<ContactView>, contact: ContactView) -> bool {
    exists|i: int| #[trigger] is_best(list, i) && list[i] == contact
}

/// Whether the list has this mailbox.
pub open spec fn has_mailbox(list: Seq<ContactView>, contact: ContactView) -> bool {
    exists|k: int| 0 <= k < list.len() && same_mailbox(#[trigger] list[k], contact)
}

/// Whether the contacts are in their order, with no two at one place.
pub open spec fn in_order(list: Seq<ContactView>) -> bool {
    forall|a: int, b: int| 0 <= a < b < list.len() ==> listed_before(#[trigger] list[a], #[trigger] list[b])
}

/// Whether `out` is the ranking of `list`: the contact each mailbox is listed by, and
/// nothing else, in order.
pub open spec fn is_ranking(list: Seq<ContactView>, out: Seq<ContactView>) -> bool {
    &&& in_order(out)
    &&& forall|k: int| 0 <= k < out.len() ==> #[trigger] is_chosen(list, out[k])
    &&& forall|i: int| 0 <= i < list.len() ==> #[trigger] has_mailbox(out, list[i])
}

/// Two contacts are in order one way or the other, unless they are one mailbox.
proof fn lemma_order_is_total(a: ContactView, b: ContactView)
    ensures
        listed_before(a, b) || listed_before(b, a) || same_mailbox(a, b),
{
    text::lemma_before_total(a.email, b.email);
}

/// A contact before one that is before a third is before the third.
proof fn lemma_order_is_transitive(a: ContactView, b: ContactView, c: ContactView)
    requires
        listed_before(a, b),
        listed_before(b, c),
    ensures
        listed_before(a, c),
{
    if a.source.rank() == b.source.rank() && b.source.rank() == c.source.rank() && a.email != b.email
        && b.email != c.email {
        text::lemma_before_transitive(a.email, b.email, c.email);
        text::lemma_before_irreflexive(a.email);
    }
}

/// No contact is before itself.
proof fn lemma_order_is_strict(a: ContactView)
    ensures
        !listed_before(a, a),
{
}

/// Returns whether one contact is listed before another.
fn comes_before(a: &Contact, b: &Contact) -> (yes: bool)
    ensures
        yes == listed_before(a@, b@),
{
    if a.source.rank() != b.source.rank() {
        a.source.rank() < b.source.rank()
    } else if !text::same_text(a.email.as_str(), b.email.as_str()) {
        text::before(a.email.as_str(), b.email.as_str())
    } else {
        a.scope.order() < b.scope.order()
    }
}

/// Returns the place of a mailbox in a list, or the length when the list lacks it.
fn find_mailbox(list: &Vec<Contact>, contact: &Contact) -> (at: usize)
    ensures
        at <= list@.len(),
        at < list@.len() ==> same_mailbox(list@[at as int]@, contact@),
        at == list@.len() ==> forall|k: int|
            0 <= k < list@.len() ==> !same_mailbox((#[trigger] list@[k])@, contact@),
{
    let mut i: usize = 0;
    while i < list.len()
        invariant
            i <= list@.len(),
            forall|k: int| 0 <= k < i ==> !same_mailbox((#[trigger] list@[k])@, contact@),
        decreases list@.len() - i,
    {
        if list[i].scope == contact.scope && text::same_text(list[i].email.as_str(), contact.email.as_str()) {
            return i;
        }
        i += 1;
    }
    i
}

/// Returns the place in an ordered list before which a contact belongs.
fn find_place(list: &Vec<Contact>, contact: &Contact) -> (at: usize)
    ensures
        at <= list@.len(),
        forall|k: int| 0 <= k < at ==> !listed_before(contact@, (#[trigger] list@[k])@),
        at < list@.len() ==> listed_before(contact@, list@[at as int]@),
{
    let mut i: usize = 0;
    while i < list.len() && !comes_before(contact, &list[i])
        invariant
            i <= list@.len(),
            forall|k: int| 0 <= k < i ==> !listed_before(contact@, (#[trigger] list@[k])@),
        decreases list@.len() - i,
    {
        i += 1;
    }
    i
}

/// A list in order stays in order when a contact goes in at its place.
proof fn lemma_insert_keeps_order(list: Seq<ContactView>, contact: ContactView, at: int)
    requires
        in_order(list),
        0 <= at <= list.len(),
        forall|k: int| 0 <= k < list.len() ==> !same_mailbox(#[trigger] list[k], contact),
        forall|k: int| 0 <= k < at ==> !listed_before(contact, #[trigger] list[k]),
        at < list.len() ==> listed_before(contact, list[at]),
    ensures
        in_order(list.insert(at, contact)),
{
    let out = list.insert(at, contact);
    assert forall|a: int, b: int| 0 <= a < b < out.len() implies listed_before(#[trigger] out[a], #[trigger] out[b]) by {
        let x = if a < at { a } else { a - 1 };
        let y = if b < at { b } else { b - 1 };
        if a == at {
            assert(out[b] == list[y]);
            if y > at {
                lemma_order_is_transitive(contact, list[at], list[y]);
            }
        } else if b == at {
            assert(out[a] == list[a]);
            lemma_order_is_total(contact, list[a]);
        } else {
            assert(out[a] == list[x] && out[b] == list[y]);
        }
    }
}

/// A contact whose mailbox a better contact after it has, is listed by that one.
proof fn lemma_rank_keeps(contact: ContactView, rest: Seq<ContactView>, out: Seq<ContactView>, at: int)
    requires
        is_ranking(rest, out),
        0 <= at < out.len(),
        same_mailbox(out[at], contact),
        out[at].source.rank() < contact.source.rank(),
    ensures
        is_ranking(seq![contact] + rest, out),
{
    let list = seq![contact] + rest;
    assert forall|k: int| 0 <= k < out.len() implies #[trigger] is_chosen(list, out[k]) by {
        assert(is_chosen(rest, out[k]));
        let i = choose|i: int| #[trigger] is_best(rest, i) && rest[i] == out[k];
        assert(list[i + 1] == out[k]);
        assert forall|j: int| 0 <= j < list.len() && same_mailbox(#[trigger] list[j], list[i + 1]) implies list[i
            + 1].source.rank() < list[j].source.rank() || (list[i + 1].source.rank() == list[j].source.rank()
            && i + 1 <= j) by {
            if j > 0 {
                assert(list[j] == rest[j - 1]);
            } else {
                // Two entries of one mailbox would be out of order, so this is the entry
                // at `at`.
                lemma_one_entry(rest, out, k, at);
            }
        }
        assert(is_best(list, i + 1));
    }
    assert forall|i: int| 0 <= i < list.len() implies #[trigger] has_mailbox(out, list[i]) by {
        if i > 0 {
            assert(list[i] == rest[i - 1]);
        } else {
            assert(same_mailbox(out[at], list[0]));
        }
    }
}

/// Two chosen contacts of one mailbox are one contact.
proof fn lemma_chosen_is_one(list: Seq<ContactView>, a: ContactView, b: ContactView)
    requires
        is_chosen(list, a),
        is_chosen(list, b),
        same_mailbox(a, b),
    ensures
        a == b,
{
    let i = choose|i: int| #[trigger] is_best(list, i) && list[i] == a;
    let j = choose|j: int| #[trigger] is_best(list, j) && list[j] == b;
    assert(same_mailbox(list[j], list[i]));
    assert(same_mailbox(list[i], list[j]));
    assert(i == j);
}

/// A ranking has one entry for each mailbox.
proof fn lemma_one_entry(list: Seq<ContactView>, out: Seq<ContactView>, a: int, b: int)
    requires
        is_ranking(list, out),
        0 <= a < out.len(),
        0 <= b < out.len(),
        same_mailbox(out[a], out[b]),
    ensures
        a == b,
{
    assert(is_chosen(list, out[a]) && is_chosen(list, out[b]));
    lemma_chosen_is_one(list, out[a], out[b]);
    lemma_order_is_strict(out[a]);
    if a < b {
        assert(listed_before(out[a], out[b]));
    } else if b < a {
        assert(listed_before(out[b], out[a]));
    }
}

/// A list without the entry at a place, or as it is when the place is past its end.
spec fn without(list: Seq<ContactView>, at: int) -> Seq<ContactView> {
    if at < list.len() {
        list.remove(at)
    } else {
        list
    }
}

/// Taking the entry of a mailbox out of a ranking leaves the entries of the others.
proof fn lemma_others(rest: Seq<ContactView>, out: Seq<ContactView>, contact: ContactView, found: int)
    requires
        is_ranking(rest, out),
        0 <= found <= out.len(),
        found < out.len() ==> same_mailbox(out[found], contact),
        found == out.len() ==> forall|k: int|
            0 <= k < out.len() ==> !same_mailbox(#[trigger] out[k], contact),
    ensures
        in_order(without(out, found)),
        forall|k: int|
            0 <= k < without(out, found).len() ==> !same_mailbox(#[trigger] without(out, found)[k], contact),
{
    if found < out.len() {
        let others = without(out, found);
        assert forall|k: int| 0 <= k < others.len() implies !same_mailbox(#[trigger] others[k], contact) by {
            let n = if k < found { k } else { k + 1 };
            assert(others[k] == out[n]);
            if same_mailbox(out[n], contact) {
                lemma_one_entry(rest, out, n, found);
            }
        }
        assert forall|a: int, b: int| 0 <= a < b < others.len() implies listed_before(
            #[trigger] others[a],
            #[trigger] others[b],
        ) by {
            let x = if a < found { a } else { a + 1 };
            let y = if b < found { b } else { b + 1 };
            assert(others[a] == out[x] && others[b] == out[y]);
        }
    }
}

/// What is chosen from a list stays chosen when a contact of another mailbox comes
/// before it.
proof fn lemma_stays_chosen(contact: ContactView, rest: Seq<ContactView>, chosen: ContactView)
    requires
        is_chosen(rest, chosen),
        !same_mailbox(chosen, contact),
    ensures
        is_chosen(seq![contact] + rest, chosen),
{
    let list = seq![contact] + rest;
    let i = choose|i: int| #[trigger] is_best(rest, i) && rest[i] == chosen;
    assert(list[i + 1] == chosen);
    assert forall|j: int| 0 <= j < list.len() && same_mailbox(#[trigger] list[j], list[i + 1]) implies list[i
        + 1].source.rank() < list[j].source.rank() || (list[i + 1].source.rank() == list[j].source.rank() && i
        + 1 <= j) by {
        if j > 0 {
            assert(list[j] == rest[j - 1]);
        }
    }
    assert(is_best(list, i + 1));
}

/// A contact as good as the entry of its mailbox is chosen, when it comes before the
/// rest.
proof fn lemma_is_chosen(contact: ContactView, rest: Seq<ContactView>, out: Seq<ContactView>, found: int)
    requires
        is_ranking(rest, out),
        0 <= found <= out.len(),
        found < out.len() ==> same_mailbox(out[found], contact) && contact.source.rank()
            <= out[found].source.rank(),
        found == out.len() ==> forall|k: int|
            0 <= k < out.len() ==> !same_mailbox(#[trigger] out[k], contact),
    ensures
        is_chosen(seq![contact] + rest, contact),
{
    let list = seq![contact] + rest;
    assert(list[0] == contact);
    assert forall|j: int| 0 <= j < list.len() && same_mailbox(#[trigger] list[j], list[0]) implies list[0].source.rank()
        < list[j].source.rank() || (list[0].source.rank() == list[j].source.rank() && 0 <= j) by {
        if j > 0 {
            assert(list[j] == rest[j - 1]);
            lemma_listed_is_best(rest, out, j - 1);
            let k = choose|k: int|
                0 <= k < out.len() && same_mailbox(#[trigger] out[k], rest[j - 1]) && out[k].source.rank()
                    <= rest[j - 1].source.rank();
            if found < out.len() {
                lemma_one_entry(rest, out, k, found);
            }
        }
    }
    assert(is_best(list, 0));
}

/// A contact as good as the entry of its mailbox takes the place of the entry.
proof fn lemma_rank_takes(
    contact: ContactView,
    rest: Seq<ContactView>,
    out: Seq<ContactView>,
    found: int,
    at: int,
)
    requires
        is_ranking(rest, out),
        0 <= found <= out.len(),
        found < out.len() ==> same_mailbox(out[found], contact) && contact.source.rank()
            <= out[found].source.rank(),
        found == out.len() ==> forall|k: int|
            0 <= k < out.len() ==> !same_mailbox(#[trigger] out[k], contact),
        0 <= at <= without(out, found).len(),
        forall|k: int| 0 <= k < at ==> !listed_before(contact, #[trigger] without(out, found)[k]),
        at < without(out, found).len() ==> listed_before(contact, without(out, found)[at]),
    ensures
        is_ranking(seq![contact] + rest, without(out, found).insert(at, contact)),
{
    let list = seq![contact] + rest;
    let others = without(out, found);
    let after = others.insert(at, contact);
    lemma_others(rest, out, contact, found);
    lemma_insert_keeps_order(others, contact, at);
    lemma_is_chosen(contact, rest, out, found);
    assert forall|k: int| 0 <= k < after.len() implies #[trigger] is_chosen(list, after[k]) by {
        if k != at {
            let n = if k < at { k } else { k - 1 };
            let m = if n < found { n } else { n + 1 };
            lemma_moved(contact, out, found, at, m);
            assert(!same_mailbox(others[n], contact));
            assert(is_chosen(rest, out[m]));
            lemma_stays_chosen(contact, rest, out[m]);
        }
    }
    assert forall|i: int| 0 <= i < list.len() implies #[trigger] has_mailbox(after, list[i]) by {
        assert(after[at] == contact);
        if !same_mailbox(contact, list[i]) {
            assert(list[i] == rest[i - 1]);
            assert(has_mailbox(out, rest[i - 1]));
            let m = choose|m: int| 0 <= m < out.len() && same_mailbox(#[trigger] out[m], list[i]);
            lemma_moved(contact, out, found, at, m);
        }
    }
}

/// Where an entry is after one entry left the list and another came in.
proof fn lemma_moved(contact: ContactView, out: Seq<ContactView>, found: int, at: int, m: int)
    requires
        0 <= found <= out.len(),
        0 <= at <= without(out, found).len(),
        0 <= m < out.len(),
        m != found,
    ensures
        ({
            let n = if m < found { m } else { m - 1 };
            let k = if n < at { n } else { n + 1 };
            &&& 0 <= n < without(out, found).len()
            &&& without(out, found)[n] == out[m]
            &&& 0 <= k < without(out, found).insert(at, contact).len()
            &&& without(out, found).insert(at, contact)[k] == out[m]
        }),
{
}

/// The entry of a mailbox is from a source at least as good as any that gave it.
proof fn lemma_listed_is_best(list: Seq<ContactView>, out: Seq<ContactView>, i: int)
    requires
        is_ranking(list, out),
        0 <= i < list.len(),
    ensures
        exists|k: int|
            0 <= k < out.len() && same_mailbox(#[trigger] out[k], list[i]) && out[k].source.rank()
                <= list[i].source.rank(),
{
    assert(has_mailbox(out, list[i]));
    let k = choose|k: int| 0 <= k < out.len() && same_mailbox(#[trigger] out[k], list[i]);
    assert(is_chosen(list, out[k]));
    let b = choose|b: int| #[trigger] is_best(list, b) && list[b] == out[k];
    assert(same_mailbox(list[i], list[b]));
}

/// Sorts contacts by source rank, then by address, and drops repeats.
///
/// One address that a source gives in two scopes is kept in both, and listed by scope.
/// The same address often comes from more than one source. The caller wants a list
/// to read from the top, not the same mailbox four times.
pub fn rank(contacts: Vec<Contact>) -> (ranked: Vec<Contact>)
    ensures
        is_ranking(contact_views(contacts@), contact_views(ranked@)),
{
    let ghost list = contact_views(contacts@);
    let mut left = contacts;
    let mut out: Vec<Contact> = Vec::new();
    assert(contact_views(left@) =~= list.take(list.len() as int));
    assert(list.skip(list.len() as int) =~= Seq::<ContactView>::empty());
    while left.len() > 0
        invariant
            left@.len() <= list.len(),
            contact_views(left@) == list.take(left@.len() as int),
            is_ranking(list.skip(left@.len() as int), contact_views(out@)),
        decreases left@.len(),
    {
        let ghost n = left@.len() - 1;
        let ghost rest = list.skip(n + 1);
        let ghost before = contact_views(out@);
        assert(contact_views(left@)[n] == list[n]);
        let contact = left.remove(left.len() - 1);
        assert(contact_views(left@) =~= list.take(n));
        assert(contact@ == list[n]);
        assert(list.skip(n) =~= seq![contact@] + rest);
        let at = find_mailbox(&out, &contact);
        if at < out.len() && out[at].source.rank() < contact.source.rank() {
            proof {
                assert(before[at as int] == out@[at as int]@);
                lemma_rank_keeps(contact@, rest, before, at as int);
            }
        } else {
            proof {
                assert forall|k: int| at == before.len() && 0 <= k < before.len() implies !same_mailbox(
                    #[trigger] before[k],
                    contact@,
                ) by {
                    assert(before[k] == out@[k]@);
                }
            }
            if at < out.len() {
                assert(before[at as int] == out@[at as int]@);
                out.remove(at);
            }
            let ghost others = without(before, at as int);
            assert(contact_views(out@) =~= others);
            let place = find_place(&out, &contact);
            proof {
                assert forall|k: int| 0 <= k < place implies !listed_before(contact@, #[trigger] others[k]) by {
                    assert(others[k] == out@[k]@);
                }
                lemma_rank_takes(contact@, rest, before, at as int, place as int);
            }
            out.insert(place, contact);
            assert(contact_views(out@) =~= others.insert(place as int, contact@));
        }
    }
    assert(list.skip(0) =~= list);
    out
}

// --- What a ranking promises -------------------------------------------------

/// Every contact of one ordered list is in the other.
spec fn all_in(a: Seq<ContactView>, b: Seq<ContactView>) -> bool {
    forall|i: int| 0 <= i < a.len() ==> b.contains(#[trigger] a[i])
}

/// Two ordered lists of the same contacts start with the same contact.
proof fn lemma_same_first(a: Seq<ContactView>, b: Seq<ContactView>)
    requires
        in_order(a),
        in_order(b),
        a.len() > 0,
        b.len() > 0,
        b.contains(a[0]),
        a.contains(b[0]),
    ensures
        a[0] == b[0],
{
    let m = choose|m: int| 0 <= m < b.len() && b[m] == a[0];
    let n = choose|n: int| 0 <= n < a.len() && a[n] == b[0];
    if m > 0 && n > 0 {
        lemma_order_is_transitive(a[0], a[n], b[m]);
        lemma_order_is_strict(a[0]);
    }
}

/// Two ordered lists of the same contacts are one list.
proof fn lemma_same_list(a: Seq<ContactView>, b: Seq<ContactView>)
    requires
        in_order(a),
        in_order(b),
        all_in(a, b),
        all_in(b, a),
    ensures
        a == b,
    decreases a.len(),
{
    if a.len() == 0 {
        if b.len() > 0 {
            assert(a.contains(b[0]));
        }
        assert(a =~= b);
    } else {
        assert(b.contains(a[0]));
        assert(a.contains(b[0]));
        lemma_same_first(a, b);
        let x = a.drop_first();
        let y = b.drop_first();
        lemma_rest_in(a, b);
        lemma_rest_in(b, a);
        assert(in_order(x)) by {
            assert forall|i: int, j: int| 0 <= i < j < x.len() implies listed_before(
                #[trigger] x[i],
                #[trigger] x[j],
            ) by {
                assert(x[i] == a[i + 1] && x[j] == a[j + 1]);
            }
        }
        assert(in_order(y)) by {
            assert forall|i: int, j: int| 0 <= i < j < y.len() implies listed_before(
                #[trigger] y[i],
                #[trigger] y[j],
            ) by {
                assert(y[i] == b[i + 1] && y[j] == b[j + 1]);
            }
        }
        lemma_same_list(x, y);
        assert(a =~= seq![a[0]] + x);
        assert(b =~= seq![b[0]] + y);
    }
}

/// Past one first contact, the contacts of an ordered list are past it in the other.
proof fn lemma_rest_in(a: Seq<ContactView>, b: Seq<ContactView>)
    requires
        in_order(a),
        a.len() > 0,
        b.len() > 0,
        a[0] == b[0],
        all_in(a, b),
    ensures
        all_in(a.drop_first(), b.drop_first()),
{
    let x = a.drop_first();
    let y = b.drop_first();
    assert forall|i: int| 0 <= i < x.len() implies y.contains(#[trigger] x[i]) by {
        assert(x[i] == a[i + 1]);
        assert(b.contains(a[i + 1]));
        let k = choose|k: int| 0 <= k < b.len() && b[k] == a[i + 1];
        if k == 0 {
            assert(listed_before(a[0], a[i + 1]));
            lemma_order_is_strict(a[0]);
        }
        assert(y[k - 1] == x[i]);
    }
}

/// What one ranking of a list holds, every other ranking of it holds.
proof fn lemma_rankings_hold_the_same(list: Seq<ContactView>, a: Seq<ContactView>, b: Seq<ContactView>)
    requires
        is_ranking(list, a),
        is_ranking(list, b),
    ensures
        all_in(a, b),
{
    assert forall|i: int| 0 <= i < a.len() implies b.contains(#[trigger] a[i]) by {
        assert(is_chosen(list, a[i]));
        let n = choose|n: int| #[trigger] is_best(list, n) && list[n] == a[i];
        assert(has_mailbox(b, list[n]));
        let k = choose|k: int| 0 <= k < b.len() && same_mailbox(#[trigger] b[k], list[n]);
        assert(is_chosen(list, b[k]));
        lemma_chosen_is_one(list, a[i], b[k]);
        assert(b[k] == a[i]);
    }
}

/// A list has one ranking.
pub proof fn law_ranking_is_one(list: Seq<ContactView>, a: Seq<ContactView>, b: Seq<ContactView>)
    requires
        is_ranking(list, a),
        is_ranking(list, b),
    ensures
        a == b,
{
    lemma_rankings_hold_the_same(list, a, b);
    lemma_rankings_hold_the_same(list, b, a);
    lemma_same_list(a, b);
}

/// No mailbox is listed twice in one scope: two entries differ in address or in scope.
pub proof fn law_no_mailbox_twice(list: Seq<ContactView>, ranked: Seq<ContactView>, i: int, j: int)
    requires
        is_ranking(list, ranked),
        0 <= i < j < ranked.len(),
    ensures
        ranked[i].email != ranked[j].email || ranked[i].scope != ranked[j].scope,
        !same_mailbox(ranked[i], ranked[j]),
{
    if same_mailbox(ranked[i], ranked[j]) {
        lemma_one_entry(list, ranked, i, j);
    }
}

/// The contacts of a better source come first: RDAP, then Abusix, then abuse.net, then
/// the RFC 2142 guess.
pub proof fn law_better_source_first(list: Seq<ContactView>, ranked: Seq<ContactView>, i: int, j: int)
    requires
        is_ranking(list, ranked),
        0 <= i < j < ranked.len(),
    ensures
        ranked[i].source.rank() <= ranked[j].source.rank(),
        ranked[j].source is Rdap ==> ranked[i].source is Rdap,
        ranked[j].source is Abusix ==> ranked[i].source is Rdap || ranked[i].source is Abusix,
        ranked[j].source is AbuseNet ==> !(ranked[i].source is Rfc2142),
{
    assert(listed_before(ranked[i], ranked[j]));
}

/// The weight of each source, the most at zero.
pub proof fn law_source_weights(source: SourceView)
    ensures
        source.rank() == 0 <==> source is Rdap,
        source.rank() == 1 <==> source is Abusix,
        source.rank() == 2 <==> source is AbuseNet,
        source.rank() == 3 <==> source is Rfc2142,
{
}

/// The contacts of one source are listed by address, and one address by what it has
/// authority over: the network, then the registrar, then the domain.
pub proof fn law_one_source_goes_by_address(list: Seq<ContactView>, ranked: Seq<ContactView>, i: int, j: int)
    requires
        is_ranking(list, ranked),
        0 <= i < j < ranked.len(),
        ranked[i].source.rank() == ranked[j].source.rank(),
    ensures
        ranked[i].email != ranked[j].email ==> text::text_before(ranked[i].email, ranked[j].email),
        ranked[i].email == ranked[j].email ==> ranked[i].scope != Scope::Domain && ranked[j].scope
            != Scope::Network && ranked[i].scope != ranked[j].scope,
{
    assert(listed_before(ranked[i], ranked[j]));
}

/// No mailbox is lost: for every contact the ranking has one with the same address and
/// the same scope, from a source as good or better.
pub proof fn law_every_mailbox_is_listed(list: Seq<ContactView>, ranked: Seq<ContactView>, i: int)
    requires
        is_ranking(list, ranked),
        0 <= i < list.len(),
    ensures
        exists|k: int|
            0 <= k < ranked.len() && (#[trigger] ranked[k]).email == list[i].email && ranked[k].scope
                == list[i].scope && ranked[k].source.rank() <= list[i].source.rank(),
{
    lemma_listed_is_best(list, ranked, i);
    let k = choose|k: int|
        0 <= k < ranked.len() && same_mailbox(#[trigger] ranked[k], list[i]) && ranked[k].source.rank()
            <= list[i].source.rank();
    assert(ranked[k].email == list[i].email);
}

/// A ranking invents nothing: every entry is a contact of the list, and no contact of the
/// list with its address and its scope is from a better source, nor is an earlier one
/// from a source as good.
pub proof fn law_ranking_invents_nothing(list: Seq<ContactView>, ranked: Seq<ContactView>, k: int)
    requires
        is_ranking(list, ranked),
        0 <= k < ranked.len(),
    ensures
        exists|i: int|
            0 <= i < list.len() && #[trigger] list[i] == ranked[k] && forall|j: int|
                0 <= j < list.len() && (#[trigger] list[j]).email == ranked[k].email && list[j].scope
                    == ranked[k].scope ==> list[i].source.rank() <= list[j].source.rank() && (
                list[i].source.rank() == list[j].source.rank() ==> i <= j),
{
    assert(is_chosen(list, ranked[k]));
    let i = choose|i: int| #[trigger] is_best(list, i) && list[i] == ranked[k];
    assert forall|j: int|
        0 <= j < list.len() && (#[trigger] list[j]).email == ranked[k].email && list[j].scope
            == ranked[k].scope implies list[i].source.rank() <= list[j].source.rank() && (
    list[i].source.rank() == list[j].source.rank() ==> i <= j) by {
        assert(same_mailbox(list[j], list[i]));
    }
}

/// What [`rank`] keeps, read off the contacts themselves: every contact that goes in
/// comes out with its address and its scope, and two that come out differ in one of the
/// two.
pub proof fn law_rank_keeps_each_address_in_each_scope(
    contacts: Seq<Contact>,
    ranked: Seq<Contact>,
    i: int,
    a: int,
    b: int,
)
    requires
        is_ranking(contact_views(contacts), contact_views(ranked)),
        0 <= i < contacts.len(),
    ensures
        exists|k: int|
            0 <= k < ranked.len() && (#[trigger] ranked[k]).email@ == contacts[i].email@ && ranked[k].scope
                == contacts[i].scope,
        0 <= a < b < ranked.len() ==> ranked[a].email@ != ranked[b].email@ || ranked[a].scope
            != ranked[b].scope,
{
    let list = contact_views(contacts);
    let out = contact_views(ranked);
    assert(list[i] == contacts[i]@);
    law_every_mailbox_is_listed(list, out, i);
    let k = choose|k: int|
        0 <= k < out.len() && (#[trigger] out[k]).email == list[i].email && out[k].scope == list[i].scope
            && out[k].source.rank() <= list[i].source.rank();
    assert(out[k] == ranked[k]@);
    if 0 <= a < b < ranked.len() {
        law_no_mailbox_twice(list, out, a, b);
        assert(out[a] == ranked[a]@ && out[b] == ranked[b]@);
    }
}

/// Ranking a ranked list changes nothing.
pub proof fn law_ranking_is_settled(list: Seq<ContactView>, ranked: Seq<ContactView>)
    requires
        is_ranking(list, ranked),
    ensures
        is_ranking(ranked, ranked),
{
    assert forall|k: int| 0 <= k < ranked.len() implies #[trigger] is_chosen(ranked, ranked[k]) by {
        assert forall|j: int| 0 <= j < ranked.len() && same_mailbox(#[trigger] ranked[j], ranked[k]) implies j == k by {
            lemma_one_entry(list, ranked, j, k);
        }
        assert(is_best(ranked, k));
    }
}

// --- Which addresses are accepted --------------------------------------------

/// Whether a part stands in a text.
pub open spec fn stands_in(t: Seq<char>, part: Seq<char>) -> bool {
    exists|at: int| 0 <= at && at + part.len() <= t.len() && #[trigger] t.subrange(at, at + part.len()) == part
}

/// A part stands in a text when the text has it.
proof fn lemma_stands_in(t: Seq<char>, part: Seq<char>)
    ensures
        text::has_part(t, part) <==> stands_in(t, part),
{
    text::law_parts_are_found(t, part, 0);
    if stands_in(t, part) {
        let at = choose|at: int|
            0 <= at && at + part.len() <= t.len() && #[trigger] t.subrange(at, at + part.len()) == part;
        assert(text::has_at(t, part, at));
    }
}

/// A text is a placeholder exactly when `REDACTED`, `NOT DISCLOSED` or `PLEASE QUERY`
/// stands in it, in any case, and withheld exactly when it is `removed@lacnic.net`, in any
/// case.
pub proof fn law_placeholders(value: Seq<char>)
    ensures
        is_placeholder(value) <==> stands_in(text::upper(value), "REDACTED"@) || stands_in(
            text::upper(value),
            "NOT DISCLOSED"@,
        ) || stands_in(text::upper(value), "PLEASE QUERY"@),
        is_withheld(value) <==> text::lower(value) == "removed@lacnic.net"@,
{
    lemma_stands_in(text::upper(value), "REDACTED"@);
    lemma_stands_in(text::upper(value), "NOT DISCLOSED"@);
    lemma_stands_in(text::upper(value), "PLEASE QUERY"@);
}

/// Whether no character of a text is white space or a control character, by code point.
pub open spec fn is_visible(t: Seq<char>) -> bool {
    forall|i: int| 0 <= i < t.len() ==> !text::is_space(#[trigger] t[i]) && !text::is_control(t[i])
}

/// What is said of a text that is no address: that it is empty, has a character that
/// cannot be seen, has no `@` or more than one, has nothing before it or after it, or has
/// no dot after it, in this order. Nothing is said of a text in any other shape.
pub proof fn law_what_is_said_of_an_address(value: Seq<char>, front: Seq<char>, back: Seq<char>, i: int, j: int)
    ensures
        value.len() == 0 ==> email_problem(value) == Some("it is empty"@),
        value.len() > 0 && !is_visible(value) ==> email_problem(value) == Some(
            "it has a space or a control character"@,
        ),
        value.len() > 0 && is_visible(value) && !value.contains('@') ==> email_problem(value) == Some(
            "it must have one \"@\""@,
        ),
        is_visible(value) && 0 <= i < j < value.len() && value[i] == '@' && value[j] == '@' ==> email_problem(
            value,
        ) == Some("it must have one \"@\""@),
        is_visible(value) && value == front.push('@') + back && !front.contains('@') && !back.contains('@')
            ==> email_problem(value) == (if front.len() == 0 {
            Some("there is nothing before the \"@\""@)
        } else if back.len() == 0 {
            Some("there is nothing after the \"@\""@)
        } else if !back.contains('.') {
            Some("the part after the \"@\" is not a domain name"@)
        } else {
            None
        }),
{
    text::law_how_many_pieces(value, '@', i, j);
    if value == front.push('@') + back && !front.contains('@') && !back.contains('@') {
        text::lemma_split_at(front, back, '@');
        text::lemma_split_one(front, '@');
        text::lemma_split_one(back, '@');
        assert(text::split(value, '@') =~= seq![front, back]);
    }
    if value.len() > 0 && !is_visible(value) {
        let k = choose|k: int|
            0 <= k < value.len() && (text::is_space(#[trigger] value[k]) || text::is_control(value[k]));
        assert(text::is_space(value[k]) || text::is_control(value[k]));
    }
}

/// The address of a text is what stands between white space. It is refused when it is a
/// placeholder, when it is withheld, or for what is wrong with it, in this order.
pub proof fn law_what_address_a_text_gives(before: Seq<char>, address: Seq<char>, after: Seq<char>)
    requires
        forall|i: int| 0 <= i < before.len() ==> text::is_space(#[trigger] before[i]),
        forall|i: int| 0 <= i < after.len() ==> text::is_space(#[trigger] after[i]),
        address.len() > 0 ==> !text::is_space(address[0]) && !text::is_space(address.last()),
    ensures
        ({
            let found = email_of_text(before + address + after);
            if is_placeholder(address) {
                found is Err && found->Err_0 == (ValidationErrorView::RedactedEmail { value: address })
            } else if is_withheld(address) {
                found is Err && found->Err_0 == (ValidationErrorView::WithheldEmail { value: address })
            } else {
                match email_problem(address) {
                    None => found is Ok && found->Ok_0 == address,
                    Some(said) => found is Err && found->Err_0 == (ValidationErrorView::InvalidEmail {
                        value: address,
                        problem: said,
                    }),
                }
            }
        }),
{
    text::law_trimming_leaves_the_middle(before, address, after);
}

/// The names of the scopes and of the sources. RDAP goes by the name of the server.
pub proof fn law_names(server: Seq<char>)
    ensures
        Scope::Network.name() == "network"@,
        Scope::Registrar.name() == "registrar"@,
        Scope::Domain.name() == "domain"@,
        (SourceView::Rdap { server }).name() == server,
        SourceView::Abusix.name() == "abusix"@,
        SourceView::AbuseNet.name() == "abuse.net"@,
        SourceView::Rfc2142.name() == "rfc2142"@,
{
}

/// A contact is seen with its address, its scope and its source, and a list contact by
/// contact.
pub proof fn law_contacts_are_seen_whole(contacts: Seq<Contact>, i: int)
    ensures
        contact_views(contacts).len() == contacts.len(),
        0 <= i < contacts.len() ==> contact_views(contacts)[i].email == contacts[i].email@,
        0 <= i < contacts.len() ==> contact_views(contacts)[i].scope == contacts[i].scope,
        0 <= i < contacts.len() ==> contact_views(contacts)[i].source == contacts[i].source@,
        0 <= i < contacts.len() ==> (contacts[i].source is Rdap <==> contacts[i].source@ is Rdap),
        0 <= i < contacts.len() ==> (contacts[i].source matches Source::Rdap { server } ==> contacts[i].source@
            == (SourceView::Rdap { server: server@ })),
        0 <= i < contacts.len() ==> (contacts[i].source is Abusix <==> contacts[i].source@ is Abusix),
        0 <= i < contacts.len() ==> (contacts[i].source is AbuseNet <==> contacts[i].source@ is AbuseNet),
        0 <= i < contacts.len() ==> (contacts[i].source is Rfc2142 <==> contacts[i].source@ is Rfc2142),
{
}

} // verus!
