//! The RDAP source: the response types, and how to find the abuse contact in one.
//!
//! This module holds the smallest part of RDAP that an abuse lookup needs: entities,
//! their jCard, and the links. Fields the library does not read are ignored, so a new
//! field on the registry side does not turn a working lookup into a parse error.

use vstd::prelude::*;
use vstd::string::*;

use crate::addr;
use crate::addr::{IpAddr, IpRange};
use crate::contact;
use crate::contact::{Contact, ContactView, Scope, Source, SourceView};
use crate::dns;
use crate::error::ValidationErrorView;
use crate::json;
use crate::json::{Json, JsonView};
use crate::list;
use crate::number;
use crate::text;

verus! {

// --- The record --------------------------------------------------------------

/// An RDAP response, cut down to what an abuse lookup reads.
#[derive(Debug)]
pub struct Response {
    /// The contacts attached to this object.
    pub entities: Vec<Entity>,
    /// Links to other records, including the registrar record for a domain.
    pub links: Vec<Link>,
    /// The first address of the network, on an IP record.
    ///
    /// This is kept as it came, so a value that is not a string does not stop the
    /// rest of the record from being read. [`Response::range`] reads it.
    pub start_address: Option<Json>,
    /// The last address of the network, on an IP record.
    pub end_address: Option<Json>,
}

/// A contact on an RDAP object.
///
/// An entity holds entities of its own. The abuse contact sits at the top level at
/// some registries and under the registrant or the registrar at others, so a reader
/// must walk the whole tree.
#[derive(Debug)]
pub struct Entity {
    /// What this entity is: `abuse`, `registrant`, `technical`, and others.
    pub roles: Vec<String>,
    /// The registry handle, useful in a log line.
    pub handle: Option<String>,
    /// The contact details, as jCard.
    pub vcard_array: Option<Json>,
    /// Entities under this one.
    pub entities: Vec<Entity>,
}

/// A link from one RDAP record to another.
#[derive(Debug)]
pub struct Link {
    /// What the target is to this record. `related` points at the registrar.
    pub rel: Option<String>,
    /// Where the target is.
    pub href: Option<String>,
}

/// What a [`Response`] holds.
pub struct ResponseView {
    pub entities: Seq<EntityView>,
    pub links: Seq<LinkView>,
    pub start_address: Option<JsonView>,
    pub end_address: Option<JsonView>,
}

/// What an [`Entity`] holds.
pub struct EntityView {
    pub roles: Seq<Seq<char>>,
    pub handle: Option<Seq<char>>,
    pub vcard_array: Option<JsonView>,
    pub entities: Seq<EntityView>,
}

/// What a [`Link`] holds.
pub struct LinkView {
    pub rel: Option<Seq<char>>,
    pub href: Option<Seq<char>>,
}

impl View for Link {
    type V = LinkView;

    open spec fn view(&self) -> LinkView {
        LinkView { rel: text::option_view(self.rel), href: text::option_view(self.href) }
    }
}

/// What an entity holds, with the entities under it.
pub open spec fn entity_view(entity: Entity) -> EntityView
    decreases entity,
{
    EntityView {
        roles: text::texts_view(entity.roles@),
        handle: text::option_view(entity.handle),
        vcard_array: json::option_view(entity.vcard_array),
        entities: Seq::new(
            entity.entities@.len(),
            |i: int|
                if 0 <= i < entity.entities@.len() {
                    entity_view(entity.entities@[i])
                } else {
                    arbitrary()
                },
        ),
    }
}

impl View for Entity {
    type V = EntityView;

    open spec fn view(&self) -> EntityView {
        entity_view(*self)
    }
}

/// What each entity of a list holds.
pub open spec fn entity_views(entities: Seq<Entity>) -> Seq<EntityView> {
    entities.map_values(|entity: Entity| entity@)
}

/// What each link of a list holds.
pub open spec fn link_views(links: Seq<Link>) -> Seq<LinkView> {
    links.map_values(|link: Link| link@)
}

impl View for Response {
    type V = ResponseView;

    open spec fn view(&self) -> ResponseView {
        ResponseView {
            entities: entity_views(self.entities@),
            links: link_views(self.links@),
            start_address: json::option_view(self.start_address),
            end_address: json::option_view(self.end_address),
        }
    }
}

impl Default for Response {
    /// Returns a response that holds nothing.
    fn default() -> (response: Self)
        ensures
            response@ == (ResponseView {
                entities: Seq::<EntityView>::empty(),
                links: Seq::<LinkView>::empty(),
                start_address: None,
                end_address: None,
            }),
    {
        let response = Response {
            entities: Vec::new(),
            links: Vec::new(),
            start_address: None,
            end_address: None,
        };
        assert(response@.entities =~= Seq::<EntityView>::empty());
        assert(response@.links =~= Seq::<LinkView>::empty());
        response
    }
}

impl Default for Entity {
    /// Returns an entity that holds nothing.
    fn default() -> (entity: Self)
        ensures
            entity@ == (EntityView {
                roles: Seq::<Seq<char>>::empty(),
                handle: None,
                vcard_array: None,
                entities: Seq::<EntityView>::empty(),
            }),
    {
        let entity = Entity { roles: Vec::new(), handle: None, vcard_array: None, entities: Vec::new() };
        assert(entity@.roles =~= Seq::<Seq<char>>::empty());
        assert(entity@.entities =~= Seq::<EntityView>::empty());
        entity
    }
}

// --- Copies ------------------------------------------------------------------

/// Returns the same text, when there is one.
fn copy_text(value: &Option<String>) -> (copy: Option<String>)
    ensures
        text::option_view(copy) == text::option_view(*value),
{
    match value {
        Some(value) => Some(value.clone()),
        None => None,
    }
}

/// Returns the same value, when there is one.
fn copy_json(value: &Option<Json>) -> (copy: Option<Json>)
    ensures
        json::option_view(copy) == json::option_view(*value),
{
    match value {
        Some(value) => Some(value.clone()),
        None => None,
    }
}

impl Clone for Link {
    fn clone(&self) -> (copy: Self)
        ensures
            copy@ == self@,
    {
        Link { rel: copy_text(&self.rel), href: copy_text(&self.href) }
    }
}

impl Clone for Entity {
    fn clone(&self) -> (copy: Self)
        ensures
            copy@ == self@,
        decreases self,
    {
        let mut roles: Vec<String> = Vec::new();
        let mut i: usize = 0;
        while i < self.roles.len()
            invariant
                i <= self.roles@.len(),
                text::texts_view(roles@) == text::texts_view(self.roles@).take(i as int),
            decreases self.roles@.len() - i,
        {
            let ghost before = text::texts_view(roles@);
            roles.push(self.roles[i].clone());
            assert(text::texts_view(roles@) =~= before.push(self.roles@[i as int]@));
            assert(text::texts_view(self.roles@).take(i + 1) =~= before.push(self.roles@[i as int]@));
            i += 1;
        }
        assert(text::texts_view(roles@) =~= text::texts_view(self.roles@));
        let mut entities: Vec<Entity> = Vec::new();
        let mut k: usize = 0;
        while k < self.entities.len()
            invariant
                k <= self.entities@.len(),
                entity_views(entities@) == entity_views(self.entities@).take(k as int),
            decreases self.entities@.len() - k,
        {
            let ghost before = entity_views(entities@);
            assert(decreases_to!(*self => self.entities@[k as int]));
            entities.push(self.entities[k].clone());
            assert(entity_views(entities@) =~= before.push(self.entities@[k as int]@));
            assert(entity_views(self.entities@).take(k + 1) =~= before.push(self.entities@[k as int]@));
            k += 1;
        }
        assert(entity_views(entities@) =~= entity_views(self.entities@));
        let copy = Entity {
            roles,
            handle: copy_text(&self.handle),
            vcard_array: copy_json(&self.vcard_array),
            entities,
        };
        assert(copy@.entities =~= entity_views(copy.entities@));
        assert(self@.entities =~= entity_views(self.entities@));
        copy
    }
}

impl Clone for Response {
    fn clone(&self) -> (copy: Self)
        ensures
            copy@ == self@,
    {
        let mut entities: Vec<Entity> = Vec::new();
        let mut i: usize = 0;
        while i < self.entities.len()
            invariant
                i <= self.entities@.len(),
                entity_views(entities@) == entity_views(self.entities@).take(i as int),
            decreases self.entities@.len() - i,
        {
            let ghost before = entity_views(entities@);
            entities.push(self.entities[i].clone());
            assert(entity_views(entities@) =~= before.push(self.entities@[i as int]@));
            assert(entity_views(self.entities@).take(i + 1) =~= before.push(self.entities@[i as int]@));
            i += 1;
        }
        assert(entity_views(entities@) =~= entity_views(self.entities@));
        let mut links: Vec<Link> = Vec::new();
        let mut k: usize = 0;
        while k < self.links.len()
            invariant
                k <= self.links@.len(),
                link_views(links@) == link_views(self.links@).take(k as int),
            decreases self.links@.len() - k,
        {
            let ghost before = link_views(links@);
            links.push(self.links[k].clone());
            assert(link_views(links@) =~= before.push(self.links@[k as int]@));
            assert(link_views(self.links@).take(k + 1) =~= before.push(self.links@[k as int]@));
            k += 1;
        }
        assert(link_views(links@) =~= link_views(self.links@));
        Response {
            entities,
            links,
            start_address: copy_json(&self.start_address),
            end_address: copy_json(&self.end_address),
        }
    }
}

// --- Addresses in a jCard ----------------------------------------------------

/// The preference of a vCard property that names none.
///
/// RFC 6350 gives such a property the lowest preference, so it sorts last.
pub const DEFAULT_PREF: u32 = 100;

/// The properties of a jCard: the second of the pair it is.
pub open spec fn properties(vcard_array: Option<JsonView>) -> Option<Seq<JsonView>> {
    match vcard_array {
        Some(vcard) => match vcard.item(1) {
            Some(second) => second.list(),
            None => None,
        },
        None => None,
    }
}

/// The `pref` parameter of a jCard property, written as a string or as a number.
pub open spec fn preference_of(parameters: Option<JsonView>) -> u32 {
    let pref = match parameters {
        Some(parameters) => parameters.field("pref"@),
        None => None,
    };
    let given = match pref {
        Some(JsonView::Text(t)) => number::number_of_text(t, u32::MAX as nat),
        Some(JsonView::Number(Some(n))) if n <= u32::MAX => Some(n as nat),
        _ => None,
    };
    match given {
        Some(pref) => pref as u32,
        None => DEFAULT_PREF,
    }
}

/// The preference and the value of an email property. A property in another shape has
/// none: the name is first, the parameters second, and the value fourth.
pub open spec fn email_property(property: JsonView) -> Option<(u32, Seq<char>)> {
    let name = match property.item(0) {
        Some(name) => name.text(),
        None => None,
    };
    let value = match property.item(3) {
        Some(value) => value.text(),
        None => None,
    };
    if name == Some("email"@) && value is Some {
        Some((preference_of(property.item(1)), value->0))
    } else {
        None
    }
}

/// The email properties of a jCard, in document order.
pub open spec fn email_properties(list: Seq<JsonView>) -> Seq<(u32, Seq<char>)>
    decreases list.len(),
{
    if list.len() == 0 {
        Seq::<(u32, Seq<char>)>::empty()
    } else {
        let before = email_properties(list.drop_last());
        match email_property(list.last()) {
            Some(email) => before.push(email),
            None => before,
        }
    }
}

/// A list in the order of preference with one more value in its place: after every value
/// that is preferred as much or more.
pub open spec fn placed(list: Seq<(u32, Seq<char>)>, email: (u32, Seq<char>)) -> Seq<(u32, Seq<char>)>
    decreases list.len(),
{
    if list.len() == 0 || list.last().0 <= email.0 {
        list.push(email)
    } else {
        placed(list.drop_last(), email).push(list.last())
    }
}

/// The values most preferred first. Document order is kept among values of equal
/// preference.
pub open spec fn by_preference(list: Seq<(u32, Seq<char>)>) -> Seq<(u32, Seq<char>)>
    decreases list.len(),
{
    if list.len() == 0 {
        list
    } else {
        placed(by_preference(list.drop_last()), list.last())
    }
}

/// The values of a list of preferences and values.
pub open spec fn values_of(list: Seq<(u32, Seq<char>)>) -> Seq<Seq<char>> {
    list.map_values(|email: (u32, Seq<char>)| email.1)
}

/// The email values of a jCard, most preferred first.
pub open spec fn emails_of(vcard_array: Option<JsonView>) -> Seq<Seq<char>> {
    match properties(vcard_array) {
        Some(list) => values_of(by_preference(email_properties(list))),
        None => Seq::<Seq<char>>::empty(),
    }
}

/// Returns the `pref` parameter of a jCard property.
///
/// Registries write it as a string and as a number, so both are read.
pub fn preference(parameters: Option<&Json>) -> (pref: u32)
    ensures
        pref == preference_of(json::borrowed_view(parameters)),
{
    let pref = match parameters {
        Some(parameters) => parameters.field("pref"),
        None => None,
    };
    let given = match pref {
        Some(pref) => match pref.as_text() {
            Some(t) => number::read_number(text::chars_of(t).as_slice(), u32::MAX as u64),
            None => match pref.as_number() {
                Some(n) => if n <= u32::MAX as u64 {
                    Some(n)
                } else {
                    None
                },
                None => None,
            },
        },
        None => None,
    };
    match given {
        Some(pref) => pref as u32,
        None => DEFAULT_PREF,
    }
}

/// Returns the preference and the value of an email property.
fn read_property(property: &Json) -> (email: Option<(u32, &str)>)
    ensures
        email is Some <==> email_property(property@) is Some,
        email matches Some((pref, value)) ==> email_property(property@) == Some((pref, value@)),
{
    let is_email = match property.item(0) {
        Some(name) => match name.as_text() {
            Some(name) => text::same_text(name, "email"),
            None => false,
        },
        None => false,
    };
    if !is_email {
        return None;
    }
    match property.item(3) {
        Some(value) => match value.as_text() {
            Some(value) => Some((preference(property.item(1)), value)),
            None => None,
        },
        None => None,
    }
}

/// What a list of preferences and borrowed values holds.
pub open spec fn pref_views(list: Seq<(u32, &str)>) -> Seq<(u32, Seq<char>)> {
    list.map_values(|email: (u32, &str)| (email.0, email.1@))
}

/// Where a value goes in.
proof fn lemma_placed(list: Seq<(u32, Seq<char>)>, email: (u32, Seq<char>), at: int)
    requires
        0 <= at <= list.len(),
        forall|k: int| at <= k < list.len() ==> (#[trigger] list[k]).0 > email.0,
        at > 0 ==> list[at - 1].0 <= email.0,
    ensures
        placed(list, email) == list.insert(at, email),
    decreases list.len(),
{
    if at < list.len() {
        let short = list.drop_last();
        assert(list.last() == list[list.len() - 1]);
        assert forall|k: int| at <= k < short.len() implies (#[trigger] short[k]).0 > email.0 by {
            assert(short[k] == list[k]);
        }
        lemma_placed(short, email, at);
        assert(short.insert(at, email).push(list.last()) =~= list.insert(at, email));
    } else {
        assert(list.push(email) =~= list.insert(at, email));
    }
}

/// Reads the email values out of a jCard, most preferred first.
///
/// jCard is a pair: the string `vcard`, then the properties. Each property is an
/// array where the name is first, the parameters second, and the value fourth, as in
/// `["email", {"pref": "1"}, "text", "abuse@example.com"]`. A property in another
/// shape is skipped rather than read by position, because position is all jCard
/// gives.
///
/// One registry lists a help desk and an abuse mailbox on the same entity and marks
/// the abuse mailbox `pref: 1`. Reading in document order gives the help desk, so the
/// values come back in preference order instead.
pub fn emails(vcard_array: Option<&Json>) -> (values: Vec<&str>)
    ensures
        text::strs_view(values@) == emails_of(json::borrowed_view(vcard_array)),
{
    let second = match vcard_array {
        Some(vcard) => vcard.item(1),
        None => None,
    };
    let list = match second {
        Some(second) => second.as_list(),
        None => None,
    };
    let mut values: Vec<&str> = Vec::new();
    assert(text::strs_view(values@) =~= Seq::<Seq<char>>::empty());
    let list = match list {
        Some(list) => list,
        None => return values,
    };
    let ghost all = json::json_views(list@);
    let mut found: Vec<(u32, &str)> = Vec::new();
    let mut i: usize = 0;
    assert(pref_views(found@) =~= Seq::<(u32, Seq<char>)>::empty());
    while i < list.len()
        invariant
            i <= list@.len(),
            all == json::json_views(list@),
            pref_views(found@) == by_preference(email_properties(all.take(i as int))),
        decreases list@.len() - i,
    {
        proof {
            assert(all.take(i + 1).drop_last() =~= all.take(i as int));
            assert(all.take(i + 1).last() == list@[i as int]@);
        }
        if let Some((pref, value)) = read_property(&list[i]) {
            let ghost before = pref_views(found@);
            let mut at: usize = found.len();
            while at > 0 && found[at - 1].0 > pref
                invariant
                    at <= found@.len(),
                    forall|k: int| at <= k < found@.len() ==> (#[trigger] found@[k]).0 > pref,
                decreases at,
            {
                at -= 1;
            }
            proof {
                assert forall|k: int| at <= k < before.len() implies (#[trigger] before[k]).0 > pref by {
                    assert(before[k].0 == found@[k].0);
                }
                if at > 0 {
                    assert(before[at - 1].0 == found@[at - 1].0);
                }
                lemma_placed(before, (pref, value@), at as int);
                let shown = email_properties(all.take(i + 1));
                assert(shown.drop_last() =~= email_properties(all.take(i as int)));
                assert(shown.last() == (pref, value@));
            }
            found.insert(at, (pref, value));
            assert(pref_views(found@) =~= before.insert(at as int, (pref, value@)));
        }
        i += 1;
    }
    assert(all.take(i as int) =~= all);
    let ghost sorted = pref_views(found@);
    let mut k: usize = 0;
    while k < found.len()
        invariant
            k <= found@.len(),
            sorted == pref_views(found@),
            text::strs_view(values@) == values_of(sorted).take(k as int),
        decreases found@.len() - k,
    {
        let ghost before = text::strs_view(values@);
        values.push(found[k].1);
        assert(text::strs_view(values@) =~= before.push(found@[k as int].1@));
        assert(values_of(sorted).take(k + 1) =~= before.push(found@[k as int].1@));
        k += 1;
    }
    assert(values_of(sorted).take(k as int) =~= values_of(sorted));
    values
}

// --- Contacts in a record ----------------------------------------------------

/// The role an entity carries when it accepts abuse reports.
pub const ABUSE_ROLE: &'static str = "abuse";

/// The email values of an entity with the abuse role, and of every such entity under it.
pub open spec fn entity_values(entity: EntityView) -> Seq<Seq<char>>
    decreases entity,
{
    let own = if entity.roles.contains(ABUSE_ROLE@) {
        emails_of(entity.vcard_array)
    } else {
        Seq::<Seq<char>>::empty()
    };
    own + abuse_values(entity.entities)
}

/// The email values of every entity with the abuse role, anywhere in the trees of a list
/// of entities, in document order.
pub open spec fn abuse_values(entities: Seq<EntityView>) -> Seq<Seq<char>>
    decreases entities,
{
    if entities.len() == 0 {
        Seq::<Seq<char>>::empty()
    } else {
        abuse_values(entities.drop_last()) + entity_values(entities.last())
    }
}

/// The abuse contacts of a list of entities, in document order, repeats included.
pub open spec fn collected(entities: Seq<EntityView>, scope: Scope, server: Seq<char>) -> Seq<ContactView> {
    dns::contacts_of(abuse_values(entities), scope, SourceView::Rdap { server })
}

/// The abuse contacts of a list of entities, each address one time, where it comes first.
pub open spec fn contacts_in(entities: Seq<EntityView>, scope: Scope, server: Seq<char>) -> Seq<ContactView> {
    list::distinct_by(collected(entities, scope, server), |contact: ContactView| contact.email)
}

/// Returns whether an entity carries the abuse role.
fn has_abuse_role(roles: &Vec<String>) -> (has: bool)
    ensures
        has == text::texts_view(roles@).contains(ABUSE_ROLE@),
{
    let ghost all = text::texts_view(roles@);
    let mut i: usize = 0;
    while i < roles.len()
        invariant
            i <= roles@.len(),
            all == text::texts_view(roles@),
            forall|k: int| 0 <= k < i ==> all[k] != ABUSE_ROLE@,
        decreases roles@.len() - i,
    {
        assert(all[i as int] == roles@[i as int]@);
        if text::same_text(roles[i].as_str(), ABUSE_ROLE) {
            assert(all[i as int] == ABUSE_ROLE@);
            return true;
        }
        i += 1;
    }
    false
}

/// Adds the contacts of one entity, when it carries the abuse role.
fn add_own(entity: &Entity, scope: Scope, source: &Source, out: &mut Vec<Contact>)
    ensures
        contact::contact_views(final(out)@) == contact::contact_views(old(out)@) + dns::contacts_of(
            (if entity@.roles.contains(ABUSE_ROLE@) {
                emails_of(entity@.vcard_array)
            } else {
                Seq::<Seq<char>>::empty()
            }),
            scope,
            source@,
        ),
{
    let ghost before = contact::contact_views(out@);
    if !has_abuse_role(&entity.roles) {
        assert(before + dns::contacts_of(Seq::<Seq<char>>::empty(), scope, source@) =~= before);
        return;
    }
    let values = emails(entity.vcard_array.as_ref());
    let ghost all = text::strs_view(values@);
    let mut i: usize = 0;
    assert(before + dns::contacts_of(all.take(0), scope, source@) =~= before);
    while i < values.len()
        invariant
            i <= values@.len(),
            all == text::strs_view(values@),
            contact::contact_views(out@) == before + dns::contacts_of(all.take(i as int), scope, source@),
        decreases values@.len() - i,
    {
        let ghost now = contact::contact_views(out@);
        proof {
            assert(all.take(i + 1).drop_last() =~= all.take(i as int));
            assert(all.take(i + 1).last() == values@[i as int]@);
        }
        dns::add_contact(values[i], scope, source, out);
        assert(contact::contact_views(out@) =~= before + dns::contacts_of(all.take(i + 1), scope, source@));
        i += 1;
    }
    assert(all.take(i as int) =~= all);
}

/// Walks the entity tree and collects the addresses of every entity with the abuse
/// role.
pub fn collect(entities: &[Entity], scope: Scope, server: &str, out: &mut Vec<Contact>)
    ensures
        contact::contact_views(final(out)@) == contact::contact_views(old(out)@) + collected(
            entity_views(entities@),
            scope,
            server@,
        ),
    decreases entities@,
{
    let ghost before = contact::contact_views(out@);
    let ghost all = entity_views(entities@);
    let ghost rdap = SourceView::Rdap { server: server@ };
    let source = Source::Rdap { server: server.to_owned() };
    let mut i: usize = 0;
    assert(before + dns::contacts_of(abuse_values(all.take(0)), scope, rdap) =~= before);
    while i < entities.len()
        invariant
            i <= entities@.len(),
            all == entity_views(entities@),
            rdap == (SourceView::Rdap { server: server@ }),
            source@ == rdap,
            contact::contact_views(out@) == before + dns::contacts_of(
                abuse_values(all.take(i as int)),
                scope,
                rdap,
            ),
        decreases entities@.len() - i,
    {
        let entity = &entities[i];
        let ghost walked = abuse_values(all.take(i as int));
        let ghost own = if entity@.roles.contains(ABUSE_ROLE@) {
            emails_of(entity@.vcard_array)
        } else {
            Seq::<Seq<char>>::empty()
        };
        let ghost under = abuse_values(entity@.entities);
        add_own(entity, scope, &source, out);
        proof {
            assert(entity@.entities =~= entity_views(entity.entities@));
            assert(decreases_to!(entities@ => entities@[i as int].entities@));
        }
        collect(entity.entities.as_slice(), scope, server, out);
        proof {
            dns::lemma_contacts_of_add(own, under, scope, rdap);
            dns::lemma_contacts_of_add(walked, own + under, scope, rdap);
            assert(all.take(i + 1).drop_last() =~= all.take(i as int));
            assert(all.take(i + 1).last() == entity@);
            assert(entity_values(entity@) == own + under);
            assert(contact::contact_views(out@) =~= before + dns::contacts_of(
                walked + (own + under),
                scope,
                rdap,
            ));
        }
        i += 1;
    }
    assert(all.take(i as int) =~= all);
}

/// Reads an address out of a JSON value, when the value is a string that holds one.
pub open spec fn address_of(value: Option<JsonView>) -> Option<IpAddr> {
    match value {
        Some(JsonView::Text(t)) => addr::ip_of_text(t),
        _ => None,
    }
}

/// Reads an address out of a JSON value, when the value is a string that holds one.
pub fn address(value: &Json) -> (ip: Option<IpAddr>)
    ensures
        ip == address_of(Some(value@)),
{
    match value.as_text() {
        Some(t) => IpAddr::parse(t),
        None => None,
    }
}

/// The addresses a network covers, when the record gives a range that can be read.
pub open spec fn range_of(response: ResponseView) -> Option<IpRange> {
    match (address_of(response.start_address), address_of(response.end_address)) {
        (Some(start), Some(end)) => if (IpRange { start, end }).wf() {
            Some(IpRange { start, end })
        } else {
            None
        },
        _ => None,
    }
}

/// The target of the first link that points at the registrar.
pub open spec fn related_of(links: Seq<LinkView>) -> Option<Seq<char>>
    decreases links.len(),
{
    if links.len() == 0 {
        None
    } else if links[0].rel == Some("related"@) {
        links[0].href
    } else {
        related_of(links.drop_first())
    }
}

/// The characters of a borrowed text, when there is one.
pub open spec fn str_view(t: Option<&str>) -> Option<Seq<char>> {
    match t {
        Some(t) => Some(t@),
        None => None,
    }
}

impl Response {
    /// Returns the addresses the network covers, on an IP record.
    ///
    /// Returns `None` when the record gives no range, or a range that cannot be read:
    /// an end that is not an address, two ends in different families, or an end
    /// before the start.
    pub fn range(&self) -> (range: Option<IpRange>)
        ensures
            range == range_of(self@),
    {
        let start = match &self.start_address {
            Some(value) => address(value),
            None => None,
        };
        let end = match &self.end_address {
            Some(value) => address(value),
            None => None,
        };
        match (start, end) {
            (Some(start), Some(end)) => IpRange::new(start, end),
            _ => None,
        }
    }

    /// Returns the registrar record for a domain, when the registry names one.
    ///
    /// The registry record usually carries the abuse address of the registrar, under
    /// the registrar entity. Read the registrar record when you want the details the
    /// registry leaves out, such as the abuse telephone number. It is a second
    /// request, so make it only when you need it.
    pub fn related_href(&self) -> (href: Option<&str>)
        ensures
            str_view(href) == related_of(self@.links),
    {
        let ghost all = link_views(self.links@);
        let mut i: usize = 0;
        assert(all.skip(0) =~= all);
        while i < self.links.len()
            invariant
                i <= self.links@.len(),
                all == link_views(self.links@),
                related_of(self@.links) == related_of(all.skip(i as int)),
            decreases self.links@.len() - i,
        {
            let link = &self.links[i];
            assert(all[i as int] == link@);
            let related = match &link.rel {
                Some(rel) => text::same_text(rel.as_str(), "related"),
                None => false,
            };
            if related {
                return match &link.href {
                    Some(href) => Some(href.as_str()),
                    None => None,
                };
            }
            assert(all.skip(i as int).drop_first() =~= all.skip(i + 1));
            i += 1;
        }
        None
    }

    /// Returns every abuse contact in the response, each one time.
    ///
    /// A value that is not an address, or that is a registry placeholder, is dropped.
    ///
    /// One registry puts the same abuse entity at the top level and again under the
    /// registrant, so a walk of the tree finds it twice. The repeat says nothing, and
    /// this method drops it.
    pub fn abuse_contacts(&self, scope: Scope, server: &str) -> (contacts: Vec<Contact>)
        ensures
            contact::contact_views(contacts@) == contacts_in(self@.entities, scope, server@),
    {
        let mut found: Vec<Contact> = Vec::new();
        assert(contact::contact_views(found@) =~= Seq::<ContactView>::empty());
        collect(self.entities.as_slice(), scope, server, &mut found);
        let ghost all = collected(self@.entities, scope, server@);
        let ghost key = |contact: ContactView| contact.email;
        assert(contact::contact_views(found@) =~= all);
        let mut contacts: Vec<Contact> = Vec::new();
        let mut i: usize = 0;
        assert(contact::contact_views(contacts@) =~= Seq::<ContactView>::empty());
        while i < found.len()
            invariant
                i <= found@.len(),
                contact::contact_views(found@) == all,
                key == (|contact: ContactView| contact.email),
                contact::contact_views(contacts@) == list::distinct_by(all.take(i as int), key),
            decreases found@.len() - i,
        {
            let ghost before = contact::contact_views(contacts@);
            proof {
                assert(all.take(i + 1).drop_last() =~= all.take(i as int));
                assert(all.take(i + 1).last() == found@[i as int]@);
            }
            if !has_address(&contacts, &found[i]) {
                contacts.push(found[i].clone());
                assert(contact::contact_views(contacts@) =~= before.push(found@[i as int]@));
            }
            i += 1;
        }
        assert(all.take(i as int) =~= all);
        contacts
    }
}

/// Returns whether a contact of the list has the address of this one.
fn has_address(contacts: &Vec<Contact>, contact: &Contact) -> (has: bool)
    ensures
        has == list::has_key(
            contact::contact_views(contacts@),
            |contact: ContactView| contact.email,
            contact@.email,
        ),
{
    let ghost all = contact::contact_views(contacts@);
    let ghost key = |contact: ContactView| contact.email;
    let mut i: usize = 0;
    while i < contacts.len()
        invariant
            i <= contacts@.len(),
            all == contact::contact_views(contacts@),
            key == (|contact: ContactView| contact.email),
            forall|k: int| 0 <= k < i ==> key(#[trigger] all[k]) != contact@.email,
        decreases contacts@.len() - i,
    {
        assert(all[i as int] == contacts@[i as int]@);
        if text::same_text(contacts[i].email.as_str(), contact.email.as_str()) {
            assert(key(all[i as int]) == contact@.email);
            return true;
        }
        i += 1;
    }
    false
}

// --- What the reading of a record promises -----------------------------------

/// Whether an entity sits in the trees of a list of entities, at any depth.
pub open spec fn in_tree(entities: Seq<EntityView>, wanted: EntityView) -> bool
    decreases entities,
{
    exists|i: int|
        #![trigger entities[i]]
        0 <= i < entities.len() && (entities[i] == wanted || in_tree(entities[i].entities, wanted))
}

/// Whether an entity with the abuse role, anywhere in the trees, gives this value.
pub open spec fn tree_gives(entities: Seq<EntityView>, value: Seq<char>) -> bool {
    exists|entity: EntityView|
        #[trigger] in_tree(entities, entity) && entity.roles.contains("abuse"@) && emails_of(
            entity.vcard_array,
        ).contains(value)
}

/// What one entity of a list gives, the list gives.
proof fn lemma_list_has(entities: Seq<EntityView>, i: int, value: Seq<char>)
    requires
        0 <= i < entities.len(),
        entity_values(entities[i]).contains(value),
    ensures
        abuse_values(entities).contains(value),
    decreases entities.len(),
{
    let before = abuse_values(entities.drop_last());
    let last = entity_values(entities.last());
    let after = abuse_values(entities);
    assert(after == before + last);
    if i < entities.len() - 1 {
        assert(entities.drop_last()[i] == entities[i]);
        lemma_list_has(entities.drop_last(), i, value);
        let k = choose|k: int| 0 <= k < before.len() && before[k] == value;
        assert(after[k] == value);
    } else {
        let k = choose|k: int| 0 <= k < last.len() && last[k] == value;
        assert(after[before.len() + k] == value);
    }
}

/// What an abuse entity of a tree gives, the walk of the tree finds.
proof fn lemma_walk_finds(entities: Seq<EntityView>, entity: EntityView, value: Seq<char>)
    requires
        in_tree(entities, entity),
        entity.roles.contains("abuse"@),
        emails_of(entity.vcard_array).contains(value),
    ensures
        abuse_values(entities).contains(value),
    decreases entities,
{
    let i = choose|i: int|
        #![trigger entities[i]]
        0 <= i < entities.len() && (entities[i] == entity || in_tree(entities[i].entities, entity));
    let top = entities[i];
    let own = if top.roles.contains("abuse"@) {
        emails_of(top.vcard_array)
    } else {
        Seq::<Seq<char>>::empty()
    };
    let under = abuse_values(top.entities);
    assert(entity_values(top) == own + under);
    if top == entity {
        let k = choose|k: int| 0 <= k < own.len() && own[k] == value;
        assert((own + under)[k] == value);
    } else {
        lemma_walk_finds(top.entities, entity, value);
        let k = choose|k: int| 0 <= k < under.len() && under[k] == value;
        assert((own + under)[own.len() + k] == value);
    }
    lemma_list_has(entities, i, value);
}

/// What a tree of a longer list gives includes what the shorter list gives.
proof fn lemma_longer_list_gives(entities: Seq<EntityView>, value: Seq<char>)
    requires
        entities.len() > 0,
        tree_gives(entities.drop_last(), value),
    ensures
        tree_gives(entities, value),
{
    let short = entities.drop_last();
    let entity = choose|entity: EntityView|
        #[trigger] in_tree(short, entity) && entity.roles.contains("abuse"@) && emails_of(
            entity.vcard_array,
        ).contains(value);
    let i = choose|i: int|
        #![trigger short[i]]
        0 <= i < short.len() && (short[i] == entity || in_tree(short[i].entities, entity));
    assert(entities[i] == short[i]);
    assert(in_tree(entities, entity));
}

/// What the walk of a tree finds, an abuse entity of the tree gives.
proof fn lemma_walk_is_sound(entities: Seq<EntityView>, k: int)
    requires
        0 <= k < abuse_values(entities).len(),
    ensures
        tree_gives(entities, abuse_values(entities)[k]),
    decreases entities,
{
    let value = abuse_values(entities)[k];
    if entities.len() > 0 {
        let before = abuse_values(entities.drop_last());
        let top = entities.last();
        assert(top == entities[entities.len() - 1]);
        let own = if top.roles.contains("abuse"@) {
            emails_of(top.vcard_array)
        } else {
            Seq::<Seq<char>>::empty()
        };
        let under = abuse_values(top.entities);
        assert(entity_values(top) == own + under);
        assert(abuse_values(entities) == before + (own + under));
        if k < before.len() {
            lemma_walk_is_sound(entities.drop_last(), k);
            lemma_longer_list_gives(entities, value);
        } else if k < before.len() + own.len() {
            assert(own[k - before.len()] == value);
            assert(in_tree(entities, top));
        } else {
            let n = k - before.len() - own.len();
            assert(under[n] == value);
            assert(decreases_to!(entities => entities[entities.len() - 1].entities));
            lemma_walk_is_sound(top.entities, n);
            let entity = choose|entity: EntityView|
                #[trigger] in_tree(top.entities, entity) && entity.roles.contains("abuse"@) && emails_of(
                    entity.vcard_array,
                ).contains(value);
            assert(in_tree(entities, entity));
        }
    }
}

/// Whether a list of contacts has this address.
pub open spec fn lists_address(contacts: Seq<ContactView>, email: Seq<char>) -> bool {
    exists|i: int| 0 <= i < contacts.len() && (#[trigger] contacts[i]).email == email
}

/// The abuse contact is found wherever it sits: an address that an entity with the abuse
/// role gives, at any depth of the tree, is among the contacts.
pub proof fn law_whole_tree_is_read(
    entities: Seq<EntityView>,
    entity: EntityView,
    value: Seq<char>,
    scope: Scope,
    server: Seq<char>,
)
    requires
        in_tree(entities, entity),
        entity.roles.contains("abuse"@),
        emails_of(entity.vcard_array).contains(value),
        contact::email_of_text(value) is Ok,
    ensures
        lists_address(contacts_in(entities, scope, server), contact::email_of_text(value)->Ok_0),
{
    let email = contact::email_of_text(value)->Ok_0;
    let values = abuse_values(entities);
    let source = SourceView::Rdap { server };
    let all = collected(entities, scope, server);
    let key = |contact: ContactView| contact.email;
    lemma_walk_finds(entities, entity, value);
    let n = choose|n: int| 0 <= n < values.len() && values[n] == value;
    dns::law_every_address_is_read(values, n, scope, source);
    let m = choose|m: int| 0 <= m < all.len() && all[m] == (ContactView { email, scope, source });
    list::lemma_distinct_by(all, key);
    assert(list::has_key(list::distinct_by(all, key), key, key(all[m])));
    let kept = list::distinct_by(all, key);
    let k = choose|k: int| 0 <= k < kept.len() && key(#[trigger] kept[k]) == email;
    assert(contacts_in(entities, scope, server)[k].email == email);
}

/// Every contact is the address of an entity with the abuse role, in the scope asked for
/// and from the server that answered.
pub proof fn law_contacts_come_from_abuse_entities(
    entities: Seq<EntityView>,
    scope: Scope,
    server: Seq<char>,
    k: int,
)
    requires
        0 <= k < contacts_in(entities, scope, server).len(),
    ensures
        ({
            let contact = contacts_in(entities, scope, server)[k];
            &&& contact.scope == scope
            &&& contact.source == (SourceView::Rdap { server })
            &&& exists|value: Seq<char>|
                #[trigger] tree_gives(entities, value) && contact::email_of_text(value) == Ok::<
                    Seq<char>,
                    ValidationErrorView,
                >(contact.email)
        }),
{
    let values = abuse_values(entities);
    let all = collected(entities, scope, server);
    let key = |contact: ContactView| contact.email;
    let kept = list::distinct_by(all, key);
    list::lemma_distinct_by(all, key);
    assert(all.contains(kept[k]));
    let m = choose|m: int| 0 <= m < all.len() && all[m] == kept[k];
    dns::law_contacts_come_from_values(values, m, scope, SourceView::Rdap { server });
    let i = choose|i: int|
        0 <= i < values.len() && contact::email_of_text(#[trigger] values[i]) == Ok::<
            Seq<char>,
            ValidationErrorView,
        >(kept[k].email);
    lemma_walk_is_sound(entities, i);
    assert(tree_gives(entities, values[i]));
}

/// Each address is given one time, however often the tree repeats it.
pub proof fn law_each_address_one_time(
    entities: Seq<EntityView>,
    scope: Scope,
    server: Seq<char>,
    i: int,
    j: int,
)
    requires
        0 <= i < j < contacts_in(entities, scope, server).len(),
    ensures
        contacts_in(entities, scope, server)[i].email != contacts_in(entities, scope, server)[j].email,
{
    let all = collected(entities, scope, server);
    let key = |contact: ContactView| contact.email;
    list::lemma_distinct_by(all, key);
    let kept = list::distinct_by(all, key);
    assert(key(kept[i]) != key(kept[j]));
}

/// Whether values are most preferred first.
pub open spec fn in_preference(list: Seq<(u32, Seq<char>)>) -> bool {
    forall|i: int, j: int| 0 <= i < j < list.len() ==> (#[trigger] list[i]).0 <= (#[trigger] list[j]).0
}

/// The values of one preference.
pub open spec fn of_preference(list: Seq<(u32, Seq<char>)>, pref: u32) -> Seq<(u32, Seq<char>)> {
    list.filter(|email: (u32, Seq<char>)| email.0 == pref)
}

/// The values of one preference, with one more value.
proof fn lemma_of_preference_push(list: Seq<(u32, Seq<char>)>, email: (u32, Seq<char>), pref: u32)
    ensures
        of_preference(list.push(email), pref) == (if email.0 == pref {
            of_preference(list, pref).push(email)
        } else {
            of_preference(list, pref)
        }),
{
    reveal(Seq::filter);
    assert(list.push(email).drop_last() =~= list);
}

/// Putting a value in its place keeps the order, and adds the value after the others of
/// its preference.
proof fn lemma_placed_keeps_order(list: Seq<(u32, Seq<char>)>, email: (u32, Seq<char>), pref: u32)
    requires
        in_preference(list),
    ensures
        in_preference(placed(list, email)),
        placed(list, email).len() == list.len() + 1,
        list.len() > 0 && list.last().0 > email.0 ==> placed(list, email).last() == list.last(),
        list.len() == 0 || list.last().0 <= email.0 ==> placed(list, email).last() == email,
        of_preference(placed(list, email), pref) == of_preference(list.push(email), pref),
    decreases list.len(),
{
    let after = placed(list, email);
    if list.len() > 0 && list.last().0 > email.0 {
        let short = list.drop_last();
        let inner = placed(short, email);
        assert(list.last() == list[list.len() - 1]);
        assert forall|i: int, j: int| 0 <= i < j < short.len() implies (#[trigger] short[i]).0
            <= (#[trigger] short[j]).0 by {
            assert(short[i] == list[i] && short[j] == list[j]);
        }
        lemma_placed_keeps_order(short, email, pref);
        assert(inner.last().0 <= list.last().0) by {
            if short.len() > 0 {
                assert(short.last() == list[list.len() - 2]);
            }
        }
        assert forall|i: int, j: int| 0 <= i < j < after.len() implies (#[trigger] after[i]).0
            <= (#[trigger] after[j]).0 by {
            if j < inner.len() {
                assert(after[i] == inner[i] && after[j] == inner[j]);
            } else {
                assert(after[i] == inner[i]);
                if i < inner.len() - 1 {
                    assert(inner[i].0 <= inner[inner.len() - 1].0);
                }
            }
        }
        // The two differ in where the last two stand, and those have different
        // preferences.
        lemma_of_preference_push(inner, list.last(), pref);
        lemma_of_preference_push(short, email, pref);
        lemma_of_preference_push(short, list.last(), pref);
        lemma_of_preference_push(list, email, pref);
        assert(short.push(list.last()) =~= list);
    } else {
        assert forall|i: int, j: int| 0 <= i < j < after.len() implies (#[trigger] after[i]).0
            <= (#[trigger] after[j]).0 by {
            if j < list.len() {
                assert(after[i] == list[i] && after[j] == list[j]);
            } else {
                assert(after[i] == list[i]);
                assert(list.last() == list[list.len() - 1]);
            }
        }
    }
}

/// The values come most preferred first, and the values of one preference are those of
/// the list, in document order.
pub proof fn law_preference_order(list: Seq<(u32, Seq<char>)>, pref: u32)
    ensures
        in_preference(by_preference(list)),
        by_preference(list).len() == list.len(),
        of_preference(by_preference(list), pref) == of_preference(list, pref),
    decreases list.len(),
{
    if list.len() > 0 {
        let short = list.drop_last();
        let sorted = by_preference(short);
        let last = list.last();
        law_preference_order(short, pref);
        lemma_placed_keeps_order(sorted, last, pref);
        lemma_of_preference_push(sorted, last, pref);
        lemma_of_preference_push(short, last, pref);
        assert(short.push(last) =~= list);
    }
}

/// A record gives a range exactly when both of its ends are strings that spell addresses
/// of one family, and the first is not the higher number. The range has those ends.
pub proof fn law_range_is_in_order(response: ResponseView)
    ensures
        range_of(response) is Some <==> exists|start: Seq<char>, end: Seq<char>|
            response.start_address == Some(JsonView::Text(start)) && response.end_address == Some(
                JsonView::Text(end),
            ) && match (#[trigger] addr::ip_of_text(start), #[trigger] addr::ip_of_text(end)) {
                (Some(IpAddr::V4(a)), Some(IpAddr::V4(b))) => a.bits <= b.bits,
                (Some(IpAddr::V6(a)), Some(IpAddr::V6(b))) => a.bits <= b.bits,
                _ => false,
            },
        range_of(response) matches Some(range) ==> exists|start: Seq<char>, end: Seq<char>|
            response.start_address == Some(JsonView::Text(start)) && response.end_address == Some(
                JsonView::Text(end),
            ) && #[trigger] addr::ip_of_text(start) == Some(range.start) && #[trigger] addr::ip_of_text(end)
                == Some(range.end),
        range_of(response) matches Some(range) ==> range.wf(),
{
    if let (Some(JsonView::Text(start)), Some(JsonView::Text(end))) = (
        response.start_address,
        response.end_address,
    ) {
        assert(addr::ip_of_text(start) is Some || addr::ip_of_text(start) is None);
        assert(addr::ip_of_text(end) is Some || addr::ip_of_text(end) is None);
    }
}

/// The registrar record is the target of the first link whose relation is `related`, and
/// there is none where no link has that relation or the first one has no target.
pub proof fn law_first_related_link(links: Seq<LinkView>, i: int)
    requires
        0 <= i <= links.len(),
        forall|j: int| 0 <= j < i ==> (#[trigger] links[j]).rel != Some("related"@),
        i < links.len() ==> links[i].rel == Some("related"@),
    ensures
        i < links.len() ==> related_of(links) == links[i].href,
        i == links.len() ==> related_of(links) is None,
    decreases links.len(),
{
    if i > 0 {
        let rest = links.drop_first();
        assert forall|j: int| 0 <= j < i - 1 implies (#[trigger] rest[j]).rel != Some("related"@) by {
            assert(rest[j] == links[j + 1]);
        }
        if i < links.len() {
            assert(rest[i - 1] == links[i]);
        }
        assert(links[0].rel != Some("related"@));
        law_first_related_link(rest, i - 1);
    }
}

// --- What the reading of a jCard promises ------------------------------------

/// An email property is among the properties that were read.
proof fn lemma_property_is_read(list: Seq<JsonView>, i: int)
    requires
        0 <= i < list.len(),
        email_property(list[i]) is Some,
    ensures
        email_properties(list).contains(email_property(list[i])->0),
    decreases list.len(),
{
    let short = list.drop_last();
    let before = email_properties(short);
    let after = email_properties(list);
    let email = email_property(list[i])->0;
    if i < short.len() {
        assert(short[i] == list[i]);
        lemma_property_is_read(short, i);
        let k = choose|k: int| 0 <= k < before.len() && before[k] == email;
        assert(after[k] == email);
    } else {
        assert(after[after.len() - 1] == email);
    }
}

/// What was read is an email property.
proof fn lemma_read_is_a_property(list: Seq<JsonView>, k: int)
    requires
        0 <= k < email_properties(list).len(),
    ensures
        exists|i: int|
            0 <= i < list.len() && email_property(#[trigger] list[i]) == Some(email_properties(list)[k]),
    decreases list.len(),
{
    let short = list.drop_last();
    let before = email_properties(short);
    let after = email_properties(list);
    if k < before.len() {
        lemma_read_is_a_property(short, k);
        let i = choose|i: int| 0 <= i < short.len() && email_property(#[trigger] short[i]) == Some(before[k]);
        assert(list[i] == short[i]);
        assert(after[k] == before[k]);
    } else {
        assert(list[list.len() - 1] == list.last());
    }
}

/// Putting values in order keeps each of them, and adds none.
proof fn lemma_order_keeps(list: Seq<(u32, Seq<char>)>, email: (u32, Seq<char>))
    ensures
        by_preference(list).contains(email) <==> list.contains(email),
{
    let sorted = by_preference(list);
    let same = |other: (u32, Seq<char>)| other.0 == email.0;
    law_preference_order(list, email.0);
    assert(sorted.filter(same) == list.filter(same));
    if list.contains(email) {
        let i = choose|i: int| 0 <= i < list.len() && list[i] == email;
        list.lemma_filter_contains(same, i);
        let k = choose|k: int| 0 <= k < sorted.filter(same).len() && sorted.filter(same)[k] == email;
        list::lemma_filter_keeps(sorted, same, k);
    }
    if sorted.contains(email) {
        let i = choose|i: int| 0 <= i < sorted.len() && sorted[i] == email;
        sorted.lemma_filter_contains(same, i);
        let k = choose|k: int| 0 <= k < list.filter(same).len() && list.filter(same)[k] == email;
        list::lemma_filter_keeps(list, same, k);
    }
}

/// A property of the jCard whose first item is the text `email` and whose fourth item is a
/// text gives that text, whatever its parameters, its type and its further items are.
pub proof fn law_every_email_property_is_read(
    parts: Seq<JsonView>,
    list: Seq<JsonView>,
    i: int,
    items: Seq<JsonView>,
    value: Seq<char>,
)
    requires
        parts.len() >= 2,
        parts[1] == JsonView::List(list),
        0 <= i < list.len(),
        list[i] == JsonView::List(items),
        items.len() >= 4,
        items[0] == JsonView::Text("email"@),
        items[3] == JsonView::Text(value),
    ensures
        emails_of(Some(JsonView::List(parts))).contains(value),
{
    let found = email_properties(list);
    let sorted = by_preference(found);
    let email = email_property(list[i])->0;
    assert(email.1 == value);
    lemma_property_is_read(list, i);
    lemma_order_keeps(found, email);
    let k = choose|k: int| 0 <= k < sorted.len() && sorted[k] == email;
    assert(values_of(sorted)[k] == value);
}

/// Whether a value is the fourth item of a property named `email` in the list that is the
/// second of two parts.
pub open spec fn is_email_value(vcard: JsonView, value: Seq<char>, i: int) -> bool {
    &&& vcard is List
    &&& vcard->List_0.len() >= 2
    &&& vcard->List_0[1] is List
    &&& 0 <= i < vcard->List_0[1]->List_0.len()
    &&& {
        let property = vcard->List_0[1]->List_0[i];
        &&& property is List
        &&& property->List_0.len() >= 4
        &&& property->List_0[0] == JsonView::Text("email"@)
        &&& property->List_0[3] == JsonView::Text(value)
    }
}

/// Every email value of a jCard is the fourth item of a property named `email`, and no
/// jCard gives none.
pub proof fn law_email_values_come_from_properties(vcard: Option<JsonView>, k: int)
    requires
        0 <= k < emails_of(vcard).len(),
    ensures
        vcard is Some,
        exists|i: int| #[trigger] is_email_value(vcard->0, emails_of(vcard)[k], i),
{
    let list = properties(vcard)->0;
    let found = email_properties(list);
    let sorted = by_preference(found);
    let value = emails_of(vcard)[k];
    assert(sorted[k].1 == value);
    lemma_order_keeps(found, sorted[k]);
    let n = choose|n: int| 0 <= n < found.len() && found[n] == sorted[k];
    lemma_read_is_a_property(list, n);
    let i = choose|i: int| 0 <= i < list.len() && email_property(#[trigger] list[i]) == Some(found[n]);
    assert(is_email_value(vcard->0, value, i));
}

/// Whether a property asks for this preference: by a first parameter `pref` that is a
/// number, or a text that spells one, of at most 4294967295. A property that names none
/// asks for 100.
pub open spec fn asks_for(items: Seq<JsonView>, pref: int) -> bool {
    if items.len() >= 2 && items[1] is Object && exists|k: int|
        #[trigger] first_named(items[1]->Object_0, "pref"@, k) {
        let k = choose|k: int| #[trigger] first_named(items[1]->Object_0, "pref"@, k);
        match items[1]->Object_0[k].1 {
            JsonView::Number(Some(n)) => if n <= 4294967295 {
                pref == n
            } else {
                pref == 100
            },
            JsonView::Text(t) => match number::number_of_text(t, 4294967295) {
                Some(n) => pref == n,
                None => pref == 100,
            },
            _ => pref == 100,
        }
    } else {
        pref == 100
    }
}

/// Whether the first field of this name stands at this place.
pub open spec fn first_named(fields: Seq<(Seq<char>, JsonView)>, key: Seq<char>, k: int) -> bool {
    &&& 0 <= k < fields.len()
    &&& fields[k].0 == key
    &&& forall|j: int| 0 <= j < k ==> (#[trigger] fields[j]).0 != key
}

/// A property that asks for a preference has it.
pub proof fn law_preference_is_read(items: Seq<JsonView>, pref: int)
    requires
        asks_for(items, pref),
    ensures
        preference_of(
            (if items.len() >= 2 {
                Some(items[1])
            } else {
                None
            }),
        ) == pref,
{
    if items.len() >= 2 && items[1] is Object {
        let fields = items[1]->Object_0;
        if exists|k: int| #[trigger] first_named(fields, "pref"@, k) {
            let k = choose|k: int| #[trigger] first_named(fields, "pref"@, k);
            json::law_first_field(fields, "pref"@, k);
        } else {
            assert forall|j: int| 0 <= j < fields.len() implies (#[trigger] fields[j]).0 != "pref"@ by {
                if fields[j].0 == "pref"@ {
                    json::lemma_first_field_at(fields, "pref"@, j);
                    let k = choose|k: int|
                        0 <= k < fields.len() && fields[k].0 == "pref"@ && forall|m: int|
                            0 <= m < k ==> (#[trigger] fields[m]).0 != "pref"@;
                    assert(first_named(fields, "pref"@, k));
                }
            }
            json::law_first_field(fields, "pref"@, fields.len() as int);
        }
    }
}

/// Where a value is put: after those preferred as much or more, before the others.
proof fn lemma_placed_where(list: Seq<(u32, Seq<char>)>, email: (u32, Seq<char>)) -> (at: int)
    requires
        in_preference(list),
    ensures
        0 <= at <= list.len(),
        placed(list, email) == list.insert(at, email),
        forall|k: int| 0 <= k < at ==> (#[trigger] list[k]).0 <= email.0,
        forall|k: int| at <= k < list.len() ==> (#[trigger] list[k]).0 > email.0,
    decreases list.len(),
{
    if list.len() == 0 || list.last().0 <= email.0 {
        assert(list.push(email) =~= list.insert(list.len() as int, email));
        assert forall|k: int| 0 <= k < list.len() implies (#[trigger] list[k]).0 <= email.0 by {
            if k < list.len() - 1 {
                assert(list[k].0 <= list[list.len() - 1].0);
            }
        }
        list.len() as int
    } else {
        let short = list.drop_last();
        assert forall|i: int, j: int| 0 <= i < j < short.len() implies (#[trigger] short[i]).0
            <= (#[trigger] short[j]).0 by {
            assert(short[i] == list[i] && short[j] == list[j]);
        }
        let at = lemma_placed_where(short, email);
        assert(short.insert(at, email).push(list.last()) =~= list.insert(at, email));
        assert forall|k: int| 0 <= k < at implies (#[trigger] list[k]).0 <= email.0 by {
            assert(short[k] == list[k]);
        }
        assert forall|k: int| at <= k < list.len() implies (#[trigger] list[k]).0 > email.0 by {
            if k < short.len() {
                assert(short[k] == list[k]);
            }
        }
        at
    }
}

/// Whether one value stands before another in a list.
pub open spec fn stands_before<T>(list: Seq<T>, one: T, other: T) -> bool {
    exists|a: int, b: int| 0 <= a < b < list.len() && #[trigger] list[a] == one && #[trigger] list[b] == other
}

/// Of two values, the one preferred more comes first, and of two preferred as much, the
/// one that stands first in the document.
proof fn lemma_order_of_two(list: Seq<(u32, Seq<char>)>, i: int, j: int)
    requires
        0 <= i < list.len(),
        0 <= j < list.len(),
        list[i].0 < list[j].0 || (list[i].0 == list[j].0 && i < j),
    ensures
        stands_before(by_preference(list), list[i], list[j]),
    decreases list.len(),
{
    let short = list.drop_last();
    let before = by_preference(short);
    let last = list.last();
    let after = by_preference(list);
    law_preference_order(short, 0);
    let at = lemma_placed_where(before, last);
    assert(after == before.insert(at, last));
    assert(after[at] == last);
    if i < short.len() && j < short.len() {
        assert(short[i] == list[i] && short[j] == list[j]);
        lemma_order_of_two(short, i, j);
        let (a, b) = choose|a: int, b: int|
            0 <= a < b < before.len() && #[trigger] before[a] == list[i] && #[trigger] before[b] == list[j];
        let x = if a < at {
            a
        } else {
            a + 1
        };
        let y = if b < at {
            b
        } else {
            b + 1
        };
        assert(after[x] == list[i]);
        assert(after[y] == list[j]);
    } else if i < short.len() {
        assert(short[i] == list[i]);
        assert(short.contains(list[i]));
        lemma_order_keeps(short, list[i]);
        let a = choose|a: int| 0 <= a < before.len() && before[a] == list[i];
        assert(a < at);
        assert(after[a] == list[i]);
    } else {
        assert(short[j] == list[j]);
        assert(short.contains(list[j]));
        lemma_order_keeps(short, list[j]);
        let b = choose|b: int| 0 <= b < before.len() && before[b] == list[j];
        assert(b >= at);
        assert(after[b + 1] == list[j]);
    }
}

/// Email properties keep their order when they are read.
proof fn lemma_properties_in_order(list: Seq<JsonView>, i: int, j: int)
    requires
        0 <= i < j < list.len(),
        email_property(list[i]) is Some,
        email_property(list[j]) is Some,
    ensures
        stands_before(email_properties(list), email_property(list[i])->0, email_property(list[j])->0),
    decreases list.len(),
{
    let short = list.drop_last();
    let before = email_properties(short);
    let after = email_properties(list);
    let one = email_property(list[i])->0;
    let other = email_property(list[j])->0;
    assert(short[i] == list[i]);
    if j < short.len() {
        assert(short[j] == list[j]);
        lemma_properties_in_order(short, i, j);
        let (a, b) = choose|a: int, b: int|
            0 <= a < b < before.len() && #[trigger] before[a] == one && #[trigger] before[b] == other;
        assert(after[a] == one);
        assert(after[b] == other);
    } else {
        lemma_property_is_read(short, i);
        let a = choose|a: int| 0 <= a < before.len() && before[a] == one;
        assert(after[a] == one);
        assert(after[after.len() - 1] == other);
    }
}

/// Of two email properties, the value of the one that asks for the lower preference comes
/// first, and of two that ask for the same, the value of the one that stands first.
pub proof fn law_preferred_value_comes_first(
    parts: Seq<JsonView>,
    i: int,
    j: int,
    one: Seq<char>,
    other: Seq<char>,
    low: int,
    high: int,
)
    requires
        is_email_value(JsonView::List(parts), one, i),
        is_email_value(JsonView::List(parts), other, j),
        asks_for(parts[1]->List_0[i]->List_0, low),
        asks_for(parts[1]->List_0[j]->List_0, high),
        low < high || (low == high && i < j),
    ensures
        stands_before(emails_of(Some(JsonView::List(parts))), one, other),
{
    let list = parts[1]->List_0;
    let found = email_properties(list);
    let sorted = by_preference(found);
    law_preference_is_read(list[i]->List_0, low);
    law_preference_is_read(list[j]->List_0, high);
    let x = email_property(list[i])->0;
    let y = email_property(list[j])->0;
    assert(x == (low as u32, one));
    assert(y == (high as u32, other));
    if low < high {
        lemma_property_is_read(list, i);
        lemma_property_is_read(list, j);
        let a = choose|a: int| 0 <= a < found.len() && found[a] == x;
        let b = choose|b: int| 0 <= b < found.len() && found[b] == y;
        lemma_order_of_two(found, a, b);
    } else {
        lemma_properties_in_order(list, i, j);
        let (a, b) = choose|a: int, b: int|
            0 <= a < b < found.len() && #[trigger] found[a] == x && #[trigger] found[b] == y;
        lemma_order_of_two(found, a, b);
    }
    let (a, b) = choose|a: int, b: int|
        0 <= a < b < sorted.len() && #[trigger] sorted[a] == x && #[trigger] sorted[b] == y;
    let values = emails_of(Some(JsonView::List(parts)));
    assert(values[a] == one);
    assert(values[b] == other);
}

/// Each email property gives one value: one more property gives one more value when it is
/// an email property, and else changes nothing.
pub proof fn law_each_property_counts_once(kind: JsonView, list: Seq<JsonView>, property: JsonView)
    ensures
        ({
            let before = emails_of(Some(JsonView::List(seq![kind, JsonView::List(list)])));
            let after = emails_of(Some(JsonView::List(seq![kind, JsonView::List(list.push(property))])));
            if property is List && property->List_0.len() >= 4 && property->List_0[0] == JsonView::Text(
                "email"@,
            ) && property->List_0[3] is Text {
                after.len() == before.len() + 1
            } else {
                after == before
            }
        }),
{
    let longer = list.push(property);
    assert(longer.drop_last() =~= list);
    law_preference_order(email_properties(list), 0);
    law_preference_order(email_properties(longer), 0);
}

// --- From a jCard to a contact -----------------------------------------------

/// An address in the jCard of an entity with the role `abuse`, at any depth of a record, is
/// among the contacts of the record.
pub proof fn law_jcard_address_is_a_contact(
    entities: Seq<EntityView>,
    entity: EntityView,
    i: int,
    value: Seq<char>,
    email: Seq<char>,
    scope: Scope,
    server: Seq<char>,
)
    requires
        in_tree(entities, entity),
        entity.roles.contains("abuse"@),
        entity.vcard_array is Some,
        is_email_value(entity.vcard_array->0, value, i),
        contact::email_of_text(value) == Ok::<Seq<char>, ValidationErrorView>(email),
    ensures
        contacts_in(entities, scope, server).contains(
            (ContactView { email, scope, source: SourceView::Rdap { server } }),
        ),
{
    let parts = entity.vcard_array->0->List_0;
    let list = parts[1]->List_0;
    law_every_email_property_is_read(parts, list, i, list[i]->List_0, value);
    law_whole_tree_is_read(entities, entity, value, scope, server);
    let contacts = contacts_in(entities, scope, server);
    let k = choose|k: int| 0 <= k < contacts.len() && (#[trigger] contacts[k]).email == email;
    law_contacts_come_from_abuse_entities(entities, scope, server, k);
    assert(contacts[k] == (ContactView { email, scope, source: SourceView::Rdap { server } }));
}

/// Every contact of a record is an address in the jCard of an entity of the record that
/// has the role `abuse`.
pub proof fn law_contact_is_a_jcard_address(
    entities: Seq<EntityView>,
    scope: Scope,
    server: Seq<char>,
    k: int,
)
    requires
        0 <= k < contacts_in(entities, scope, server).len(),
    ensures
        exists|entity: EntityView, value: Seq<char>, i: int|
            #![trigger in_tree(entities, entity), is_email_value(entity.vcard_array->0, value, i)]
            in_tree(entities, entity) && entity.roles.contains("abuse"@) && entity.vcard_array is Some
                && is_email_value(entity.vcard_array->0, value, i) && contact::email_of_text(value) == Ok::<
                Seq<char>,
                ValidationErrorView,
            >(contacts_in(entities, scope, server)[k].email),
{
    law_contacts_come_from_abuse_entities(entities, scope, server, k);
    let email = contacts_in(entities, scope, server)[k].email;
    let value = choose|value: Seq<char>|
        #[trigger] tree_gives(entities, value) && contact::email_of_text(value) == Ok::<
            Seq<char>,
            ValidationErrorView,
        >(email);
    let entity = choose|entity: EntityView|
        #[trigger] in_tree(entities, entity) && entity.roles.contains("abuse"@) && emails_of(
            entity.vcard_array,
        ).contains(value);
    let values = emails_of(entity.vcard_array);
    let n = choose|n: int| 0 <= n < values.len() && values[n] == value;
    law_email_values_come_from_properties(entity.vcard_array, n);
    let i = choose|i: int| #[trigger] is_email_value(entity.vcard_array->0, value, i);
    assert(in_tree(entities, entity));
}

/// The values of a record stand in document order: those of an entity, then those of the
/// entities under it, then those of the entities after it.
pub proof fn law_walk_is_in_document_order(
    before: Seq<EntityView>,
    entity: EntityView,
    after: Seq<EntityView>,
)
    ensures
        ({
            let own = if entity.roles.contains("abuse"@) {
                emails_of(entity.vcard_array)
            } else {
                Seq::<Seq<char>>::empty()
            };
            abuse_values(before + seq![entity] + after) == abuse_values(before) + own + abuse_values(
                entity.entities,
            ) + abuse_values(after)
        }),
{
    let one = seq![entity];
    let own = if entity.roles.contains("abuse"@) {
        emails_of(entity.vcard_array)
    } else {
        Seq::<Seq<char>>::empty()
    };
    lemma_values_add(before, one);
    lemma_values_add(before + one, after);
    assert(one.drop_last() =~= Seq::<EntityView>::empty());
    assert(one.last() == entity);
    assert(entity_values(entity) == own + abuse_values(entity.entities));
    assert(abuse_values(Seq::<EntityView>::empty()) =~= Seq::<Seq<char>>::empty());
    assert(abuse_values(one) =~= own + abuse_values(entity.entities));
    assert(abuse_values(before + one + after) =~= abuse_values(before) + own + abuse_values(entity.entities)
        + abuse_values(after));
}

/// A contact stands where its address comes first: a record with more entities after it
/// starts with the same contacts.
pub proof fn law_first_place_of_an_address_counts(
    entities: Seq<EntityView>,
    more: Seq<EntityView>,
    scope: Scope,
    server: Seq<char>,
)
    ensures
        contacts_in(entities, scope, server).len() <= contacts_in(entities + more, scope, server).len(),
        contacts_in(entities + more, scope, server).take(
            contacts_in(entities, scope, server).len() as int,
        ) == contacts_in(entities, scope, server),
{
    let source = SourceView::Rdap { server };
    lemma_values_add(entities, more);
    dns::lemma_contacts_of_add(abuse_values(entities), abuse_values(more), scope, source);
    list::law_distinct_by_keeps_the_first(
        collected(entities, scope, server),
        collected(more, scope, server),
        |contact: ContactView| contact.email,
    );
}

/// The values of two lists of entities are those of one, then those of the other.
proof fn lemma_values_add(a: Seq<EntityView>, b: Seq<EntityView>)
    ensures
        abuse_values(a + b) == abuse_values(a) + abuse_values(b),
    decreases b.len(),
{
    if b.len() == 0 {
        assert(a + b =~= a);
        assert(abuse_values(a) + abuse_values(b) =~= abuse_values(a));
    } else {
        lemma_values_add(a, b.drop_last());
        assert((a + b).drop_last() =~= a + b.drop_last());
        assert((a + b).last() == b.last());
        assert(abuse_values(a + b) =~= abuse_values(a) + abuse_values(b));
    }
}

/// What a record holds is seen whole: its entities, their roles, their jCards and the
/// entities under them, its links and its two addresses.
pub proof fn law_record_is_seen_whole(response: Response, entity: Entity, link: Link, i: int)
    ensures
        response@.entities.len() == response.entities@.len(),
        0 <= i < response.entities@.len() ==> response@.entities[i] == response.entities@[i]@,
        response@.links.len() == response.links@.len(),
        0 <= i < response.links@.len() ==> response@.links[i] == response.links@[i]@,
        response@.start_address is Some <==> response.start_address is Some,
        response.start_address matches Some(value) ==> response@.start_address == Some(value@),
        response@.end_address is Some <==> response.end_address is Some,
        response.end_address matches Some(value) ==> response@.end_address == Some(value@),
        entity@.roles.len() == entity.roles@.len(),
        0 <= i < entity.roles@.len() ==> entity@.roles[i] == entity.roles@[i]@,
        entity@.vcard_array is Some <==> entity.vcard_array is Some,
        entity.vcard_array matches Some(value) ==> entity@.vcard_array == Some(value@),
        entity@.handle is Some <==> entity.handle is Some,
        entity.handle matches Some(value) ==> entity@.handle == Some(value@),
        entity@.entities.len() == entity.entities@.len(),
        0 <= i < entity.entities@.len() ==> entity@.entities[i] == entity.entities@[i]@,
        link@.rel is Some <==> link.rel is Some,
        link.rel matches Some(value) ==> link@.rel == Some(value@),
        link@.href is Some <==> link.href is Some,
        link.href matches Some(value) ==> link@.href == Some(value@),
{
}

/// The contacts of a record stand in the order in which its values first give their
/// addresses.
pub proof fn law_contacts_are_in_document_order(
    entities: Seq<EntityView>,
    scope: Scope,
    server: Seq<char>,
    i: int,
    j: int,
)
    requires
        0 <= i < j < contacts_in(entities, scope, server).len(),
    ensures
        exists|a: int, b: int|
            0 <= a < b < abuse_values(entities).len() && contact::email_of_text(
                #[trigger] abuse_values(entities)[a],
            ) == Ok::<Seq<char>, ValidationErrorView>(contacts_in(entities, scope, server)[i].email)
                && contact::email_of_text(#[trigger] abuse_values(entities)[b]) == Ok::<
                Seq<char>,
                ValidationErrorView,
            >(contacts_in(entities, scope, server)[j].email),
{
    let all = collected(entities, scope, server);
    let key = |contact: ContactView| contact.email;
    let kept = list::distinct_by(all, key);
    list::law_kept_values_stand_in_order(all, key, i, j);
    let (a, b) = choose|a: int, b: int|
        0 <= a < b < all.len() && #[trigger] all[a] == kept[i] && #[trigger] all[b] == kept[j] && forall|c: int|
            0 <= c < b ==> key(#[trigger] all[c]) != key(all[b]);
    dns::law_contacts_stand_in_order(abuse_values(entities), a, b, scope, SourceView::Rdap { server });
}

/// The first value of a record gives the first contact, when it is an address.
pub proof fn law_first_address_is_listed_first(
    entities: Seq<EntityView>,
    scope: Scope,
    server: Seq<char>,
    value: Seq<char>,
    email: Seq<char>,
)
    requires
        abuse_values(entities).len() > 0,
        abuse_values(entities)[0] == value,
        contact::email_of_text(value) == Ok::<Seq<char>, ValidationErrorView>(email),
    ensures
        contacts_in(entities, scope, server).len() > 0,
        contacts_in(entities, scope, server)[0].email == email,
{
    let values = abuse_values(entities);
    let source = SourceView::Rdap { server };
    let first = seq![value];
    let rest = values.drop_first();
    assert(values =~= Seq::<Seq<char>>::empty() + first + rest);
    dns::law_values_give_contacts_in_order(Seq::<Seq<char>>::empty(), value, rest, scope, source);
    let all = collected(entities, scope, server);
    let one = seq![ContactView { email, scope, source }];
    assert(all =~= one + dns::contacts_of(rest, scope, source));
    let key = |contact: ContactView| contact.email;
    list::law_distinct_by_keeps_the_first(one, dns::contacts_of(rest, scope, source), key);
    assert(one.drop_last() =~= Seq::<ContactView>::empty());
    assert(list::distinct_by(one.drop_last(), key) =~= Seq::<ContactView>::empty());
    assert(list::distinct_by(one, key) =~= one);
    assert(contacts_in(entities, scope, server).take(1)[0] == one[0]);
}

/// A list of entities and a list of links are seen one by one, and so are borrowed texts.
pub proof fn law_parts_are_seen_whole(
    entities: Seq<Entity>,
    links: Seq<Link>,
    emails: Seq<(u32, &str)>,
    borrowed: Option<&str>,
    i: int,
)
    ensures
        entity_views(entities).len() == entities.len(),
        0 <= i < entities.len() ==> entity_views(entities)[i] == entities[i]@,
        link_views(links).len() == links.len(),
        0 <= i < links.len() ==> link_views(links)[i] == links[i]@,
        pref_views(emails).len() == emails.len(),
        0 <= i < emails.len() ==> pref_views(emails)[i].0 == emails[i].0 && pref_views(emails)[i].1
            == emails[i].1@,
        borrowed is None ==> str_view(borrowed) is None,
        borrowed matches Some(t) ==> str_view(borrowed) == Some(t@),
{
}

} // verus!
