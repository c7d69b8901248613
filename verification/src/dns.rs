//! The DNS sources: Abusix, abuse.net, and the RFC 2142 fallback.
//!
//! Every function here builds a name to ask for, or reads what came back. None of
//! them talk to a resolver. The caller does the lookup and brings the answer, so the
//! part that decides what an answer means runs in a test without a network.

use vstd::arithmetic::div_mod::*;
use vstd::arithmetic::power2::*;
use vstd::bits::*;
use vstd::prelude::*;
use vstd::string::*;

use crate::addr;
use crate::addr::{IpAddr, Ipv6Addr};
use crate::contact;
use crate::contact::{Contact, ContactView, EmailAddress, Scope, Source, SourceView};
use crate::error::{ValidationError, ValidationErrorView};
use crate::number;
use crate::query;
use crate::query::DomainName;
use crate::text;

verus! {

/// The Abusix zone that maps an IP address to the contact for its network.
pub const ABUSIX_ZONE: &'static str = "abuse-contacts.abusix.zone";

/// The abuse.net zone that maps a domain to the contact its operator registered.
pub const ABUSE_NET_ZONE: &'static str = "contacts.abuse.net";

// --- Names to ask for --------------------------------------------------------

/// Four bits of an IPv6 address, counted from the last.
pub open spec fn nibble(ip: Ipv6Addr, i: int) -> u8 {
    ((ip.bits >> (i * 4) as u128) & 0xf) as u8
}

/// The labels a blocklist zone wants for an address, backwards: the octets of an IPv4
/// address, and the nibbles of an IPv6 address.
pub open spec fn reversed_labels(ip: IpAddr) -> Seq<Seq<char>> {
    match ip {
        IpAddr::V4(v4) => Seq::new(4, |i: int| number::number_text(addr::v4_octet(v4, 3 - i) as nat, 10)),
        IpAddr::V6(v6) => Seq::new(32, |i: int| seq![number::digit_char(nibble(v6, i) as nat)]),
    }
}

/// The name to ask Abusix for an address.
pub open spec fn abusix_name_text(ip: IpAddr) -> Seq<char> {
    text::join(reversed_labels(ip).push(ABUSIX_ZONE@), '.')
}

/// Returns one hexadecimal digit.
fn hex_digit(value: u8) -> (digit: char)
    requires
        value < 16,
    ensures
        digit == number::digit_char(value as nat),
{
    if value < 10 {
        (48 + value) as char
    } else {
        (87 + value) as char
    }
}

/// Returns the name to ask Abusix for this address.
///
/// The address goes in backwards, the way a blocklist zone wants it: octets for v4,
/// nibbles for v6.
pub fn abusix_name(ip: IpAddr) -> (name: String)
    ensures
        name@ == abusix_name_text(ip),
{
    let ghost labels = reversed_labels(ip);
    let mut name = String::new();
    match ip {
        IpAddr::V4(v4) => {
            let mut i: usize = 0;
            while i < 4
                invariant
                    i <= 4,
                    ip == IpAddr::V4(v4),
                    labels == reversed_labels(ip),
                    name@ == text::dotted(labels.take(i as int), '.'),
                decreases 4 - i,
            {
                let digits = number::write_number(v4.octet(3 - i) as u64, 10);
                name.append(text::text_of(digits.as_slice()).as_str());
                name.push('.');
                proof {
                    text::lemma_join_push(labels.take(i as int), labels[i as int], '.');
                    assert(labels.take(i + 1) =~= labels.take(i as int).push(labels[i as int]));
                }
                i += 1;
            }
        },
        IpAddr::V6(v6) => {
            let mut i: usize = 0;
            while i < 32
                invariant
                    i <= 32,
                    ip == IpAddr::V6(v6),
                    labels == reversed_labels(ip),
                    name@ == text::dotted(labels.take(i as int), '.'),
                decreases 32 - i,
            {
                let bits = v6.bits;
                let shift = (i * 4) as u128;
                assert((bits >> shift) & 0xf < 16) by (bit_vector);
                let digit = ((bits >> shift) & 0xf) as u8;
                name.push(hex_digit(digit));
                name.push('.');
                proof {
                    text::lemma_join_push(labels.take(i as int), labels[i as int], '.');
                    assert(labels.take(i + 1) =~= labels.take(i as int).push(labels[i as int]));
                    assert(name@ =~= text::dotted(labels.take(i + 1), '.'));
                }
                i += 1;
            }
        },
    }
    proof {
        assert(labels.take(labels.len() as int) =~= labels);
        text::lemma_join_push(labels, ABUSIX_ZONE@, '.');
    }
    name.append(ABUSIX_ZONE);
    name
}

/// The name to ask abuse.net for a domain.
pub open spec fn abuse_net_name_text(domain: Seq<char>) -> Seq<char> {
    domain + "."@ + ABUSE_NET_ZONE@
}

/// Returns the name to ask abuse.net for this domain.
pub fn abuse_net_name(domain: &DomainName) -> (name: String)
    ensures
        name@ == abuse_net_name_text(domain@),
{
    let mut name = domain.as_str().to_owned();
    name.append(".");
    name.append(ABUSE_NET_ZONE);
    name
}

// --- Answers -----------------------------------------------------------------

/// The address RFC 2142 gives for a domain, as text.
pub open spec fn rfc2142_address(domain: Seq<char>) -> Seq<char> {
    "abuse@"@ + domain
}

/// Returns the address RFC 2142 says every domain must accept reports at.
///
/// This is a guess. The RFC requires the mailbox, and many domains do not have it.
/// Treat a contact from here as the last thing to try.
///
/// # Errors
///
/// Returns [`ValidationError`] when `abuse@` at this domain is not a usable address.
pub fn rfc2142_contact(domain: &DomainName) -> (guess: Result<Contact, ValidationError>)
    ensures
        match (guess, contact::email_of_text(rfc2142_address(domain@))) {
            (Ok(contact), Ok(email)) => contact@ == (ContactView {
                email,
                scope: Scope::Domain,
                source: SourceView::Rfc2142,
            }),
            (Err(error), Err(wanted)) => error@ == wanted,
            _ => false,
        },
{
    let mut address = "abuse@".to_owned();
    address.append(domain.as_str());
    match EmailAddress::new(address.as_str()) {
        Ok(email) => Ok(Contact { email, scope: Scope::Domain, source: Source::Rfc2142 }),
        Err(error) => Err(error),
    }
}

/// The values of the records a zone returned: each record divided at its commas.
pub open spec fn txt_values(records: Seq<Seq<char>>) -> Seq<Seq<char>>
    decreases records.len(),
{
    if records.len() == 0 {
        Seq::<Seq<char>>::empty()
    } else {
        txt_values(records.drop_last()) + text::split(records.last(), ',')
    }
}

/// The contacts that values give: one for each value that is an address, in order.
pub open spec fn contacts_of(values: Seq<Seq<char>>, scope: Scope, source: SourceView) -> Seq<ContactView>
    decreases values.len(),
{
    if values.len() == 0 {
        Seq::<ContactView>::empty()
    } else {
        let before = contacts_of(values.drop_last(), scope, source);
        match contact::email_of_text(values.last()) {
            Ok(email) => before.push(ContactView { email, scope, source }),
            Err(_) => before,
        }
    }
}

/// Adds the contact a value gives to a list, when the value is an address.
pub fn add_contact(value: &str, scope: Scope, source: &Source, contacts: &mut Vec<Contact>)
    ensures
        contact::contact_views(final(contacts)@) == (match contact::email_of_text(value@) {
            Ok(email) => contact::contact_views(old(contacts)@).push(
                ContactView { email, scope, source: source@ },
            ),
            Err(_) => contact::contact_views(old(contacts)@),
        }),
{
    let ghost before = contact::contact_views(contacts@);
    if let Ok(email) = EmailAddress::new(value) {
        let contact = Contact { email, scope, source: source.clone() };
        let ghost added = contact@;
        contacts.push(contact);
        assert(contact::contact_views(contacts@) =~= before.push(added));
    }
}

/// Reads the addresses out of the TXT records a zone returned.
///
/// A record can hold more than one address, joined by commas. A value that is not an
/// address is dropped: these zones are a best effort, and one bad record must not
/// lose the good ones beside it.
pub fn contacts_from_txt(records: &[String], scope: Scope, source: Source) -> (contacts: Vec<Contact>)
    ensures
        contact::contact_views(contacts@) == contacts_of(
            txt_values(text::texts_view(records@)),
            scope,
            source@,
        ),
{
    let ghost texts = text::texts_view(records@);
    let mut contacts: Vec<Contact> = Vec::new();
    let mut i: usize = 0;
    assert(contact::contact_views(contacts@) =~= Seq::<ContactView>::empty());
    while i < records.len()
        invariant
            i <= records@.len(),
            texts == text::texts_view(records@),
            contact::contact_views(contacts@) == contacts_of(txt_values(texts.take(i as int)), scope, source@),
        decreases records@.len() - i,
    {
        let record = text::chars_of(records[i].as_str());
        let values = text::split_chars(record.as_slice(), ',');
        let ghost before = txt_values(texts.take(i as int));
        let ghost pieces = text::chars_view(values@);
        let mut k: usize = 0;
        assert(before + pieces.take(0) =~= before);
        while k < values.len()
            invariant
                k <= values@.len(),
                pieces == text::chars_view(values@),
                contact::contact_views(contacts@) == contacts_of(before + pieces.take(k as int), scope, source@),
            decreases values@.len() - k,
        {
            let value = text::text_of(values[k].as_slice());
            proof {
                let now = before + pieces.take(k + 1);
                assert(now.drop_last() =~= before + pieces.take(k as int));
                assert(now.last() == pieces[k as int]);
                assert(pieces[k as int] == values@[k as int]@);
            }
            add_contact(value.as_str(), scope, &source, &mut contacts);
            k += 1;
        }
        proof {
            assert(pieces.take(k as int) =~= pieces);
            assert(texts.take(i + 1).drop_last() =~= texts.take(i as int));
            assert(texts.take(i + 1).last() == record@);
        }
        i += 1;
    }
    assert(texts.take(i as int) =~= texts);
    contacts
}

/// Whether the exchange of an MX record names a host.
///
/// A null MX, RFC 7505, gives the root as its exchange, which is a dot and no name.
pub open spec fn is_mail_host(exchange: Seq<char>) -> bool {
    exists|i: int| 0 <= i < exchange.len() && #[trigger] exchange[i] != '.'
}

/// Returns whether one of the exchanges of a domain names a host.
///
/// A domain with a null MX, RFC 7505, takes no mail.
pub fn names_a_mail_host(exchanges: &[String]) -> (names: bool)
    ensures
        names == exists|i: int| 0 <= i < exchanges@.len() && is_mail_host((#[trigger] exchanges@[i])@),
{
    let mut i: usize = 0;
    while i < exchanges.len()
        invariant
            i <= exchanges@.len(),
            forall|k: int| 0 <= k < i ==> !is_mail_host((#[trigger] exchanges@[k])@),
        decreases exchanges@.len() - i,
    {
        let exchange = text::chars_of(exchanges[i].as_str());
        let mut k: usize = 0;
        while k < exchange.len()
            invariant
                k <= exchange@.len(),
                i < exchanges@.len(),
                exchange@ == exchanges@[i as int]@,
                forall|n: int| 0 <= n < k ==> exchange@[n] == '.',
            decreases exchange@.len() - k,
        {
            if exchange[k] != '.' {
                assert(is_mail_host(exchanges@[i as int]@));
                return true;
            }
            k += 1;
        }
        assert(!is_mail_host(exchanges@[i as int]@));
        i += 1;
    }
    false
}

// --- What the names and the answers promise ----------------------------------

/// The labels of an address hold no dot.
proof fn lemma_labels_have_no_dot(ip: IpAddr)
    ensures
        forall|i: int| 0 <= i < reversed_labels(ip).len() ==> !(#[trigger] reversed_labels(ip)[i]).contains('.'),
{
    let labels = reversed_labels(ip);
    assert forall|i: int| 0 <= i < labels.len() implies !(#[trigger] labels[i]).contains('.') by {
        match ip {
            IpAddr::V4(v4) => {
                addr::lemma_octet_round_trip(addr::v4_octet(v4, 3 - i));
            },
            IpAddr::V6(v6) => {
                lemma_nibble_is_small(v6, i);
                assert(number::digit_char(nibble(v6, i) as nat) != '.');
            },
        }
    }
}

/// A nibble is below sixteen.
proof fn lemma_nibble_is_small(ip: Ipv6Addr, i: int)
    ensures
        nibble(ip, i) < 16,
{
    let bits = ip.bits;
    let shift = (i * 4) as u128;
    assert((((bits >> shift) & 0xf) as u8) < 16) by (bit_vector);
}

/// The name for an address divides into its labels and the labels of the zone.
proof fn lemma_name_divides(ip: IpAddr)
    ensures
        text::split(abusix_name_text(ip), '.') == reversed_labels(ip) + text::split(ABUSIX_ZONE@, '.'),
{
    let labels = reversed_labels(ip);
    lemma_labels_have_no_dot(ip);
    text::lemma_join_push(labels, ABUSIX_ZONE@, '.');
    text::lemma_split_join(labels, '.');
    text::lemma_split_at(text::join(labels, '.'), ABUSIX_ZONE@, '.');
}

/// A shift, and one by four more bits, is the two shifts in one.
proof fn lemma_shift_twice(a: u128, s: u128, t: u128)
    requires
        s <= 120,
        t == s + 4,
    ensures
        (a >> s) >> 4u128 == a >> t,
{
    lemma_u128_shr_is_div(a, s);
    lemma_u128_shr_is_div(a >> s, 4);
    lemma_u128_shr_is_div(a, t);
    lemma_pow2_pos(s as nat);
    lemma_pow2_pos(4);
    lemma_pow2_adds(s as nat, 4);
    lemma_div_denominator(a as int, pow2(s as nat) as int, pow2(4) as int);
}

/// Two IPv6 addresses with the same nibbles agree from any nibble up.
proof fn lemma_same_nibbles(x: Ipv6Addr, y: Ipv6Addr, k: int)
    requires
        0 <= k < 32,
        forall|i: int| 0 <= i < 32 ==> #[trigger] nibble(x, i) == nibble(y, i),
    ensures
        x.bits >> (k * 4) as u128 == y.bits >> (k * 4) as u128,
    decreases 32 - k,
{
    let a = x.bits;
    let b = y.bits;
    let s = (k * 4) as u128;
    let p = a >> s;
    let q = b >> s;
    assert(nibble(x, k) == nibble(y, k));
    if k == 31 {
        assert(p < 16) by (bit_vector)
            requires
                p == a >> 124u128,
        ;
        assert(q < 16) by (bit_vector)
            requires
                q == b >> 124u128,
        ;
        assert(p == q) by (bit_vector)
            requires
                p < 16,
                q < 16,
                (p & 0xf) as u8 == (q & 0xf) as u8,
        ;
    } else {
        lemma_same_nibbles(x, y, k + 1);
        let t = ((k + 1) * 4) as u128;
        lemma_shift_twice(a, s, t);
        lemma_shift_twice(b, s, t);
        assert(p == q) by (bit_vector)
            requires
                (p & 0xf) as u8 == (q & 0xf) as u8,
                p >> 4u128 == q >> 4u128,
        ;
    }
}

/// Two addresses with one name at Abusix are one address.
pub proof fn law_names_tell_addresses_apart(a: IpAddr, b: IpAddr)
    requires
        abusix_name_text(a) == abusix_name_text(b),
    ensures
        a == b,
{
    lemma_name_divides(a);
    lemma_name_divides(b);
    let zone = text::split(ABUSIX_ZONE@, '.');
    let x = reversed_labels(a);
    let y = reversed_labels(b);
    assert(x + zone == y + zone);
    assert((x + zone).len() == x.len() + zone.len());
    assert(x.len() == y.len());
    assert(x =~= (x + zone).take(x.len() as int));
    assert(y =~= (y + zone).take(x.len() as int));
    match (a, b) {
        (IpAddr::V4(p), IpAddr::V4(q)) => {
            assert forall|i: int| 0 <= i < 4 implies #[trigger] addr::v4_octet(p, i) == addr::v4_octet(q, i) by {
                assert(x[3 - i] == y[3 - i]);
                number::lemma_number_round_trip(addr::v4_octet(p, i) as nat, 10);
                number::lemma_number_round_trip(addr::v4_octet(q, i) as nat, 10);
            }
            addr::lemma_v4_octets(p);
            addr::lemma_v4_octets(q);
        },
        (IpAddr::V6(p), IpAddr::V6(q)) => {
            assert forall|i: int| 0 <= i < 32 implies #[trigger] nibble(p, i) == nibble(q, i) by {
                assert(x[i] == y[i]);
                assert(x[i][0] == y[i][0]);
                lemma_nibble_is_small(p, i);
                lemma_nibble_is_small(q, i);
            }
            lemma_same_nibbles(p, q, 0);
            let (m, n) = (p.bits, q.bits);
            assert(m >> 0u128 == m && n >> 0u128 == n) by (bit_vector);
        },
        _ => {},
    }
}

/// The values of two lists of records are the values of one, then those of the other.
proof fn lemma_txt_values_add(a: Seq<Seq<char>>, b: Seq<Seq<char>>)
    ensures
        txt_values(a + b) == txt_values(a) + txt_values(b),
    decreases b.len(),
{
    if b.len() == 0 {
        assert(a + b =~= a);
        assert(txt_values(a) + txt_values(b) =~= txt_values(a));
    } else {
        lemma_txt_values_add(a, b.drop_last());
        assert((a + b).drop_last() =~= a + b.drop_last());
        assert(txt_values(a + b) =~= txt_values(a) + txt_values(b));
    }
}

/// The contacts of two lists of values are the contacts of one, then those of the other.
pub proof fn lemma_contacts_of_add(a: Seq<Seq<char>>, b: Seq<Seq<char>>, scope: Scope, source: SourceView)
    ensures
        contacts_of(a + b, scope, source) == contacts_of(a, scope, source) + contacts_of(b, scope, source),
    decreases b.len(),
{
    if b.len() == 0 {
        assert(a + b =~= a);
        assert(contacts_of(a, scope, source) + contacts_of(b, scope, source) =~= contacts_of(a, scope, source));
    } else {
        lemma_contacts_of_add(a, b.drop_last(), scope, source);
        assert((a + b).drop_last() =~= a + b.drop_last());
        assert((a + b).last() == b.last());
        assert(contacts_of(a + b, scope, source) =~= contacts_of(a, scope, source) + contacts_of(
            b,
            scope,
            source,
        ));
    }
}

/// A record changes nothing that another record gives: what two lists of records give
/// together is what each gives alone, one after the other.
pub proof fn law_records_are_read_alone(
    a: Seq<Seq<char>>,
    b: Seq<Seq<char>>,
    scope: Scope,
    source: SourceView,
)
    ensures
        contacts_of(txt_values(a + b), scope, source) == contacts_of(txt_values(a), scope, source)
            + contacts_of(txt_values(b), scope, source),
{
    lemma_txt_values_add(a, b);
    lemma_contacts_of_add(txt_values(a), txt_values(b), scope, source);
}

/// Every value that is an address gives its contact, whatever stands beside it.
pub proof fn law_every_address_is_read(values: Seq<Seq<char>>, i: int, scope: Scope, source: SourceView)
    requires
        0 <= i < values.len(),
        contact::email_of_text(values[i]) is Ok,
    ensures
        contacts_of(values, scope, source).contains(
            ContactView { email: contact::email_of_text(values[i])->Ok_0, scope, source },
        ),
    decreases values.len(),
{
    let short = values.drop_last();
    let before = contacts_of(short, scope, source);
    let after = contacts_of(values, scope, source);
    let wanted = ContactView { email: contact::email_of_text(values[i])->Ok_0, scope, source };
    if i < short.len() {
        law_every_address_is_read(short, i, scope, source);
        let k = choose|k: int| 0 <= k < before.len() && before[k] == wanted;
        assert(after[k] == wanted);
    } else {
        assert(after[after.len() - 1] == wanted);
    }
}

/// Whether one of the values is this address.
pub open spec fn gives_address(values: Seq<Seq<char>>, email: Seq<char>) -> bool {
    exists|i: int|
        0 <= i < values.len() && contact::email_of_text(#[trigger] values[i]) == Ok::<
            Seq<char>,
            ValidationErrorView,
        >(email)
}

/// Every contact is the address of a value, with the scope and the source it was read
/// for.
pub proof fn law_contacts_come_from_values(
    values: Seq<Seq<char>>,
    k: int,
    scope: Scope,
    source: SourceView,
)
    requires
        0 <= k < contacts_of(values, scope, source).len(),
    ensures
        contacts_of(values, scope, source)[k].scope == scope,
        contacts_of(values, scope, source)[k].source == source,
        gives_address(values, contacts_of(values, scope, source)[k].email),
    decreases values.len(),
{
    let short = values.drop_last();
    let before = contacts_of(short, scope, source);
    let after = contacts_of(values, scope, source);
    if values.len() > 0 {
        if k < before.len() {
            law_contacts_come_from_values(short, k, scope, source);
            let i = choose|i: int|
                0 <= i < short.len() && contact::email_of_text(#[trigger] short[i]) == Ok::<
                    Seq<char>,
                    ValidationErrorView,
                >(before[k].email);
            assert(values[i] == short[i]);
            assert(after[k] == before[k]);
        } else {
            assert(values[values.len() - 1] == values.last());
        }
    }
}

/// The part of a text after its first six characters holds what the text holds past the
/// sixth.
proof fn lemma_part_after_at(whole: Seq<char>, rest: Seq<char>, part: Seq<char>)
    requires
        whole.len() == rest.len() + 6,
        whole.skip(6) == rest,
        whole[5] == '@',
        part.len() >= 6,
        !part.contains('@'),
        text::has_part(whole, part),
    ensures
        text::has_part(rest, part),
{
    let at = choose|at: int| text::has_at(whole, part, at);
    if at <= 5 {
        assert(whole.subrange(at, at + part.len())[5 - at] == part[5 - at]);
        assert(part.contains(part[5 - at]));
    } else {
        assert(rest.subrange(at - 6, at - 6 + part.len()) =~= whole.subrange(at, at + part.len()));
        assert(text::has_at(rest, part, at - 6));
    }
}

/// The address RFC 2142 gives for a domain is usable, unless the domain spells the word
/// registries write in place of an address.
pub proof fn law_rfc2142_address_is_usable(domain: Seq<char>)
    requires
        query::is_domain_name(domain),
        !text::has_part(text::upper(domain), "REDACTED"@),
    ensures
        contact::email_of_text(rfc2142_address(domain)) == Ok::<
            Seq<char>,
            ValidationErrorView,
        >(rfc2142_address(domain)),
{
    let address = rfc2142_address(domain);
    reveal_strlit("abuse@");
    reveal_strlit("REDACTED");
    reveal_strlit("NOT DISCLOSED");
    reveal_strlit("PLEASE QUERY");
    reveal_strlit("removed@lacnic.net");
    query::law_usable_names(domain);
    assert forall|i: int| 0 <= i < address.len() implies {
        let c = #[trigger] address[i];
        &&& query::is_label_char(c) || c == '.' || c == '@'
        &&& c == '@' <==> i == 5
    } by {
        if i >= 6 {
            assert(address[i] == domain[i - 6]);
            query::law_name_is_plain(domain, i - 6);
        }
    }
    let upper = text::upper(address);
    assert(upper.skip(6) =~= text::upper(domain));
    if text::has_part(upper, "REDACTED"@) {
        assert(upper[5] == '@');
        lemma_part_after_at(upper, text::upper(domain), "REDACTED"@);
    }
    assert forall|part: Seq<char>, k: int| 0 <= k < part.len() && part[k] == ' ' implies !#[trigger] text::has_part(
        upper,
        part,
    ) || #[trigger] part[k] != ' ' by {
        if text::has_part(upper, part) {
            let at = choose|at: int| text::has_at(upper, part, at);
            assert(upper.subrange(at, at + part.len())[k] == part[k]);
            assert(upper[at + k] == text::ascii_upper(address[at + k]));
        }
    }
    assert("NOT DISCLOSED"@[3] == ' ');
    assert("PLEASE QUERY"@[6] == ' ');
    assert(!contact::is_placeholder(address));
    assert(text::lower(address)[0] == text::ascii_lower(address[0]));
    assert(!contact::is_withheld(address));
    assert(text::trim(address) == address);
    let front = "abuse"@;
    reveal_strlit("abuse");
    assert(address =~= front.push('@') + domain);
    text::lemma_split_at(front, domain, '@');
    assert(!front.contains('@'));
    assert(!domain.contains('@')) by {
        if domain.contains('@') {
            let k = choose|k: int| 0 <= k < domain.len() && domain[k] == '@';
            assert(address[k + 6] == '@');
        }
    }
    text::lemma_split_one(front, '@');
    text::lemma_split_one(domain, '@');
    assert(text::split(address, '@') =~= seq![front, domain]);
    if !domain.contains('.') {
        text::lemma_split_one(domain, '.');
    }
}

// --- The names, letter by letter ---------------------------------------------

/// Four bits of an IPv6 address are its digit in base sixteen, counted from the last.
pub proof fn law_nibbles(ip: Ipv6Addr, i: int)
    requires
        0 <= i < 32,
    ensures
        nibble(ip, i) == ip.bits as nat / pow2((i * 4) as nat) % 16,
{
    let b = ip.bits;
    let s = (i * 4) as u128;
    lemma_u128_shr_is_div(b, s);
    let high = b >> s;
    assert((high & 0xf) as u8 == high % 16) by (bit_vector);
}

/// The name for an IPv4 address is its octets from the last to the first, each with a dot
/// after it, and the zone.
pub proof fn law_name_for_ipv4(ip: addr::Ipv4Addr)
    ensures
        abusix_name_text(IpAddr::V4(ip)) == number::number_text(ip.bits as nat % 256, 10) + "."@
            + number::number_text(ip.bits as nat / 256 % 256, 10) + "."@ + number::number_text(
            ip.bits as nat / 65536 % 256,
            10,
        ) + "."@ + number::number_text(ip.bits as nat / 16777216, 10) + ".abuse-contacts.abusix.zone"@,
{
    reveal_strlit(".");
    reveal_strlit("abuse-contacts.abusix.zone");
    reveal_strlit(".abuse-contacts.abusix.zone");
    addr::law_octets_of_ipv4(ip);
    let all = reversed_labels(IpAddr::V4(ip));
    let (a, b, c, d) = (all[0], all[1], all[2], all[3]);
    assert(all =~= seq![a, b, c, d]);
    let zone = ABUSIX_ZONE@;
    text::lemma_join_push(all, zone, '.');
    assert(seq![a, b, c, d].drop_last() =~= seq![a, b, c]);
    assert(seq![a, b, c].drop_last() =~= seq![a, b]);
    assert(seq![a, b].drop_last() =~= seq![a]);
    assert(text::join(seq![a], '.') == a);
    assert(text::join(seq![a, b], '.') == a.push('.') + b);
    assert(text::join(seq![a, b, c], '.') == text::join(seq![a, b], '.').push('.') + c);
    assert(text::join(seq![a, b, c, d], '.') == text::join(seq![a, b, c], '.').push('.') + d);
    assert(abusix_name_text(IpAddr::V4(ip)) =~= a + "."@ + b + "."@ + c + "."@ + d
        + ".abuse-contacts.abusix.zone"@);
}

/// Labels of one character each stand at every second place, with a dot after each.
proof fn lemma_single_labels(labels: Seq<Seq<char>>)
    requires
        forall|i: int| 0 <= i < labels.len() ==> (#[trigger] labels[i]).len() == 1,
    ensures
        text::dotted(labels, '.').len() == 2 * labels.len(),
        forall|i: int|
            #![trigger labels[i]]
            0 <= i < labels.len() ==> text::dotted(labels, '.')[2 * i] == labels[i][0] && text::dotted(
                labels,
                '.',
            )[2 * i + 1] == '.',
    decreases labels.len(),
{
    if labels.len() > 0 {
        let short = labels.drop_last();
        let last = labels.last();
        assert(last == labels[labels.len() - 1]);
        assert forall|i: int| 0 <= i < short.len() implies (#[trigger] short[i]).len() == 1 by {
            assert(short[i] == labels[i]);
        }
        lemma_single_labels(short);
        text::lemma_join_push(short, last, '.');
        assert(short.push(last) =~= labels);
        let before = text::dotted(short, '.');
        let after = text::dotted(labels, '.');
        assert(after == (before + last).push('.'));
        assert forall|i: int| #![trigger labels[i]] 0 <= i < labels.len() implies after[2 * i] == labels[i][0]
            && after[2 * i + 1] == '.' by {
            if i < short.len() {
                assert(short[i] == labels[i]);
                assert(after[2 * i] == before[2 * i]);
                assert(after[2 * i + 1] == before[2 * i + 1]);
            }
        }
    }
}

/// The name for an IPv6 address is its 32 digits in base sixteen from the last to the
/// first, in small letters, each with a dot after it, and the zone.
pub proof fn law_name_for_ipv6(ip: Ipv6Addr, i: int)
    requires
        0 <= i < 32,
    ensures
        ({
            let name = abusix_name_text(IpAddr::V6(ip));
            let digit = ip.bits as nat / pow2((i * 4) as nat) % 16;
            &&& name.len() == 90
            &&& name[2 * i] as u32 == (if digit < 10 {
                48 + digit
            } else {
                87 + digit
            })
            &&& name[2 * i + 1] == '.'
            &&& name.skip(64) == "abuse-contacts.abusix.zone"@
        }),
{
    reveal_strlit("abuse-contacts.abusix.zone");
    let labels = reversed_labels(IpAddr::V6(ip));
    let zone = ABUSIX_ZONE@;
    law_nibbles(ip, i);
    lemma_nibble_is_small(ip, i);
    lemma_single_labels(labels);
    text::lemma_join_push(labels, zone, '.');
    let name = abusix_name_text(IpAddr::V6(ip));
    let front = text::dotted(labels, '.');
    assert(name == front + zone);
    assert(labels[i] == seq![number::digit_char(nibble(ip, i) as nat)]);
    assert(name[2 * i] == front[2 * i]);
    assert(name[2 * i + 1] == front[2 * i + 1]);
    assert(name.skip(64) =~= zone);
}

/// The name for a domain is the domain and the zone, with a dot between them, and the
/// guessed address is `abuse@` and the domain.
pub proof fn law_names_for_a_domain(domain: Seq<char>)
    ensures
        abuse_net_name_text(domain) == domain + ".contacts.abuse.net"@,
        rfc2142_address(domain) == "abuse@"@ + domain,
{
    reveal_strlit(".");
    reveal_strlit("contacts.abuse.net");
    reveal_strlit(".contacts.abuse.net");
    assert(abuse_net_name_text(domain) =~= domain + ".contacts.abuse.net"@);
}

/// A record without a comma is one value, and a comma stands between the value before it
/// and the values after it. Records are read one after the other.
pub proof fn law_values_stand_between_commas(
    records: Seq<Seq<char>>,
    more: Seq<Seq<char>>,
    value: Seq<char>,
    rest: Seq<char>,
)
    requires
        forall|i: int| 0 <= i < value.len() ==> #[trigger] value[i] != ',',
    ensures
        txt_values(Seq::<Seq<char>>::empty()) == Seq::<Seq<char>>::empty(),
        txt_values(seq![value]) == seq![value],
        txt_values(seq![value + seq![','] + rest]) == seq![value] + txt_values(seq![rest]),
        txt_values(records + more) == txt_values(records) + txt_values(more),
{
    let none = Seq::<Seq<char>>::empty();
    assert(txt_values(none) =~= none);
    assert(!value.contains(','));
    let whole = value + seq![','] + rest;
    assert(whole =~= value.push(',') + rest);
    text::law_pieces(value, rest, ',');
    assert(seq![value].drop_last() =~= none);
    assert(seq![whole].drop_last() =~= none);
    assert(seq![rest].drop_last() =~= none);
    assert(txt_values(seq![value]) =~= seq![value]);
    assert(txt_values(seq![rest]) =~= text::split(rest, ','));
    assert(txt_values(seq![whole]) =~= seq![value] + txt_values(seq![rest]));
    lemma_txt_values_add(records, more);
}

/// A value that is an address gives one contact, with the address, the scope and the
/// source, and any other value gives none. Values are read one after the other.
pub proof fn law_values_give_contacts_in_order(
    values: Seq<Seq<char>>,
    value: Seq<char>,
    more: Seq<Seq<char>>,
    scope: Scope,
    source: SourceView,
)
    ensures
        contacts_of(values + seq![value] + more, scope, source) == contacts_of(values, scope, source) + (
        match contact::email_of_text(value) {
            Ok(email) => seq![ContactView { email, scope, source }],
            Err(_) => Seq::<ContactView>::empty(),
        }) + contacts_of(more, scope, source),
        contacts_of(Seq::<Seq<char>>::empty(), scope, source) == Seq::<ContactView>::empty(),
{
    let none = Seq::<Seq<char>>::empty();
    assert(contacts_of(none, scope, source) =~= Seq::<ContactView>::empty());
    lemma_contacts_of_add(values, seq![value], scope, source);
    lemma_contacts_of_add(values + seq![value], more, scope, source);
    assert(seq![value].drop_last() =~= none);
    assert(seq![value].last() == value);
    let one = contacts_of(seq![value], scope, source);
    match contact::email_of_text(value) {
        Ok(email) => {
            assert(one =~= seq![ContactView { email, scope, source }]);
        },
        Err(_) => {
            assert(one =~= Seq::<ContactView>::empty());
        },
    }
}

/// The root, alone or written with more dots, is no mail host, and every other exchange
/// is one.
pub proof fn law_mail_hosts(exchange: Seq<char>)
    ensures
        !is_mail_host(exchange) <==> forall|i: int| 0 <= i < exchange.len() ==> #[trigger] exchange[i] == '.',
{
}

/// The contacts stand in the order of the values they come from.
pub proof fn law_contacts_stand_in_order(
    values: Seq<Seq<char>>,
    i: int,
    j: int,
    scope: Scope,
    source: SourceView,
)
    requires
        0 <= i < j < contacts_of(values, scope, source).len(),
    ensures
        exists|a: int, b: int|
            0 <= a < b < values.len() && contact::email_of_text(#[trigger] values[a]) == Ok::<
                Seq<char>,
                ValidationErrorView,
            >(contacts_of(values, scope, source)[i].email) && contact::email_of_text(#[trigger] values[b]) == Ok::<
                Seq<char>,
                ValidationErrorView,
            >(contacts_of(values, scope, source)[j].email),
    decreases values.len(),
{
    let short = values.drop_last();
    let before = contacts_of(short, scope, source);
    let after = contacts_of(values, scope, source);
    assert(after[i] == before[i]);
    if j < before.len() {
        law_contacts_stand_in_order(short, i, j, scope, source);
        let (a, b) = choose|a: int, b: int|
            0 <= a < b < short.len() && contact::email_of_text(#[trigger] short[a]) == Ok::<
                Seq<char>,
                ValidationErrorView,
            >(before[i].email) && contact::email_of_text(#[trigger] short[b]) == Ok::<
                Seq<char>,
                ValidationErrorView,
            >(before[j].email);
        assert(values[a] == short[a]);
        assert(values[b] == short[b]);
        assert(after[j] == before[j]);
    } else {
        law_contacts_come_from_values(short, i, scope, source);
        let a = choose|a: int|
            0 <= a < short.len() && contact::email_of_text(#[trigger] short[a]) == Ok::<
                Seq<char>,
                ValidationErrorView,
            >(before[i].email);
        assert(values[a] == short[a]);
        assert(values[values.len() - 1] == values.last());
    }
}

} // verus!
