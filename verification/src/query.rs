//! What you can ask about.

use vstd::prelude::*;
use vstd::slice::*;
use vstd::string::*;
use vstd::utf8::*;

use crate::addr;
use crate::addr::{IpAddr, Ipv4Addr, Ipv6Addr};
use crate::error::{ValidationError, ValidationErrorView};
use crate::nat64;
use crate::prefix;
use crate::text;

verus! {

// --- The shape of a name -----------------------------------------------------

/// A character a label can hold.
pub open spec fn is_label_char(c: char) -> bool {
    'a' <= c <= 'z' || 'A' <= c <= 'Z' || '0' <= c <= '9' || c == '-'
}

/// What is wrong with one label of a name, or `None` when it is usable.
pub open spec fn label_problem(label: Seq<char>) -> Option<Seq<char>> {
    if label.len() == 0 {
        Some("it has an empty label"@)
    } else if label.len() > 63 {
        Some("it has a label longer than 63 bytes"@)
    } else if exists|i: int| 0 <= i < label.len() && !is_label_char(#[trigger] label[i]) {
        Some("it has a character other than a letter, a digit, a hyphen or a dot"@)
    } else if label[0] == '-' || label.last() == '-' {
        Some("a label starts or ends with a hyphen"@)
    } else {
        None
    }
}

/// What is wrong with the first label that is not usable.
pub open spec fn labels_problem(labels: Seq<Seq<char>>) -> Option<Seq<char>>
    decreases labels.len(),
{
    if labels.len() == 0 {
        None
    } else if label_problem(labels[0]) is Some {
        label_problem(labels[0])
    } else {
        labels_problem(labels.drop_first())
    }
}

/// What is wrong with a name, or `None` when it is usable.
pub open spec fn domain_problem(name: Seq<char>) -> Option<Seq<char>> {
    if encode_utf8(name).len() > 253 {
        Some("it is longer than 253 bytes"@)
    } else if !is_ascii_chars(name) {
        Some("it has a character outside ASCII. Write an international name in its xn-- form"@)
    } else if !name.contains('.') {
        Some("it has no dot, so it is not a full domain name"@)
    } else {
        labels_problem(text::split(name, '.'))
    }
}

/// A text without the dot it ends with, when it ends with one.
pub open spec fn without_dot(t: Seq<char>) -> Seq<char> {
    if t.len() > 0 && t.last() == '.' {
        t.drop_last()
    } else {
        t
    }
}

/// The name a text gives: trimmed, without one trailing dot, in small letters.
pub open spec fn cleaned(value: Seq<char>) -> Seq<char> {
    text::lower(without_dot(text::trim(value)))
}

/// The name a text spells, or why it spells none.
pub open spec fn domain_of_text(value: Seq<char>) -> Result<Seq<char>, ValidationErrorView> {
    let name = cleaned(value);
    if name.len() == 0 {
        Err(ValidationErrorView::EmptyDomain)
    } else if domain_problem(name) is Some {
        Err(ValidationErrorView::InvalidDomain { value: name, problem: domain_problem(name)->0 })
    } else {
        Ok(name)
    }
}

/// Returns what is wrong with one label of a name.
fn find_label_problem(label: &[char]) -> (problem: Option<&'static str>)
    ensures
        problem is Some <==> label_problem(label@) is Some,
        problem is Some ==> problem->0@ == label_problem(label@)->0,
{
    if label.len() == 0 {
        return Some("it has an empty label");
    }
    if label.len() > 63 {
        return Some("it has a label longer than 63 bytes");
    }
    let mut i: usize = 0;
    while i < label.len()
        invariant
            i <= label@.len(),
            0 < label@.len() <= 63,
            forall|k: int| 0 <= k < i ==> is_label_char(#[trigger] label@[k]),
        decreases label@.len() - i,
    {
        let c = label[i];
        if !(('a' <= c && c <= 'z') || ('A' <= c && c <= 'Z') || ('0' <= c && c <= '9') || c == '-') {
            assert(!is_label_char(label@[i as int]));
            return Some("it has a character other than a letter, a digit, a hyphen or a dot");
        }
        i += 1;
    }
    if label[0] == '-' || label[label.len() - 1] == '-' {
        return Some("a label starts or ends with a hyphen");
    }
    None
}

// --- Names -------------------------------------------------------------------

/// A domain name to look up.
///
/// The constructor checks the shape only. A name that no registry holds is a lookup
/// that finds nothing, not a value this type refuses.
#[derive(Debug, PartialEq, Eq, PartialOrd, Ord, Hash)]
pub struct DomainName(String);

impl View for DomainName {
    type V = Seq<char>;

    closed spec fn view(&self) -> Seq<char> {
        self.0@
    }
}

/// Whether a text is a name that a [`DomainName`] can hold.
pub open spec fn is_domain_name(name: Seq<char>) -> bool {
    &&& name.len() > 0
    &&& domain_problem(name) is None
    &&& text::lower(name) == name
}

impl DomainName {
    /// The longest a domain name can be, in bytes.
    pub const MAX_BYTES: usize = 253;

    #[verifier::type_invariant]
    spec fn holds_a_name(self) -> bool {
        is_domain_name(self.0@)
    }

    /// Wraps a domain name.
    ///
    /// The name is lowercased, and one trailing dot is removed.
    ///
    /// # Errors
    ///
    /// Returns [`ValidationError::EmptyDomain`] for an empty name, and
    /// [`ValidationError::InvalidDomain`] when the name cannot be a domain name.
    pub fn new(value: &str) -> (name: Result<Self, ValidationError>)
        ensures
            match (name, domain_of_text(value@)) {
                (Ok(name), Ok(wanted)) => name@ == wanted && is_domain_name(name@),
                (Err(error), Err(wanted)) => error@ == wanted,
                _ => false,
            },
    {
        let chars = text::chars_of(value);
        let (from, to) = text::trim_bounds(chars.as_slice());
        let end = if from < to && chars[to - 1] == '.' {
            to - 1
        } else {
            to
        };
        proof {
            let whole = chars@.subrange(from as int, to as int);
            if from < to {
                assert(whole.last() == chars@[to - 1]);
            }
            assert(chars@.subrange(from as int, end as int) =~= without_dot(whole));
        }
        let kept = text::text_of(slice_subrange(chars.as_slice(), from, end));
        let name = text::to_lower(kept.as_str());
        if name.as_str().is_empty() {
            return Err(ValidationError::EmptyDomain);
        }
        match Self::problem(name.as_str()) {
            Some(problem) => Err(ValidationError::InvalidDomain { value: name, problem }),
            None => {
                proof {
                    lemma_small_ascii_is_lower(name@);
                }
                Ok(DomainName(name))
            },
        }
    }

    /// Returns what is wrong with the name, or `None` when it is usable.
    ///
    /// A label holds letters, digits and hyphens only, and does not start or end with
    /// a hyphen. The name goes into a URL path as it is, so a character outside that
    /// set is a lookup for the wrong name: `foo?.com` asks for `foo` and sends `.com`
    /// as a query.
    pub fn problem(value: &str) -> (problem: Option<&'static str>)
        ensures
            problem is Some <==> domain_problem(value@) is Some,
            problem is Some ==> problem->0@ == domain_problem(value@)->0,
    {
        if value.as_bytes().len() > Self::MAX_BYTES {
            return Some("it is longer than 253 bytes");
        }
        if !value.is_ascii() {
            return Some("it has a character outside ASCII. Write an international name in its xn-- form");
        }
        let chars = text::chars_of(value);
        proof {
            text::lemma_first_index(value@, '.');
        }
        if text::find_char(chars.as_slice(), '.') >= chars.len() {
            return Some("it has no dot, so it is not a full domain name");
        }
        let labels = text::split_chars(chars.as_slice(), '.');
        let ghost all = text::split(value@, '.');
        let mut i: usize = 0;
        assert(all.skip(0) =~= all);
        while i < labels.len()
            invariant
                i <= labels@.len(),
                all == text::split(value@, '.'),
                text::chars_view(labels@) == all,
                domain_problem(value@) == labels_problem(all),
                labels_problem(all) == labels_problem(all.skip(i as int)),
            decreases labels@.len() - i,
        {
            assert(all[i as int] == labels@[i as int]@);
            let found = find_label_problem(labels[i].as_slice());
            if found.is_some() {
                return found;
            }
            assert(all.skip(i as int).drop_first() =~= all.skip(i + 1));
            i += 1;
        }
        None
    }

    /// Returns the name, lowercased and without a trailing dot.
    pub fn as_str(&self) -> (name: &str)
        ensures
            name@ == self@,
            is_domain_name(self@),
    {
        proof {
            use_type_invariant(&*self);
        }
        self.0.as_str()
    }
}

impl Clone for DomainName {
    fn clone(&self) -> (copy: Self)
        ensures
            copy@ == self@,
    {
        proof {
            use_type_invariant(&*self);
        }
        DomainName(self.0.clone())
    }
}

impl std::str::FromStr for DomainName {
    type Err = ValidationError;

    /// Wraps a domain name, as [`DomainName::new`] does.
    fn from_str(s: &str) -> (name: Result<Self, ValidationError>)
        ensures
            match (name, domain_of_text(s@)) {
                (Ok(name), Ok(wanted)) => name@ == wanted && is_domain_name(name@),
                (Err(error), Err(wanted)) => error@ == wanted,
                _ => false,
            },
    {
        Self::new(s)
    }
}

/// ASCII text without a capital is in small letters.
proof fn lemma_small_ascii_is_lower(name: Seq<char>)
    requires
        is_ascii_chars(name),
        forall|i: int| 0 <= i < name.len() ==> !('A' <= #[trigger] name[i] <= 'Z'),
    ensures
        text::lower(name) == name,
{
    assert(text::lower(name) =~= name);
}

// --- What a name promises ----------------------------------------------------

/// Whether a character is `a` to `z`, `A` to `Z`, `0` to `9` or a hyphen, by its code
/// point.
pub open spec fn is_letter_digit_or_hyphen(c: char) -> bool {
    let n = c as u32;
    97 <= n <= 122 || 65 <= n <= 90 || 48 <= n <= 57 || n == 45
}

/// A character a label can hold is a letter, a digit or a hyphen, by its code point.
pub proof fn law_label_characters(c: char)
    ensures
        is_label_char(c) <==> is_letter_digit_or_hyphen(c),
{
}

/// Whether a label holds one to 63 letters, digits and hyphens, with no hyphen at an
/// end.
pub open spec fn is_label(label: Seq<char>) -> bool {
    &&& 0 < label.len() <= 63
    &&& forall|i: int| 0 <= i < label.len() ==> is_letter_digit_or_hyphen(#[trigger] label[i])
    &&& label[0] != '-'
    &&& label.last() != '-'
}

/// A label is no problem when it is a label.
proof fn lemma_label(label: Seq<char>)
    ensures
        label_problem(label) is None <==> is_label(label),
{
    assert forall|i: int| 0 <= i < label.len() implies is_letter_digit_or_hyphen(#[trigger] label[i])
        == is_label_char(label[i]) by {
        law_label_characters(label[i]);
    }
}

/// No label is a problem when every label is a label.
proof fn lemma_labels(labels: Seq<Seq<char>>)
    ensures
        labels_problem(labels) is None <==> forall|i: int|
            0 <= i < labels.len() ==> is_label(#[trigger] labels[i]),
    decreases labels.len(),
{
    if labels.len() > 0 {
        let rest = labels.drop_first();
        lemma_labels(rest);
        lemma_label(labels[0]);
        if labels_problem(labels) is None {
            assert forall|i: int| 0 <= i < labels.len() implies is_label(#[trigger] labels[i]) by {
                if i > 0 {
                    assert(labels[i] == rest[i - 1]);
                }
            }
        } else if is_label(labels[0]) {
            let i = choose|i: int| 0 <= i < rest.len() && !is_label(#[trigger] rest[i]);
            assert(labels[i + 1] == rest[i]);
        }
    }
}

/// A name is usable when it is ASCII of at most 253 characters, in two or more labels.
pub proof fn law_usable_names(name: Seq<char>)
    ensures
        domain_problem(name) is None <==> {
            let labels = text::split(name, '.');
            &&& is_ascii_chars(name)
            &&& name.len() <= 253
            &&& labels.len() >= 2
            &&& forall|i: int| 0 <= i < labels.len() ==> is_label(#[trigger] labels[i])
        },
{
    let labels = text::split(name, '.');
    lemma_labels(labels);
    text::lemma_split_nonempty(name, '.');
    if is_ascii_chars(name) {
        is_ascii_chars_encode_utf8(name);
    }
    if !name.contains('.') {
        text::lemma_split_one(name, '.');
    } else if labels.len() == 1 {
        text::lemma_join_split(name, '.');
        text::lemma_split_pieces(name, '.');
        assert(labels[0] == name);
    }
}

/// A usable name holds nothing but letters, digits, hyphens and dots, so it goes into a
/// URL path as it is.
pub proof fn law_name_is_plain(name: Seq<char>, i: int)
    requires
        domain_problem(name) is None,
        0 <= i < name.len(),
    ensures
        is_letter_digit_or_hyphen(name[i]) || name[i] == '.',
        is_label_char(name[i]) || name[i] == '.',
{
    law_usable_names(name);
    let labels = text::split(name, '.');
    let c = name[i];
    law_label_characters(c);
    if !is_letter_digit_or_hyphen(c) && c != '.' {
        assert forall|k: int| 0 <= k < labels.len() implies !(#[trigger] labels[k]).contains(c) by {
            if labels[k].contains(c) {
                let at = choose|at: int| 0 <= at < labels[k].len() && labels[k][at] == c;
                assert(is_label(labels[k]));
                assert(is_letter_digit_or_hyphen(labels[k][at]));
            }
        }
        text::lemma_join_lacks(labels, '.', c);
        text::lemma_join_split(name, '.');
        assert(name.contains(c));
    }
}

/// A usable name neither starts nor ends with a dot.
proof fn lemma_name_ends(name: Seq<char>)
    requires
        domain_problem(name) is None,
    ensures
        name.len() > 0,
        name[0] != '.',
        name.last() != '.',
{
    law_usable_names(name);
    let labels = text::split(name, '.');
    text::lemma_split_pieces(name, '.');
    text::lemma_join_split(name, '.');
    assert forall|i: int| 0 <= i < labels.len() implies (#[trigger] labels[i]).len() > 0 && !labels[i].contains(
        '.',
    ) by {
        assert(is_label(labels[i]));
    }
    text::lemma_join_ends(labels, '.');
}

/// What a [`DomainName`] holds reads back as the same name.
pub proof fn law_name_reads_back(name: Seq<char>)
    requires
        is_domain_name(name),
    ensures
        domain_of_text(name) == Ok::<Seq<char>, ValidationErrorView>(name),
{
    lemma_name_ends(name);
    law_name_is_plain(name, 0);
    law_name_is_plain(name, name.len() - 1);
    assert(!text::is_space(name[0]));
    assert(!text::is_space(name.last()));
    assert(text::trim(name) == name);
}

/// White space around a name and one dot after it do not change the name, nor does the
/// case of its letters.
pub proof fn law_spelling_does_not_change_the_name(
    name: Seq<char>,
    spelled: Seq<char>,
    before: Seq<char>,
    after: Seq<char>,
)
    requires
        is_domain_name(name),
        is_ascii_chars(spelled),
        text::lower(spelled) == name,
        text::all_space(before),
        text::all_space(after),
    ensures
        domain_of_text(before + spelled + after) == Ok::<Seq<char>, ValidationErrorView>(name),
        domain_of_text(before + spelled.push('.') + after) == Ok::<Seq<char>, ValidationErrorView>(name),
{
    lemma_name_ends(name);
    law_name_is_plain(name, 0);
    law_name_is_plain(name, name.len() - 1);
    assert(spelled.len() == name.len());
    assert(name[0] == text::ascii_lower(spelled[0]));
    assert(name.last() == text::ascii_lower(spelled.last()));
    assert(!text::is_space(spelled[0]));
    assert(!text::is_space(spelled.last()));
    assert(spelled.last() != '.');
    text::lemma_trim_around(before, spelled, after);
    let dotted = spelled.push('.');
    assert(dotted[0] == spelled[0]);
    assert(dotted.last() == '.');
    assert(!text::is_space('.'));
    text::lemma_trim_around(before, dotted, after);
    assert(without_dot(dotted) =~= spelled);
}

/// The first label that is no label decides what is wrong with a name that is short
/// enough, in ASCII and with a dot.
proof fn lemma_first_bad_label(labels: Seq<Seq<char>>, i: int)
    requires
        0 <= i < labels.len(),
        forall|j: int| 0 <= j < i ==> is_label(#[trigger] labels[j]),
        !is_label(labels[i]),
    ensures
        labels_problem(labels) == label_problem(labels[i]),
        labels_problem(labels) is Some,
    decreases labels.len(),
{
    lemma_label(labels[0]);
    if i > 0 {
        let rest = labels.drop_first();
        assert forall|j: int| 0 <= j < i - 1 implies is_label(#[trigger] rest[j]) by {
            assert(rest[j] == labels[j + 1]);
        }
        assert(rest[i - 1] == labels[i]);
        lemma_first_bad_label(rest, i - 1);
    }
}

/// No character comes before the first.
proof fn lemma_from_zero(c: char)
    ensures
        '\0' <= c,
{
}

/// What is said of a name that is too long, not in ASCII or without a dot, in this order.
pub proof fn law_what_is_said_of_a_name(name: Seq<char>)
    ensures
        ({
            let said = domain_problem(name);
            if encode_utf8(name).len() > 253 {
                said == Some("it is longer than 253 bytes"@)
            } else if exists|i: int| 0 <= i < name.len() && #[trigger] name[i] > '\u{7f}' {
                said == Some(
                    "it has a character outside ASCII. Write an international name in its xn-- form"@,
                )
            } else if forall|i: int| 0 <= i < name.len() ==> #[trigger] name[i] != '.' {
                said == Some("it has no dot, so it is not a full domain name"@)
            } else {
                true
            }
        }),
{
    if exists|i: int| 0 <= i < name.len() && #[trigger] name[i] > '\u{7f}' {
        let i = choose|i: int| 0 <= i < name.len() && #[trigger] name[i] > '\u{7f}';
        assert(!is_ascii_chars(name));
    } else {
        assert forall|i: int| 0 <= i < name.len() implies '\0' <= #[trigger] name[i] <= '\u{7f}' by {
            lemma_from_zero(name[i]);
        }
    }
}

/// What is said of the first label of a name that is no label: that it is empty, too long,
/// holds another character, or has a hyphen at an end, in this order.
pub proof fn law_what_is_said_of_a_label(name: Seq<char>, i: int)
    requires
        name.len() <= 253,
        is_ascii_chars(name),
        name.contains('.'),
        0 <= i < text::split(name, '.').len(),
        forall|j: int| 0 <= j < i ==> is_label(#[trigger] text::split(name, '.')[j]),
        !is_label(text::split(name, '.')[i]),
    ensures
        ({
            let label = text::split(name, '.')[i];
            let said = domain_problem(name);
            if label.len() == 0 {
                said == Some("it has an empty label"@)
            } else if label.len() > 63 {
                said == Some("it has a label longer than 63 bytes"@)
            } else if exists|k: int| 0 <= k < label.len() && !is_letter_digit_or_hyphen(#[trigger] label[k]) {
                said == Some("it has a character other than a letter, a digit, a hyphen or a dot"@)
            } else {
                said == Some("a label starts or ends with a hyphen"@)
            }
        }),
{
    is_ascii_chars_encode_utf8(name);
    let labels = text::split(name, '.');
    lemma_first_bad_label(labels, i);
    let label = labels[i];
    assert forall|k: int| 0 <= k < label.len() implies is_letter_digit_or_hyphen(#[trigger] label[k])
        == is_label_char(label[k]) by {
        law_label_characters(label[k]);
    }
    if exists|k: int| 0 <= k < label.len() && !is_letter_digit_or_hyphen(#[trigger] label[k]) {
        let k = choose|k: int| 0 <= k < label.len() && !is_letter_digit_or_hyphen(#[trigger] label[k]);
        assert(!is_label_char(label[k]));
    }
}

/// The name of a text is what stands between white space, without one dot after it, in
/// small letters. It is refused when nothing is left, or for what is wrong with it.
pub proof fn law_what_a_text_names(before: Seq<char>, middle: Seq<char>, after: Seq<char>)
    requires
        forall|i: int| 0 <= i < before.len() ==> text::is_space(#[trigger] before[i]),
        forall|i: int| 0 <= i < after.len() ==> text::is_space(#[trigger] after[i]),
        middle.len() > 0 ==> !text::is_space(middle[0]) && !text::is_space(middle.last()),
    ensures
        ({
            let bare = if middle.len() > 0 && middle[middle.len() - 1] == '.' {
                middle.take(middle.len() - 1)
            } else {
                middle
            };
            let name = text::lower(bare);
            let found = domain_of_text(before + middle + after);
            if name.len() == 0 {
                found is Err && found->Err_0 is EmptyDomain
            } else {
                match domain_problem(name) {
                    None => found is Ok && found->Ok_0 == name,
                    Some(said) => found is Err && found->Err_0 == (ValidationErrorView::InvalidDomain {
                        value: name,
                        problem: said,
                    }),
                }
            }
        }),
{
    text::law_trimming_leaves_the_middle(before, middle, after);
    if middle.len() > 0 && middle[middle.len() - 1] == '.' {
        assert(middle.take(middle.len() - 1) =~= middle.drop_last());
    }
}

// --- Queries -----------------------------------------------------------------

/// The thing you want the abuse contact for.
///
/// The variant picks the sources. An IP address reaches the regional registry and the
/// blocklist zones. A domain name reaches the registry, then the registrar it names.
#[derive(Debug, PartialEq, Eq, Hash)]
pub enum Query {
    /// An IP address, v4 or v6.
    Ip(IpAddr),
    /// A domain name.
    Domain(DomainName),
}

/// What a [`Query`] holds.
pub enum QueryView {
    Ip(IpAddr),
    Domain(Seq<char>),
}

impl View for Query {
    type V = QueryView;

    open spec fn view(&self) -> QueryView {
        match *self {
            Query::Ip(ip) => QueryView::Ip(ip),
            Query::Domain(domain) => QueryView::Domain(domain@),
        }
    }
}

impl Clone for Query {
    fn clone(&self) -> (copy: Self)
        ensures
            copy@ == self@,
    {
        match self {
            Query::Ip(ip) => Query::Ip(*ip),
            Query::Domain(domain) => Query::Domain(domain.clone()),
        }
    }
}

impl From<IpAddr> for Query {
    fn from(ip: IpAddr) -> (query: Self) {
        Query::Ip(ip)
    }
}

impl vstd::std_specs::convert::FromSpecImpl<IpAddr> for Query {
    open spec fn obeys_from_spec() -> bool {
        true
    }

    open spec fn from_spec(ip: IpAddr) -> Self {
        Query::Ip(ip)
    }
}

impl From<DomainName> for Query {
    fn from(domain: DomainName) -> (query: Self) {
        Query::Domain(domain)
    }
}

impl vstd::std_specs::convert::FromSpecImpl<DomainName> for Query {
    open spec fn obeys_from_spec() -> bool {
        true
    }

    open spec fn from_spec(domain: DomainName) -> Self {
        Query::Domain(domain)
    }
}

// --- Public addresses --------------------------------------------------------

/// The IPv4 address an IPv6 address carries, or the address as it is.
///
/// An IPv4-mapped address carries one, and so does an address under the NAT64
/// well-known prefix.
pub open spec fn unmapped(ip: IpAddr) -> IpAddr {
    match ip {
        IpAddr::V4(_) => ip,
        IpAddr::V6(v6) => match addr::mapped_v4(v6) {
            Some(v4) => IpAddr::V4(v4),
            None => match nat64::well_known_v4(v6) {
                Some(v4) => IpAddr::V4(v4),
                None => ip,
            },
        },
    }
}

/// Returns the IPv4 address an IPv6 address carries, or the address as it was.
///
/// `::ffff:8.8.8.8` and `8.8.8.8` are one host. The IPv6 registry holds no record for
/// the mapped form, so both the check and the lookup use the IPv4 form. An address
/// under `64:ff9b::/96` is translated to the IPv4 address inside it on every network
/// that uses that prefix, so it is read the same way.
pub fn unmap(ip: IpAddr) -> (inner: IpAddr)
    ensures
        inner == unmapped(ip),
{
    match ip {
        IpAddr::V4(_) => ip,
        IpAddr::V6(v6) => match addr::to_mapped_v4(v6) {
            Some(v4) => IpAddr::V4(v4),
            None => match nat64::under_well_known(v6) {
                Some(v4) => IpAddr::V4(v4),
                None => ip,
            },
        },
    }
}

/// An IPv4 network of the table below.
pub open spec fn v4_network(a: u8, b: u8, c: u8, d: u8, length: u8) -> (IpAddr, u8) {
    (IpAddr::V4(addr::v4_of(a, b, c, d)), length)
}

/// An IPv6 network of the table below, from its first four groups and its last.
pub open spec fn v6_network(a: u16, b: u16, c: u16, d: u16, last: u16, length: u8) -> (IpAddr, u8) {
    (IpAddr::V6(addr::v6_of(seq![a, b, c, d, 0, 0, 0, last])), length)
}

/// IPv4 ranges that no public registry describes a host in.
///
/// From the IANA IPv4 Special-Purpose Address Registry: every range it marks as not
/// globally reachable.
pub open spec fn reserved_v4() -> Seq<(IpAddr, u8)> {
    seq![
        // "this network"
        v4_network(0, 0, 0, 0, 8),
        // private
        v4_network(10, 0, 0, 0, 8),
        // shared address space, for carrier-grade NAT
        v4_network(100, 64, 0, 0, 10),
        // loopback
        v4_network(127, 0, 0, 0, 8),
        // link-local
        v4_network(169, 254, 0, 0, 16),
        // private
        v4_network(172, 16, 0, 0, 12),
        // IETF protocol assignments
        v4_network(192, 0, 0, 0, 24),
        // documentation
        v4_network(192, 0, 2, 0, 24),
        // 6to4 relay anycast, deprecated
        v4_network(192, 88, 99, 0, 24),
        // private
        v4_network(192, 168, 0, 0, 16),
        // benchmarking
        v4_network(198, 18, 0, 0, 15),
        // documentation
        v4_network(198, 51, 100, 0, 24),
        // documentation
        v4_network(203, 0, 113, 0, 24),
        // multicast
        v4_network(224, 0, 0, 0, 4),
        // reserved, and the broadcast address
        v4_network(240, 0, 0, 0, 4),
    ]
}

/// IPv6 ranges that no public registry describes a host in.
///
/// From the IANA IPv6 Special-Purpose Address Registry: every range it marks as not
/// globally reachable, except `::ffff:0:0/96`. An address in that range carries an
/// IPv4 address, and [`unmap`] turns it into IPv4 before this table is read, so it is
/// judged by the IPv4 table instead.
pub open spec fn reserved_v6() -> Seq<(IpAddr, u8)> {
    seq![
        // unspecified
        v6_network(0, 0, 0, 0, 0, 128),
        // loopback
        v6_network(0, 0, 0, 0, 1, 128),
        // local-use IPv4/IPv6 translation
        v6_network(0x64, 0xff9b, 1, 0, 0, 48),
        // discard-only
        v6_network(0x100, 0, 0, 0, 0, 64),
        // IETF protocol assignments, with benchmarking
        v6_network(0x2001, 0, 0, 0, 0, 23),
        // documentation
        v6_network(0x2001, 0xdb8, 0, 0, 0, 32),
        // 6to4
        v6_network(0x2002, 0, 0, 0, 0, 16),
        // documentation
        v6_network(0x3fff, 0, 0, 0, 0, 20),
        // segment routing
        v6_network(0x5f00, 0, 0, 0, 0, 16),
        // unique local
        v6_network(0xfc00, 0, 0, 0, 0, 7),
        // link-local
        v6_network(0xfe80, 0, 0, 0, 0, 10),
        // multicast
        v6_network(0xff00, 0, 0, 0, 0, 8),
    ]
}

/// Whether one of these networks holds the address.
pub open spec fn in_any(networks: Seq<(IpAddr, u8)>, ip: IpAddr) -> bool {
    exists|i: int|
        #![trigger networks[i]]
        0 <= i < networks.len() && prefix::network_holds(networks[i].0, networks[i].1, ip)
}

/// Whether the public registries describe this address.
pub open spec fn public_address(ip: IpAddr) -> bool {
    let inner = unmapped(ip);
    if inner is V4 {
        !in_any(reserved_v4(), inner)
    } else {
        !in_any(reserved_v6(), inner)
    }
}

/// Writes an IPv4 network for the table below.
fn v4(a: u8, b: u8, c: u8, d: u8, length: u8) -> (network: (IpAddr, u8))
    ensures
        network == v4_network(a, b, c, d, length),
{
    (IpAddr::V4(Ipv4Addr::new(a, b, c, d)), length)
}

/// Writes an IPv6 network for the table below, from its first four groups and its last.
fn v6(a: u16, b: u16, c: u16, d: u16, last: u16, length: u8) -> (network: (IpAddr, u8))
    ensures
        network == v6_network(a, b, c, d, last, length),
{
    let groups: [u16; 8] = [a, b, c, d, 0, 0, 0, last];
    assert(groups@ =~= seq![a, b, c, d, 0, 0, 0, last]);
    (IpAddr::V6(Ipv6Addr::new(groups.as_slice())), length)
}

/// Returns the IPv4 ranges that no public registry describes a host in.
fn reserved_v4_table() -> (table: Vec<(IpAddr, u8)>)
    ensures
        table@ == reserved_v4(),
{
    let table = vec![
        v4(0, 0, 0, 0, 8),
        v4(10, 0, 0, 0, 8),
        v4(100, 64, 0, 0, 10),
        v4(127, 0, 0, 0, 8),
        v4(169, 254, 0, 0, 16),
        v4(172, 16, 0, 0, 12),
        v4(192, 0, 0, 0, 24),
        v4(192, 0, 2, 0, 24),
        v4(192, 88, 99, 0, 24),
        v4(192, 168, 0, 0, 16),
        v4(198, 18, 0, 0, 15),
        v4(198, 51, 100, 0, 24),
        v4(203, 0, 113, 0, 24),
        v4(224, 0, 0, 0, 4),
        v4(240, 0, 0, 0, 4),
    ];
    assert(table@ =~= reserved_v4());
    table
}

/// Returns the IPv6 ranges that no public registry describes a host in.
fn reserved_v6_table() -> (table: Vec<(IpAddr, u8)>)
    ensures
        table@ == reserved_v6(),
{
    let table = vec![
        v6(0, 0, 0, 0, 0, 128),
        v6(0, 0, 0, 0, 1, 128),
        v6(0x64, 0xff9b, 1, 0, 0, 48),
        v6(0x100, 0, 0, 0, 0, 64),
        v6(0x2001, 0, 0, 0, 0, 23),
        v6(0x2001, 0xdb8, 0, 0, 0, 32),
        v6(0x2002, 0, 0, 0, 0, 16),
        v6(0x3fff, 0, 0, 0, 0, 20),
        v6(0x5f00, 0, 0, 0, 0, 16),
        v6(0xfc00, 0, 0, 0, 0, 7),
        v6(0xfe80, 0, 0, 0, 0, 10),
        v6(0xff00, 0, 0, 0, 0, 8),
    ];
    assert(table@ =~= reserved_v6());
    table
}

/// Returns whether one of these networks holds the address.
fn held_by_any(networks: &[(IpAddr, u8)], ip: IpAddr) -> (held: bool)
    ensures
        held == in_any(networks@, ip),
{
    let mut i: usize = 0;
    while i < networks.len()
        invariant
            i <= networks@.len(),
            forall|k: int|
                #![trigger networks@[k]]
                0 <= k < i ==> !prefix::network_holds(networks@[k].0, networks@[k].1, ip),
        decreases networks@.len() - i,
    {
        let (network, length) = networks[i];
        if prefix::contains(network, length, ip) {
            assert(prefix::network_holds(networks@[i as int].0, networks@[i as int].1, ip));
            return true;
        }
        i += 1;
    }
    false
}

/// Returns whether the public registries describe this address.
///
/// A private, reserved or documentation address sits inside a range that a regional
/// registry still holds a record for. Asking about `192.168.1.1` returns the record
/// for the reserved block, whose abuse contact is IANA. That address is a real one and
/// a wrong one: nobody at IANA can act on a host inside your network, and a report
/// sent there is noise.
///
/// An IPv4 address written as IPv6, such as `::ffff:10.0.0.1`, is judged as the IPv4
/// address it carries. Without that, the IPv6 spelling of a private address would pass.
pub fn is_public(ip: IpAddr) -> (public: bool)
    ensures
        public == public_address(ip),
{
    let inner = unmap(ip);
    let reserved = match inner {
        IpAddr::V4(_) => reserved_v4_table(),
        IpAddr::V6(_) => reserved_v6_table(),
    };
    !held_by_any(reserved.as_slice(), inner)
}

// --- What the address check promises -----------------------------------------

/// The IPv4-mapped spelling of an IPv4 address, under `::ffff:0:0/96`.
pub open spec fn mapped_form(v4: Ipv4Addr) -> IpAddr {
    IpAddr::V6(Ipv6Addr { bits: (0xffff_0000_0000 + v4.bits) as u128 })
}

/// The NAT64 spelling of an IPv4 address, under `64:ff9b::/96`.
pub open spec fn translated_form(v4: Ipv4Addr) -> IpAddr {
    IpAddr::V6(Ipv6Addr { bits: (0x0064_ff9b_0000_0000_0000_0000_0000_0000 + v4.bits) as u128 })
}

/// An IPv4 address written as IPv6 is read, and judged, as the IPv4 address.
pub proof fn law_ipv6_spelling_is_judged_as_ipv4(v4: Ipv4Addr)
    ensures
        unmapped(mapped_form(v4)) == IpAddr::V4(v4),
        unmapped(translated_form(v4)) == IpAddr::V4(v4),
        public_address(mapped_form(v4)) == public_address(IpAddr::V4(v4)),
        public_address(translated_form(v4)) == public_address(IpAddr::V4(v4)),
{
    let v = v4.bits;
    let a = (0xffff_0000_0000 + v) as u128;
    assert(a >> 32 == 0xffff && (a & 0xffff_ffff) as u32 == v) by (bit_vector)
        requires
            a == 0xffff_0000_0000u128 + v,
    ;
    let b = (0x0064_ff9b_0000_0000_0000_0000_0000_0000 + v) as u128;
    assert(b >> 32 != 0xffff && ((((b >> 24u128) & 0xff) as u8) as u32) << 24 | ((((b >> 16u128) & 0xff)
        as u8) as u32) << 16 | ((((b >> 8u128) & 0xff) as u8) as u32) << 8 | ((((b >> 0u128) & 0xff) as u8)
        as u32) == v) by (bit_vector)
        requires
            b == 0x0064_ff9b_0000_0000_0000_0000_0000_0000u128 + v,
    ;
    vstd::arithmetic::power2::lemma2_to64();
    let (network, length) = nat64::well_known_prefix();
    assert(b as nat / 0x1_0000_0000nat == network.bits as nat / 0x1_0000_0000nat);
    assert((IpAddr::V6(network).width() - length) as nat == 32);
    assert(prefix::network_holds(IpAddr::V6(network), length, translated_form(v4)));
    assert(nat64::embedded(Ipv6Addr { bits: b }, 96) == Some(v4));
}

/// Reading the IPv4 address inside an address twice is reading it once.
pub proof fn law_unmap_is_settled(ip: IpAddr)
    ensures
        unmapped(unmapped(ip)) == unmapped(ip),
        public_address(unmapped(ip)) == public_address(ip),
{
}

/// Whether a number is in one of the runs of IPv4 addresses that are not globally
/// reachable.
spec fn in_reserved_v4_run(n: int) -> bool {
    ||| 0x0000_0000 <= n <= 0x00ff_ffff
    ||| 0x0a00_0000 <= n <= 0x0aff_ffff
    ||| 0x6440_0000 <= n <= 0x647f_ffff
    ||| 0x7f00_0000 <= n <= 0x7fff_ffff
    ||| 0xa9fe_0000 <= n <= 0xa9fe_ffff
    ||| 0xac10_0000 <= n <= 0xac1f_ffff
    ||| 0xc000_0000 <= n <= 0xc000_00ff
    ||| 0xc000_0200 <= n <= 0xc000_02ff
    ||| 0xc058_6300 <= n <= 0xc058_63ff
    ||| 0xc0a8_0000 <= n <= 0xc0a8_ffff
    ||| 0xc612_0000 <= n <= 0xc613_ffff
    ||| 0xc633_6400 <= n <= 0xc633_64ff
    ||| 0xcb00_7100 <= n <= 0xcb00_71ff
    ||| 0xe000_0000 <= n <= 0xefff_ffff
    ||| 0xf000_0000 <= n <= 0xffff_ffff
}

/// An IPv4 network of the table holds a run of numbers.
proof fn lemma_v4_row(a: u8, b: u8, c: u8, d: u8, length: u8, ip: Ipv4Addr, size: nat)
    requires
        length <= 32,
        size == vstd::arithmetic::power2::pow2((32 - length) as nat),
        (a * 16777216 + b * 65536 + c * 256 + d) % size as int == 0,
    ensures
        ({
            let from = a * 16777216 + b * 65536 + c * 256 + d;
            let (network, bits) = v4_network(a, b, c, d, length);
            prefix::network_holds(network, bits, IpAddr::V4(ip)) <==> from <= ip.bits < from + size
        }),
{
    addr::law_octets_are_the_digits(a, b, c, d);
    let (network, bits) = v4_network(a, b, c, d, length);
    prefix::lemma_network_from(network, bits, IpAddr::V4(ip), size);
}

/// The table of IPv4 networks holds the runs of numbers, and no other number.
proof fn lemma_v4_table(ip: Ipv4Addr)
    ensures
        in_any(reserved_v4(), IpAddr::V4(ip)) <==> in_reserved_v4_run(ip.bits as int),
{
    vstd::arithmetic::power2::lemma2_to64();
    let table = reserved_v4();
    let holds = |i: int| prefix::network_holds(table[i].0, table[i].1, IpAddr::V4(ip));
    lemma_v4_row(0, 0, 0, 0, 8, ip, 16777216);
    lemma_v4_row(10, 0, 0, 0, 8, ip, 16777216);
    lemma_v4_row(100, 64, 0, 0, 10, ip, 4194304);
    lemma_v4_row(127, 0, 0, 0, 8, ip, 16777216);
    lemma_v4_row(169, 254, 0, 0, 16, ip, 65536);
    lemma_v4_row(172, 16, 0, 0, 12, ip, 1048576);
    lemma_v4_row(192, 0, 0, 0, 24, ip, 256);
    lemma_v4_row(192, 0, 2, 0, 24, ip, 256);
    lemma_v4_row(192, 88, 99, 0, 24, ip, 256);
    lemma_v4_row(192, 168, 0, 0, 16, ip, 65536);
    lemma_v4_row(198, 18, 0, 0, 15, ip, 131072);
    lemma_v4_row(198, 51, 100, 0, 24, ip, 256);
    lemma_v4_row(203, 0, 113, 0, 24, ip, 256);
    lemma_v4_row(224, 0, 0, 0, 4, ip, 268435456);
    lemma_v4_row(240, 0, 0, 0, 4, ip, 268435456);
    assert(holds(0) <==> 0x0000_0000 <= ip.bits <= 0x00ff_ffff);
    assert(holds(1) <==> 0x0a00_0000 <= ip.bits <= 0x0aff_ffff);
    assert(holds(2) <==> 0x6440_0000 <= ip.bits <= 0x647f_ffff);
    assert(holds(3) <==> 0x7f00_0000 <= ip.bits <= 0x7fff_ffff);
    assert(holds(4) <==> 0xa9fe_0000 <= ip.bits <= 0xa9fe_ffff);
    assert(holds(5) <==> 0xac10_0000 <= ip.bits <= 0xac1f_ffff);
    assert(holds(6) <==> 0xc000_0000 <= ip.bits <= 0xc000_00ff);
    assert(holds(7) <==> 0xc000_0200 <= ip.bits <= 0xc000_02ff);
    assert(holds(8) <==> 0xc058_6300 <= ip.bits <= 0xc058_63ff);
    assert(holds(9) <==> 0xc0a8_0000 <= ip.bits <= 0xc0a8_ffff);
    assert(holds(10) <==> 0xc612_0000 <= ip.bits <= 0xc613_ffff);
    assert(holds(11) <==> 0xc633_6400 <= ip.bits <= 0xc633_64ff);
    assert(holds(12) <==> 0xcb00_7100 <= ip.bits <= 0xcb00_71ff);
    assert(holds(13) <==> 0xe000_0000 <= ip.bits <= 0xefff_ffff);
    assert(holds(14) <==> 0xf000_0000 <= ip.bits <= 0xffff_ffff);
    if in_any(table, IpAddr::V4(ip)) {
        let i = choose|i: int|
            #![trigger table[i]]
            0 <= i < table.len() && prefix::network_holds(table[i].0, table[i].1, IpAddr::V4(ip));
        assert(holds(i));
    }
    if in_reserved_v4_run(ip.bits as int) {
        assert(exists|i: int| 0 <= i < table.len() && #[trigger] holds(i));
        let i = choose|i: int| 0 <= i < table.len() && #[trigger] holds(i);
        assert(prefix::network_holds(table[i].0, table[i].1, IpAddr::V4(ip)));
    }
}

/// An IPv4 address is public exactly when its number is outside every run of addresses
/// that the IANA registry marks as not globally reachable.
pub proof fn law_public_ipv4_by_number(ip: Ipv4Addr)
    ensures
        public_address(IpAddr::V4(ip)) <==> !({
            let n = ip.bits;
            // 0.0.0.0 to 0.255.255.255
            ||| 0x0000_0000 <= n <= 0x00ff_ffff
            // 10.0.0.0 to 10.255.255.255
            ||| 0x0a00_0000 <= n <= 0x0aff_ffff
            // 100.64.0.0 to 100.127.255.255
            ||| 0x6440_0000 <= n <= 0x647f_ffff
            // 127.0.0.0 to 127.255.255.255
            ||| 0x7f00_0000 <= n <= 0x7fff_ffff
            // 169.254.0.0 to 169.254.255.255
            ||| 0xa9fe_0000 <= n <= 0xa9fe_ffff
            // 172.16.0.0 to 172.31.255.255
            ||| 0xac10_0000 <= n <= 0xac1f_ffff
            // 192.0.0.0 to 192.0.0.255
            ||| 0xc000_0000 <= n <= 0xc000_00ff
            // 192.0.2.0 to 192.0.2.255
            ||| 0xc000_0200 <= n <= 0xc000_02ff
            // 192.88.99.0 to 192.88.99.255
            ||| 0xc058_6300 <= n <= 0xc058_63ff
            // 192.168.0.0 to 192.168.255.255
            ||| 0xc0a8_0000 <= n <= 0xc0a8_ffff
            // 198.18.0.0 to 198.19.255.255
            ||| 0xc612_0000 <= n <= 0xc613_ffff
            // 198.51.100.0 to 198.51.100.255
            ||| 0xc633_6400 <= n <= 0xc633_64ff
            // 203.0.113.0 to 203.0.113.255
            ||| 0xcb00_7100 <= n <= 0xcb00_71ff
            // 224.0.0.0 to 239.255.255.255
            ||| 0xe000_0000 <= n <= 0xefff_ffff
            // 240.0.0.0 to 255.255.255.255
            ||| 0xf000_0000 <= n <= 0xffff_ffff
        }),
{
    lemma_v4_table(ip);
}

/// An IPv4 address of four octets is public exactly when the octets are in none of the
/// ranges that the IANA registry marks as not globally reachable.
pub proof fn law_public_ipv4_by_octets(ip: Ipv4Addr, a: u8, b: u8, c: u8, d: u8)
    requires
        ip.bits == a * 16777216 + b * 65536 + c * 256 + d,
    ensures
        public_address(IpAddr::V4(ip)) <==> !({
            ||| a == 0
            ||| a == 10
            ||| a == 100 && 64 <= b <= 127
            ||| a == 127
            ||| a == 169 && b == 254
            ||| a == 172 && 16 <= b <= 31
            ||| a == 192 && b == 0 && c == 0
            ||| a == 192 && b == 0 && c == 2
            ||| a == 192 && b == 88 && c == 99
            ||| a == 192 && b == 168
            ||| a == 198 && 18 <= b <= 19
            ||| a == 198 && b == 51 && c == 100
            ||| a == 203 && b == 0 && c == 113
            ||| 224 <= a <= 239
            ||| 240 <= a <= 255
        }),
{
    law_public_ipv4_by_number(ip);
}

/// Whether a number is in one of the runs of IPv6 addresses that are not globally
/// reachable.
spec fn in_reserved_v6_run(n: int) -> bool {
    ||| 0x0000_0000_0000_0000_0000_0000_0000_0000 <= n <= 0x0000_0000_0000_0000_0000_0000_0000_0000
    ||| 0x0000_0000_0000_0000_0000_0000_0000_0001 <= n <= 0x0000_0000_0000_0000_0000_0000_0000_0001
    ||| 0x0064_ff9b_0001_0000_0000_0000_0000_0000 <= n <= 0x0064_ff9b_0001_ffff_ffff_ffff_ffff_ffff
    ||| 0x0100_0000_0000_0000_0000_0000_0000_0000 <= n <= 0x0100_0000_0000_0000_ffff_ffff_ffff_ffff
    ||| 0x2001_0000_0000_0000_0000_0000_0000_0000 <= n <= 0x2001_01ff_ffff_ffff_ffff_ffff_ffff_ffff
    ||| 0x2001_0db8_0000_0000_0000_0000_0000_0000 <= n <= 0x2001_0db8_ffff_ffff_ffff_ffff_ffff_ffff
    ||| 0x2002_0000_0000_0000_0000_0000_0000_0000 <= n <= 0x2002_ffff_ffff_ffff_ffff_ffff_ffff_ffff
    ||| 0x3fff_0000_0000_0000_0000_0000_0000_0000 <= n <= 0x3fff_0fff_ffff_ffff_ffff_ffff_ffff_ffff
    ||| 0x5f00_0000_0000_0000_0000_0000_0000_0000 <= n <= 0x5f00_ffff_ffff_ffff_ffff_ffff_ffff_ffff
    ||| 0xfc00_0000_0000_0000_0000_0000_0000_0000 <= n <= 0xfdff_ffff_ffff_ffff_ffff_ffff_ffff_ffff
    ||| 0xfe80_0000_0000_0000_0000_0000_0000_0000 <= n <= 0xfebf_ffff_ffff_ffff_ffff_ffff_ffff_ffff
    ||| 0xff00_0000_0000_0000_0000_0000_0000_0000 <= n <= 0xffff_ffff_ffff_ffff_ffff_ffff_ffff_ffff
}

/// The powers of two that the IPv6 networks of the table are as large as.
proof fn lemma_v6_sizes()
    ensures
        vstd::arithmetic::power2::pow2(0) == 0x1,
        vstd::arithmetic::power2::pow2(64) == 0x1_0000_0000_0000_0000,
        vstd::arithmetic::power2::pow2(80) == 0x1_0000_0000_0000_0000_0000,
        vstd::arithmetic::power2::pow2(96) == 0x1_0000_0000_0000_0000_0000_0000,
        vstd::arithmetic::power2::pow2(105) == 0x200_0000_0000_0000_0000_0000_0000,
        vstd::arithmetic::power2::pow2(108) == 0x1000_0000_0000_0000_0000_0000_0000,
        vstd::arithmetic::power2::pow2(112) == 0x1_0000_0000_0000_0000_0000_0000_0000,
        vstd::arithmetic::power2::pow2(118) == 0x40_0000_0000_0000_0000_0000_0000_0000,
        vstd::arithmetic::power2::pow2(120) == 0x100_0000_0000_0000_0000_0000_0000_0000,
        vstd::arithmetic::power2::pow2(121) == 0x200_0000_0000_0000_0000_0000_0000_0000,
{
    vstd::arithmetic::power2::lemma2_to64();
    vstd::arithmetic::power2::lemma2_to64_rest();
    vstd::arithmetic::power2::lemma_pow2_adds(64, 16);
    assert(0x1_0000_0000_0000_0000nat * 0x1_0000nat == 0x1_0000_0000_0000_0000_0000nat) by (nonlinear_arith);
    vstd::arithmetic::power2::lemma_pow2_adds(64, 32);
    assert(0x1_0000_0000_0000_0000nat * 0x1_0000_0000nat == 0x1_0000_0000_0000_0000_0000_0000nat) by (nonlinear_arith);
    vstd::arithmetic::power2::lemma_pow2_adds(64, 41);
    assert(0x1_0000_0000_0000_0000nat * 0x200_0000_0000nat == 0x200_0000_0000_0000_0000_0000_0000nat) by (nonlinear_arith);
    vstd::arithmetic::power2::lemma_pow2_adds(64, 44);
    assert(0x1_0000_0000_0000_0000nat * 0x1000_0000_0000nat == 0x1000_0000_0000_0000_0000_0000_0000nat) by (nonlinear_arith);
    vstd::arithmetic::power2::lemma_pow2_adds(64, 48);
    assert(0x1_0000_0000_0000_0000nat * 0x1_0000_0000_0000nat == 0x1_0000_0000_0000_0000_0000_0000_0000nat) by (nonlinear_arith);
    vstd::arithmetic::power2::lemma_pow2_adds(64, 54);
    assert(0x1_0000_0000_0000_0000nat * 0x40_0000_0000_0000nat == 0x40_0000_0000_0000_0000_0000_0000_0000nat) by (nonlinear_arith);
    vstd::arithmetic::power2::lemma_pow2_adds(64, 56);
    assert(0x1_0000_0000_0000_0000nat * 0x100_0000_0000_0000nat == 0x100_0000_0000_0000_0000_0000_0000_0000nat) by (nonlinear_arith);
    vstd::arithmetic::power2::lemma_pow2_adds(64, 57);
    assert(0x1_0000_0000_0000_0000nat * 0x200_0000_0000_0000nat == 0x200_0000_0000_0000_0000_0000_0000_0000nat) by (nonlinear_arith);
}

/// An IPv6 network of the table holds a run of numbers.
proof fn lemma_v6_row(a: u16, b: u16, c: u16, d: u16, last: u16, length: u8, ip: Ipv6Addr, from: nat, size: nat)
    requires
        length <= 128,
        size == vstd::arithmetic::power2::pow2((128 - length) as nat),
        from == a * 0x1_0000_0000_0000_0000_0000_0000_0000 + b * 0x1_0000_0000_0000_0000_0000_0000 + c
            * 0x1_0000_0000_0000_0000_0000 + d * 0x1_0000_0000_0000_0000 + last,
        from % size == 0,
    ensures
        ({
            let (network, bits) = v6_network(a, b, c, d, last, length);
            prefix::network_holds(network, bits, IpAddr::V6(ip)) <==> from <= ip.bits < from + size
        }),
{
    addr::law_groups_are_the_digits(seq![a, b, c, d, 0, 0, 0, last]);
    let (network, bits) = v6_network(a, b, c, d, last, length);
    prefix::lemma_network_from(network, bits, IpAddr::V6(ip), size);
}

/// The table of IPv6 networks holds the runs of numbers, and no other number.
proof fn lemma_v6_table(ip: Ipv6Addr)
    ensures
        in_any(reserved_v6(), IpAddr::V6(ip)) <==> in_reserved_v6_run(ip.bits as int),
{
    lemma_v6_sizes();
    let table = reserved_v6();
    let holds = |i: int| prefix::network_holds(table[i].0, table[i].1, IpAddr::V6(ip));
    lemma_v6_row(0, 0, 0, 0, 0, 128, ip, 0x0000_0000_0000_0000_0000_0000_0000_0000, 0x1);
    lemma_v6_row(0, 0, 0, 0, 1, 128, ip, 0x0000_0000_0000_0000_0000_0000_0000_0001, 0x1);
    lemma_v6_row(0x64, 0xff9b, 1, 0, 0, 48, ip, 0x0064_ff9b_0001_0000_0000_0000_0000_0000, 0x1_0000_0000_0000_0000_0000);
    lemma_v6_row(0x100, 0, 0, 0, 0, 64, ip, 0x0100_0000_0000_0000_0000_0000_0000_0000, 0x1_0000_0000_0000_0000);
    lemma_v6_row(0x2001, 0, 0, 0, 0, 23, ip, 0x2001_0000_0000_0000_0000_0000_0000_0000, 0x200_0000_0000_0000_0000_0000_0000);
    lemma_v6_row(0x2001, 0xdb8, 0, 0, 0, 32, ip, 0x2001_0db8_0000_0000_0000_0000_0000_0000, 0x1_0000_0000_0000_0000_0000_0000);
    lemma_v6_row(0x2002, 0, 0, 0, 0, 16, ip, 0x2002_0000_0000_0000_0000_0000_0000_0000, 0x1_0000_0000_0000_0000_0000_0000_0000);
    lemma_v6_row(0x3fff, 0, 0, 0, 0, 20, ip, 0x3fff_0000_0000_0000_0000_0000_0000_0000, 0x1000_0000_0000_0000_0000_0000_0000);
    lemma_v6_row(0x5f00, 0, 0, 0, 0, 16, ip, 0x5f00_0000_0000_0000_0000_0000_0000_0000, 0x1_0000_0000_0000_0000_0000_0000_0000);
    lemma_v6_row(0xfc00, 0, 0, 0, 0, 7, ip, 0xfc00_0000_0000_0000_0000_0000_0000_0000, 0x200_0000_0000_0000_0000_0000_0000_0000);
    lemma_v6_row(0xfe80, 0, 0, 0, 0, 10, ip, 0xfe80_0000_0000_0000_0000_0000_0000_0000, 0x40_0000_0000_0000_0000_0000_0000_0000);
    lemma_v6_row(0xff00, 0, 0, 0, 0, 8, ip, 0xff00_0000_0000_0000_0000_0000_0000_0000, 0x100_0000_0000_0000_0000_0000_0000_0000);
    assert(holds(0) <==> 0x0000_0000_0000_0000_0000_0000_0000_0000 <= ip.bits <= 0x0000_0000_0000_0000_0000_0000_0000_0000);
    assert(holds(1) <==> 0x0000_0000_0000_0000_0000_0000_0000_0001 <= ip.bits <= 0x0000_0000_0000_0000_0000_0000_0000_0001);
    assert(holds(2) <==> 0x0064_ff9b_0001_0000_0000_0000_0000_0000 <= ip.bits <= 0x0064_ff9b_0001_ffff_ffff_ffff_ffff_ffff);
    assert(holds(3) <==> 0x0100_0000_0000_0000_0000_0000_0000_0000 <= ip.bits <= 0x0100_0000_0000_0000_ffff_ffff_ffff_ffff);
    assert(holds(4) <==> 0x2001_0000_0000_0000_0000_0000_0000_0000 <= ip.bits <= 0x2001_01ff_ffff_ffff_ffff_ffff_ffff_ffff);
    assert(holds(5) <==> 0x2001_0db8_0000_0000_0000_0000_0000_0000 <= ip.bits <= 0x2001_0db8_ffff_ffff_ffff_ffff_ffff_ffff);
    assert(holds(6) <==> 0x2002_0000_0000_0000_0000_0000_0000_0000 <= ip.bits <= 0x2002_ffff_ffff_ffff_ffff_ffff_ffff_ffff);
    assert(holds(7) <==> 0x3fff_0000_0000_0000_0000_0000_0000_0000 <= ip.bits <= 0x3fff_0fff_ffff_ffff_ffff_ffff_ffff_ffff);
    assert(holds(8) <==> 0x5f00_0000_0000_0000_0000_0000_0000_0000 <= ip.bits <= 0x5f00_ffff_ffff_ffff_ffff_ffff_ffff_ffff);
    assert(holds(9) <==> 0xfc00_0000_0000_0000_0000_0000_0000_0000 <= ip.bits <= 0xfdff_ffff_ffff_ffff_ffff_ffff_ffff_ffff);
    assert(holds(10) <==> 0xfe80_0000_0000_0000_0000_0000_0000_0000 <= ip.bits <= 0xfebf_ffff_ffff_ffff_ffff_ffff_ffff_ffff);
    assert(holds(11) <==> 0xff00_0000_0000_0000_0000_0000_0000_0000 <= ip.bits <= 0xffff_ffff_ffff_ffff_ffff_ffff_ffff_ffff);
    if in_any(table, IpAddr::V6(ip)) {
        let i = choose|i: int|
            #![trigger table[i]]
            0 <= i < table.len() && prefix::network_holds(table[i].0, table[i].1, IpAddr::V6(ip));
        assert(holds(i));
    }
    if in_reserved_v6_run(ip.bits as int) {
        assert(exists|i: int| 0 <= i < table.len() && #[trigger] holds(i));
        let i = choose|i: int| 0 <= i < table.len() && #[trigger] holds(i);
        assert(prefix::network_holds(table[i].0, table[i].1, IpAddr::V6(ip)));
    }
}

/// An address from `::ffff:0.0.0.0` to `::ffff:255.255.255.255`, or from `64:ff9b::` to
/// `64:ff9b::255.255.255.255`, is read as the IPv4 address in its last 32 bits. Every
/// other address is left as it is.
pub proof fn law_which_addresses_carry_ipv4(ip: IpAddr)
    ensures
        ip is V4 ==> unmapped(ip) == ip,
        ip matches IpAddr::V6(v6) ==> {
            let n = v6.bits;
            let base: int = 0x0064_ff9b_0000_0000_0000_0000_0000_0000;
            if 0xffff_0000_0000 <= n <= 0xffff_ffff_ffff {
                unmapped(ip) matches IpAddr::V4(v4) && v4.bits == n - 0xffff_0000_0000
            } else if base <= n <= base + 0xffff_ffff {
                unmapped(ip) matches IpAddr::V4(v4) && v4.bits == n - base
            } else {
                unmapped(ip) == ip
            }
        },
{
    if let IpAddr::V6(v6) = ip {
        let n = v6.bits;
        let base: int = 0x0064_ff9b_0000_0000_0000_0000_0000_0000;
        addr::law_mapped_addresses(v6);
        vstd::arithmetic::power2::lemma2_to64();
        let (network, length) = nat64::well_known_prefix();
        prefix::lemma_network_from(IpAddr::V6(network), length, ip, 0x1_0000_0000);
        if base <= n <= base + 0xffff_ffff {
            let v4 = Ipv4Addr { bits: (n - base) as u32 };
            law_ipv6_spelling_is_judged_as_ipv4(v4);
            assert(ip == translated_form(v4));
        }
    }
}

/// An IPv6 address that carries no IPv4 address is public exactly when its number is
/// outside every run of addresses that the IANA registry marks as not globally reachable.
/// One that carries an IPv4 address is public exactly when that address is.
pub proof fn law_public_ipv6_by_number(ip: Ipv6Addr)
    ensures
        ({
            let n = ip.bits;
            let base: int = 0x0064_ff9b_0000_0000_0000_0000_0000_0000;
            if 0xffff_0000_0000 <= n <= 0xffff_ffff_ffff {
                public_address(IpAddr::V6(ip)) == public_address(
                    IpAddr::V4(Ipv4Addr { bits: (n - 0xffff_0000_0000) as u32 }),
                )
            } else if base <= n <= base + 0xffff_ffff {
                public_address(IpAddr::V6(ip)) == public_address(
                    IpAddr::V4(Ipv4Addr { bits: (n - base) as u32 }),
                )
            } else {
                public_address(IpAddr::V6(ip)) <==> !({
                    // ::
                    ||| 0x0000_0000_0000_0000_0000_0000_0000_0000 <= n <= 0x0000_0000_0000_0000_0000_0000_0000_0000
                    // ::1
                    ||| 0x0000_0000_0000_0000_0000_0000_0000_0001 <= n <= 0x0000_0000_0000_0000_0000_0000_0000_0001
                    // 64:ff9b:1::/48
                    ||| 0x0064_ff9b_0001_0000_0000_0000_0000_0000 <= n <= 0x0064_ff9b_0001_ffff_ffff_ffff_ffff_ffff
                    // 100::/64
                    ||| 0x0100_0000_0000_0000_0000_0000_0000_0000 <= n <= 0x0100_0000_0000_0000_ffff_ffff_ffff_ffff
                    // 2001::/23
                    ||| 0x2001_0000_0000_0000_0000_0000_0000_0000 <= n <= 0x2001_01ff_ffff_ffff_ffff_ffff_ffff_ffff
                    // 2001:db8::/32
                    ||| 0x2001_0db8_0000_0000_0000_0000_0000_0000 <= n <= 0x2001_0db8_ffff_ffff_ffff_ffff_ffff_ffff
                    // 2002::/16
                    ||| 0x2002_0000_0000_0000_0000_0000_0000_0000 <= n <= 0x2002_ffff_ffff_ffff_ffff_ffff_ffff_ffff
                    // 3fff::/20
                    ||| 0x3fff_0000_0000_0000_0000_0000_0000_0000 <= n <= 0x3fff_0fff_ffff_ffff_ffff_ffff_ffff_ffff
                    // 5f00::/16
                    ||| 0x5f00_0000_0000_0000_0000_0000_0000_0000 <= n <= 0x5f00_ffff_ffff_ffff_ffff_ffff_ffff_ffff
                    // fc00::/7
                    ||| 0xfc00_0000_0000_0000_0000_0000_0000_0000 <= n <= 0xfdff_ffff_ffff_ffff_ffff_ffff_ffff_ffff
                    // fe80::/10
                    ||| 0xfe80_0000_0000_0000_0000_0000_0000_0000 <= n <= 0xfebf_ffff_ffff_ffff_ffff_ffff_ffff_ffff
                    // ff00::/8
                    ||| 0xff00_0000_0000_0000_0000_0000_0000_0000 <= n <= 0xffff_ffff_ffff_ffff_ffff_ffff_ffff_ffff
                })
            }
        }),
{
    law_which_addresses_carry_ipv4(IpAddr::V6(ip));
    lemma_v6_table(ip);
    let n = ip.bits;
    let base: int = 0x0064_ff9b_0000_0000_0000_0000_0000_0000;
    if 0xffff_0000_0000 <= n <= 0xffff_ffff_ffff {
        assert(unmapped(IpAddr::V6(ip)) == IpAddr::V4(Ipv4Addr { bits: (n - 0xffff_0000_0000) as u32 }));
    } else if base <= n <= base + 0xffff_ffff {
        assert(unmapped(IpAddr::V6(ip)) == IpAddr::V4(Ipv4Addr { bits: (n - base) as u32 }));
    }
}

/// A name can be held when it is ASCII of at most 253 characters without a capital letter,
/// in two or more labels.
pub proof fn law_which_names_are_held(name: Seq<char>)
    ensures
        is_domain_name(name) <==> {
            let labels = text::split(name, '.');
            &&& is_ascii_chars(name)
            &&& name.len() <= 253
            &&& labels.len() >= 2
            &&& forall|i: int| 0 <= i < labels.len() ==> is_label(#[trigger] labels[i])
            &&& forall|i: int| 0 <= i < name.len() ==> !('A' <= #[trigger] name[i] <= 'Z')
        },
        DomainName::MAX_BYTES == 253,
{
    law_usable_names(name);
    if domain_problem(name) is None {
        lemma_name_ends(name);
        if forall|i: int| 0 <= i < name.len() ==> !('A' <= #[trigger] name[i] <= 'Z') {
            lemma_small_ascii_is_lower(name);
        }
        if text::lower(name) == name {
            assert forall|i: int| 0 <= i < name.len() implies !('A' <= #[trigger] name[i] <= 'Z') by {
                text::law_ascii_case(name, i);
            }
        }
    }
}

/// A query is seen as the address or the name it is about.
pub proof fn law_queries_are_seen_whole(query: Query)
    ensures
        query matches Query::Ip(ip) ==> query@ == QueryView::Ip(ip),
        query matches Query::Domain(domain) ==> query@ == QueryView::Domain(domain@),
{
}

} // verus!
