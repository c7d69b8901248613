//! The IANA bootstrap registries, which say who answers for an address or a name.
//!
//! IANA publishes three files. Two map an address range to the RDAP server of the
//! regional registry that holds it, and one maps a top-level domain to the server of
//! its registry. RFC 9224 gives the format and the matching rules.
//!
//! Nothing here fetches. A [`Registry`] is made from services you already have, so the
//! rules that pick a server run in a test without a network.

use vstd::prelude::*;

use crate::addr::IpAddr;
use crate::prefix;
use crate::query::DomainName;
use crate::text;

verus! {

/// Where IANA publishes the registry for IPv4 addresses.
pub const IPV4_URL: &'static str = "https://data.iana.org/rdap/ipv4.json";

/// Where IANA publishes the registry for IPv6 addresses.
pub const IPV6_URL: &'static str = "https://data.iana.org/rdap/ipv6.json";

/// Where IANA publishes the registry for domain names.
pub const DNS_URL: &'static str = "https://data.iana.org/rdap/dns.json";

// --- What a registry says ----------------------------------------------------

/// One key of a service, with the servers of the service.
pub struct Entry {
    pub key: Seq<char>,
    pub urls: Seq<Seq<char>>,
}

/// The entries of one service: each key with the servers that answer for it.
///
/// A service in a shape RFC 9224 does not describe has none, so one bad entry does not
/// lose the rest of the file.
pub open spec fn service_entries(service: Seq<Seq<Seq<char>>>) -> Seq<Entry> {
    if service.len() >= 2 {
        service[0].map_values(|key: Seq<char>| Entry { key, urls: service[1] })
    } else {
        Seq::<Entry>::empty()
    }
}

/// The entries of a registry, in order.
pub open spec fn entries(services: Seq<Seq<Seq<Seq<char>>>>) -> Seq<Entry>
    decreases services.len(),
{
    if services.len() == 0 {
        Seq::<Entry>::empty()
    } else {
        entries(services.drop_last()) + service_entries(services.last())
    }
}

/// Whether a server is to be reached by HTTPS.
pub open spec fn is_https(url: Seq<char>) -> bool {
    text::has_at(url, "https://"@, 0)
}

/// The first server of a list that is reached by HTTPS.
pub open spec fn first_https(urls: Seq<Seq<char>>) -> Option<Seq<char>>
    decreases urls.len(),
{
    if urls.len() == 0 {
        None
    } else if is_https(urls[0]) {
        Some(urls[0])
    } else {
        first_https(urls.drop_first())
    }
}

/// The server to use out of the servers a service lists.
pub open spec fn preferred_url(urls: Seq<Seq<char>>) -> Option<Seq<char>> {
    if first_https(urls) is Some {
        first_https(urls)
    } else if urls.len() > 0 {
        Some(urls[0])
    } else {
        None
    }
}

/// How closely an entry fits an address: the length of its range, when the range holds
/// the address and the service lists a server.
pub open spec fn ip_fit(entry: Entry, ip: IpAddr) -> Option<nat> {
    match prefix::range_of_text(entry.key) {
        Some((network, length)) => if prefix::network_holds(network, length, ip) && preferred_url(
            entry.urls,
        ) is Some {
            Some(length as nat)
        } else {
            None
        },
        None => None,
    }
}

/// A key of the registry for names, in small letters and without dots around it.
pub open spec fn cleaned_key(key: Seq<char>) -> Seq<char> {
    text::lower(text::drop_tail(text::drop_head(key, '.'), '.'))
}

/// Whether a name sits at or under a suffix, on whole labels.
pub open spec fn is_under(name: Seq<char>, suffix: Seq<char>) -> bool {
    &&& suffix.len() > 0
    &&& text::has_end(name, suffix)
    &&& name.len() == suffix.len() || name[name.len() - suffix.len() - 1] == '.'
}

/// How closely an entry fits a name: how many labels its key has, when the name sits at
/// or under the key and the service lists a server.
pub open spec fn domain_fit(entry: Entry, name: Seq<char>) -> Option<nat> {
    let key = cleaned_key(entry.key);
    if is_under(name, key) && preferred_url(entry.urls) is Some {
        Some(text::split(key, '.').len())
    } else {
        None
    }
}

/// Whether an entry fits best: no entry fits more closely, and no entry before it fits
/// as closely.
pub open spec fn fits_best(list: Seq<Entry>, fit: spec_fn(Entry) -> Option<nat>, i: int) -> bool {
    &&& 0 <= i < list.len()
    &&& fit(list[i]) is Some
    &&& forall|j: int|
        0 <= j < list.len() && fit(#[trigger] list[j]) is Some ==> fit(list[j])->0 < fit(list[i])->0 || (fit(
            list[j],
        )->0 == fit(list[i])->0 && i <= j)
}

/// Whether the server is the preferred one of the entry that fits best, or there is
/// none because no entry fits.
pub open spec fn is_server(
    list: Seq<Entry>,
    fit: spec_fn(Entry) -> Option<nat>,
    server: Option<Seq<char>>,
) -> bool {
    match server {
        Some(url) => exists|i: int|
            #[trigger] fits_best(list, fit, i) && preferred_url(list[i].urls) == Some(url),
        None => forall|i: int| 0 <= i < list.len() ==> fit(#[trigger] list[i]) is None,
    }
}

// --- Reading it --------------------------------------------------------------

/// The keys and the servers of each service.
pub open spec fn services_view(services: Seq<Vec<Vec<String>>>) -> Seq<Seq<Seq<Seq<char>>>> {
    services.map_values(
        |service: Vec<Vec<String>>| service@.map_values(|part: Vec<String>| text::texts_view(part@)),
    )
}

/// The text of a borrowed server, when there is one.
pub open spec fn server_view(server: Option<&str>) -> Option<Seq<char>> {
    match server {
        Some(url) => Some(url@),
        None => None,
    }
}

/// One bootstrap registry file.
///
/// A file holds services. A service is a pair: the keys it answers for, and the
/// servers that answer. A key is an address range in one file and a domain suffix in
/// another.
#[derive(Clone, Debug)]
pub struct Registry {
    /// Each entry is `[[key, ...], [url, ...]]`, the shape RFC 9224 gives.
    services: Vec<Vec<Vec<String>>>,
}

impl View for Registry {
    type V = Seq<Seq<Seq<Seq<char>>>>;

    closed spec fn view(&self) -> Seq<Seq<Seq<Seq<char>>>> {
        services_view(self.services@)
    }
}

impl Default for Registry {
    /// Returns a registry with no services.
    fn default() -> (registry: Self)
        ensures
            registry@ == Seq::<Seq<Seq<Seq<char>>>>::empty(),
    {
        let registry = Registry { services: Vec::new() };
        assert(services_view(registry.services@) =~= Seq::<Seq<Seq<Seq<char>>>>::empty());
        registry
    }
}

/// Returns the prefix length when the range holds the address, and `None` otherwise.
///
/// A range of another address family never holds it.
pub fn prefix_length_containing(range: &str, ip: IpAddr) -> (length: Option<u8>)
    ensures
        length == (match prefix::range_of_text(range@) {
            Some((network, length)) => if prefix::network_holds(network, length, ip) {
                Some(length)
            } else {
                None
            },
            None => None,
        }),
{
    match prefix::parse_range(range) {
        Some((network, length)) => if prefix::contains(network, length, ip) {
            Some(length)
        } else {
            None
        },
        None => None,
    }
}

/// Returns whether the name sits at or under the suffix.
///
/// `example.com` matches `com`, and `com` matches `com`. `mycom` does not, because a
/// suffix match runs on whole labels.
pub fn suffix_matches(name: &str, suffix: &str) -> (matches: bool)
    ensures
        matches == is_under(name@, suffix@),
{
    let name = text::chars_of(name);
    let suffix = text::chars_of(suffix);
    if suffix.len() == 0 || !text::ends_with(name.as_slice(), suffix.as_slice()) {
        return false;
    }
    let rest = name.len() - suffix.len();
    rest == 0 || name[rest - 1] == '.'
}

/// Returns the server to use out of the servers a service lists.
///
/// RFC 9224 asks for HTTPS where a service offers it. A few registries list only
/// HTTP, and the library uses those rather than refusing to answer for them.
pub fn preferred(urls: &[String]) -> (url: Option<&str>)
    ensures
        server_view(url) == preferred_url(text::texts_view(urls@)),
{
    let ghost all = text::texts_view(urls@);
    let https = text::chars_of("https://");
    let mut i: usize = 0;
    assert(all.skip(0) =~= all);
    while i < urls.len()
        invariant
            i <= urls@.len(),
            all == text::texts_view(urls@),
            https@ == "https://"@,
            first_https(all) == first_https(all.skip(i as int)),
        decreases urls@.len() - i,
    {
        let url = text::chars_of(urls[i].as_str());
        assert(all[i as int] == url@);
        if text::starts_with(url.as_slice(), https.as_slice()) {
            return Some(urls[i].as_str());
        }
        assert(all.skip(i as int).drop_first() =~= all.skip(i + 1));
        i += 1;
    }
    if urls.len() > 0 {
        assert(all[0] == urls@[0]@);
        Some(urls[0].as_str())
    } else {
        None
    }
}

/// What a list of borrowed keys and servers holds.
pub open spec fn entry_views(list: Seq<(&String, &Vec<String>)>) -> Seq<Entry> {
    list.map_values(
        |entry: (&String, &Vec<String>)| Entry { key: entry.0@, urls: text::texts_view(entry.1@) },
    )
}

impl Registry {
    /// Returns a registry with these services.
    ///
    /// Each service is `[[key, ...], [url, ...]]`, the shape RFC 9224 gives.
    pub fn from_services(services: Vec<Vec<Vec<String>>>) -> (registry: Self)
        ensures
            registry@ == services_view(services@),
    {
        Registry { services }
    }

    /// Returns each key of each service with the servers of the service.
    ///
    /// A service in a shape RFC 9224 does not describe is skipped, so one bad entry
    /// does not lose the rest of the file.
    pub fn services(&self) -> (list: Vec<(&String, &Vec<String>)>)
        ensures
            entry_views(list@) == entries(self@),
    {
        let ghost all = services_view(self.services@);
        let mut list: Vec<(&String, &Vec<String>)> = Vec::new();
        let mut i: usize = 0;
        assert(entry_views(list@) =~= Seq::<Entry>::empty());
        while i < self.services.len()
            invariant
                i <= self.services@.len(),
                all == services_view(self.services@),
                entry_views(list@) == entries(all.take(i as int)),
            decreases self.services@.len() - i,
        {
            let service = &self.services[i];
            let ghost before = entries(all.take(i as int));
            let ghost here = service_entries(all[i as int]);
            if service.len() >= 2 {
                assert(all[i as int][0] =~= text::texts_view(service@[0]@));
                assert(all[i as int][1] =~= text::texts_view(service@[1]@));
                let mut k: usize = 0;
                assert(before + here.take(0) =~= before);
                while k < service[0].len()
                    invariant
                        service@.len() >= 2,
                        k <= service@[0]@.len(),
                        here == service_entries(all[i as int]),
                        all[i as int].len() >= 2,
                        all[i as int][0] == text::texts_view(service@[0]@),
                        all[i as int][1] == text::texts_view(service@[1]@),
                        entry_views(list@) == before + here.take(k as int),
                    decreases service@[0]@.len() - k,
                {
                    let ghost now = entry_views(list@);
                    let entry = (&service[0][k], &service[1]);
                    list.push(entry);
                    proof {
                        assert(here[k as int] == (Entry {
                            key: service@[0]@[k as int]@,
                            urls: text::texts_view(service@[1]@),
                        }));
                        assert(entry_views(list@) =~= now.push(here[k as int]));
                        assert(before + here.take(k + 1) =~= now.push(here[k as int]));
                    }
                    k += 1;
                }
                assert(here.take(k as int) =~= here);
            } else {
                assert(before + here =~= before);
            }
            assert(all.take(i + 1).drop_last() =~= all.take(i as int));
            i += 1;
        }
        assert(all.take(i as int) =~= all);
        list
    }

    /// Returns the base URL of the server that answers for this address.
    ///
    /// The most specific range wins, as RFC 9224 requires. A registry holding both
    /// `10.0.0.0/8` and `10.1.0.0/16` answers the second for an address in it.
    pub fn server_for_ip(&self, ip: IpAddr) -> (server: Option<&str>)
        ensures
            is_server(entries(self@), |entry: Entry| ip_fit(entry, ip), server_view(server)),
    {
        let list = self.services();
        let ghost all = entries(self@);
        let ghost fit = |entry: Entry| ip_fit(entry, ip);
        let mut best: Option<(u8, &str)> = None;
        let ghost mut at: int = 0;
        let mut i: usize = 0;
        while i < list.len()
            invariant
                i <= list@.len(),
                entry_views(list@) == all,
                fit == (|entry: Entry| ip_fit(entry, ip)),
                best is None ==> forall|k: int| 0 <= k < i ==> fit(#[trigger] all[k]) is None,
                best matches Some((length, url)) ==> 0 <= at < i && fit(all[at]) == Some(length as nat)
                    && preferred_url(all[at].urls) == Some(url@) && fits_best(all.take(i as int), fit, at),
            decreases list@.len() - i,
        {
            let (key, urls) = list[i];
            assert(all[i as int] == (Entry { key: key@, urls: text::texts_view(urls@) }));
            let better = match prefix_length_containing(key.as_str(), ip) {
                Some(length) => match best {
                    Some((found, _)) => if found >= length {
                        None
                    } else {
                        Some(length)
                    },
                    None => Some(length),
                },
                None => None,
            };
            let ghost before = best;
            let ghost was = at;
            if let Some(length) = better {
                if let Some(url) = preferred(urls.as_slice()) {
                    best = Some((length, url));
                    proof {
                        at = i as int;
                    }
                }
            }
            proof {
                lemma_best_so_far(
                    all,
                    fit,
                    i as int,
                    if before is Some { Some(was) } else { None },
                    if best is Some { Some(at) } else { None },
                );
            }
            i += 1;
        }
        assert(all.take(i as int) =~= all);
        match best {
            Some((_, url)) => Some(url),
            None => None,
        }
    }

    /// Returns the base URL of the server that answers for this name.
    ///
    /// The longest run of labels wins. A registry holding both `uk` and `co.uk`
    /// answers the second for `example.co.uk`.
    pub fn server_for_domain(&self, domain: &DomainName) -> (server: Option<&str>)
        ensures
            is_server(entries(self@), |entry: Entry| domain_fit(entry, domain@), server_view(server)),
    {
        let name = domain.as_str();
        let list = self.services();
        let ghost all = entries(self@);
        let ghost fit = |entry: Entry| domain_fit(entry, domain@);
        let mut best: Option<(usize, &str)> = None;
        let ghost mut at: int = 0;
        let mut i: usize = 0;
        while i < list.len()
            invariant
                i <= list@.len(),
                name@ == domain@,
                entry_views(list@) == all,
                fit == (|entry: Entry| domain_fit(entry, domain@)),
                best is None ==> forall|k: int| 0 <= k < i ==> fit(#[trigger] all[k]) is None,
                best matches Some((labels, url)) ==> 0 <= at < i && fit(all[at]) == Some(labels as nat)
                    && preferred_url(all[at].urls) == Some(url@) && fits_best(all.take(i as int), fit, at),
            decreases list@.len() - i,
        {
            let (key, urls) = list[i];
            assert(all[i as int] == (Entry { key: key@, urls: text::texts_view(urls@) }));
            let chars = text::chars_of(key.as_str());
            let bare = text::drop_tail_chars(text::drop_head_chars(chars.as_slice(), '.'), '.');
            let suffix = text::to_lower(text::text_of(bare).as_str());
            let better = if suffix_matches(name, suffix.as_str()) {
                let labels = text::split_chars(text::chars_of(suffix.as_str()).as_slice(), '.').len();
                match best {
                    Some((found, _)) => if found >= labels {
                        None
                    } else {
                        Some(labels)
                    },
                    None => Some(labels),
                }
            } else {
                None
            };
            let ghost before = best;
            let ghost was = at;
            if let Some(labels) = better {
                if let Some(url) = preferred(urls.as_slice()) {
                    best = Some((labels, url));
                    proof {
                        at = i as int;
                    }
                }
            }
            proof {
                lemma_best_so_far(
                    all,
                    fit,
                    i as int,
                    if before is Some { Some(was) } else { None },
                    if best is Some { Some(at) } else { None },
                );
            }
            i += 1;
        }
        assert(all.take(i as int) =~= all);
        match best {
            Some((_, url)) => Some(url),
            None => None,
        }
    }
}

/// One more entry: it is the best when it fits more closely than the best before it.
proof fn lemma_best_so_far(
    all: Seq<Entry>,
    fit: spec_fn(Entry) -> Option<nat>,
    i: int,
    before: Option<int>,
    after: Option<int>,
)
    requires
        0 <= i < all.len(),
        before matches Some(at) ==> 0 <= at < i && fits_best(all.take(i), fit, at),
        before is None ==> forall|k: int| 0 <= k < i ==> fit(#[trigger] all[k]) is None,
        after == (if fit(all[i]) is Some && (before matches Some(at) ==> fit(all[at])->0 < fit(all[i])->0) {
            Some(i)
        } else {
            before
        }),
    ensures
        after matches Some(at) ==> 0 <= at < i + 1 && fits_best(all.take(i + 1), fit, at),
        after is None ==> forall|k: int| 0 <= k < i + 1 ==> fit(#[trigger] all[k]) is None,
{
    let short = all.take(i);
    let list = all.take(i + 1);
    if let Some(at) = after {
        assert forall|j: int| 0 <= j < list.len() && fit(#[trigger] list[j]) is Some implies fit(list[j])->0 < fit(
            list[at],
        )->0 || (fit(list[j])->0 == fit(list[at])->0 && at <= j) by {
            assert(list[j] == all[j]);
            if j < i {
                assert(short[j] == all[j]);
            }
            if let Some(was) = before {
                assert(short[was] == all[was]);
            }
        }
    }
}

/// The three registries together.
///
/// Hold one of these for as long as the process runs. IANA changes the files rarely,
/// and the answer for an address does not move between them.
#[derive(Clone, Debug)]
pub struct Bootstrap {
    /// The registry for IPv4 addresses.
    pub ipv4: Registry,
    /// The registry for IPv6 addresses.
    pub ipv6: Registry,
    /// The registry for domain names.
    pub dns: Registry,
}

impl Default for Bootstrap {
    /// Returns registries with no services.
    fn default() -> (bootstrap: Self)
        ensures
            bootstrap.ipv4@.len() == 0,
            bootstrap.ipv6@.len() == 0,
            bootstrap.dns@.len() == 0,
    {
        Bootstrap { ipv4: Registry::default(), ipv6: Registry::default(), dns: Registry::default() }
    }
}

impl Bootstrap {
    /// The entries of the registry for the family of an address.
    pub open spec fn ip_entries(self, ip: IpAddr) -> Seq<Entry> {
        match ip {
            IpAddr::V4(_) => entries(self.ipv4@),
            IpAddr::V6(_) => entries(self.ipv6@),
        }
    }

    /// Returns the base URL of the server that answers for this address.
    pub fn server_for_ip(&self, ip: IpAddr) -> (server: Option<&str>)
        ensures
            is_server(self.ip_entries(ip), |entry: Entry| ip_fit(entry, ip), server_view(server)),
    {
        match ip {
            IpAddr::V4(_) => self.ipv4.server_for_ip(ip),
            IpAddr::V6(_) => self.ipv6.server_for_ip(ip),
        }
    }

    /// Returns the base URL of the server that answers for this name.
    pub fn server_for_domain(&self, domain: &DomainName) -> (server: Option<&str>)
        ensures
            is_server(entries(self.dns@), |entry: Entry| domain_fit(entry, domain@), server_view(server)),
    {
        self.dns.server_for_domain(domain)
    }
}

// --- What the choice of a server promises ------------------------------------

/// A registry gives one answer.
pub proof fn law_server_is_one(
    list: Seq<Entry>,
    fit: spec_fn(Entry) -> Option<nat>,
    a: Option<Seq<char>>,
    b: Option<Seq<char>>,
)
    requires
        is_server(list, fit, a),
        is_server(list, fit, b),
    ensures
        a == b,
{
    if let Some(url) = a {
        let i = choose|i: int| #[trigger] fits_best(list, fit, i) && preferred_url(list[i].urls) == Some(url);
        assert(fit(list[i]) is Some);
        if let Some(other) = b {
            let j = choose|j: int|
                #[trigger] fits_best(list, fit, j) && preferred_url(list[j].urls) == Some(other);
            assert(fit(list[j]) is Some);
            assert(i == j);
        }
    } else if let Some(other) = b {
        let j = choose|j: int| #[trigger] fits_best(list, fit, j) && preferred_url(list[j].urls) == Some(other);
        assert(fit(list[j]) is Some);
    }
}

/// An address that a range of the registry holds gets an answer, and the range the
/// answer is for is as narrow as that one or narrower.
pub proof fn law_most_specific_range_answers(list: Seq<Entry>, ip: IpAddr, server: Option<Seq<char>>, k: int)
    requires
        is_server(list, |entry: Entry| ip_fit(entry, ip), server),
        0 <= k < list.len(),
        ip_fit(list[k], ip) is Some,
    ensures
        server is Some,
        exists|i: int|
            0 <= i < list.len() && preferred_url((#[trigger] list[i]).urls) == server && ip_fit(list[i], ip)
                is Some && ip_fit(list[i], ip)->0 >= ip_fit(list[k], ip)->0,
{
    let fit = |entry: Entry| ip_fit(entry, ip);
    assert(fit(list[k]) is Some);
    let url = server->0;
    let i = choose|i: int| #[trigger] fits_best(list, fit, i) && preferred_url(list[i].urls) == Some(url);
    assert(fit(list[i]) is Some);
}

/// A name under a suffix of the registry gets an answer, and the suffix the answer is for
/// has as many labels as that one or more.
pub proof fn law_longest_suffix_answers(
    list: Seq<Entry>,
    name: Seq<char>,
    server: Option<Seq<char>>,
    k: int,
)
    requires
        is_server(list, |entry: Entry| domain_fit(entry, name), server),
        0 <= k < list.len(),
        domain_fit(list[k], name) is Some,
    ensures
        server is Some,
        exists|i: int|
            0 <= i < list.len() && preferred_url((#[trigger] list[i]).urls) == server && domain_fit(
                list[i],
                name,
            ) is Some && domain_fit(list[i], name)->0 >= domain_fit(list[k], name)->0,
{
    let fit = |entry: Entry| domain_fit(entry, name);
    assert(fit(list[k]) is Some);
    let url = server->0;
    let i = choose|i: int| #[trigger] fits_best(list, fit, i) && preferred_url(list[i].urls) == Some(url);
    assert(fit(list[i]) is Some);
}

/// A suffix matches on whole labels: the labels of a name under it end with the labels
/// of the suffix.
pub proof fn law_suffix_matches_whole_labels(name: Seq<char>, suffix: Seq<char>)
    requires
        is_under(name, suffix),
    ensures
        ({
            let labels = text::split(name, '.');
            let last = text::split(suffix, '.');
            &&& last.len() <= labels.len()
            &&& labels.skip(labels.len() - last.len()) == last
        }),
{
    let labels = text::split(name, '.');
    let last = text::split(suffix, '.');
    let rest = name.len() - suffix.len();
    assert(name.subrange(rest, rest + suffix.len()) == suffix);
    if rest == 0 {
        assert(name =~= suffix);
        assert(labels.skip(0) =~= last);
    } else {
        let front = name.take(rest - 1);
        assert(name =~= front.push('.') + suffix);
        text::lemma_split_at(front, suffix, '.');
        assert(labels.skip(labels.len() - last.len()) =~= last);
    }
}

/// An HTTPS server is used wherever a service offers one, and a service that lists any
/// server gives one.
pub proof fn law_https_is_preferred(urls: Seq<Seq<char>>)
    ensures
        urls.len() > 0 <==> preferred_url(urls) is Some,
        preferred_url(urls) matches Some(url) ==> urls.contains(url),
        forall|i: int|
            0 <= i < urls.len() && is_https(#[trigger] urls[i]) ==> is_https(preferred_url(urls)->0),
    decreases urls.len(),
{
    if urls.len() > 0 {
        let rest = urls.drop_first();
        law_https_is_preferred(rest);
        assert(urls.contains(urls[0]));
        if !is_https(urls[0]) {
            assert forall|i: int| 0 <= i < urls.len() && is_https(#[trigger] urls[i]) implies is_https(
                preferred_url(urls)->0,
            ) by {
                assert(urls[i] == rest[i - 1]);
                lemma_first_https(rest, i - 1);
            }
            if let Some(url) = first_https(rest) {
                let k = choose|k: int| 0 <= k < rest.len() && rest[k] == url;
                assert(urls[k + 1] == url);
            }
        }
    }
}

/// A list with an HTTPS server has a first one.
proof fn lemma_first_https(urls: Seq<Seq<char>>, i: int)
    requires
        0 <= i < urls.len(),
        is_https(urls[i]),
    ensures
        first_https(urls) matches Some(url) && is_https(url),
    decreases urls.len(),
{
    if !is_https(urls[0]) {
        assert(urls[i] == urls.drop_first()[i - 1]);
        lemma_first_https(urls.drop_first(), i - 1);
    }
}

/// The entries of two lists of services are the entries of one, then those of the other.
proof fn lemma_entries_add(a: Seq<Seq<Seq<Seq<char>>>>, b: Seq<Seq<Seq<Seq<char>>>>)
    ensures
        entries(a + b) == entries(a) + entries(b),
    decreases b.len(),
{
    if b.len() == 0 {
        assert(a + b =~= a);
        assert(entries(a) + entries(b) =~= entries(a));
    } else {
        lemma_entries_add(a, b.drop_last());
        assert((a + b).drop_last() =~= a + b.drop_last());
        assert((a + b).last() == b.last());
        assert(entries(a + b) =~= entries(a) + entries(b));
    }
}

/// A service gives one entry for each of its keys, in order, with all of its servers, and
/// a service without servers gives none. What stands before and after it stays.
pub proof fn law_service_gives_each_key(
    before: Seq<Seq<Seq<Seq<char>>>>,
    service: Seq<Seq<Seq<char>>>,
    after: Seq<Seq<Seq<Seq<char>>>>,
    k: int,
)
    ensures
        ({
            let list = entries(before + seq![service] + after);
            let from = entries(before).len();
            &&& service.len() < 2 ==> list == entries(before) + entries(after)
            &&& service.len() >= 2 ==> {
                &&& list.len() == from + service[0].len() + entries(after).len()
                &&& list.take(from as int) == entries(before)
                &&& list.skip((from + service[0].len()) as int) == entries(after)
                &&& 0 <= k < service[0].len() ==> list[from + k].key == service[0][k] && list[from + k].urls
                    == service[1]
            }
        }),
{
    let one = seq![service];
    let none = Seq::<Seq<Seq<Seq<char>>>>::empty();
    assert(one.drop_last() =~= none);
    assert(one.last() == service);
    assert(entries(none) =~= Seq::<Entry>::empty());
    assert(entries(one) =~= service_entries(service));
    lemma_entries_add(before, one);
    lemma_entries_add(before + one, after);
    let list = entries(before + one + after);
    let from = entries(before).len() as int;
    if service.len() < 2 {
        assert(list =~= entries(before) + entries(after));
    } else {
        assert(list.take(from) =~= entries(before));
        assert(list.skip(from + service[0].len()) =~= entries(after));
    }
}

/// Every key of every service that lists servers is an entry with those servers.
pub proof fn law_every_key_is_an_entry(services: Seq<Seq<Seq<Seq<char>>>>, i: int, k: int)
    requires
        0 <= i < services.len(),
        services[i].len() >= 2,
        0 <= k < services[i][0].len(),
    ensures
        exists|n: int|
            0 <= n < entries(services).len() && (#[trigger] entries(services)[n]).key == services[i][0][k]
                && entries(services)[n].urls == services[i][1],
{
    let before = services.take(i);
    let after = services.skip(i + 1);
    assert(services =~= before + seq![services[i]] + after);
    law_service_gives_each_key(before, services[i], after, k);
    let n = entries(before).len() + k;
    assert(entries(services)[n].key == services[i][0][k]);
}

/// Every entry is a key of a service that lists servers, with those servers.
pub proof fn law_every_entry_is_a_key(services: Seq<Seq<Seq<Seq<char>>>>, n: int)
    requires
        0 <= n < entries(services).len(),
    ensures
        exists|i: int, k: int|
            0 <= i < services.len() && services[i].len() >= 2 && 0 <= k < services[i][0].len() && entries(
                services,
            )[n].key == #[trigger] services[i][0][k] && entries(services)[n].urls == services[i][1],
    decreases services.len(),
{
    let short = services.drop_last();
    let before = entries(short);
    let last = services.last();
    assert(last == services[services.len() - 1]);
    if n < before.len() {
        law_every_entry_is_a_key(short, n);
        let (i, k) = choose|i: int, k: int|
            0 <= i < short.len() && short[i].len() >= 2 && 0 <= k < short[i][0].len() && before[n].key
                == #[trigger] short[i][0][k] && before[n].urls == short[i][1];
        assert(services[i] == short[i]);
        assert(entries(services)[n].key == services[i][0][k]);
    } else {
        let k = n - before.len();
        assert(entries(services)[n].key == services[services.len() - 1][0][k]);
    }
}

/// What a registry holds is what its services say, key by key and server by server.
pub proof fn law_services_are_kept(services: Seq<Vec<Vec<String>>>, i: int, j: int, k: int)
    ensures
        services_view(services).len() == services.len(),
        0 <= i < services.len() ==> services_view(services)[i].len() == services[i]@.len(),
        0 <= i < services.len() && 0 <= j < services[i]@.len() ==> services_view(services)[i][j].len()
            == services[i]@[j]@.len(),
        0 <= i < services.len() && 0 <= j < services[i]@.len() && 0 <= k < services[i]@[j]@.len()
            ==> services_view(services)[i][j][k] == services[i]@[j]@[k]@,
{
}

/// Whether a text is a server reached by HTTPS, read character by character.
pub open spec fn starts_with_https(url: Seq<char>) -> bool {
    &&& url.len() >= 8
    &&& url[0] == 'h' && url[1] == 't' && url[2] == 't' && url[3] == 'p' && url[4] == 's'
    &&& url[5] == ':' && url[6] == '/' && url[7] == '/'
}

/// A server is reached by HTTPS when it says so in its first characters.
proof fn lemma_https(url: Seq<char>)
    ensures
        is_https(url) <==> starts_with_https(url),
{
    reveal_strlit("https://");
    if starts_with_https(url) {
        assert(url.subrange(0, 8) =~= "https://"@);
    } else if is_https(url) {
        assert(url.subrange(0, 8) == "https://"@);
        assert forall|i: int| 0 <= i < 8 implies url[i] == "https://"@[i] by {
            assert(url.subrange(0, 8)[i] == url[i]);
        }
    }
}

/// The first HTTPS server, where there is one.
proof fn lemma_first_https_is(urls: Seq<Seq<char>>) -> (at: int)
    ensures
        0 <= at <= urls.len(),
        forall|j: int| 0 <= j < at ==> !is_https(#[trigger] urls[j]),
        at < urls.len() ==> is_https(urls[at]) && first_https(urls) == Some(urls[at]),
        at == urls.len() ==> first_https(urls) is None,
    decreases urls.len(),
{
    if urls.len() == 0 || is_https(urls[0]) {
        0
    } else {
        let rest = urls.drop_first();
        let at = lemma_first_https_is(rest);
        assert forall|j: int| 0 <= j < at + 1 implies !is_https(#[trigger] urls[j]) by {
            if j > 0 {
                assert(urls[j] == rest[j - 1]);
            }
        }
        at + 1
    }
}

/// The server that is used is the first of the list that is reached by HTTPS, and where
/// none is, the first of the list.
pub proof fn law_first_https_server_is_used(urls: Seq<Seq<char>>)
    ensures
        urls.len() == 0 ==> preferred_url(urls) is None,
        urls.len() > 0 ==> exists|i: int|
            0 <= i < urls.len() && preferred_url(urls) == Some(#[trigger] urls[i]) && (forall|j: int|
                0 <= j < i ==> !starts_with_https(#[trigger] urls[j])) && (starts_with_https(urls[i]) || (i == 0
                && forall|j: int| 0 <= j < urls.len() ==> !starts_with_https(#[trigger] urls[j]))),
{
    let at = lemma_first_https_is(urls);
    assert forall|j: int| 0 <= j < urls.len() implies is_https(#[trigger] urls[j]) == starts_with_https(
        urls[j],
    ) by {
        lemma_https(urls[j]);
    }
    if urls.len() > 0 {
        if at < urls.len() {
            assert(preferred_url(urls) == Some(urls[at]));
        } else {
            assert(preferred_url(urls) == Some(urls[0]));
        }
    }
}

/// A name is under a suffix when it is the suffix, or ends with a dot and the suffix.
pub proof fn law_names_under_a_suffix(front: Seq<char>, name: Seq<char>, suffix: Seq<char>)
    requires
        suffix.len() > 0,
    ensures
        is_under(suffix, suffix),
        is_under(front.push('.') + suffix, suffix),
        is_under(name, suffix) ==> name == suffix || exists|rest: Seq<char>|
            name == #[trigger] rest.push('.') + suffix,
        !is_under(name, Seq::<char>::empty()),
{
    assert(suffix.subrange(0, suffix.len() as int) =~= suffix);
    let whole = front.push('.') + suffix;
    assert(whole.subrange(front.len() as int + 1, whole.len() as int) =~= suffix);
    if is_under(name, suffix) {
        let at = name.len() - suffix.len();
        assert(name.subrange(at, name.len() as int) == suffix);
        if at == 0 {
            assert(name =~= suffix);
        } else {
            let rest = name.take(at - 1);
            assert(name =~= rest.push('.') + suffix);
        }
    }
}

/// Dots around a key, and the case of its letters, do not matter.
pub proof fn law_keys_are_cleaned(before: Seq<char>, key: Seq<char>, after: Seq<char>)
    requires
        forall|i: int| 0 <= i < before.len() ==> #[trigger] before[i] == '.',
        forall|i: int| 0 <= i < after.len() ==> #[trigger] after[i] == '.',
        key.len() > 0,
        key[0] != '.',
        key.last() != '.',
    ensures
        cleaned_key(before + key + after) == text::lower(key),
{
    assert(before + key + after =~= before + (key + after));
    assert((key + after)[0] == key[0]);
    text::law_run_before_is_dropped(before, key + after, '.');
    text::law_run_after_is_dropped(key, after, '.');
}

/// Whether a key is a range that holds the address, of this length, and its service lists
/// a server.
pub open spec fn answers_for_ip(entry: Entry, ip: IpAddr, length: int) -> bool {
    &&& prefix::range_of_text(entry.key) matches Some((network, bits)) && bits == length
        && prefix::network_holds(network, bits, ip)
    &&& entry.urls.len() > 0
}

/// The server for an address is the preferred one of the entry whose range holds the
/// address and is the longest, the first of equals, and there is none exactly when no
/// range holds the address.
pub proof fn law_server_for_an_address(list: Seq<Entry>, ip: IpAddr, server: Option<Seq<char>>)
    requires
        is_server(list, |entry: Entry| ip_fit(entry, ip), server),
    ensures
        server is None <==> forall|j: int, length: int|
            0 <= j < list.len() ==> !#[trigger] answers_for_ip(list[j], ip, length),
        server is Some ==> exists|i: int, length: int|
            0 <= i < list.len() && #[trigger] answers_for_ip(list[i], ip, length) && preferred_url(list[i].urls)
                == server && forall|j: int, other: int|
                0 <= j < list.len() && #[trigger] answers_for_ip(list[j], ip, other) ==> other < length || (other
                    == length && i <= j),
{
    let fit = |entry: Entry| ip_fit(entry, ip);
    assert forall|j: int, length: int| 0 <= j < list.len() && #[trigger] answers_for_ip(list[j], ip, length) implies fit(
        list[j],
    ) == Some(length as nat) by {
        law_first_https_server_is_used(list[j].urls);
    }
    assert forall|j: int| 0 <= j < list.len() && fit(#[trigger] list[j]) is Some implies answers_for_ip(
        list[j],
        ip,
        fit(list[j])->0 as int,
    ) by {
        law_first_https_server_is_used(list[j].urls);
    }
    if server is Some {
        let i = choose|i: int| #[trigger] fits_best(list, fit, i) && preferred_url(list[i].urls) == server;
        let length = fit(list[i])->0 as int;
        assert(answers_for_ip(list[i], ip, length));
    } else if exists|j: int, length: int|
        0 <= j < list.len() && #[trigger] answers_for_ip(list[j], ip, length) {
        let (j, length) = choose|j: int, length: int|
            0 <= j < list.len() && #[trigger] answers_for_ip(list[j], ip, length);
        assert(fit(list[j]) is Some);
    }
}

/// Whether a name is under the key of an entry, which has this many labels, and its
/// service lists a server.
pub open spec fn answers_for_name(entry: Entry, name: Seq<char>, labels: int) -> bool {
    &&& is_under(name, cleaned_key(entry.key))
    &&& text::split(cleaned_key(entry.key), '.').len() == labels
    &&& entry.urls.len() > 0
}

/// The server for a name is the preferred one of the entry that the name is under and
/// whose key has the most labels, the first of equals, and there is none exactly when the
/// name is under no key.
pub proof fn law_server_for_a_name(list: Seq<Entry>, name: Seq<char>, server: Option<Seq<char>>)
    requires
        is_server(list, |entry: Entry| domain_fit(entry, name), server),
    ensures
        server is None <==> forall|j: int, labels: int|
            0 <= j < list.len() ==> !#[trigger] answers_for_name(list[j], name, labels),
        server is Some ==> exists|i: int, labels: int|
            0 <= i < list.len() && #[trigger] answers_for_name(list[i], name, labels) && preferred_url(
                list[i].urls,
            ) == server && forall|j: int, other: int|
                0 <= j < list.len() && #[trigger] answers_for_name(list[j], name, other) ==> other < labels || (
                other == labels && i <= j),
{
    let fit = |entry: Entry| domain_fit(entry, name);
    assert forall|j: int, labels: int| 0 <= j < list.len() && #[trigger] answers_for_name(list[j], name, labels) implies fit(
        list[j],
    ) == Some(labels as nat) by {
        law_first_https_server_is_used(list[j].urls);
    }
    assert forall|j: int| 0 <= j < list.len() && fit(#[trigger] list[j]) is Some implies answers_for_name(
        list[j],
        name,
        fit(list[j])->0 as int,
    ) by {
        law_first_https_server_is_used(list[j].urls);
    }
    if server is Some {
        let i = choose|i: int| #[trigger] fits_best(list, fit, i) && preferred_url(list[i].urls) == server;
        let labels = fit(list[i])->0 as int;
        assert(answers_for_name(list[i], name, labels));
    } else if exists|j: int, labels: int|
        0 <= j < list.len() && #[trigger] answers_for_name(list[j], name, labels) {
        let (j, labels) = choose|j: int, labels: int|
            0 <= j < list.len() && #[trigger] answers_for_name(list[j], name, labels);
        assert(fit(list[j]) is Some);
    }
}

/// An address is looked for in the registry of its own family.
pub proof fn law_families_have_their_own_registry(registries: Bootstrap, ip: IpAddr)
    ensures
        ip is V4 ==> registries.ip_entries(ip) == entries(registries.ipv4@),
        ip is V6 ==> registries.ip_entries(ip) == entries(registries.ipv6@),
{
}

/// Where the registries are published.
pub proof fn law_where_registries_are_published()
    ensures
        IPV4_URL@ == "https://data.iana.org/rdap/ipv4.json"@,
        IPV6_URL@ == "https://data.iana.org/rdap/ipv6.json"@,
        DNS_URL@ == "https://data.iana.org/rdap/dns.json"@,
{
}

/// Entries are seen one by one, each with its key and its servers, and so is a server that
/// may be missing.
pub proof fn law_entries_are_seen_whole(list: Seq<(&String, &Vec<String>)>, server: Option<&str>, i: int, k: int)
    ensures
        entry_views(list).len() == list.len(),
        0 <= i < list.len() ==> entry_views(list)[i].key == list[i].0@,
        0 <= i < list.len() ==> entry_views(list)[i].urls.len() == list[i].1@.len(),
        0 <= i < list.len() && 0 <= k < list[i].1@.len() ==> entry_views(list)[i].urls[k] == list[i].1@[k]@,
        server is None ==> server_view(server) is None,
        server matches Some(url) ==> server_view(server) == Some(url@),
{
}

/// What [`Registry::services`] gives, read off the services of the registry: each key of
/// each service that lists servers, with those servers.
pub proof fn law_registry_gives_every_key(
    services: Seq<Vec<Vec<String>>>,
    list: Seq<(&String, &Vec<String>)>,
    i: int,
    k: int,
)
    requires
        entry_views(list) == entries(services_view(services)),
        0 <= i < services.len(),
        services[i]@.len() >= 2,
        0 <= k < services[i]@[0]@.len(),
    ensures
        exists|n: int|
            0 <= n < list.len() && (#[trigger] list[n]).0@ == services[i]@[0]@[k]@ && text::texts_view(list[n].1@)
                == text::texts_view(services[i]@[1]@),
{
    let all = services_view(services);
    assert(all[i][0] == text::texts_view(services[i]@[0]@));
    assert(all[i][1] == text::texts_view(services[i]@[1]@));
    law_every_key_is_an_entry(all, i, k);
    let n = choose|n: int|
        0 <= n < entries(all).len() && (#[trigger] entries(all)[n]).key == all[i][0][k] && entries(all)[n].urls
            == all[i][1];
    assert(entry_views(list)[n].key == list[n].0@);
    assert(all[i][0][k] == services[i]@[0]@[k]@);
}

/// What [`Registry::services`] gives is nothing but the keys of services that list
/// servers, with those servers.
pub proof fn law_registry_gives_keys_only(
    services: Seq<Vec<Vec<String>>>,
    list: Seq<(&String, &Vec<String>)>,
    n: int,
)
    requires
        entry_views(list) == entries(services_view(services)),
        0 <= n < list.len(),
    ensures
        exists|i: int, k: int|
            0 <= i < services.len() && services[i]@.len() >= 2 && 0 <= k < services[i]@[0]@.len() && list[n].0@
                == (#[trigger] services[i]@[0]@[k])@ && text::texts_view(list[n].1@) == text::texts_view(
                services[i]@[1]@,
            ),
{
    let all = services_view(services);
    assert(entry_views(list)[n].key == list[n].0@);
    law_every_entry_is_a_key(all, n);
    let (i, k) = choose|i: int, k: int|
        0 <= i < all.len() && all[i].len() >= 2 && 0 <= k < all[i][0].len() && entries(all)[n].key
            == #[trigger] all[i][0][k] && entries(all)[n].urls == all[i][1];
    assert(all[i][0] == text::texts_view(services[i]@[0]@));
    assert(all[i][1] == text::texts_view(services[i]@[1]@));
    assert(all[i][0][k] == services[i]@[0]@[k]@);
}

} // verus!
