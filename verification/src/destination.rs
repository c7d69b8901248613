//! Where the client may connect.
//!
//! A registry sends links, and a server sends redirects. Both come from outside the
//! process, and either can point at an address inside it: a loopback service, a
//! private network, or a cloud metadata endpoint on `169.254.169.254`. The checks here
//! stop the client from making such a request for a registry.

use vstd::prelude::*;
use vstd::slice::*;
use vstd::string::*;

use crate::addr;
use crate::addr::{IpAddr, Ipv4Addr, Ipv6Addr, SocketAddr};
use crate::list;
use crate::nat64;
use crate::query;
use crate::text;
use crate::url;
use crate::url::Url;

verus! {

/// The most redirects the client follows for one request.
pub const MAX_REDIRECTS: usize = 5;

/// Which addresses the client may connect to.
#[derive(Clone, Copy, Debug, PartialEq, Eq, Structural)]
pub enum Destinations {
    /// Public addresses only.
    ///
    /// The client refuses an address written in a URL that is not public, and a name
    /// that resolves to any address that is not public. On a network with NAT64, it
    /// also reads the IPv4 address inside an IPv6 address, because the connection
    /// ends there.
    ///
    /// The client connects directly and ignores proxy settings from the environment.
    /// A proxy resolves names where this check cannot see them.
    Public,
    /// Any address.
    ///
    /// Use it for a registry mirror on your own network, or a test server on
    /// `127.0.0.1`. Do not use it to read records from registries you do not run.
    Any,
}

impl Default for Destinations {
    /// Returns [`Destinations::Public`].
    fn default() -> (destinations: Self)
        ensures
            destinations == Destinations::Public,
    {
        Destinations::Public
    }
}

/// A request the client did not send.
#[derive(Clone, Debug, PartialEq, Eq)]
pub struct Refusal {
    /// Why the client did not send it.
    pub reason: String,
}

// --- URLs --------------------------------------------------------------------

/// A host without the brackets of an IPv6 address.
pub open spec fn unbracketed(host: Seq<char>) -> Seq<char> {
    if host.len() >= 2 && host[0] == '[' && host.last() == ']' {
        host.subrange(1, host.len() - 1)
    } else {
        host
    }
}

/// Why no request goes to a URL, or `None` when one may.
pub open spec fn url_refusal(url: url::UrlView, destinations: Destinations) -> Option<Seq<char>> {
    if url.scheme != "http"@ && url.scheme != "https"@ {
        Some("the scheme \""@ + url.scheme + "\" is not HTTP or HTTPS"@)
    } else if destinations == Destinations::Any {
        None
    } else {
        match url.host {
            None => Some("the URL names no host"@),
            Some(host) => match addr::ip_of_text(unbracketed(host)) {
                Some(ip) if !query::public_address(ip) => Some(
                    addr::ip_text(ip)
                        + " is a private, reserved or documentation address, and a registry record must not point inside your network"@,
                ),
                _ => None,
            },
        }
    }
}

/// Whether a check gave this reason, or passed where there is none.
pub open spec fn checked(outcome: Result<(), Refusal>, reason: Option<Seq<char>>) -> bool {
    match (outcome, reason) {
        (Ok(_), None) => true,
        (Err(refusal), Some(reason)) => refusal.reason@ == reason,
        _ => false,
    }
}

/// Checks a URL before a request goes to it.
///
/// A name in the URL is not checked here. It is checked when it resolves, with
/// [`usable_addresses`], because only then are its addresses known.
pub fn check_url(url: &Url, destinations: Destinations) -> (outcome: Result<(), Refusal>)
    ensures
        checked(outcome, url_refusal(url@, destinations)),
{
    if !text::same_text(url.scheme.as_str(), "http") && !text::same_text(url.scheme.as_str(), "https") {
        let mut reason = "the scheme \"".to_owned();
        reason.append(url.scheme.as_str());
        reason.append("\" is not HTTP or HTTPS");
        return Err(Refusal { reason });
    }
    if destinations == Destinations::Any {
        return Ok(());
    }
    let host = match &url.host {
        Some(host) => text::chars_of(host.as_str()),
        None => {
            return Err(Refusal { reason: "the URL names no host".to_owned() });
        },
    };
    // The URL parser writes an IPv6 host in brackets, and writes an IPv4 host in the
    // dotted form even when the URL spelled it another way, such as `2130706433`.
    let read = if host.len() >= 2 && host[0] == '[' && host[host.len() - 1] == ']' {
        addr::read_ip(slice_subrange(host.as_slice(), 1, host.len() - 1))
    } else {
        addr::read_ip(host.as_slice())
    };
    match read {
        Some(ip) => {
            if query::is_public(ip) {
                Ok(())
            } else {
                let mut reason = ip.to_text();
                reason.append(
                    " is a private, reserved or documentation address, and a registry record must not point inside your network",
                );
                Err(Refusal { reason })
            }
        },
        None => Ok(()),
    }
}

/// What each URL of a list holds.
pub open spec fn url_views(urls: Seq<Url>) -> Seq<url::UrlView> {
    urls.map_values(|url: Url| url@)
}

/// Why the client does not follow a redirect, or `None` when it does.
pub open spec fn redirect_refusal(
    url: url::UrlView,
    previous: Seq<url::UrlView>,
    destinations: Destinations,
) -> Option<Seq<char>> {
    if previous.len() > MAX_REDIRECTS {
        Some("the server sent more than 5 redirects"@)
    } else if previous.len() > 0 && previous.last().scheme == "https"@ && url.scheme == "http"@ {
        Some("the server redirected from HTTPS to HTTP"@)
    } else {
        url_refusal(url, destinations)
    }
}

/// Checks a redirect before the client follows it.
///
/// `previous` holds the URLs of the request so far, the first one included.
pub fn check_redirect(url: &Url, previous: &[Url], destinations: Destinations) -> (outcome: Result<
    (),
    Refusal,
>)
    ensures
        checked(outcome, redirect_refusal(url@, url_views(previous@), destinations)),
{
    if previous.len() > MAX_REDIRECTS {
        return Err(Refusal { reason: "the server sent more than 5 redirects".to_owned() });
    }
    // A redirect from HTTPS to HTTP sends the rest of the request where anybody on the
    // path can read and change it.
    if previous.len() > 0 {
        assert(url_views(previous@).last() == previous@[previous@.len() - 1]@);
        if text::same_text(previous[previous.len() - 1].scheme.as_str(), "https") && text::same_text(
            url.scheme.as_str(),
            "http",
        ) {
            return Err(Refusal { reason: "the server redirected from HTTPS to HTTP".to_owned() });
        }
    }
    check_url(url, destinations)
}

// --- Names -------------------------------------------------------------------

/// The first address of a list that is not public.
pub open spec fn first_private(ends: Seq<Ipv4Addr>) -> Option<Ipv4Addr>
    decreases ends.len(),
{
    if ends.len() == 0 {
        None
    } else if !query::public_address(IpAddr::V4(ends[0])) {
        Some(ends[0])
    } else {
        first_private(ends.drop_first())
    }
}

/// Why one address of a name refuses the name, or `None` when it does not.
///
/// `nat64` holds the NAT64 prefixes of the network, or `None` when they could not be
/// learned.
pub open spec fn address_refusal(host: Seq<char>, ip: IpAddr, nat64: Option<Seq<(Ipv6Addr, u8)>>) -> Option<
    Seq<char>,
> {
    let inner = query::unmapped(ip);
    if !query::public_address(ip) {
        if inner == ip {
            Some(host + " resolves to "@ + addr::ip_text(ip) + ", which is not a public address"@)
        } else {
            Some(
                host + " resolves to "@ + addr::ip_text(ip) + ", which is "@ + addr::ip_text(inner)
                    + ", and that is not a public address"@,
            )
        }
    } else {
        match (ip, nat64) {
            (IpAddr::V6(v6), Some(prefixes)) => match first_private(
                nat64::translated(v6, seq![nat64::well_known_prefix()] + prefixes),
            ) {
                Some(v4) => Some(
                    host + " resolves to "@ + addr::ip_text(ip)
                        + ", which the NAT64 gateway of this network translates to "@ + addr::ip_text(
                        IpAddr::V4(v4),
                    ) + ", and that is not a public address"@,
                ),
                None => None,
            },
            _ => None,
        }
    }
}

/// Why the first address that refuses the name refuses it.
pub open spec fn name_refusal(
    host: Seq<char>,
    found: Seq<SocketAddr>,
    nat64: Option<Seq<(Ipv6Addr, u8)>>,
) -> Option<Seq<char>>
    decreases found.len(),
{
    if found.len() == 0 {
        None
    } else if address_refusal(host, found[0].ip, nat64) is Some {
        address_refusal(host, found[0].ip, nat64)
    } else {
        name_refusal(host, found.drop_first(), nat64)
    }
}

/// Whether an address can be checked: an IPv4 address always can, and an IPv6 address
/// can when the NAT64 prefixes are known.
pub open spec fn can_check(address: SocketAddr, nat64: Option<Seq<(Ipv6Addr, u8)>>) -> bool {
    address.ip is V4 || nat64 is Some
}

/// The addresses of a name to connect to, or why the name is refused.
pub open spec fn usable(
    host: Seq<char>,
    found: Seq<SocketAddr>,
    nat64: Option<Seq<(Ipv6Addr, u8)>>,
) -> Result<Seq<SocketAddr>, Seq<char>> {
    let kept = found.filter(|address: SocketAddr| can_check(address, nat64));
    if name_refusal(host, found, nat64) is Some {
        Err(name_refusal(host, found, nat64)->0)
    } else if kept.len() > 0 {
        Ok(kept)
    } else if found.len() > 0 {
        Err(
            host
                + " has only IPv6 addresses, and the NAT64 prefix of this network could not be learned to check them. Check that ipv4only.arpa resolves"@,
        )
    } else {
        Err(host + " resolves to no address"@)
    }
}

/// Returns the first address of a list that is not public.
fn find_private(ends: &[Ipv4Addr]) -> (private: Option<Ipv4Addr>)
    ensures
        private == first_private(ends@),
{
    let mut i: usize = 0;
    assert(ends@.skip(0) =~= ends@);
    while i < ends.len()
        invariant
            i <= ends@.len(),
            first_private(ends@) == first_private(ends@.skip(i as int)),
        decreases ends@.len() - i,
    {
        if !query::is_public(IpAddr::V4(ends[i])) {
            return Some(ends[i]);
        }
        assert(ends@.skip(i as int).drop_first() =~= ends@.skip(i + 1));
        i += 1;
    }
    None
}

/// What the prefixes of a network hold, when they are known.
pub open spec fn prefixes_view(nat64: Option<&[(Ipv6Addr, u8)]>) -> Option<Seq<(Ipv6Addr, u8)>> {
    match nat64 {
        Some(prefixes) => Some(prefixes@),
        None => None,
    }
}

/// Returns why one address of a name refuses the name.
fn refuse_address(host: &str, ip: IpAddr, nat64: Option<&[(Ipv6Addr, u8)]>) -> (reason: Option<String>)
    ensures
        reason is Some <==> address_refusal(host@, ip, prefixes_view(nat64)) is Some,
        reason is Some ==> reason->0@ == address_refusal(host@, ip, prefixes_view(nat64))->0,
{
    let mut reason = host.to_owned();
    reason.append(" resolves to ");
    reason.append(ip.to_text().as_str());
    if !query::is_public(ip) {
        // An IPv6 address that carries an IPv4 one is judged by the IPv4 one, so the
        // reason names both.
        let inner = query::unmap(ip);
        if inner == ip {
            reason.append(", which is not a public address");
        } else {
            reason.append(", which is ");
            reason.append(inner.to_text().as_str());
            reason.append(", and that is not a public address");
        }
        return Some(reason);
    }
    // The well-known prefix is read by the check above. A prefix this network chose can
    // only be read when it is known.
    match (ip, nat64) {
        (IpAddr::V6(v6), Some(prefixes)) => {
            let ends = nat64::translations(v6, prefixes);
            match find_private(ends.as_slice()) {
                Some(v4) => {
                    reason.append(", which the NAT64 gateway of this network translates to ");
                    reason.append(IpAddr::V4(v4).to_text().as_str());
                    reason.append(", and that is not a public address");
                    Some(reason)
                },
                None => None,
            }
        },
        _ => None,
    }
}

/// Returns the addresses of a name to connect to, or why the name is refused.
///
/// `nat64` holds the NAT64 prefixes of the network, or `None` when they could not be
/// learned.
///
/// One address that is not public refuses the whole name. A name that points at a
/// public and a private address is a trick to pass a check with one and connect to
/// the other, and a registry has no reason to publish a private address.
///
/// An IPv6 address that the NAT64 gateway could translate, and that cannot be checked
/// because the prefixes are unknown, is not used. A name left with no address is
/// refused.
pub fn usable_addresses(host: &str, found: &[SocketAddr], nat64: Option<&[(Ipv6Addr, u8)]>) -> (outcome: Result<
    Vec<SocketAddr>,
    Refusal,
>)
    ensures
        match (outcome, usable(host@, found@, prefixes_view(nat64))) {
            (Ok(addresses), Ok(wanted)) => addresses@ == wanted,
            (Err(refusal), Err(wanted)) => refusal.reason@ == wanted,
            _ => false,
        },
{
    let ghost prefixes = prefixes_view(nat64);
    let ghost keep = |address: SocketAddr| can_check(address, prefixes);
    let mut kept: Vec<SocketAddr> = Vec::new();
    let mut i: usize = 0;
    proof {
        reveal(Seq::filter);
        assert(found@.skip(0) =~= found@);
        assert(found@.take(0).filter(keep) =~= Seq::<SocketAddr>::empty());
    }
    while i < found.len()
        invariant
            i <= found@.len(),
            prefixes == prefixes_view(nat64),
            keep == (|address: SocketAddr| can_check(address, prefixes)),
            kept@ == found@.take(i as int).filter(keep),
            name_refusal(host@, found@, prefixes) == name_refusal(host@, found@.skip(i as int), prefixes),
        decreases found@.len() - i,
    {
        let address = found[i];
        if let Some(reason) = refuse_address(host, address.ip, nat64) {
            return Err(Refusal { reason });
        }
        proof {
            reveal(Seq::filter);
            assert(found@.skip(i as int).drop_first() =~= found@.skip(i + 1));
            assert(found@.take(i + 1).drop_last() =~= found@.take(i as int));
            assert(found@.take(i + 1).last() == address);
        }
        if address.ip.is_ipv4() || nat64.is_some() {
            kept.push(address);
        }
        i += 1;
    }
    assert(found@.take(i as int) =~= found@);
    if kept.len() > 0 {
        return Ok(kept);
    }
    let mut reason = host.to_owned();
    if found.len() > 0 {
        reason.append(
            " has only IPv6 addresses, and the NAT64 prefix of this network could not be learned to check them. Check that ipv4only.arpa resolves",
        );
    } else {
        reason.append(" resolves to no address");
    }
    Err(Refusal { reason })
}

// --- What the checks promise -------------------------------------------------

/// A list with no first address that is not public has none.
proof fn lemma_no_private(ends: Seq<Ipv4Addr>)
    requires
        first_private(ends) is None,
    ensures
        forall|i: int| 0 <= i < ends.len() ==> query::public_address(IpAddr::V4(#[trigger] ends[i])),
    decreases ends.len(),
{
    if ends.len() > 0 {
        let rest = ends.drop_first();
        lemma_no_private(rest);
        assert forall|i: int| 0 <= i < ends.len() implies query::public_address(IpAddr::V4(#[trigger] ends[i])) by {
            if i > 0 {
                assert(ends[i] == rest[i - 1]);
            }
        }
    }
}

/// A name is refused when one of its addresses refuses it, and only then.
proof fn lemma_name_refusal(host: Seq<char>, found: Seq<SocketAddr>, nat64: Option<Seq<(Ipv6Addr, u8)>>)
    ensures
        name_refusal(host, found, nat64) is None <==> forall|i: int|
            0 <= i < found.len() ==> address_refusal(host, (#[trigger] found[i]).ip, nat64) is None,
    decreases found.len(),
{
    if found.len() > 0 {
        let rest = found.drop_first();
        lemma_name_refusal(host, rest, nat64);
        if name_refusal(host, found, nat64) is None {
            assert forall|i: int| 0 <= i < found.len() implies address_refusal(
                host,
                (#[trigger] found[i]).ip,
                nat64,
            ) is None by {
                if i > 0 {
                    assert(found[i] == rest[i - 1]);
                }
            }
        } else if address_refusal(host, found[0].ip, nat64) is None {
            let i = choose|i: int|
                0 <= i < rest.len() && address_refusal(host, (#[trigger] rest[i]).ip, nat64) is Some;
            assert(found[i + 1] == rest[i]);
        }
    }
}

/// One address that is not public refuses the whole name, whatever the others are.
pub proof fn law_one_private_address_refuses_the_name(
    host: Seq<char>,
    found: Seq<SocketAddr>,
    nat64: Option<Seq<(Ipv6Addr, u8)>>,
    i: int,
)
    requires
        0 <= i < found.len(),
        !query::public_address(found[i].ip),
    ensures
        usable(host, found, nat64) is Err,
{
    lemma_name_refusal(host, found, nat64);
    assert(address_refusal(host, found[i].ip, nat64) is Some);
}

/// An address the client connects to is one the name resolved to, and it is public. An
/// IPv6 address is used only when the NAT64 prefixes are known, and then every IPv4
/// address the network can translate it to is public too.
pub proof fn law_used_addresses_are_public(
    host: Seq<char>,
    found: Seq<SocketAddr>,
    nat64: Option<Seq<(Ipv6Addr, u8)>>,
    i: int,
)
    requires
        usable(host, found, nat64) is Ok,
        0 <= i < usable(host, found, nat64)->Ok_0.len(),
    ensures
        ({
            let address = usable(host, found, nat64)->Ok_0[i];
            &&& found.contains(address)
            &&& query::public_address(address.ip)
            &&& address.ip matches IpAddr::V6(v6) ==> nat64 matches Some(prefixes) && forall|k: int|
                0 <= k < nat64::translated(v6, seq![nat64::well_known_prefix()] + prefixes).len()
                    ==> query::public_address(
                    IpAddr::V4(
                        #[trigger] nat64::translated(v6, seq![nat64::well_known_prefix()] + prefixes)[k],
                    ),
                )
        }),
{
    let keep = |address: SocketAddr| can_check(address, nat64);
    let kept = found.filter(keep);
    let address = kept[i];
    list::lemma_filter_keeps(found, keep, i);
    lemma_name_refusal(host, found, nat64);
    let at = choose|at: int| 0 <= at < found.len() && found[at] == address;
    assert(address_refusal(host, found[at].ip, nat64) is None);
    if let IpAddr::V6(v6) = address.ip {
        assert(nat64 is Some);
        lemma_no_private(nat64::translated(v6, seq![nat64::well_known_prefix()] + nat64->0));
    }
}

/// A name whose addresses can all be checked, and none refuses it, is used as it
/// resolved.
pub proof fn law_public_name_is_used_as_it_resolved(
    host: Seq<char>,
    found: Seq<SocketAddr>,
    nat64: Option<Seq<(Ipv6Addr, u8)>>,
)
    requires
        found.len() > 0,
        forall|i: int|
            0 <= i < found.len() ==> can_check(#[trigger] found[i], nat64) && address_refusal(
                host,
                found[i].ip,
                nat64,
            ) is None,
    ensures
        usable(host, found, nat64) == Ok::<Seq<SocketAddr>, Seq<char>>(found),
{
    lemma_name_refusal(host, found, nat64);
    list::lemma_filter_all(found, |address: SocketAddr| can_check(address, nat64));
}

/// A client for public addresses sends no request to an address written in a URL that
/// is not public.
pub proof fn law_url_points_outside(url: url::UrlView, ip: IpAddr)
    requires
        url.host is Some,
        addr::ip_of_text(unbracketed(url.host->0)) == Some(ip),
        url_refusal(url, Destinations::Public) is None,
    ensures
        query::public_address(ip),
{
}

/// Whatever the destinations are, a request goes by HTTP or HTTPS only, a redirect
/// never leads from HTTPS to HTTP, and no redirect past the fifth is followed.
pub proof fn law_redirects(url: url::UrlView, previous: Seq<url::UrlView>, destinations: Destinations)
    requires
        redirect_refusal(url, previous, destinations) is None,
    ensures
        url.scheme == "http"@ || url.scheme == "https"@,
        previous.len() > 0 && previous.last().scheme == "https"@ ==> url.scheme == "https"@,
        previous.len() <= MAX_REDIRECTS,
{
}

// --- What each check says ----------------------------------------------------

/// A host in brackets is read without them, and any other host as it is.
pub proof fn law_brackets_are_taken_off(inner: Seq<char>, host: Seq<char>)
    ensures
        unbracketed(seq!['['] + inner + seq![']']) == inner,
        host.len() < 2 || host[0] != '[' || host[host.len() - 1] != ']' ==> unbracketed(host) == host,
{
    let whole = seq!['['] + inner + seq![']'];
    assert(whole[0] == '[');
    assert(whole.last() == ']');
    assert(whole.subrange(1, whole.len() - 1) =~= inner);
}

/// A URL is refused exactly when its scheme is neither `http` nor `https`, or the client
/// is for public addresses and the URL names no host or an address that is not public.
/// What is said names the scheme or the address.
pub proof fn law_which_urls_are_refused(url: url::UrlView, destinations: Destinations)
    ensures
        ({
            let said = url_refusal(url, destinations);
            if url.scheme != "http"@ && url.scheme != "https"@ {
                said == Some("the scheme \""@ + url.scheme + "\" is not HTTP or HTTPS"@)
            } else if destinations is Any {
                said is None
            } else if url.host is None {
                said == Some("the URL names no host"@)
            } else {
                match addr::ip_of_text(unbracketed(url.host->0)) {
                    Some(ip) => if query::public_address(ip) {
                        said is None
                    } else {
                        said == Some(
                            addr::ip_text(ip)
                                + " is a private, reserved or documentation address, and a registry record must not point inside your network"@,
                        )
                    },
                    None => said is None,
                }
            }
        }),
{
}

/// A redirect is refused after five redirects, from HTTPS to HTTP, and where its URL is
/// refused, in this order.
pub proof fn law_which_redirects_are_refused(
    url: url::UrlView,
    previous: Seq<url::UrlView>,
    destinations: Destinations,
)
    ensures
        ({
            let said = redirect_refusal(url, previous, destinations);
            if previous.len() >= 6 {
                said == Some("the server sent more than 5 redirects"@)
            } else if previous.len() >= 1 && previous[previous.len() - 1].scheme == "https"@ && url.scheme
                == "http"@ {
                said == Some("the server redirected from HTTPS to HTTP"@)
            } else {
                said == url_refusal(url, destinations)
            }
        }),
{
}

/// The first address that is not public is one, and those before it are public.
proof fn lemma_first_private(ends: Seq<Ipv4Addr>)
    ensures
        first_private(ends) is None <==> forall|i: int|
            0 <= i < ends.len() ==> query::public_address(IpAddr::V4(#[trigger] ends[i])),
        first_private(ends) matches Some(v4) ==> exists|i: int|
            0 <= i < ends.len() && #[trigger] ends[i] == v4 && !query::public_address(IpAddr::V4(v4)) && forall|
                j: int,
            |
                0 <= j < i ==> query::public_address(IpAddr::V4(#[trigger] ends[j])),
    decreases ends.len(),
{
    if ends.len() > 0 && query::public_address(IpAddr::V4(ends[0])) {
        let rest = ends.drop_first();
        lemma_first_private(rest);
        if first_private(ends) is None {
            lemma_no_private(ends);
        } else {
            let v4 = first_private(ends)->0;
            let i = choose|i: int|
                0 <= i < rest.len() && #[trigger] rest[i] == v4 && !query::public_address(IpAddr::V4(v4)) && forall|
                    j: int,
                |
                    0 <= j < i ==> query::public_address(IpAddr::V4(#[trigger] rest[j]));
            assert(ends[i + 1] == v4);
            assert forall|j: int| 0 <= j < i + 1 implies query::public_address(IpAddr::V4(#[trigger] ends[j])) by {
                if j > 0 {
                    assert(ends[j] == rest[j - 1]);
                }
            }
        }
    }
}

/// The prefixes an address is read under: the well-known one, then those of the network.
pub open spec fn all_prefixes(prefixes: Seq<(Ipv6Addr, u8)>) -> Seq<(Ipv6Addr, u8)> {
    seq![(Ipv6Addr { bits: 0x0064_ff9b_0000_0000_0000_0000_0000_0000 }, 96u8)] + prefixes
}

/// An address of a name refuses it exactly when the address is not public, or the network
/// can translate it to an IPv4 address that is not public.
pub proof fn law_which_addresses_refuse_a_name(
    host: Seq<char>,
    ip: IpAddr,
    nat64: Option<Seq<(Ipv6Addr, u8)>>,
)
    ensures
        address_refusal(host, ip, nat64) is None <==> query::public_address(ip) && (ip matches IpAddr::V6(v6)
            ==> nat64 matches Some(prefixes) ==> forall|k: int|
            0 <= k < nat64::translated(v6, all_prefixes(prefixes)).len() ==> query::public_address(
                IpAddr::V4(#[trigger] nat64::translated(v6, all_prefixes(prefixes))[k]),
            )),
{
    if let (IpAddr::V6(v6), Some(prefixes)) = (ip, nat64) {
        assert(all_prefixes(prefixes) =~= seq![nat64::well_known_prefix()] + prefixes);
        lemma_first_private(nat64::translated(v6, all_prefixes(prefixes)));
    }
}

/// What is said of a name with an address that is not public names the address, and the
/// IPv4 address that it carries or is translated to.
pub proof fn law_what_is_said_of_a_name(host: Seq<char>, ip: IpAddr, nat64: Option<Seq<(Ipv6Addr, u8)>>, k: int)
    ensures
        ({
            let said = address_refusal(host, ip, nat64);
            let inner = query::unmapped(ip);
            if !query::public_address(ip) && inner == ip {
                said == Some(host + " resolves to "@ + addr::ip_text(ip) + ", which is not a public address"@)
            } else if !query::public_address(ip) {
                said == Some(
                    host + " resolves to "@ + addr::ip_text(ip) + ", which is "@ + addr::ip_text(inner)
                        + ", and that is not a public address"@,
                )
            } else {
                ip matches IpAddr::V6(v6) ==> nat64 matches Some(prefixes) ==> {
                    let ends = nat64::translated(v6, all_prefixes(prefixes));
                    0 <= k < ends.len() && !query::public_address(IpAddr::V4(ends[k])) && (forall|j: int|
                        0 <= j < k ==> query::public_address(IpAddr::V4(#[trigger] ends[j]))) ==> said == Some(
                        host + " resolves to "@ + addr::ip_text(ip)
                            + ", which the NAT64 gateway of this network translates to "@ + addr::ip_text(
                            IpAddr::V4(ends[k]),
                        ) + ", and that is not a public address"@,
                    )
                }
            }
        }),
{
    if let (IpAddr::V6(v6), Some(prefixes)) = (ip, nat64) {
        assert(all_prefixes(prefixes) =~= seq![nat64::well_known_prefix()] + prefixes);
        let ends = nat64::translated(v6, all_prefixes(prefixes));
        lemma_first_private(ends);
        if 0 <= k < ends.len() && !query::public_address(IpAddr::V4(ends[k])) && (forall|j: int|
            0 <= j < k ==> query::public_address(IpAddr::V4(#[trigger] ends[j]))) {
            let v4 = first_private(ends)->0;
            let i = choose|i: int|
                0 <= i < ends.len() && #[trigger] ends[i] == v4 && !query::public_address(IpAddr::V4(v4)) && forall|
                    j: int,
                |
                    0 <= j < i ==> query::public_address(IpAddr::V4(#[trigger] ends[j]));
            assert(i == k);
        }
    }
}

/// A name with no address that refuses it is connected to at all of its addresses, in
/// order, where the NAT64 prefixes are known, and else at its IPv4 addresses, in order. A
/// name with none of these is refused.
pub proof fn law_which_addresses_are_used(
    host: Seq<char>,
    found: Seq<SocketAddr>,
    nat64: Option<Seq<(Ipv6Addr, u8)>>,
)
    requires
        forall|i: int|
            0 <= i < found.len() ==> address_refusal(host, (#[trigger] found[i]).ip, nat64) is None,
    ensures
        ({
            let outcome = usable(host, found, nat64);
            let ipv4 = found.filter(|address: SocketAddr| address.ip is V4);
            if found.len() == 0 {
                outcome is Err && outcome->Err_0 == host + " resolves to no address"@
            } else if nat64 is Some {
                outcome is Ok && outcome->Ok_0 == found
            } else if ipv4.len() > 0 {
                outcome is Ok && outcome->Ok_0 == ipv4
            } else {
                outcome is Err && outcome->Err_0 == host
                    + " has only IPv6 addresses, and the NAT64 prefix of this network could not be learned to check them. Check that ipv4only.arpa resolves"@
            }
        }),
{
    lemma_name_refusal(host, found, nat64);
    let keep = |address: SocketAddr| can_check(address, nat64);
    if nat64 is Some {
        list::lemma_filter_all(found, keep);
    } else {
        list::lemma_filter_same(found, keep, |address: SocketAddr| address.ip is V4);
    }
    if found.len() == 0 {
        found.lemma_filter_len(keep);
    }
}

/// A name is refused for its first address that refuses it.
pub proof fn law_first_refusal_is_given(
    host: Seq<char>,
    found: Seq<SocketAddr>,
    nat64: Option<Seq<(Ipv6Addr, u8)>>,
    i: int,
)
    requires
        0 <= i < found.len(),
        forall|j: int| 0 <= j < i ==> address_refusal(host, (#[trigger] found[j]).ip, nat64) is None,
        address_refusal(host, found[i].ip, nat64) is Some,
    ensures
        usable(host, found, nat64) is Err,
        usable(host, found, nat64)->Err_0 == address_refusal(host, found[i].ip, nat64)->0,
{
    lemma_first_refusal(host, found, nat64, i);
}

/// The first refusal of a list.
proof fn lemma_first_refusal(
    host: Seq<char>,
    found: Seq<SocketAddr>,
    nat64: Option<Seq<(Ipv6Addr, u8)>>,
    i: int,
)
    requires
        0 <= i < found.len(),
        forall|j: int| 0 <= j < i ==> address_refusal(host, (#[trigger] found[j]).ip, nat64) is None,
        address_refusal(host, found[i].ip, nat64) is Some,
    ensures
        name_refusal(host, found, nat64) == address_refusal(host, found[i].ip, nat64),
    decreases found.len(),
{
    if i > 0 {
        let rest = found.drop_first();
        assert(address_refusal(host, found[0].ip, nat64) is None);
        assert forall|j: int| 0 <= j < i - 1 implies address_refusal(host, (#[trigger] rest[j]).ip, nat64) is None by {
            assert(rest[j] == found[j + 1]);
        }
        assert(rest[i - 1] == found[i]);
        lemma_first_refusal(host, rest, nat64, i - 1);
    }
}

/// A URL is seen with its scheme, its host, its port and its text, and a list URL by URL.
pub proof fn law_urls_are_seen_whole(urls: Seq<Url>, i: int)
    ensures
        url_views(urls).len() == urls.len(),
        0 <= i < urls.len() ==> url_views(urls)[i].scheme == urls[i].scheme@,
        0 <= i < urls.len() ==> (url_views(urls)[i].host is Some <==> urls[i].host is Some),
        0 <= i < urls.len() ==> (urls[i].host matches Some(host) ==> url_views(urls)[i].host == Some(host@)),
        0 <= i < urls.len() ==> url_views(urls)[i].port == urls[i].port,
        0 <= i < urls.len() ==> url_views(urls)[i].text == urls[i].text@,
{
}

/// A check passes exactly when there is no reason against it, and else gives the reason.
pub proof fn law_what_a_check_gives(outcome: Result<(), Refusal>, reason: Option<Seq<char>>)
    requires
        checked(outcome, reason),
    ensures
        outcome is Ok <==> reason is None,
        outcome matches Err(refusal) ==> reason == Some(refusal.reason@),
{
}

/// Prefixes that may be unknown are seen as they are, or as unknown.
pub proof fn law_unknown_prefixes_are_seen(nat64: Option<&[(Ipv6Addr, u8)]>)
    ensures
        nat64 is None ==> prefixes_view(nat64) is None,
        nat64 matches Some(prefixes) ==> prefixes_view(nat64) == Some(prefixes@),
{
}

} // verus!
