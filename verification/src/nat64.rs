//! IPv4 addresses carried inside IPv6 addresses by NAT64, as RFC 6052 describes.
//!
//! On a network with DNS64, a name that has only an IPv4 address resolves to an IPv6
//! address: a NAT64 prefix with the IPv4 address inside it. The network translates a
//! connection to that IPv6 address back to the IPv4 one. An address check that reads
//! only the IPv6 address sees a public prefix and passes a connection that ends at a
//! private IPv4 address. The functions here find the IPv4 address inside.

use vstd::bits::*;
use vstd::prelude::*;

use crate::addr;
use crate::addr::{IpAddr, Ipv4Addr, Ipv6Addr};
use crate::list;
use crate::prefix;

verus! {

/// The name RFC 7050 gives for learning the NAT64 prefix of a network.
pub const DISCOVERY_NAME: &'static str = "ipv4only.arpa";

/// The NAT64 well-known prefix, `64:ff9b::/96`, from RFC 6052.
///
/// Every network that uses it puts the IPv4 address in the last 32 bits, so an
/// address under it is read without learning anything about the network.
pub open spec fn well_known_prefix() -> (Ipv6Addr, u8) {
    (Ipv6Addr { bits: 0x0064_ff9b_0000_0000_0000_0000_0000_0000 }, 96)
}

/// The IPv4 address inside an address, for a NAT64 prefix of this length.
///
/// RFC 6052 section 2.2 places the four octets after the prefix, and for a prefix
/// shorter than 96 bits it skips the octet of bits 64 to 71, which must be zero.
pub open spec fn embedded(ip: Ipv6Addr, length: u8) -> Option<Ipv4Addr> {
    let at = |a: int, b: int, c: int, d: int|
        Some(
            addr::v4_of(
                addr::v6_octet(ip, a),
                addr::v6_octet(ip, b),
                addr::v6_octet(ip, c),
                addr::v6_octet(ip, d),
            ),
        );
    if length < 96 && addr::v6_octet(ip, 8) != 0 {
        None
    } else if length == 32 {
        at(4, 5, 6, 7)
    } else if length == 40 {
        at(5, 6, 7, 9)
    } else if length == 48 {
        at(6, 7, 9, 10)
    } else if length == 56 {
        at(7, 9, 10, 11)
    } else if length == 64 {
        at(9, 10, 11, 12)
    } else if length == 96 {
        at(12, 13, 14, 15)
    } else {
        None
    }
}

/// Returns the IPv4 address inside an address, for a NAT64 prefix of this length.
///
/// A length RFC 6052 does not allow gives `None`, and so does a shorter prefix whose
/// bits 64 to 71 are not zero.
pub fn embedded_ipv4(address: Ipv6Addr, length: u8) -> (v4: Option<Ipv4Addr>)
    ensures
        v4 == embedded(address, length),
{
    // Octet 8 holds bits 64 to 71. It sits inside the IPv4 address for every length
    // but 96, and it must be zero.
    if length < 96 && address.octet(8) != 0 {
        return None;
    }
    let (a, b, c, d): (usize, usize, usize, usize) = match length {
        32 => (4, 5, 6, 7),
        40 => (5, 6, 7, 9),
        48 => (6, 7, 9, 10),
        56 => (7, 9, 10, 11),
        64 => (9, 10, 11, 12),
        96 => (12, 13, 14, 15),
        _ => return None,
    };
    Some(Ipv4Addr::new(address.octet(a), address.octet(b), address.octet(c), address.octet(d)))
}

// --- Discovery ---------------------------------------------------------------

/// Whether this is one of the two IPv4 addresses `ipv4only.arpa` has, from RFC 7050.
pub open spec fn is_discovery_address(v4: Ipv4Addr) -> bool {
    v4 == addr::v4_of(192, 0, 0, 170) || v4 == addr::v4_of(192, 0, 0, 171)
}

/// The prefix lengths RFC 6052 allows.
pub open spec fn prefix_lengths() -> Seq<u8> {
    seq![32, 40, 48, 56, 64, 96]
}

/// The address with every bit after the prefix set to zero.
pub open spec fn kept_prefix(ip: Ipv6Addr, length: u8) -> Ipv6Addr {
    if length == 0 {
        Ipv6Addr { bits: 0 }
    } else {
        Ipv6Addr { bits: (ip.bits >> (128 - length) as u128) << (128 - length) as u128 }
    }
}

/// Whether the address has a known IPv4 address inside for a prefix of this length.
pub open spec fn shows_length(ip: Ipv6Addr, length: u8) -> bool {
    embedded(ip, length) matches Some(v4) && is_discovery_address(v4)
}

/// The prefixes one address shows, for the first `count` allowed lengths.
pub open spec fn shown_by(ip: Ipv6Addr, count: nat) -> Seq<(Ipv6Addr, u8)>
    decreases count,
{
    if count == 0 {
        Seq::<(Ipv6Addr, u8)>::empty()
    } else {
        let before = shown_by(ip, (count - 1) as nat);
        let length = prefix_lengths()[count - 1];
        if shows_length(ip, length) {
            before.push((kept_prefix(ip, length), length))
        } else {
            before
        }
    }
}

/// The prefixes a list of addresses shows, in order.
pub open spec fn shown_prefixes(addresses: Seq<Ipv6Addr>) -> Seq<(Ipv6Addr, u8)>
    decreases addresses.len(),
{
    if addresses.len() == 0 {
        Seq::<(Ipv6Addr, u8)>::empty()
    } else {
        shown_prefixes(addresses.drop_last()) + shown_by(addresses.last(), 6)
    }
}

/// Returns the address with every bit after the prefix set to zero.
fn keep_prefix(address: Ipv6Addr, length: u8) -> (kept: Ipv6Addr)
    requires
        length <= 128,
    ensures
        kept == kept_prefix(address, length),
{
    if length == 0 {
        return Ipv6Addr { bits: 0 };
    }
    let shift = (128 - length) as u128;
    Ipv6Addr { bits: (address.bits >> shift) << shift }
}

/// Returns whether a prefix is in the list.
fn holds_prefix(prefixes: &Vec<(Ipv6Addr, u8)>, wanted: (Ipv6Addr, u8)) -> (found: bool)
    ensures
        found == prefixes@.contains(wanted),
{
    let mut i: usize = 0;
    while i < prefixes.len()
        invariant
            i <= prefixes@.len(),
            forall|k: int| 0 <= k < i ==> prefixes@[k] != wanted,
        decreases prefixes@.len() - i,
    {
        let (address, length) = prefixes[i];
        if address == wanted.0 && length == wanted.1 {
            assert(prefixes@[i as int] == wanted);
            return true;
        }
        i += 1;
    }
    false
}

/// Returns the NAT64 prefixes that the IPv6 addresses of `ipv4only.arpa` show.
///
/// RFC 7050 section 3: an IPv6 address for that name is a NAT64 prefix with one of
/// the two known IPv4 addresses inside. Where one of them sits gives the length, and
/// the bits before it give the prefix. An address with neither inside shows no prefix.
pub fn prefixes_from_discovery(addresses: &[Ipv6Addr]) -> (prefixes: Vec<(Ipv6Addr, u8)>)
    ensures
        prefixes@ == list::distinct(shown_prefixes(addresses@)),
{
    let first = Ipv4Addr::new(192, 0, 0, 170);
    let second = Ipv4Addr::new(192, 0, 0, 171);
    let lengths: [u8; 6] = [32, 40, 48, 56, 64, 96];
    assert(lengths@ =~= prefix_lengths());
    let mut prefixes: Vec<(Ipv6Addr, u8)> = Vec::new();
    let mut i: usize = 0;
    while i < addresses.len()
        invariant
            i <= addresses@.len(),
            lengths@ == prefix_lengths(),
            first == addr::v4_of(192, 0, 0, 170),
            second == addr::v4_of(192, 0, 0, 171),
            prefixes@ == list::distinct(shown_prefixes(addresses@.take(i as int))),
        decreases addresses@.len() - i,
    {
        let address = addresses[i];
        let ghost before = shown_prefixes(addresses@.take(i as int));
        assert(before + shown_by(address, 0) =~= before);
        let mut k: usize = 0;
        while k < 6
            invariant
                k <= 6,
                lengths@ == prefix_lengths(),
                first == addr::v4_of(192, 0, 0, 170),
                second == addr::v4_of(192, 0, 0, 171),
                prefixes@ == list::distinct(before + shown_by(address, k as nat)),
            decreases 6 - k,
        {
            let length = lengths[k];
            let ghost now = before + shown_by(address, k as nat);
            assert(length == prefix_lengths()[k as int]);
            assert(length <= 96);
            let shows = match embedded_ipv4(address, length) {
                Some(v4) => v4 == first || v4 == second,
                None => false,
            };
            if shows {
                let prefix = (keep_prefix(address, length), length);
                assert((before + shown_by(address, k as nat + 1)).drop_last() =~= now);
                assert((before + shown_by(address, k as nat + 1)).last() == prefix);
                if !holds_prefix(&prefixes, prefix) {
                    prefixes.push(prefix);
                }
            } else {
                assert(before + shown_by(address, k as nat + 1) =~= now);
            }
            k += 1;
        }
        assert(addresses@.take(i + 1).drop_last() =~= addresses@.take(i as int));
        i += 1;
    }
    assert(addresses@.take(i as int) =~= addresses@);
    prefixes
}

// --- Translation -------------------------------------------------------------

/// The IPv4 addresses a connection to this address can end at, under these prefixes.
pub open spec fn translated(ip: Ipv6Addr, prefixes: Seq<(Ipv6Addr, u8)>) -> Seq<Ipv4Addr>
    decreases prefixes.len(),
{
    if prefixes.len() == 0 {
        Seq::<Ipv4Addr>::empty()
    } else {
        let before = translated(ip, prefixes.drop_last());
        let (network, length) = prefixes.last();
        if prefix::network_holds(IpAddr::V6(network), length, IpAddr::V6(ip)) && embedded(ip, length) is Some {
            before.push(embedded(ip, length)->0)
        } else {
            before
        }
    }
}

/// The IPv4 address a prefix gives for an address, when the address is under it.
fn under_prefix(address: Ipv6Addr, network: Ipv6Addr, length: u8) -> (v4: Option<Ipv4Addr>)
    ensures
        v4 == (if prefix::network_holds(IpAddr::V6(network), length, IpAddr::V6(address)) {
            embedded(address, length)
        } else {
            None
        }),
{
    if prefix::contains(IpAddr::V6(network), length, IpAddr::V6(address)) {
        embedded_ipv4(address, length)
    } else {
        None
    }
}

/// The IPv4 address inside an address under the well-known prefix.
pub open spec fn well_known_v4(ip: Ipv6Addr) -> Option<Ipv4Addr> {
    let (network, length) = well_known_prefix();
    if prefix::network_holds(IpAddr::V6(network), length, IpAddr::V6(ip)) {
        embedded(ip, length)
    } else {
        None
    }
}

/// Returns the IPv4 address inside an address under the well-known prefix.
pub fn under_well_known(address: Ipv6Addr) -> (v4: Option<Ipv4Addr>)
    ensures
        v4 == well_known_v4(address),
{
    under_prefix(address, Ipv6Addr { bits: 0x0064_ff9b_0000_0000_0000_0000_0000_0000 }, 96)
}

/// Returns every IPv4 address that a connection to this address can end at.
///
/// The well-known prefix is always read. A discovered prefix is read when it holds
/// the address. An address under no NAT64 prefix carries no IPv4 address, and the
/// list is empty.
pub fn translations(address: Ipv6Addr, discovered: &[(Ipv6Addr, u8)]) -> (ends: Vec<Ipv4Addr>)
    ensures
        ends@ == translated(address, seq![well_known_prefix()] + discovered@),
{
    let ghost all = seq![well_known_prefix()] + discovered@;
    let mut ends: Vec<Ipv4Addr> = Vec::new();
    assert(all.take(1).drop_last() =~= Seq::<(Ipv6Addr, u8)>::empty());
    assert(all.take(1).last() == well_known_prefix());
    assert(translated(address, Seq::<(Ipv6Addr, u8)>::empty()) =~= Seq::<Ipv4Addr>::empty());
    if let Some(v4) = under_well_known(address) {
        ends.push(v4);
    }
    let mut i: usize = 0;
    while i < discovered.len()
        invariant
            i <= discovered@.len(),
            all == seq![well_known_prefix()] + discovered@,
            ends@ == translated(address, all.take(i + 1)),
        decreases discovered@.len() - i,
    {
        let (network, length) = discovered[i];
        assert(all.take(i + 2).drop_last() =~= all.take(i + 1));
        assert(all.take(i + 2).last() == discovered@[i as int]);
        if let Some(v4) = under_prefix(address, network, length) {
            ends.push(v4);
        }
        i += 1;
    }
    assert(all.take(i + 1) =~= all);
    ends
}

// --- What discovery promises -------------------------------------------------

/// The prefix of an address holds the address, and has no bit after it.
#[verifier::rlimit(40)]
proof fn lemma_kept_prefix(ip: Ipv6Addr, length: u8)
    requires
        0 < length <= 128,
    ensures
        prefix::network_holds(IpAddr::V6(kept_prefix(ip, length)), length, IpAddr::V6(ip)),
        kept_prefix(kept_prefix(ip, length), length) == kept_prefix(ip, length),
{
    let b = ip.bits;
    let s = (128 - length) as u128;
    let k = (b >> s) << s;
    assert(k >> s == b >> s) by (bit_vector)
        requires
            s < 128,
            k == (b >> s) << s,
    ;
    lemma_u128_shr_is_div(b, s);
    lemma_u128_shr_is_div(k, s);
}

/// A prefix that holds the address, and has an IPv4 address inside it, is read.
proof fn lemma_translated_reads(ip: Ipv6Addr, prefixes: Seq<(Ipv6Addr, u8)>, at: int)
    requires
        0 <= at < prefixes.len(),
        prefix::network_holds(IpAddr::V6(prefixes[at].0), prefixes[at].1, IpAddr::V6(ip)),
        embedded(ip, prefixes[at].1) is Some,
    ensures
        translated(ip, prefixes).contains(embedded(ip, prefixes[at].1)->0),
    decreases prefixes.len(),
{
    let short = prefixes.drop_last();
    let before = translated(ip, short);
    let after = translated(ip, prefixes);
    if at < short.len() {
        lemma_translated_reads(ip, short, at);
        let v4 = embedded(ip, prefixes[at].1)->0;
        let k = choose|k: int| 0 <= k < before.len() && before[k] == v4;
        assert(after[k] == v4);
    } else {
        assert(after[after.len() - 1] == embedded(ip, prefixes[at].1)->0);
    }
}

/// An address shows a prefix for each allowed length with a known address inside.
proof fn lemma_shown_by(ip: Ipv6Addr, count: nat, at: int)
    requires
        0 <= at < count <= 6,
        shows_length(ip, prefix_lengths()[at]),
    ensures
        shown_by(ip, count).contains((kept_prefix(ip, prefix_lengths()[at]), prefix_lengths()[at])),
    decreases count,
{
    let wanted = (kept_prefix(ip, prefix_lengths()[at]), prefix_lengths()[at]);
    let before = shown_by(ip, (count - 1) as nat);
    let after = shown_by(ip, count);
    if at < count - 1 {
        lemma_shown_by(ip, (count - 1) as nat, at);
        let k = choose|k: int| 0 <= k < before.len() && before[k] == wanted;
        assert(after[k] == wanted);
    } else {
        assert(after[after.len() - 1] == wanted);
    }
}

/// What each address of a list shows, the list shows.
proof fn lemma_shown_prefixes(addresses: Seq<Ipv6Addr>, i: int, wanted: (Ipv6Addr, u8))
    requires
        0 <= i < addresses.len(),
        shown_by(addresses[i], 6).contains(wanted),
    ensures
        shown_prefixes(addresses).contains(wanted),
    decreases addresses.len(),
{
    let short = addresses.drop_last();
    let before = shown_prefixes(short);
    let last = shown_by(addresses.last(), 6);
    let after = shown_prefixes(addresses);
    if i < short.len() {
        lemma_shown_prefixes(short, i, wanted);
        let k = choose|k: int| 0 <= k < before.len() && before[k] == wanted;
        assert(after[k] == wanted);
    } else {
        let k = choose|k: int| 0 <= k < last.len() && last[k] == wanted;
        assert(after[before.len() + k] == wanted);
    }
}

/// An address that shows a NAT64 prefix is translated by the prefixes learned from it,
/// to the known IPv4 address inside it.
pub proof fn law_learned_prefix_reads_the_address(addresses: Seq<Ipv6Addr>, i: int, length: u8)
    requires
        0 <= i < addresses.len(),
        prefix_lengths().contains(length),
        shows_length(addresses[i], length),
    ensures
        translated(
            addresses[i],
            seq![well_known_prefix()] + list::distinct(shown_prefixes(addresses)),
        ).contains(embedded(addresses[i], length)->0),
        is_discovery_address(embedded(addresses[i], length)->0),
{
    let ip = addresses[i];
    let wanted = (kept_prefix(ip, length), length);
    let at = choose|at: int| 0 <= at < 6 && prefix_lengths()[at] == length;
    lemma_shown_by(ip, 6, at);
    lemma_shown_prefixes(addresses, i, wanted);
    let shown = shown_prefixes(addresses);
    let learned = list::distinct(shown);
    list::lemma_distinct(shown);
    let n = choose|n: int| 0 <= n < shown.len() && shown[n] == wanted;
    assert(learned.contains(shown[n]));
    let k = choose|k: int| 0 <= k < learned.len() && learned[k] == wanted;
    let all = seq![well_known_prefix()] + learned;
    assert(all[k + 1] == wanted);
    lemma_kept_prefix(ip, length);
    lemma_translated_reads(ip, all, k + 1);
}

/// What one address shows has an allowed length and no bit after it.
proof fn lemma_shown_by_is_sound(ip: Ipv6Addr, count: nat)
    requires
        count <= 6,
    ensures
        forall|k: int|
            0 <= k < shown_by(ip, count).len() ==> {
                let (network, length) = #[trigger] shown_by(ip, count)[k];
                &&& prefix_lengths().contains(length)
                &&& network == kept_prefix(ip, length)
                &&& shows_length(ip, length)
            },
    decreases count,
{
    if count > 0 {
        lemma_shown_by_is_sound(ip, (count - 1) as nat);
        let before = shown_by(ip, (count - 1) as nat);
        let after = shown_by(ip, count);
        assert forall|k: int| 0 <= k < after.len() implies {
            let (network, length) = #[trigger] after[k];
            &&& prefix_lengths().contains(length)
            &&& network == kept_prefix(ip, length)
            &&& shows_length(ip, length)
        } by {
            if k < before.len() {
                assert(after[k] == before[k]);
            } else {
                assert(prefix_lengths()[count - 1] == after[k].1);
            }
        }
    }
}

/// Whether a prefix is one that an address of the list shows.
pub open spec fn shown_in(addresses: Seq<Ipv6Addr>, network: Ipv6Addr, length: u8) -> bool {
    exists|i: int|
        #![trigger addresses[i]]
        0 <= i < addresses.len() && shows_length(addresses[i], length) && network == kept_prefix(
            addresses[i],
            length,
        )
}

/// What a list of addresses shows, one of the addresses shows.
proof fn lemma_shown_prefixes_is_sound(addresses: Seq<Ipv6Addr>)
    ensures
        forall|k: int|
            0 <= k < shown_prefixes(addresses).len() ==> {
                let (network, length) = #[trigger] shown_prefixes(addresses)[k];
                prefix_lengths().contains(length) && shown_in(addresses, network, length)
            },
    decreases addresses.len(),
{
    if addresses.len() > 0 {
        let short = addresses.drop_last();
        lemma_shown_prefixes_is_sound(short);
        lemma_shown_by_is_sound(addresses.last(), 6);
        let before = shown_prefixes(short);
        let last = shown_by(addresses.last(), 6);
        let after = shown_prefixes(addresses);
        assert forall|k: int| 0 <= k < after.len() implies {
            let (network, length) = #[trigger] after[k];
            prefix_lengths().contains(length) && shown_in(addresses, network, length)
        } by {
            let (network, length) = after[k];
            if k < before.len() {
                assert(after[k] == before[k]);
                assert(shown_in(short, network, length));
                let i = choose|i: int|
                    #![trigger short[i]]
                    0 <= i < short.len() && shows_length(short[i], length) && network == kept_prefix(
                        short[i],
                        length,
                    );
                assert(addresses[i] == short[i]);
            } else {
                assert(after[k] == last[k - before.len()]);
                assert(addresses[addresses.len() - 1] == addresses.last());
            }
        }
    }
}

/// A prefix learned from discovery is one that an address shows: it has an allowed
/// length and no bit after it, and the address has a known IPv4 address inside. No
/// prefix is learned twice.
pub proof fn law_learned_prefixes_were_shown(addresses: Seq<Ipv6Addr>, k: int)
    requires
        0 <= k < list::distinct(shown_prefixes(addresses)).len(),
    ensures
        ({
            let (network, length) = list::distinct(shown_prefixes(addresses))[k];
            &&& prefix_lengths().contains(length)
            &&& kept_prefix(network, length) == network
            &&& shown_in(addresses, network, length)
        }),
        list::distinct(shown_prefixes(addresses)).no_duplicates(),
{
    let shown = shown_prefixes(addresses);
    let learned = list::distinct(shown);
    list::lemma_distinct(shown);
    lemma_shown_prefixes_is_sound(addresses);
    let (network, length) = learned[k];
    assert(shown.contains(learned[k]));
    let n = choose|n: int| 0 <= n < shown.len() && shown[n] == learned[k];
    let (a, b) = shown[n];
    let i = choose|i: int|
        #![trigger addresses[i]]
        0 <= i < addresses.len() && shows_length(addresses[i], length) && network == kept_prefix(
            addresses[i],
            length,
        );
    let at = choose|at: int| 0 <= at < 6 && prefix_lengths()[at] == length;
    lemma_kept_prefix(addresses[i], length);
}

// --- Where the IPv4 address stands -------------------------------------------

/// An address of four octets is the number they spell in base 256.
proof fn lemma_from_octets(ip: Ipv6Addr, a: int, b: int, c: int, d: int)
    ensures
        addr::v4_of(
            addr::v6_octet(ip, a),
            addr::v6_octet(ip, b),
            addr::v6_octet(ip, c),
            addr::v6_octet(ip, d),
        ).bits == addr::v6_octet(ip, a) * 16777216 + addr::v6_octet(ip, b) * 65536 + addr::v6_octet(ip, c)
            * 256 + addr::v6_octet(ip, d),
{
    addr::law_octets_are_the_digits(
        addr::v6_octet(ip, a),
        addr::v6_octet(ip, b),
        addr::v6_octet(ip, c),
        addr::v6_octet(ip, d),
    );
}

/// The octet of an IPv6 address at a place, from its number.
pub open spec fn octet_at(ip: Ipv6Addr, i: int) -> int {
    (ip.bits as nat / vstd::arithmetic::power2::pow2(((15 - i) * 8) as nat) % 256) as int
}

/// A NAT64 prefix is 32, 40, 48, 56, 64 or 96 bits long. The four octets of the IPv4 address
/// follow it, without the ninth octet, which is zero unless the prefix covers it.
pub proof fn law_where_ipv4_stands(ip: Ipv6Addr, length: u8)
    ensures
        ({
            let found = embedded(ip, length);
            let is = |a: int, b: int, c: int, d: int|
                found is Some && found->0.bits == octet_at(ip, a) * 16777216 + octet_at(ip, b) * 65536 + octet_at(
                    ip,
                    c,
                ) * 256 + octet_at(ip, d);
            &&& length == 32 && octet_at(ip, 8) == 0 ==> is(4, 5, 6, 7)
            &&& length == 40 && octet_at(ip, 8) == 0 ==> is(5, 6, 7, 9)
            &&& length == 48 && octet_at(ip, 8) == 0 ==> is(6, 7, 9, 10)
            &&& length == 56 && octet_at(ip, 8) == 0 ==> is(7, 9, 10, 11)
            &&& length == 64 && octet_at(ip, 8) == 0 ==> is(9, 10, 11, 12)
            &&& length == 96 ==> is(12, 13, 14, 15)
            &&& length < 96 && octet_at(ip, 8) != 0 ==> found is None
            &&& length != 32 && length != 40 && length != 48 && length != 56 && length != 64 && length != 96
                ==> found is None
        }),
{
    assert forall|i: int| 0 <= i < 16 implies #[trigger] addr::v6_octet(ip, i) == octet_at(ip, i) by {
        addr::law_octets_of_ipv6(ip, i);
    }
    lemma_from_octets(ip, 4, 5, 6, 7);
    lemma_from_octets(ip, 5, 6, 7, 9);
    lemma_from_octets(ip, 6, 7, 9, 10);
    lemma_from_octets(ip, 7, 9, 10, 11);
    lemma_from_octets(ip, 9, 10, 11, 12);
    lemma_from_octets(ip, 12, 13, 14, 15);
}

/// An address under a prefix of 96 bits carries the IPv4 address in its last 32 bits.
pub proof fn law_ipv4_in_the_last_bits(ip: Ipv6Addr)
    ensures
        embedded(ip, 96) matches Some(v4) && v4.bits == ip.bits % 0x1_0000_0000,
{
    let b = ip.bits;
    assert(((((b >> 24u128) & 0xff) as u8) as u32) << 24 | ((((b >> 16u128) & 0xff) as u8) as u32) << 16 | ((((
    b >> 8u128) & 0xff) as u8) as u32) << 8 | ((((b >> 0u128) & 0xff) as u8) as u32) == b % 0x1_0000_0000)
        by (bit_vector);
}

/// The IPv4 addresses that show a NAT64 prefix are 192.0.0.170 and 192.0.0.171.
pub proof fn law_discovery_addresses(v4: Ipv4Addr)
    ensures
        is_discovery_address(v4) <==> v4.bits == 192 * 16777216 + 170 || v4.bits == 192 * 16777216 + 171,
{
    addr::law_octets_are_the_digits(192, 0, 0, 170);
    addr::law_octets_are_the_digits(192, 0, 0, 171);
}

/// The prefix of an address keeps its first bits, and the others are zero.
#[verifier::rlimit(40)]
pub proof fn law_prefix_of_an_address(ip: Ipv6Addr, length: u8)
    requires
        0 < length <= 128,
    ensures
        ({
            let size = vstd::arithmetic::power2::pow2((128 - length) as nat);
            &&& kept_prefix(ip, length).bits as nat / size == ip.bits as nat / size
            &&& kept_prefix(ip, length).bits as nat % size == 0
        }),
{
    let b = ip.bits;
    let s = (128 - length) as u128;
    let size = vstd::arithmetic::power2::pow2(s as nat);
    lemma_kept_prefix(ip, length);
    let k = kept_prefix(ip, length).bits;
    vstd::arithmetic::power2::lemma_pow2_pos(s as nat);
    lemma_u128_shr_is_div(b, s);
    lemma_u128_shr_is_div(k, s);
    let q = b as nat / size;
    vstd::arithmetic::div_mod::lemma_fundamental_div_mod(b as int, size as int);
    vstd::arithmetic::div_mod::lemma_fundamental_div_mod(k as int, size as int);
    assert(q * size == size * q) by (nonlinear_arith);
    let low = (q * size) as u128;
    vstd::arithmetic::div_mod::lemma_div_multiples_vanish(q as int, size as int);
    vstd::arithmetic::div_mod::lemma_mod_multiples_basic(q as int, size as int);
    lemma_u128_shr_is_div(low, s);
    assert((b >> s) << s <= low) by (bit_vector)
        requires
            s < 128,
            low >> s == b >> s,
    ;
    assert(k == low);
}

/// An address learned to show a prefix shows it, for each length at which it has one of
/// the two known addresses inside.
pub proof fn law_every_shown_prefix_is_learned(addresses: Seq<Ipv6Addr>, i: int, length: u8, v4: Ipv4Addr)
    requires
        0 <= i < addresses.len(),
        length == 32 || length == 40 || length == 48 || length == 56 || length == 64 || length == 96,
        embedded(addresses[i], length) == Some(v4),
        v4.bits == 192 * 16777216 + 170 || v4.bits == 192 * 16777216 + 171,
    ensures
        list::distinct(shown_prefixes(addresses)).contains((kept_prefix(addresses[i], length), length)),
{
    let ip = addresses[i];
    let wanted = (kept_prefix(ip, length), length);
    law_discovery_addresses(v4);
    let at: int = if length == 32 {
        0
    } else if length == 40 {
        1
    } else if length == 48 {
        2
    } else if length == 56 {
        3
    } else if length == 64 {
        4
    } else {
        5
    };
    assert(prefix_lengths()[at] == length);
    lemma_shown_by(ip, 6, at);
    lemma_shown_prefixes(addresses, i, wanted);
    let shown = shown_prefixes(addresses);
    list::lemma_distinct(shown);
    let n = choose|n: int| 0 <= n < shown.len() && shown[n] == wanted;
    assert(list::distinct(shown).contains(shown[n]));
}

/// A prefix that is learned is 32, 40, 48, 56, 64 or 96 bits long, and an address that
/// starts with it has one of the two known addresses inside.
pub proof fn law_learned_prefixes_by_number(addresses: Seq<Ipv6Addr>, k: int)
    requires
        0 <= k < list::distinct(shown_prefixes(addresses)).len(),
    ensures
        ({
            let (network, length) = list::distinct(shown_prefixes(addresses))[k];
            &&& length == 32 || length == 40 || length == 48 || length == 56 || length == 64 || length == 96
            &&& exists|i: int|
                #![trigger addresses[i]]
                0 <= i < addresses.len() && network == kept_prefix(addresses[i], length) && (embedded(
                    addresses[i],
                    length,
                ) matches Some(v4) && (v4.bits == 192 * 16777216 + 170 || v4.bits == 192 * 16777216 + 171))
        }),
{
    law_learned_prefixes_were_shown(addresses, k);
    let (network, length) = list::distinct(shown_prefixes(addresses))[k];
    let i = choose|i: int|
        #![trigger addresses[i]]
        0 <= i < addresses.len() && shows_length(addresses[i], length) && network == kept_prefix(
            addresses[i],
            length,
        );
    law_discovery_addresses(embedded(addresses[i], length)->0);
}

/// A connection can end at the IPv4 address inside an address for each prefix that holds
/// the address: the prefix `64:ff9b::/96` first, then those that were learned, in order.
pub proof fn law_where_a_connection_ends(
    ip: Ipv6Addr,
    prefixes: Seq<(Ipv6Addr, u8)>,
    network: Ipv6Addr,
    length: u8,
)
    ensures
        translated(ip, Seq::<(Ipv6Addr, u8)>::empty()) == Seq::<Ipv4Addr>::empty(),
        translated(ip, prefixes.push((network, length))) == (if length <= 128 && network.bits as nat
            / vstd::arithmetic::power2::pow2((128 - length) as nat) == ip.bits as nat
            / vstd::arithmetic::power2::pow2((128 - length) as nat) {
            match embedded(ip, length) {
                Some(v4) => translated(ip, prefixes).push(v4),
                None => translated(ip, prefixes),
            }
        } else {
            translated(ip, prefixes)
        }),
        well_known_prefix().0.bits == 0x64 * 0x1_0000_0000_0000_0000_0000_0000_0000 + 0xff9b
            * 0x1_0000_0000_0000_0000_0000_0000,
        well_known_prefix().1 == 96,
{
    prefix::law_network_by_number(IpAddr::V6(network), length, IpAddr::V6(ip));
    assert(prefixes.push((network, length)).drop_last() =~= prefixes);
}

/// The prefixes of a list of addresses stand in the order of the addresses, and those of
/// one address from the shortest to the longest.
pub proof fn law_prefixes_stand_in_order(addresses: Seq<Ipv6Addr>, ip: Ipv6Addr, i: int, j: int)
    ensures
        shown_prefixes(Seq::<Ipv6Addr>::empty()) == Seq::<(Ipv6Addr, u8)>::empty(),
        shown_prefixes(addresses.push(ip)) == shown_prefixes(addresses) + shown_prefixes(seq![ip]),
        0 <= i < j < shown_prefixes(seq![ip]).len() ==> shown_prefixes(seq![ip])[i].1 < shown_prefixes(
            seq![ip],
        )[j].1,
{
    let none = Seq::<Ipv6Addr>::empty();
    assert(shown_prefixes(none) =~= Seq::<(Ipv6Addr, u8)>::empty());
    assert(addresses.push(ip).drop_last() =~= addresses);
    assert(seq![ip].drop_last() =~= none);
    assert(shown_prefixes(seq![ip]) =~= shown_by(ip, 6));
    lemma_lengths_rise(ip, 6);
}

/// The prefixes of one address stand from the shortest to the longest.
proof fn lemma_lengths_rise(ip: Ipv6Addr, count: nat)
    requires
        count <= 6,
    ensures
        forall|i: int, j: int|
            0 <= i < j < shown_by(ip, count).len() ==> (#[trigger] shown_by(ip, count)[i]).1 < (
            #[trigger] shown_by(ip, count)[j]).1,
        forall|i: int|
            0 <= i < shown_by(ip, count).len() ==> count > 0 && (#[trigger] shown_by(ip, count)[i]).1
                <= prefix_lengths()[count - 1],
    decreases count,
{
    if count > 0 {
        lemma_lengths_rise(ip, (count - 1) as nat);
        let before = shown_by(ip, (count - 1) as nat);
        let after = shown_by(ip, count);
        if count > 1 {
            assert(prefix_lengths()[count - 2] < prefix_lengths()[count - 1]);
        }
        assert forall|i: int| 0 <= i < after.len() implies (#[trigger] after[i]).1 <= prefix_lengths()[count - 1] by {
            if i < before.len() {
                assert(after[i] == before[i]);
            }
        }
        assert forall|i: int, j: int| 0 <= i < j < after.len() implies (#[trigger] after[i]).1 < (
        #[trigger] after[j]).1 by {
            assert(after[i] == before[i]);
            if j < before.len() {
                assert(after[j] == before[j]);
            }
        }
    }
}

} // verus!
