//! Address prefix arithmetic, shared by the bootstrap reader and the address checks.

use vstd::arithmetic::div_mod::*;
use vstd::arithmetic::mul::*;
use vstd::arithmetic::power2::*;
use vstd::bits::*;
use vstd::prelude::*;
use vstd::slice::*;

use crate::addr;
use crate::addr::IpAddr;
use crate::number;
use crate::text;

verus! {

/// The range a text spells as `network/length`, such as `10.0.0.0/8`.
pub open spec fn range_of_text(t: Seq<char>) -> Option<(IpAddr, u8)> {
    let at = text::first_index(t, '/');
    if at < t.len() && addr::ip_of_text(t.take(at)) is Some && number::number_of_text(
        t.skip(at + 1),
        255,
    ) is Some {
        Some((addr::ip_of_text(t.take(at))->0, number::number_of_text(t.skip(at + 1), 255)->0 as u8))
    } else {
        None
    }
}

/// Reads a range written as `network/length`, such as `10.0.0.0/8` or `2001:db8::/32`.
///
/// Returns `None` for text in another shape.
pub fn parse_range(range: &str) -> (found: Option<(IpAddr, u8)>)
    ensures
        found == range_of_text(range@),
{
    let chars = text::chars_of(range);
    let t = chars.as_slice();
    let at = text::find_char(t, '/');
    if at >= t.len() {
        return None;
    }
    let front = slice_subrange(t, 0, at);
    let back = slice_subrange(t, at + 1, t.len());
    assert(front@ =~= range@.take(at as int));
    assert(back@ =~= range@.skip(at + 1));
    match (addr::read_ip(front), number::read_number(back, 255)) {
        (Some(network), Some(length)) => Some((network, length as u8)),
        _ => None,
    }
}

/// Whether two numbers of `width` bits agree on their first `length` bits.
pub open spec fn same_first_bits(a: nat, b: nat, length: nat, width: nat) -> bool
    recommends
        length <= width,
{
    a / pow2((width - length) as nat) == b / pow2((width - length) as nat)
}

/// Whether the network of this length holds the address.
///
/// A network of the other address family never holds it, and a length past the width of
/// the family holds nothing.
pub open spec fn network_holds(network: IpAddr, length: u8, ip: IpAddr) -> bool {
    &&& (network is V4) == (ip is V4)
    &&& length <= network.width()
    &&& same_first_bits(network.value(), ip.value(), length as nat, network.width())
}

/// Returns whether two values agree on their first `length` bits out of `width`.
pub fn same_prefix(network: u128, ip: u128, length: u8, width: u8) -> (same: bool)
    requires
        length <= width <= 128,
        network < pow2(width as nat),
        ip < pow2(width as nat),
    ensures
        same == same_first_bits(network as nat, ip as nat, length as nat, width as nat),
{
    // A shift by the full width of u128 overflows, and a zero-length prefix holds
    // every address, so that case answers before the shift.
    if length == 0 {
        proof {
            lemma_basic_div(network as int, pow2(width as nat) as int);
            lemma_basic_div(ip as int, pow2(width as nat) as int);
        }
        return true;
    }
    let shift = (width - length) as u128;
    proof {
        lemma_u128_shr_is_div(network, shift);
        lemma_u128_shr_is_div(ip, shift);
    }
    network >> shift == ip >> shift
}

/// An address of a family fits in the bits of the family.
pub proof fn lemma_value_fits(ip: IpAddr)
    ensures
        ip.value() < pow2(ip.width()),
{
    lemma2_to64();
    lemma_pow2_adds(64, 64);
    assert(pow2(64) * pow2(64) == 0x1_0000_0000_0000_0000_0000_0000_0000_0000nat) by (nonlinear_arith)
        requires
            pow2(64) == 0x1_0000_0000_0000_0000nat,
    ;
}

/// Returns whether the network of this length holds the address.
///
/// A network of the other address family never holds it. A length past the width of
/// the family holds nothing, so a malformed range cannot match by accident.
pub fn contains(network: IpAddr, length: u8, ip: IpAddr) -> (holds: bool)
    ensures
        holds == network_holds(network, length, ip),
{
    proof {
        lemma_value_fits(network);
        lemma_value_fits(ip);
    }
    match (network, ip) {
        (IpAddr::V4(a), IpAddr::V4(b)) => length <= 32 && same_prefix(
            a.bits as u128,
            b.bits as u128,
            length,
            32,
        ),
        (IpAddr::V6(a), IpAddr::V6(b)) => length <= 128 && same_prefix(a.bits, b.bits, length, 128),
        _ => false,
    }
}

/// The lowest number a network of this length holds.
pub open spec fn network_first(network: IpAddr, length: u8) -> nat {
    network.value() / pow2((network.width() - length) as nat) * pow2((network.width() - length) as nat)
}

/// The highest number a network of this length holds.
pub open spec fn network_last(network: IpAddr, length: u8) -> int {
    network_first(network, length) + pow2((network.width() - length) as nat) - 1
}

/// A network holds the addresses of its family from its first to its last, with both
/// ends, and no other.
pub proof fn law_network_is_a_run(network: IpAddr, length: u8, ip: IpAddr)
    requires
        length <= network.width(),
    ensures
        network_holds(network, length, ip) <==> (network is V4) == (ip is V4) && network_first(
            network,
            length,
        ) <= ip.value() <= network_last(network, length),
{
    let size = pow2((network.width() - length) as nat) as int;
    let a = network.value() as int;
    let b = ip.value() as int;
    lemma_pow2_pos((network.width() - length) as nat);
    lemma_fundamental_div_mod(b, size);
    lemma_mod_bound(b, size);
    let q = a / size;
    let r = b / size;
    assert(q * size == size * q) by (nonlinear_arith);
    assert(size * q <= b < size * q + size <==> q == r) by (nonlinear_arith)
        requires
            b == size * r + b % size,
            0 <= b % size < size,
    ;
}

/// A network that holds an address holds it at every shorter length too.
pub proof fn law_shorter_network_holds_more(network: IpAddr, length: u8, shorter: u8, ip: IpAddr)
    requires
        network_holds(network, length, ip),
        shorter <= length,
    ensures
        network_holds(network, shorter, ip),
{
    let small = (network.width() - length) as nat;
    let more = (length - shorter) as nat;
    lemma_pow2_adds(small, more);
    lemma_pow2_pos(small);
    lemma_pow2_pos(more);
    lemma_div_denominator(network.value() as int, pow2(small) as int, pow2(more) as int);
    lemma_div_denominator(ip.value() as int, pow2(small) as int, pow2(more) as int);
}

/// A network of no length holds every address of its family, and one of full length
/// holds one address.
pub proof fn law_network_at_the_ends(network: IpAddr, ip: IpAddr)
    requires
        (network is V4) == (ip is V4),
    ensures
        network_holds(network, 0, ip),
        network_holds(network, network.width() as u8, ip) <==> network == ip,
{
    lemma_value_fits(network);
    lemma_value_fits(ip);
    lemma_basic_div(network.value() as int, pow2(network.width()) as int);
    lemma_basic_div(ip.value() as int, pow2(network.width()) as int);
    lemma2_to64();
    assert(pow2(0) == 1);
    let full = network.width() as u8;
    assert((network.width() - full) as nat == 0);
    assert(network.value() / 1 == network.value());
    assert(ip.value() / 1 == ip.value());
    match (network, ip) {
        (IpAddr::V4(a), IpAddr::V4(b)) => {
            assert(network == ip <==> a.bits == b.bits);
        },
        (IpAddr::V6(a), IpAddr::V6(b)) => {
            assert(network == ip <==> a.bits == b.bits);
        },
        _ => {},
    }
}

/// A network of an IPv4 address holds the IPv4 addresses with the same quotient by the
/// size of the network, and one of an IPv6 address the IPv6 addresses.
pub proof fn law_network_by_number(network: IpAddr, length: u8, ip: IpAddr)
    ensures
        network_holds(network, length, ip) <==> match (network, ip) {
            (IpAddr::V4(a), IpAddr::V4(b)) => length <= 32 && a.bits as nat / pow2((32 - length) as nat)
                == b.bits as nat / pow2((32 - length) as nat),
            (IpAddr::V6(a), IpAddr::V6(b)) => length <= 128 && a.bits as nat / pow2((128 - length) as nat)
                == b.bits as nat / pow2((128 - length) as nat),
            _ => false,
        },
{
}

/// A network whose number is a multiple of its size holds the numbers from its own on, as
/// many as its size.
pub proof fn lemma_network_from(network: IpAddr, length: u8, ip: IpAddr, size: nat)
    requires
        length <= network.width(),
        (network is V4) == (ip is V4),
        size == pow2((network.width() - length) as nat),
        network.value() % size == 0,
    ensures
        network_holds(network, length, ip) <==> network.value() <= ip.value() < network.value() + size,
{
    law_network_is_a_run(network, length, ip);
    lemma_pow2_pos((network.width() - length) as nat);
    lemma_fundamental_div_mod(network.value() as int, size as int);
    let q = network.value() / size;
    assert(q * size == size * q) by (nonlinear_arith);
}

/// A text spells a range when an address stands before its first slash and a number of at
/// most 255 after it, and a text without a slash spells none.
pub proof fn law_which_texts_are_ranges(front: Seq<char>, back: Seq<char>)
    requires
        forall|i: int| 0 <= i < front.len() ==> #[trigger] front[i] != '/',
    ensures
        range_of_text(front) is None,
        range_of_text(front + seq!['/'] + back) == match (
            addr::ip_of_text(front),
            number::number_of_text(back, 255),
        ) {
            (Some(network), Some(length)) => Some((network, length as u8)),
            _ => None,
        },
{
    let t = front + seq!['/'] + back;
    text::lemma_first_index_is(front, '/', front.len() as int);
    text::lemma_first_index_is(t, '/', front.len() as int);
    assert(t.take(front.len() as int) =~= front);
    assert(t.skip(front.len() as int + 1) =~= back);
}

/// Two numbers agree on their first bits exactly when they agree after the other bits are
/// divided away.
pub proof fn law_first_bits(a: nat, b: nat, length: nat, width: nat)
    requires
        length <= width,
    ensures
        same_first_bits(a, b, length, width) <==> a / pow2((width - length) as nat) == b / pow2(
            (width - length) as nat,
        ),
{
}

} // verus!
