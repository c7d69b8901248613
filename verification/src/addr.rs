//! IP addresses: their parts, and how they are written as text.
//!
//! The text forms are the ones every tool reads: four decimal numbers for IPv4, and
//! for IPv6 the groups of RFC 4291, written the short way that RFC 5952 asks for.

use vstd::arithmetic::power2::*;
use vstd::bits::*;
use vstd::prelude::*;
use vstd::slice::*;

use crate::number;
use crate::text;

verus! {

/// An IPv4 address.
#[derive(Clone, Copy, Debug, PartialEq, Eq, PartialOrd, Ord, Hash, Structural)]
pub struct Ipv4Addr {
    /// The four octets as one number, the first octet highest.
    pub bits: u32,
}

/// An IPv6 address.
#[derive(Clone, Copy, Debug, PartialEq, Eq, PartialOrd, Ord, Hash, Structural)]
pub struct Ipv6Addr {
    /// The eight groups as one number, the first group highest.
    pub bits: u128,
}

/// An IP address of either family.
#[derive(Clone, Copy, Debug, PartialEq, Eq, PartialOrd, Ord, Hash, Structural)]
pub enum IpAddr {
    /// An IPv4 address.
    V4(Ipv4Addr),
    /// An IPv6 address.
    V6(Ipv6Addr),
}

/// The IPv4 address of four octets.
pub open spec fn v4_of(a: u8, b: u8, c: u8, d: u8) -> Ipv4Addr {
    Ipv4Addr { bits: (a as u32) << 24 | (b as u32) << 16 | (c as u32) << 8 | d as u32 }
}

/// An octet of an IPv4 address, counted from the first.
pub open spec fn v4_octet(ip: Ipv4Addr, i: int) -> u8 {
    ((ip.bits >> ((3 - i) * 8) as u32) & 0xff) as u8
}

/// An octet of an IPv6 address, counted from the first.
pub open spec fn v6_octet(ip: Ipv6Addr, i: int) -> u8 {
    ((ip.bits >> ((15 - i) * 8) as u128) & 0xff) as u8
}

/// A group of an IPv6 address, counted from the first.
pub open spec fn v6_group(ip: Ipv6Addr, i: int) -> u16 {
    ((ip.bits >> ((7 - i) * 16) as u128) & 0xffff) as u16
}

/// The eight groups of an IPv6 address.
pub open spec fn v6_groups(ip: Ipv6Addr) -> Seq<u16> {
    Seq::new(8, |i: int| v6_group(ip, i))
}

/// The IPv6 address of eight groups.
pub open spec fn v6_of(groups: Seq<u16>) -> Ipv6Addr {
    Ipv6Addr {
        bits: (groups[0] as u128) << 112 | (groups[1] as u128) << 96 | (groups[2] as u128) << 80 | (
        groups[3] as u128) << 64 | (groups[4] as u128) << 48 | (groups[5] as u128) << 32 | (
        groups[6] as u128) << 16 | groups[7] as u128,
    }
}

/// The four octets of an IPv4 address make the address.
pub proof fn lemma_v4_octets(ip: Ipv4Addr)
    ensures
        v4_of(v4_octet(ip, 0), v4_octet(ip, 1), v4_octet(ip, 2), v4_octet(ip, 3)) == ip,
{
    let b = ip.bits;
    assert((((b >> 24u32) & 0xff) as u8 as u32) << 24 | (((b >> 16u32) & 0xff) as u8 as u32) << 16 | (((b
        >> 8u32) & 0xff) as u8 as u32) << 8 | (((b >> 0u32) & 0xff) as u8 as u32) == b) by (bit_vector);
}

/// The eight groups of an IPv6 address make the address.
pub proof fn lemma_v6_groups(ip: Ipv6Addr)
    ensures
        v6_of(v6_groups(ip)) == ip,
{
    let b = ip.bits;
    assert((((b >> 112u128) & 0xffff) as u16 as u128) << 112 | (((b >> 96u128) & 0xffff) as u16 as u128)
        << 96 | (((b >> 80u128) & 0xffff) as u16 as u128) << 80 | (((b >> 64u128) & 0xffff) as u16 as u128)
        << 64 | (((b >> 48u128) & 0xffff) as u16 as u128) << 48 | (((b >> 32u128) & 0xffff) as u16 as u128)
        << 32 | (((b >> 16u128) & 0xffff) as u16 as u128) << 16 | (((b >> 0u128) & 0xffff) as u16 as u128)
        == b) by (bit_vector);
}

impl Ipv4Addr {
    /// Returns the address of four octets.
    pub fn new(a: u8, b: u8, c: u8, d: u8) -> (ip: Self)
        ensures
            ip == v4_of(a, b, c, d),
    {
        Ipv4Addr { bits: (a as u32) << 24 | (b as u32) << 16 | (c as u32) << 8 | d as u32 }
    }

    /// Returns an octet, counted from the first.
    pub fn octet(&self, i: usize) -> (octet: u8)
        requires
            i < 4,
        ensures
            octet == v4_octet(*self, i as int),
    {
        ((self.bits >> ((3 - i) * 8) as u32) & 0xff) as u8
    }
}

impl Ipv6Addr {
    /// Returns the address of eight groups.
    pub fn new(groups: &[u16]) -> (ip: Self)
        requires
            groups@.len() == 8,
        ensures
            ip == v6_of(groups@),
    {
        Ipv6Addr {
            bits: (groups[0] as u128) << 112 | (groups[1] as u128) << 96 | (groups[2] as u128) << 80 | (
            groups[3] as u128) << 64 | (groups[4] as u128) << 48 | (groups[5] as u128) << 32 | (
            groups[6] as u128) << 16 | groups[7] as u128,
        }
    }

    /// Returns an octet, counted from the first.
    pub fn octet(&self, i: usize) -> (octet: u8)
        requires
            i < 16,
        ensures
            octet == v6_octet(*self, i as int),
    {
        ((self.bits >> ((15 - i) * 8) as u128) & 0xff) as u8
    }

    /// Returns a group, counted from the first.
    pub fn group(&self, i: usize) -> (group: u16)
        requires
            i < 8,
        ensures
            group == v6_group(*self, i as int),
    {
        ((self.bits >> ((7 - i) * 16) as u128) & 0xffff) as u16
    }
}

impl IpAddr {
    /// The address as one number.
    pub open spec fn value(self) -> nat {
        match self {
            IpAddr::V4(v4) => v4.bits as nat,
            IpAddr::V6(v6) => v6.bits as nat,
        }
    }

    /// How many bits an address of this family has.
    pub open spec fn width(self) -> nat {
        match self {
            IpAddr::V4(_) => 32,
            IpAddr::V6(_) => 128,
        }
    }

    /// Returns the address as one number.
    pub fn number(&self) -> (number: u128)
        ensures
            number == self.value(),
    {
        match *self {
            IpAddr::V4(v4) => v4.bits as u128,
            IpAddr::V6(v6) => v6.bits,
        }
    }

    /// Returns whether this is an IPv4 address.
    pub fn is_ipv4(&self) -> (yes: bool)
        ensures
            yes == (self is V4),
    {
        match *self {
            IpAddr::V4(_) => true,
            IpAddr::V6(_) => false,
        }
    }
}

/// Whether one address is not after another: by family, IPv4 first, and then by number.
pub open spec fn not_after(a: IpAddr, b: IpAddr) -> bool {
    match (a, b) {
        (IpAddr::V4(_), IpAddr::V6(_)) => true,
        (IpAddr::V6(_), IpAddr::V4(_)) => false,
        _ => a.value() <= b.value(),
    }
}

/// Returns whether one address is not after another.
pub fn is_not_after(a: IpAddr, b: IpAddr) -> (yes: bool)
    ensures
        yes == not_after(a, b),
{
    match (a, b) {
        (IpAddr::V4(_), IpAddr::V6(_)) => true,
        (IpAddr::V6(_), IpAddr::V4(_)) => false,
        _ => a.number() <= b.number(),
    }
}

/// The addresses from one address to another, both included.
#[derive(Clone, Copy, Debug, PartialEq, Eq, Hash, Structural)]
pub struct IpRange {
    /// The first address.
    pub start: IpAddr,
    /// The last address.
    pub end: IpAddr,
}

impl IpRange {
    /// Both ends are in one family, and the range does not end before it starts.
    pub open spec fn wf(self) -> bool {
        (self.start is V4) == (self.end is V4) && not_after(self.start, self.end)
    }

    /// Whether the range holds an address.
    pub open spec fn holds(self, ip: IpAddr) -> bool {
        not_after(self.start, ip) && not_after(ip, self.end)
    }

    /// How many addresses the range covers, less one.
    pub open spec fn span(self) -> int {
        self.end.value() - self.start.value()
    }

    /// Returns the range between two addresses, or `None` when they are in different
    /// families or the end comes before the start.
    pub fn new(start: IpAddr, end: IpAddr) -> (range: Option<IpRange>)
        ensures
            range is Some <==> (IpRange { start, end }).wf(),
            range matches Some(range) ==> range == (IpRange { start, end }),
    {
        if start.is_ipv4() == end.is_ipv4() && is_not_after(start, end) {
            Some(IpRange { start, end })
        } else {
            None
        }
    }

    /// Returns whether the range holds an address.
    pub fn contains(&self, ip: IpAddr) -> (yes: bool)
        ensures
            yes == self.holds(ip),
    {
        is_not_after(self.start, ip) && is_not_after(ip, self.end)
    }
}

/// An address and a port to connect to.
#[derive(Clone, Copy, Debug, PartialEq, Eq, Hash, Structural)]
pub struct SocketAddr {
    /// The address.
    pub ip: IpAddr,
    /// The port.
    pub port: u16,
    /// The flow of an IPv6 address. It is zero for IPv4.
    pub flow: u32,
    /// The scope of an IPv6 address. It is zero for IPv4.
    pub scope: u32,
}

// --- Reading text ------------------------------------------------------------

/// The octet a text spells: one to three decimal digits, with no zero before them.
pub open spec fn octet_of_text(t: Seq<char>) -> Option<u8> {
    if t.len() <= 3 && (t.len() > 1 ==> t[0] != '0') && number::number_of_digits(t, 10, 255) is Some {
        Some(number::digits_value(t, 10) as u8)
    } else {
        None
    }
}

/// The IPv4 address a text spells: four octets with dots between them.
pub open spec fn v4_of_text(t: Seq<char>) -> Option<Ipv4Addr> {
    let parts = text::split(t, '.');
    if parts.len() == 4 && octet_of_text(parts[0]) is Some && octet_of_text(parts[1]) is Some
        && octet_of_text(parts[2]) is Some && octet_of_text(parts[3]) is Some {
        Some(
            v4_of(
                octet_of_text(parts[0])->0,
                octet_of_text(parts[1])->0,
                octet_of_text(parts[2])->0,
                octet_of_text(parts[3])->0,
            ),
        )
    } else {
        None
    }
}

/// The IPv6 group a text spells: one to four digits of base sixteen.
pub open spec fn group_of_text(t: Seq<char>) -> Option<u16> {
    if t.len() <= 4 && number::number_of_digits(t, 16, 0xffff) is Some {
        Some(number::digits_value(t, 16) as u16)
    } else {
        None
    }
}

/// The groups these pieces spell, one for each piece.
pub open spec fn hex_groups(pieces: Seq<Seq<char>>) -> Option<Seq<u16>>
    decreases pieces.len(),
{
    if pieces.len() == 0 {
        Some(Seq::<u16>::empty())
    } else if hex_groups(pieces.drop_last()) is Some && group_of_text(pieces.last()) is Some {
        Some(hex_groups(pieces.drop_last())->0.push(group_of_text(pieces.last())->0))
    } else {
        None
    }
}

/// The two groups an IPv4 address fills.
pub open spec fn groups_of_v4(ip: Ipv4Addr) -> Seq<u16> {
    seq![(ip.bits >> 16) as u16, (ip.bits & 0xffff) as u16]
}

/// The groups these pieces spell, where the last piece may be an IPv4 address.
pub open spec fn groups_of_pieces(pieces: Seq<Seq<char>>) -> Option<Seq<u16>> {
    if pieces.len() > 0 && v4_of_text(pieces.last()) is Some {
        match hex_groups(pieces.drop_last()) {
            Some(groups) => Some(groups + groups_of_v4(v4_of_text(pieces.last())->0)),
            None => None,
        }
    } else {
        hex_groups(pieces)
    }
}

/// The place of the first two colons in a row, or the length when there are none.
pub open spec fn double_colon(t: Seq<char>) -> int
    decreases t.len(),
{
    if t.len() < 2 {
        t.len() as int
    } else if t[0] == ':' && t[1] == ':' {
        0
    } else {
        1 + double_colon(t.drop_first())
    }
}

/// The pieces of a text between colons. An empty text has none.
pub open spec fn colon_pieces(t: Seq<char>) -> Seq<Seq<char>> {
    if t.len() == 0 {
        Seq::<Seq<char>>::empty()
    } else {
        text::split(t, ':')
    }
}

/// The IPv6 address a text spells: eight groups, or fewer where two colons stand for
/// one or more groups of zero. The last two groups may be written as an IPv4 address.
pub open spec fn v6_of_text(t: Seq<char>) -> Option<Ipv6Addr> {
    let at = double_colon(t);
    if at < t.len() {
        let head = hex_groups(colon_pieces(t.take(at)));
        let tail = groups_of_pieces(colon_pieces(t.skip(at + 2)));
        if head is Some && tail is Some && head->0.len() + tail->0.len() <= 7 {
            let zeros = Seq::new((8 - head->0.len() - tail->0.len()) as nat, |i: int| 0u16);
            Some(v6_of(head->0 + zeros + tail->0))
        } else {
            None
        }
    } else {
        let groups = groups_of_pieces(colon_pieces(t));
        if groups is Some && groups->0.len() == 8 {
            Some(v6_of(groups->0))
        } else {
            None
        }
    }
}

/// The IP address a text spells.
pub open spec fn ip_of_text(t: Seq<char>) -> Option<IpAddr> {
    if v4_of_text(t) is Some {
        Some(IpAddr::V4(v4_of_text(t)->0))
    } else if v6_of_text(t) is Some {
        Some(IpAddr::V6(v6_of_text(t)->0))
    } else {
        None
    }
}

/// Two colons in a row are where they are found, and not before.
pub proof fn lemma_double_colon(t: Seq<char>)
    ensures
        0 <= double_colon(t) <= t.len(),
        double_colon(t) < t.len() ==> double_colon(t) + 1 < t.len() && t[double_colon(t)] == ':'
            && t[double_colon(t) + 1] == ':',
        forall|i: int|
            #![trigger t[i]]
            0 <= i < double_colon(t) && i + 1 < t.len() ==> !(t[i] == ':' && t[i + 1] == ':'),
    decreases t.len(),
{
    if t.len() >= 2 && !(t[0] == ':' && t[1] == ':') {
        let rest = t.drop_first();
        lemma_double_colon(rest);
        assert forall|i: int|
            #![trigger t[i]]
            0 <= i < double_colon(t) && i + 1 < t.len() implies !(t[i] == ':' && t[i + 1] == ':') by {
            if i > 0 {
                assert(rest[i - 1] == t[i]);
                assert(rest[i] == t[i + 1]);
            }
        }
    }
}

/// The first two colons in a row are in one place only.
pub proof fn lemma_double_colon_is(t: Seq<char>, at: int)
    requires
        0 <= at <= t.len(),
        at < t.len() ==> at + 1 < t.len() && t[at] == ':' && t[at + 1] == ':',
        forall|i: int|
            #![trigger t[i]]
            0 <= i < at && i + 1 < t.len() ==> !(t[i] == ':' && t[i + 1] == ':'),
    ensures
        double_colon(t) == at,
{
    lemma_double_colon(t);
    let found = double_colon(t);
    if found < at {
        assert(t[found] == ':');
    }
    if at < found {
        assert(t[at] == ':');
    }
}

/// Reads an octet.
fn read_octet(t: &[char]) -> (octet: Option<u8>)
    ensures
        octet == octet_of_text(t@),
{
    if t.len() > 3 || (t.len() > 1 && t[0] == '0') {
        return None;
    }
    match number::read_digits(t, 10, 255) {
        Some(value) => Some(value as u8),
        None => None,
    }
}

/// Reads an IPv4 address.
pub fn read_v4(t: &[char]) -> (ip: Option<Ipv4Addr>)
    ensures
        ip == v4_of_text(t@),
{
    let parts = text::split_chars(t, '.');
    if parts.len() != 4 {
        return None;
    }
    assert(text::split(t@, '.')[0] == parts@[0]@);
    assert(text::split(t@, '.')[1] == parts@[1]@);
    assert(text::split(t@, '.')[2] == parts@[2]@);
    assert(text::split(t@, '.')[3] == parts@[3]@);
    let a = read_octet(parts[0].as_slice());
    let b = read_octet(parts[1].as_slice());
    let c = read_octet(parts[2].as_slice());
    let d = read_octet(parts[3].as_slice());
    match (a, b, c, d) {
        (Some(a), Some(b), Some(c), Some(d)) => Some(Ipv4Addr::new(a, b, c, d)),
        _ => None,
    }
}

/// Reads a group of an IPv6 address.
fn read_group(t: &[char]) -> (group: Option<u16>)
    ensures
        group == group_of_text(t@),
{
    if t.len() > 4 {
        return None;
    }
    match number::read_digits(t, 16, 0xffff) {
        Some(value) => Some(value as u16),
        None => None,
    }
}

/// A piece that is no group leaves nothing to read.
proof fn lemma_hex_groups_none(pieces: Seq<Seq<char>>, count: int)
    requires
        0 <= count <= pieces.len(),
        hex_groups(pieces.take(count)) is None,
    ensures
        hex_groups(pieces) is None,
    decreases pieces.len() - count,
{
    if count < pieces.len() {
        assert(pieces.take(count + 1).drop_last() =~= pieces.take(count));
        lemma_hex_groups_none(pieces, count + 1);
    } else {
        assert(pieces.take(count) =~= pieces);
    }
}

/// Reads one group from each of the first `count` pieces.
fn read_hex_groups(pieces: &[Vec<char>], count: usize) -> (groups: Option<Vec<u16>>)
    requires
        count <= pieces@.len(),
    ensures
        groups is Some <==> hex_groups(text::chars_view(pieces@).take(count as int)) is Some,
        groups matches Some(groups) ==> hex_groups(text::chars_view(pieces@).take(count as int)) == Some(
            groups@,
        ),
{
    let ghost all = text::chars_view(pieces@);
    let mut groups: Vec<u16> = Vec::new();
    let mut i: usize = 0;
    assert(all.take(0) =~= Seq::<Seq<char>>::empty());
    while i < count
        invariant
            i <= count <= pieces@.len(),
            all == text::chars_view(pieces@),
            hex_groups(all.take(i as int)) == Some(groups@),
        decreases count - i,
    {
        assert(all.take(i + 1).drop_last() =~= all.take(i as int));
        assert(all.take(i + 1).last() == pieces@[i as int]@);
        match read_group(pieces[i].as_slice()) {
            Some(group) => {
                groups.push(group);
            },
            None => {
                proof {
                    assert(all.take(count as int).take(i + 1) =~= all.take(i + 1));
                    lemma_hex_groups_none(all.take(count as int), i + 1);
                }
                return None;
            },
        }
        i += 1;
    }
    Some(groups)
}

/// Reads the groups of these pieces, where the last piece may be an IPv4 address.
fn read_groups(pieces: &[Vec<char>]) -> (groups: Option<Vec<u16>>)
    ensures
        groups is Some <==> groups_of_pieces(text::chars_view(pieces@)) is Some,
        groups matches Some(groups) ==> groups_of_pieces(text::chars_view(pieces@)) == Some(groups@),
{
    let ghost all = text::chars_view(pieces@);
    assert(all.take(all.len() as int) =~= all);
    if pieces.len() == 0 {
        return read_hex_groups(pieces, 0);
    }
    let last = pieces.len() - 1;
    assert(all.last() == pieces@[last as int]@);
    assert(all.drop_last() =~= all.take(last as int));
    match read_v4(pieces[last].as_slice()) {
        Some(v4) => {
            match read_hex_groups(pieces, last) {
                Some(mut groups) => {
                    let ghost front = groups@;
                    groups.push((v4.bits >> 16) as u16);
                    groups.push((v4.bits & 0xffff) as u16);
                    assert(groups@ =~= front + groups_of_v4(v4));
                    Some(groups)
                },
                None => None,
            }
        },
        None => read_hex_groups(pieces, pieces.len()),
    }
}

/// Returns the place of the first two colons in a row.
fn find_double_colon(t: &[char]) -> (at: usize)
    ensures
        at == double_colon(t@),
        at <= t@.len(),
{
    let mut i: usize = 0;
    while i < t.len()
        invariant
            i <= t@.len(),
            forall|k: int|
                #![trigger t@[k]]
                0 <= k < i && k + 1 < t@.len() ==> !(t@[k] == ':' && t@[k + 1] == ':'),
        decreases t@.len() - i,
    {
        if t.len() - i >= 2 && t[i] == ':' && t[i + 1] == ':' {
            proof {
                lemma_double_colon_is(t@, i as int);
            }
            return i;
        }
        i += 1;
    }
    proof {
        lemma_double_colon_is(t@, i as int);
    }
    i
}

/// Returns the pieces of a text between colons.
fn split_colons(t: &[char]) -> (pieces: Vec<Vec<char>>)
    ensures
        text::chars_view(pieces@) == colon_pieces(t@),
{
    if t.len() == 0 {
        let pieces: Vec<Vec<char>> = Vec::new();
        assert(text::chars_view(pieces@) =~= Seq::<Seq<char>>::empty());
        pieces
    } else {
        text::split_chars(t, ':')
    }
}

/// Reads an IPv6 address.
pub fn read_v6(t: &[char]) -> (ip: Option<Ipv6Addr>)
    ensures
        ip == v6_of_text(t@),
{
    let at = find_double_colon(t);
    proof {
        lemma_double_colon(t@);
    }
    if at < t.len() {
        let front = slice_subrange(t, 0, at);
        let back = slice_subrange(t, at + 2, t.len());
        assert(front@ =~= t@.take(at as int));
        assert(back@ =~= t@.skip(at + 2));
        let head_pieces = split_colons(front);
        let tail_pieces = split_colons(back);
        let ghost all = text::chars_view(head_pieces@);
        assert(all.take(all.len() as int) =~= all);
        let head = read_hex_groups(head_pieces.as_slice(), head_pieces.len());
        let tail = read_groups(tail_pieces.as_slice());
        match (head, tail) {
            (Some(head), Some(tail)) => {
                if head.len() > 7 || tail.len() > 7 - head.len() {
                    return None;
                }
                let zeros = 8 - head.len() - tail.len();
                let mut groups: Vec<u16> = Vec::new();
                let mut i: usize = 0;
                while i < head.len()
                    invariant
                        i <= head@.len(),
                        groups@ == head@.take(i as int),
                    decreases head@.len() - i,
                {
                    groups.push(head[i]);
                    i += 1;
                }
                assert(groups@ =~= head@);
                let mut k: usize = 0;
                while k < zeros
                    invariant
                        k <= zeros,
                        groups@ == head@ + Seq::new(k as nat, |i: int| 0u16),
                    decreases zeros - k,
                {
                    groups.push(0);
                    k += 1;
                    assert(groups@ =~= head@ + Seq::new(k as nat, |i: int| 0u16));
                }
                let ghost filled = groups@;
                let mut j: usize = 0;
                while j < tail.len()
                    invariant
                        j <= tail@.len(),
                        groups@ == filled + tail@.take(j as int),
                    decreases tail@.len() - j,
                {
                    groups.push(tail[j]);
                    j += 1;
                    assert(groups@ =~= filled + tail@.take(j as int));
                }
                assert(tail@.take(j as int) =~= tail@);
                Some(Ipv6Addr::new(groups.as_slice()))
            },
            _ => None,
        }
    } else {
        let pieces = split_colons(t);
        match read_groups(pieces.as_slice()) {
            Some(groups) => if groups.len() == 8 {
                Some(Ipv6Addr::new(groups.as_slice()))
            } else {
                None
            },
            None => None,
        }
    }
}

/// Reads an IP address of either family.
pub fn read_ip(t: &[char]) -> (ip: Option<IpAddr>)
    ensures
        ip == ip_of_text(t@),
{
    match read_v4(t) {
        Some(v4) => Some(IpAddr::V4(v4)),
        None => match read_v6(t) {
            Some(v6) => Some(IpAddr::V6(v6)),
            None => None,
        },
    }
}

impl IpAddr {
    /// Reads an address from text, or gives `None` when the text spells none.
    pub fn parse(t: &str) -> (ip: Option<IpAddr>)
        ensures
            ip == ip_of_text(t@),
    {
        let chars = text::chars_of(t);
        read_ip(chars.as_slice())
    }
}

// --- Writing text ------------------------------------------------------------

/// An IPv4 address as text: its octets in base ten, with dots between them.
pub open spec fn v4_text(ip: Ipv4Addr) -> Seq<char> {
    text::join(
        seq![
            number::number_text(v4_octet(ip, 0) as nat, 10),
            number::number_text(v4_octet(ip, 1) as nat, 10),
            number::number_text(v4_octet(ip, 2) as nat, 10),
            number::number_text(v4_octet(ip, 3) as nat, 10),
        ],
        '.',
    )
}

/// Each group in base sixteen.
pub open spec fn group_texts(groups: Seq<u16>) -> Seq<Seq<char>> {
    groups.map_values(|group: u16| number::number_text(group as nat, 16))
}

/// Groups as text, with colons between them.
pub open spec fn groups_text(groups: Seq<u16>) -> Seq<char> {
    text::join(group_texts(groups), ':')
}

/// How many groups of zero stand in a row from this place on.
pub open spec fn zero_run(groups: Seq<u16>, at: int) -> nat
    decreases groups.len() - at,
{
    if 0 <= at < groups.len() && groups[at] == 0 {
        1 + zero_run(groups, at + 1)
    } else {
        0
    }
}

/// Where the longest run of zero groups starts, among the first `count` places. The
/// first of two runs that are as long is the one.
pub open spec fn longest_run(groups: Seq<u16>, count: nat) -> int
    decreases count,
{
    if count <= 1 {
        0
    } else {
        let found = longest_run(groups, (count - 1) as nat);
        if zero_run(groups, count - 1) > zero_run(groups, found) {
            count - 1
        } else {
            found
        }
    }
}

/// The IPv4 address that an IPv4-mapped IPv6 address carries.
pub open spec fn mapped_v4(ip: Ipv6Addr) -> Option<Ipv4Addr> {
    if ip.bits >> 32 == 0xffff {
        Some(Ipv4Addr { bits: (ip.bits & 0xffff_ffff) as u32 })
    } else {
        None
    }
}

/// An IPv6 address as text.
///
/// The longest run of two or more zero groups is written as two colons. An
/// IPv4-mapped address is written with the IPv4 address it carries.
pub open spec fn v6_text(ip: Ipv6Addr) -> Seq<char> {
    let groups = v6_groups(ip);
    let start = longest_run(groups, 8);
    let run = zero_run(groups, start);
    match mapped_v4(ip) {
        Some(v4) => seq![':', ':', 'f', 'f', 'f', 'f', ':'] + v4_text(v4),
        None => if run > 1 {
            groups_text(groups.take(start)) + seq![':', ':'] + groups_text(groups.skip(start + run))
        } else {
            groups_text(groups)
        },
    }
}

/// An IP address as text.
pub open spec fn ip_text(ip: IpAddr) -> Seq<char> {
    match ip {
        IpAddr::V4(v4) => v4_text(v4),
        IpAddr::V6(v6) => v6_text(v6),
    }
}

/// A run of zeros ends before the groups do, and every group in it is zero.
proof fn lemma_zero_run(groups: Seq<u16>, at: int)
    requires
        0 <= at <= groups.len(),
    ensures
        at + zero_run(groups, at) <= groups.len(),
        forall|i: int| at <= i < at + zero_run(groups, at) ==> groups[i] == 0,
    decreases groups.len() - at,
{
    if at < groups.len() && groups[at] == 0 {
        lemma_zero_run(groups, at + 1);
    }
}

/// The longest run starts at one of the places that were read.
proof fn lemma_longest_run(groups: Seq<u16>, count: nat)
    ensures
        0 <= longest_run(groups, count),
        count >= 1 ==> longest_run(groups, count) < count,
    decreases count,
{
    if count > 1 {
        lemma_longest_run(groups, (count - 1) as nat);
    }
}

/// Appends characters to a list of characters.
fn append(out: &mut Vec<char>, chars: &[char])
    ensures
        final(out)@ == old(out)@ + chars@,
{
    let ghost before = out@;
    let mut i: usize = 0;
    while i < chars.len()
        invariant
            i <= chars@.len(),
            out@ == before + chars@.take(i as int),
        decreases chars@.len() - i,
    {
        out.push(chars[i]);
        i += 1;
        assert(out@ =~= before + chars@.take(i as int));
    }
    assert(chars@.take(i as int) =~= chars@);
}

/// Returns an IPv4 address as characters.
fn write_v4(ip: Ipv4Addr) -> (out: Vec<char>)
    ensures
        out@ == v4_text(ip),
{
    let ghost pieces = seq![
        number::number_text(v4_octet(ip, 0) as nat, 10),
        number::number_text(v4_octet(ip, 1) as nat, 10),
        number::number_text(v4_octet(ip, 2) as nat, 10),
        number::number_text(v4_octet(ip, 3) as nat, 10),
    ];
    let mut out: Vec<char> = number::write_number(ip.octet(0) as u64, 10);
    assert(out@ == text::join(pieces.take(1), '.'));
    let mut i: usize = 1;
    while i < 4
        invariant
            1 <= i <= 4,
            pieces.len() == 4,
            forall|k: int| 0 <= k < 4 ==> pieces[k] == number::number_text(v4_octet(ip, k) as nat, 10),
            out@ == text::join(pieces.take(i as int), '.'),
        decreases 4 - i,
    {
        let ghost before = out@;
        out.push('.');
        let piece = number::write_number(ip.octet(i) as u64, 10);
        append(&mut out, piece.as_slice());
        assert(pieces.take(i + 1).drop_last() =~= pieces.take(i as int));
        i += 1;
    }
    assert(pieces.take(4) =~= pieces);
    out
}

/// Appends the groups from `from` to `to` as text.
fn write_groups(out: &mut Vec<char>, groups: &[u16], from: usize, to: usize)
    requires
        from <= to <= groups@.len(),
    ensures
        final(out)@ == old(out)@ + groups_text(groups@.subrange(from as int, to as int)),
{
    let ghost before = out@;
    let ghost pieces = group_texts(groups@.subrange(from as int, to as int));
    assert(pieces.take(0) =~= Seq::<Seq<char>>::empty());
    assert(out@ =~= before + text::join(pieces.take(0), ':'));
    let mut i: usize = from;
    while i < to
        invariant
            from <= i <= to <= groups@.len(),
            pieces == group_texts(groups@.subrange(from as int, to as int)),
            out@ == before + text::join(pieces.take(i - from), ':'),
        decreases to - i,
    {
        let ghost now = text::join(pieces.take(i - from), ':');
        if i > from {
            out.push(':');
        }
        let piece = number::write_number(groups[i] as u64, 16);
        append(out, piece.as_slice());
        assert(pieces.take(i + 1 - from).drop_last() =~= pieces.take(i - from));
        assert(pieces.take(i + 1 - from).last() == piece@);
        assert(out@ =~= before + text::join(pieces.take(i + 1 - from), ':'));
        i += 1;
    }
    assert(pieces.take(to - from) =~= pieces);
}

/// Returns how many zero groups stand in a row from this place on.
fn count_zeros(groups: &[u16], at: usize) -> (run: usize)
    requires
        at <= groups@.len(),
    ensures
        run == zero_run(groups@, at as int),
        at + run <= groups@.len(),
{
    let mut i: usize = at;
    while i < groups.len() && groups[i] == 0
        invariant
            at <= i <= groups@.len(),
            zero_run(groups@, at as int) == (i - at) + zero_run(groups@, i as int),
        decreases groups@.len() - i,
    {
        i += 1;
    }
    i - at
}

/// Returns the IPv4 address that an IPv4-mapped IPv6 address carries.
pub fn to_mapped_v4(ip: Ipv6Addr) -> (v4: Option<Ipv4Addr>)
    ensures
        v4 == mapped_v4(ip),
{
    if ip.bits >> 32 == 0xffff {
        Some(Ipv4Addr { bits: (ip.bits & 0xffff_ffff) as u32 })
    } else {
        None
    }
}

/// Returns an IPv6 address as characters.
fn write_v6(ip: Ipv6Addr) -> (out: Vec<char>)
    ensures
        out@ == v6_text(ip),
{
    let mut out: Vec<char> = Vec::new();
    if let Some(v4) = to_mapped_v4(ip) {
        out.push(':');
        out.push(':');
        out.push('f');
        out.push('f');
        out.push('f');
        out.push('f');
        out.push(':');
        assert(out@ =~= seq![':', ':', 'f', 'f', 'f', 'f', ':']);
        let tail = write_v4(v4);
        append(&mut out, tail.as_slice());
        return out;
    }
    let mut groups: Vec<u16> = Vec::new();
    let mut i: usize = 0;
    while i < 8
        invariant
            i <= 8,
            groups@ == v6_groups(ip).take(i as int),
        decreases 8 - i,
    {
        groups.push(ip.group(i));
        i += 1;
        assert(groups@ =~= v6_groups(ip).take(i as int));
    }
    assert(groups@ =~= v6_groups(ip));
    let mut start: usize = 0;
    let mut run = count_zeros(groups.as_slice(), 0);
    let mut k: usize = 1;
    while k < 8
        invariant
            1 <= k <= 8,
            groups@.len() == 8,
            start < k,
            start == longest_run(groups@, k as nat),
            run == zero_run(groups@, start as int),
        decreases 8 - k,
    {
        let here = count_zeros(groups.as_slice(), k);
        if here > run {
            start = k;
            run = here;
        }
        k += 1;
    }
    proof {
        lemma_zero_run(groups@, start as int);
    }
    if run > 1 {
        write_groups(&mut out, groups.as_slice(), 0, start);
        out.push(':');
        out.push(':');
        assert(groups@.subrange(0, start as int) =~= groups@.take(start as int));
        assert(out@ =~= groups_text(groups@.take(start as int)) + seq![':', ':']);
        write_groups(&mut out, groups.as_slice(), start + run, 8);
        assert(groups@.subrange(start + run, 8) =~= groups@.skip(start + run));
    } else {
        write_groups(&mut out, groups.as_slice(), 0, 8);
        assert(groups@.subrange(0, 8) =~= groups@);
        assert(out@ =~= groups_text(groups@));
    }
    out
}

impl IpAddr {
    /// Returns the address as text.
    pub fn to_text(&self) -> (out: String)
        ensures
            out@ == ip_text(*self),
    {
        let chars = match *self {
            IpAddr::V4(v4) => write_v4(v4),
            IpAddr::V6(v6) => write_v6(v6),
        };
        text::text_of(chars.as_slice())
    }
}

// --- What is written reads back ----------------------------------------------

/// Digits hold no dot and no colon.
proof fn lemma_digits_lack(t: Seq<char>, base: nat)
    requires
        number::is_digits(t, base),
        base <= 16,
    ensures
        !t.contains('.'),
        !t.contains(':'),
{
    assert forall|i: int| 0 <= i < t.len() implies t[i] != '.' && t[i] != ':' by {
        assert(number::digit_value(t[i], base) is Some);
    }
}

/// An octet reads back.
pub proof fn lemma_octet_round_trip(octet: u8)
    ensures
        octet_of_text(number::number_text(octet as nat, 10)) == Some(octet),
        !number::number_text(octet as nat, 10).contains('.'),
        !number::number_text(octet as nat, 10).contains(':'),
{
    let t = number::number_text(octet as nat, 10);
    number::lemma_number_round_trip(octet as nat, 10);
    assert(vstd::arithmetic::power::pow(10, 3) == 1000) by {
        reveal_with_fuel(vstd::arithmetic::power::pow, 4);
    }
    number::lemma_number_len(octet as nat, 10, 1000, 3);
    lemma_digits_lack(t, 10);
}

/// A group reads back.
proof fn lemma_group_round_trip(group: u16)
    ensures
        group_of_text(number::number_text(group as nat, 16)) == Some(group),
        number::number_text(group as nat, 16).len() > 0,
        !number::number_text(group as nat, 16).contains('.'),
        !number::number_text(group as nat, 16).contains(':'),
{
    let t = number::number_text(group as nat, 16);
    number::lemma_number_round_trip(group as nat, 16);
    assert(vstd::arithmetic::power::pow(16, 4) == 65536) by {
        reveal_with_fuel(vstd::arithmetic::power::pow, 5);
    }
    number::lemma_number_len(group as nat, 16, 65536, 4);
    lemma_digits_lack(t, 16);
}

/// The octets of an IPv4 address as text.
spec fn octet_texts(ip: Ipv4Addr) -> Seq<Seq<char>> {
    seq![
        number::number_text(v4_octet(ip, 0) as nat, 10),
        number::number_text(v4_octet(ip, 1) as nat, 10),
        number::number_text(v4_octet(ip, 2) as nat, 10),
        number::number_text(v4_octet(ip, 3) as nat, 10),
    ]
}

/// An IPv4 address reads back, and its text holds no colon.
proof fn lemma_v4_round_trip(ip: Ipv4Addr)
    ensures
        v4_of_text(v4_text(ip)) == Some(ip),
        !v4_text(ip).contains(':'),
        v4_text(ip).len() > 0,
{
    let pieces = octet_texts(ip);
    assert forall|i: int| 0 <= i < pieces.len() implies !(#[trigger] pieces[i]).contains('.')
        && !pieces[i].contains(':') && octet_of_text(pieces[i]) == Some(v4_octet(ip, i)) by {
        lemma_octet_round_trip(v4_octet(ip, i));
    }
    text::lemma_split_join(pieces, '.');
    text::lemma_join_lacks(pieces, '.', ':');
    assert(text::split(v4_text(ip), '.') == pieces);
    assert(octet_of_text(pieces[0]) is Some && octet_of_text(pieces[1]) is Some && octet_of_text(
        pieces[2],
    ) is Some && octet_of_text(pieces[3]) is Some);
    lemma_v4_octets(ip);
    if v4_text(ip).len() == 0 {
        assert(v4_text(ip) =~= Seq::<char>::empty());
        assert(text::split(v4_text(ip), '.').len() == 1);
    }
}

/// A text without a dot spells no IPv4 address.
proof fn lemma_no_dot_no_v4(t: Seq<char>)
    requires
        !t.contains('.'),
    ensures
        v4_of_text(t) is None,
{
    text::lemma_split_one(t, '.');
}

/// What the text of groups holds.
proof fn lemma_group_texts(groups: Seq<u16>)
    ensures
        hex_groups(group_texts(groups)) == Some(groups),
        groups_of_pieces(group_texts(groups)) == Some(groups),
        colon_pieces(groups_text(groups)) == group_texts(groups),
        !groups_text(groups).contains('.'),
        groups.len() > 0 ==> groups_text(groups).len() > 0 && groups_text(groups)[0] != ':'
            && groups_text(groups).last() != ':',
        forall|i: int|
            #![trigger groups_text(groups)[i]]
            0 <= i && i + 1 < groups_text(groups).len() ==> !(groups_text(groups)[i] == ':'
                && groups_text(groups)[i + 1] == ':'),
    decreases groups.len(),
{
    let pieces = group_texts(groups);
    assert forall|i: int| 0 <= i < pieces.len() implies (#[trigger] pieces[i]).len() > 0
        && !pieces[i].contains(':') && !pieces[i].contains('.') by {
        lemma_group_round_trip(groups[i]);
    }
    text::lemma_join_lacks(pieces, ':', '.');
    if groups.len() > 0 {
        lemma_group_texts(groups.drop_last());
        assert(pieces.drop_last() =~= group_texts(groups.drop_last()));
        assert(pieces.last() == number::number_text(groups.last() as nat, 16));
        lemma_group_round_trip(groups.last());
        assert(groups.drop_last().push(groups.last()) =~= groups);
        lemma_no_dot_no_v4(pieces.last());
        text::lemma_join_ends(pieces, ':');
        text::lemma_split_join(pieces, ':');
    } else {
        assert(pieces =~= Seq::<Seq<char>>::empty());
        assert(groups =~= Seq::<u16>::empty());
        assert(groups_text(groups) =~= Seq::<char>::empty());
    }
}

/// Groups of zero, as many as two colons stand for.
spec fn zero_groups(count: nat) -> Seq<u16> {
    Seq::new(count, |i: int| 0u16)
}

/// Two colons between groups are found where they were put.
proof fn lemma_compressed_at(head: Seq<u16>, tail: Seq<u16>)
    ensures
        double_colon(groups_text(head) + seq![':', ':'] + groups_text(tail)) == groups_text(head).len(),
        !(groups_text(head) + seq![':', ':'] + groups_text(tail)).contains('.'),
{
    let front = groups_text(head);
    let back = groups_text(tail);
    let t = front + seq![':', ':'] + back;
    lemma_group_texts(head);
    lemma_group_texts(tail);
    assert forall|i: int| #![trigger t[i]] 0 <= i < front.len() && i + 1 < t.len() implies !(t[i] == ':'
        && t[i + 1] == ':') by {
        assert(t[i] == front[i]);
        if i + 1 < front.len() {
            assert(t[i + 1] == front[i + 1]);
        } else {
            assert(head.len() > 0) by {
                if head.len() == 0 {
                    assert(group_texts(head) =~= Seq::<Seq<char>>::empty());
                }
            }
            assert(t[i] == front.last());
        }
    }
    lemma_double_colon_is(t, front.len() as int);
    if t.contains('.') {
        let k = choose|k: int| 0 <= k < t.len() && t[k] == '.';
        if k < front.len() {
            assert(front[k] == '.');
        } else if k >= front.len() + 2 {
            assert(back[k - front.len() - 2] == '.');
        }
    }
}

/// Two colons between groups read as the zeros they stand for.
proof fn lemma_compressed_reads(head: Seq<u16>, tail: Seq<u16>)
    requires
        head.len() + tail.len() <= 7,
    ensures
        v6_of_text(groups_text(head) + seq![':', ':'] + groups_text(tail)) == Some(
            v6_of(head + zero_groups((8 - head.len() - tail.len()) as nat) + tail),
        ),
{
    let front = groups_text(head);
    let back = groups_text(tail);
    let t = front + seq![':', ':'] + back;
    lemma_compressed_at(head, tail);
    lemma_group_texts(head);
    lemma_group_texts(tail);
    assert(t.take(front.len() as int) =~= front);
    assert(t.skip(front.len() as int + 2) =~= back);
    let zeros = Seq::new((8 - head.len() - tail.len()) as nat, |i: int| 0u16);
    assert(zeros =~= zero_groups((8 - head.len() - tail.len()) as nat));
}

/// An IPv6 address that is not IPv4-mapped reads back.
proof fn lemma_v6_round_trip_plain(ip: Ipv6Addr)
    requires
        mapped_v4(ip) is None,
    ensures
        v6_of_text(v6_text(ip)) == Some(ip),
        v4_of_text(v6_text(ip)) is None,
{
    let groups = v6_groups(ip);
    let start = longest_run(groups, 8);
    let run = zero_run(groups, start);
    let t = v6_text(ip);
    lemma_longest_run(groups, 8);
    lemma_zero_run(groups, start);
    lemma_v6_groups(ip);
    if run > 1 {
        let head = groups.take(start);
        let tail = groups.skip(start + run);
        lemma_compressed_at(head, tail);
        lemma_compressed_reads(head, tail);
        assert(head + zero_groups(run) + tail =~= groups);
    } else {
        lemma_group_texts(groups);
        lemma_double_colon_is(t, t.len() as int);
    }
    lemma_no_dot_no_v4(t);
}

/// What stands before the IPv4 address in the text of an IPv4-mapped address.
spec fn mapped_lead() -> Seq<char> {
    seq![':', ':', 'f', 'f', 'f', 'f', ':']
}

/// The text of an IPv4-mapped address is no IPv4 address: its first part is too long to
/// be an octet.
proof fn lemma_mapped_is_no_v4(v4: Ipv4Addr)
    ensures
        v4_of_text(mapped_lead() + v4_text(v4)) is None,
{
    let lead = mapped_lead();
    let pieces = octet_texts(v4);
    let first = lead + pieces[0];
    let rest = pieces.drop_first();
    lemma_octet_round_trip(v4_octet(v4, 0));
    assert(!first.contains('.')) by {
        if first.contains('.') {
            let k = choose|k: int| 0 <= k < first.len() && first[k] == '.';
            assert(k >= 7);
            assert(pieces[0][k - 7] == '.');
        }
    }
    text::lemma_join_first(pieces, '.');
    let tail = text::join(rest, '.');
    let t = lead + v4_text(v4);
    assert(t =~= first.push('.') + tail);
    text::lemma_split_at(first, tail, '.');
    text::lemma_split_one(first, '.');
    assert(text::split(t, '.')[0] == first);
    assert(first.len() > 3);
}

/// Four times `f` is the group of all ones.
proof fn lemma_group_of_ones()
    ensures
        group_of_text(seq!['f', 'f', 'f', 'f']) == Some(0xffffu16),
        !seq!['f', 'f', 'f', 'f'].contains(':'),
{
    let group = seq!['f', 'f', 'f', 'f'];
    let three = seq!['f', 'f', 'f'];
    let two = seq!['f', 'f'];
    let one = seq!['f'];
    assert(group.drop_last() =~= three);
    assert(three.drop_last() =~= two);
    assert(two.drop_last() =~= one);
    assert(one.drop_last() =~= Seq::<char>::empty());
    assert(number::digits_value(Seq::<char>::empty(), 16) == 0);
    assert(number::digits_value(one, 16) == 0xf);
    assert(number::digits_value(two, 16) == 0xff);
    assert(number::digits_value(three, 16) == 0xfff);
    assert(number::digits_value(group, 16) == 0xffff);
}

/// The group of all ones and an IPv4 address read as three groups.
proof fn lemma_mapped_tail(v4: Ipv4Addr)
    ensures
        groups_of_pieces(colon_pieces(seq!['f', 'f', 'f', 'f'].push(':') + v4_text(v4))) == Some(
            seq![0xffffu16] + groups_of_v4(v4),
        ),
{
    let inner = v4_text(v4);
    let group = seq!['f', 'f', 'f', 'f'];
    lemma_v4_round_trip(v4);
    lemma_group_of_ones();
    text::lemma_split_at(group, inner, ':');
    text::lemma_split_one(group, ':');
    text::lemma_split_one(inner, ':');
    let parts = colon_pieces(group.push(':') + inner);
    assert(parts =~= seq![group, inner]);
    assert(parts.drop_last() =~= seq![group]);
    assert(seq![group].drop_last() =~= Seq::<Seq<char>>::empty());
    assert(hex_groups(Seq::<Seq<char>>::empty()) == Some(Seq::<u16>::empty()));
    assert(hex_groups(seq![group])->0 =~= seq![0xffffu16]);
}

/// Five zeros, the group of all ones and an IPv4 address make the mapped address.
proof fn lemma_mapped_groups(ip: Ipv6Addr)
    requires
        mapped_v4(ip) is Some,
    ensures
        v6_of(zero_groups(5) + (seq![0xffffu16] + groups_of_v4(mapped_v4(ip)->0))) == ip,
{
    let b = ip.bits;
    let v = (mapped_v4(ip)->0).bits;
    assert((0u16 as u128) << 112 | (0u16 as u128) << 96 | (0u16 as u128) << 80 | (0u16 as u128) << 64 | (
    0u16 as u128) << 48 | (0xffffu16 as u128) << 32 | ((v >> 16) as u16 as u128) << 16 | (v & 0xffff) as u16
        as u128 == b) by (bit_vector)
        requires
            b >> 32 == 0xffff,
            v == (b & 0xffff_ffff) as u32,
    ;
}

/// What follows the two colons in the text of an IPv4-mapped address.
proof fn lemma_mapped_lead(inner: Seq<char>)
    ensures
        double_colon(mapped_lead() + inner) == 0,
        (mapped_lead() + inner).take(0) == Seq::<char>::empty(),
        (mapped_lead() + inner).skip(2) == seq!['f', 'f', 'f', 'f'].push(':') + inner,
{
    let t = mapped_lead() + inner;
    assert(t[0] == ':' && t[1] == ':');
    assert(t.skip(2) =~= seq!['f', 'f', 'f', 'f'].push(':') + inner);
}

/// An IPv4-mapped IPv6 address reads back.
proof fn lemma_v6_round_trip_mapped(ip: Ipv6Addr)
    requires
        mapped_v4(ip) is Some,
    ensures
        v6_of_text(v6_text(ip)) == Some(ip),
        v4_of_text(v6_text(ip)) is None,
{
    let v4 = mapped_v4(ip)->0;
    let t = v6_text(ip);
    let inner = v4_text(v4);
    lemma_mapped_is_no_v4(v4);
    lemma_mapped_tail(v4);
    lemma_mapped_groups(ip);
    lemma_mapped_lead(inner);
    assert(t == mapped_lead() + inner);
    let tail = seq![0xffffu16] + groups_of_v4(v4);
    let none = Seq::<u16>::empty();
    assert(hex_groups(colon_pieces(t.take(0))) == Some(none));
    let zeros = Seq::new((8 - none.len() - tail.len()) as nat, |i: int| 0u16);
    assert(none + zeros + tail =~= zero_groups(5) + tail);
}

/// An address that is written as text reads back as the same address.
pub proof fn law_text_reads_back(ip: IpAddr)
    ensures
        ip_of_text(ip_text(ip)) == Some(ip),
{
    match ip {
        IpAddr::V4(v4) => {
            lemma_v4_round_trip(v4);
        },
        IpAddr::V6(v6) => {
            if mapped_v4(v6) is Some {
                lemma_v6_round_trip_mapped(v6);
            } else {
                lemma_v6_round_trip_plain(v6);
            }
        },
    }
}

/// Two addresses that are written the same way are the same address.
pub proof fn law_text_tells_addresses_apart(a: IpAddr, b: IpAddr)
    requires
        ip_text(a) == ip_text(b),
    ensures
        a == b,
{
    law_text_reads_back(a);
    law_text_reads_back(b);
}

// --- What the numbers mean ---------------------------------------------------

/// Four octets are the digits of an IPv4 address in base 256, the first one highest.
pub proof fn law_octets_are_the_digits(a: u8, b: u8, c: u8, d: u8)
    ensures
        v4_of(a, b, c, d).bits == a * 16777216 + b * 65536 + c * 256 + d,
{
    assert((a as u32) << 24 | (b as u32) << 16 | (c as u32) << 8 | d as u32 == a * 16777216 + b * 65536 + c
        * 256 + d) by (bit_vector);
}

/// The octets of an IPv4 address are its digits in base 256.
pub proof fn law_octets_of_ipv4(ip: Ipv4Addr)
    ensures
        v4_octet(ip, 0) == ip.bits / 16777216,
        v4_octet(ip, 1) == ip.bits / 65536 % 256,
        v4_octet(ip, 2) == ip.bits / 256 % 256,
        v4_octet(ip, 3) == ip.bits % 256,
{
    let b = ip.bits;
    assert(((b >> 24u32) & 0xff) as u8 == b / 16777216) by (bit_vector);
    assert(((b >> 16u32) & 0xff) as u8 == b / 65536 % 256) by (bit_vector);
    assert(((b >> 8u32) & 0xff) as u8 == b / 256 % 256) by (bit_vector);
    assert(((b >> 0u32) & 0xff) as u8 == b % 256) by (bit_vector);
}

/// An octet of an IPv6 address is its digit in base 256.
pub proof fn law_octets_of_ipv6(ip: Ipv6Addr, i: int)
    requires
        0 <= i < 16,
    ensures
        v6_octet(ip, i) == ip.bits as nat / pow2(((15 - i) * 8) as nat) % 256,
{
    let b = ip.bits;
    let s = ((15 - i) * 8) as u128;
    lemma_u128_shr_is_div(b, s);
    let high = b >> s;
    assert((high & 0xff) as u8 == high % 256) by (bit_vector);
}

/// A group of an IPv6 address is its digit in base 65536.
pub proof fn law_groups_of_ipv6(ip: Ipv6Addr, i: int)
    requires
        0 <= i < 8,
    ensures
        v6_groups(ip).len() == 8,
        v6_groups(ip)[i] == v6_group(ip, i),
        v6_group(ip, i) == ip.bits as nat / pow2(((7 - i) * 16) as nat) % 65536,
{
    let b = ip.bits;
    let s = ((7 - i) * 16) as u128;
    lemma_u128_shr_is_div(b, s);
    let high = b >> s;
    assert((high & 0xffff) as u16 == high % 65536) by (bit_vector);
}

/// Eight groups are the digits of an IPv6 address in base 65536, the first one highest.
pub proof fn law_groups_are_the_digits(groups: Seq<u16>)
    requires
        groups.len() == 8,
    ensures
        v6_of(groups).bits == groups[0] * 0x1_0000_0000_0000_0000_0000_0000_0000 + groups[1]
            * 0x1_0000_0000_0000_0000_0000_0000 + groups[2] * 0x1_0000_0000_0000_0000_0000 + groups[3]
            * 0x1_0000_0000_0000_0000 + groups[4] * 0x1_0000_0000_0000 + groups[5] * 0x1_0000_0000 + groups[6]
            * 0x1_0000 + groups[7],
{
    let (a, b, c, d) = (groups[0], groups[1], groups[2], groups[3]);
    let (e, f, g, h) = (groups[4], groups[5], groups[6], groups[7]);
    assert((a as u128) << 112 | (b as u128) << 96 | (c as u128) << 80 | (d as u128) << 64 | (e as u128) << 48
        | (f as u128) << 32 | (g as u128) << 16 | h as u128 == a * 0x1_0000_0000_0000_0000_0000_0000_0000 + b
        * 0x1_0000_0000_0000_0000_0000_0000 + c * 0x1_0000_0000_0000_0000_0000 + d * 0x1_0000_0000_0000_0000
        + e * 0x1_0000_0000_0000 + f * 0x1_0000_0000 + g * 0x1_0000 + h) by (bit_vector);
}

/// An IPv6 address is IPv4-mapped exactly from `::ffff:0:0` to `::ffff:ffff:ffff`, and
/// carries the number past the first of them.
pub proof fn law_mapped_addresses(ip: Ipv6Addr)
    ensures
        mapped_v4(ip) is Some <==> 0xffff_0000_0000 <= ip.bits <= 0xffff_ffff_ffff,
        mapped_v4(ip) matches Some(v4) ==> v4.bits == ip.bits - 0xffff_0000_0000,
{
    let b = ip.bits;
    assert(b >> 32 == 0xffff <==> 0xffff_0000_0000 <= b <= 0xffff_ffff_ffff) by (bit_vector);
    assert(0xffff_0000_0000 <= b <= 0xffff_ffff_ffff ==> (b & 0xffff_ffff) as u32 == b - 0xffff_0000_0000)
        by (bit_vector);
}

/// A range holds the addresses of its family that are no lower than its start and no
/// higher than its end, and is read only when its ends are in one family and in order.
pub proof fn law_ranges_hold_by_number(range: IpRange, ip: IpAddr)
    ensures
        range.wf() <==> match (range.start, range.end) {
            (IpAddr::V4(a), IpAddr::V4(b)) => a.bits <= b.bits,
            (IpAddr::V6(a), IpAddr::V6(b)) => a.bits <= b.bits,
            _ => false,
        },
        range.wf() ==> (range.holds(ip) <==> match (range.start, ip, range.end) {
            (IpAddr::V4(a), IpAddr::V4(n), IpAddr::V4(b)) => a.bits <= n.bits <= b.bits,
            (IpAddr::V6(a), IpAddr::V6(n), IpAddr::V6(b)) => a.bits <= n.bits <= b.bits,
            _ => false,
        }),
        range.wf() ==> range.span() == match (range.start, range.end) {
            (IpAddr::V4(a), IpAddr::V4(b)) => b.bits - a.bits,
            (IpAddr::V6(a), IpAddr::V6(b)) => b.bits - a.bits,
            _ => 0,
        },
{
}

/// IPv4 addresses come before IPv6 addresses, and in one family the lower number does.
pub proof fn law_order_of_addresses(a: IpAddr, b: IpAddr)
    ensures
        not_after(a, b) <==> match (a, b) {
            (IpAddr::V4(x), IpAddr::V4(y)) => x.bits <= y.bits,
            (IpAddr::V6(x), IpAddr::V6(y)) => x.bits <= y.bits,
            (IpAddr::V4(_), IpAddr::V6(_)) => true,
            (IpAddr::V6(_), IpAddr::V4(_)) => false,
        },
        a.value() == match a {
            IpAddr::V4(x) => x.bits as nat,
            IpAddr::V6(x) => x.bits as nat,
        },
{
}

/// The two groups an IPv4 address fills are its two digits in base 65536.
pub proof fn law_ipv4_fills_two_groups(ip: Ipv4Addr)
    ensures
        groups_of_v4(ip).len() == 2,
        groups_of_v4(ip)[0] == ip.bits / 65536,
        groups_of_v4(ip)[1] == ip.bits % 65536,
{
    let b = ip.bits;
    assert((b >> 16) as u16 == b / 65536) by (bit_vector);
    assert((b & 0xffff) as u16 == b % 65536) by (bit_vector);
}

// --- What the text of an address is ------------------------------------------

/// An IPv4 address is written as its four octets in base ten, with a dot between each two.
pub proof fn law_text_of_ipv4(ip: Ipv4Addr)
    ensures
        v4_text(ip) == number::number_text(ip.bits as nat / 16777216, 10) + seq!['.'] + number::number_text(
            ip.bits as nat / 65536 % 256,
            10,
        ) + seq!['.'] + number::number_text(ip.bits as nat / 256 % 256, 10) + seq!['.'] + number::number_text(
            ip.bits as nat % 256,
            10,
        ),
{
    law_octets_of_ipv4(ip);
    let a = number::number_text(v4_octet(ip, 0) as nat, 10);
    let b = number::number_text(v4_octet(ip, 1) as nat, 10);
    let c = number::number_text(v4_octet(ip, 2) as nat, 10);
    let d = number::number_text(v4_octet(ip, 3) as nat, 10);
    let all = seq![a, b, c, d];
    text::lemma_join_first(all, '.');
    assert(all.drop_first() =~= seq![b, c, d]);
    text::lemma_join_first(seq![b, c, d], '.');
    assert(seq![b, c, d].drop_first() =~= seq![c, d]);
    text::lemma_join_first(seq![c, d], '.');
    assert(seq![c, d].drop_first() =~= seq![d]);
    text::law_pieces_of_one(d, '.');
    assert(v4_text(ip) =~= a + seq!['.'] + b + seq!['.'] + c + seq!['.'] + d);
}

/// The text of an octet is the one way it is written.
proof fn lemma_octet_is_written(t: Seq<char>)
    requires
        octet_of_text(t) is Some,
    ensures
        t == number::number_text(octet_of_text(t)->0 as nat, 10),
{
    assert forall|i: int| 0 <= i < t.len() implies number::digit_value(#[trigger] t[i], 10) is Some && !('A'
        <= t[i] <= 'F') by {}
    number::law_numbers_are_written_in_one_way(t, 10);
}

/// The octets an IPv4 address was made of are its octets.
proof fn lemma_octets_stay(a: u8, b: u8, c: u8, d: u8)
    ensures
        v4_octet(v4_of(a, b, c, d), 0) == a,
        v4_octet(v4_of(a, b, c, d), 1) == b,
        v4_octet(v4_of(a, b, c, d), 2) == c,
        v4_octet(v4_of(a, b, c, d), 3) == d,
{
    law_octets_are_the_digits(a, b, c, d);
    law_octets_of_ipv4(v4_of(a, b, c, d));
}

/// A text spells an IPv4 address exactly when it is the text that is written for it.
pub proof fn law_which_texts_are_ipv4(t: Seq<char>, ip: Ipv4Addr)
    ensures
        v4_of_text(t) == Some(ip) <==> t == v4_text(ip),
{
    lemma_v4_round_trip(ip);
    if v4_of_text(t) == Some(ip) {
        let parts = text::split(t, '.');
        let (a, b, c, d) = (
            octet_of_text(parts[0])->0,
            octet_of_text(parts[1])->0,
            octet_of_text(parts[2])->0,
            octet_of_text(parts[3])->0,
        );
        lemma_octet_is_written(parts[0]);
        lemma_octet_is_written(parts[1]);
        lemma_octet_is_written(parts[2]);
        lemma_octet_is_written(parts[3]);
        lemma_octets_stay(a, b, c, d);
        text::lemma_join_split(t, '.');
        assert(parts =~= octet_texts(ip));
    }
}

/// Whether the groups from one place to another are all zero.
pub open spec fn zeros_at(groups: Seq<u16>, from: int, to: int) -> bool {
    &&& 0 <= from <= to <= groups.len()
    &&& forall|i: int| from <= i < to ==> #[trigger] groups[i] == 0
}

/// A run of zeros is as long as it can be.
proof fn lemma_zero_run_is_longest(groups: Seq<u16>, from: int, to: int)
    requires
        zeros_at(groups, from, to),
    ensures
        to - from <= zero_run(groups, from),
    decreases to - from,
{
    if from < to {
        lemma_zero_run_is_longest(groups, from + 1, to);
    }
}

/// The longest run is no shorter than the others, and longer than those before it.
proof fn lemma_longest_run_wins(groups: Seq<u16>, count: nat, at: int)
    requires
        0 <= at < count,
    ensures
        zero_run(groups, at) <= zero_run(groups, longest_run(groups, count)),
        at < longest_run(groups, count) ==> zero_run(groups, at) < zero_run(
            groups,
            longest_run(groups, count),
        ),
        0 <= longest_run(groups, count) < count,
    decreases count,
{
    if count > 1 {
        if at < count - 1 {
            lemma_longest_run_wins(groups, (count - 1) as nat, at);
        } else {
            lemma_longest_run_wins(groups, (count - 1) as nat, 0);
        }
    }
}

/// An IPv6 address that is not IPv4-mapped is written as its groups in base sixteen, with
/// a colon between each two. The longest run of two or more zero groups, the first of
/// equals, is left out and two colons stand for it.
pub proof fn law_text_of_ipv6(ip: Ipv6Addr)
    requires
        !(0xffff_0000_0000 <= ip.bits <= 0xffff_ffff_ffff),
    ensures
        ({
            let groups = v6_groups(ip);
            ||| (forall|from: int, to: int| #[trigger] zeros_at(groups, from, to) ==> to - from < 2) && v6_text(ip)
                == groups_text(groups)
            ||| exists|from: int, to: int|
                #[trigger] zeros_at(groups, from, to) && to - from >= 2 && (forall|a: int, b: int| #[trigger]
                    zeros_at(groups, a, b) ==> b - a < to - from || (b - a == to - from && from <= a)) && v6_text(ip)
                    == groups_text(groups.take(from)) + seq![':', ':'] + groups_text(groups.skip(to))
        }),
{
    law_mapped_addresses(ip);
    let groups = v6_groups(ip);
    let start = longest_run(groups, 8);
    let run = zero_run(groups, start) as int;
    lemma_longest_run(groups, 8);
    lemma_zero_run(groups, start);
    assert forall|a: int, b: int| #[trigger] zeros_at(groups, a, b) implies b - a < run || (b - a == run && start
        <= a) || b - a == 0 by {
        if a < b {
            lemma_zero_run_is_longest(groups, a, b);
            lemma_longest_run_wins(groups, 8, a);
        }
    }
    if run > 1 {
        assert(zeros_at(groups, start, start + run));
    }
}

/// Groups are written in base sixteen, in small letters, with a colon between each two.
pub proof fn law_text_of_groups(groups: Seq<u16>, group: u16)
    ensures
        groups_text(seq![group]) == number::number_text(group as nat, 16),
        groups.len() > 0 ==> groups_text(groups.push(group)) == groups_text(groups) + seq![':']
            + number::number_text(group as nat, 16),
        groups_text(Seq::<u16>::empty()) == Seq::<char>::empty(),
{
    let last = number::number_text(group as nat, 16);
    assert(group_texts(seq![group]) =~= seq![last]);
    text::law_pieces_of_one(last, ':');
    assert(group_texts(Seq::<u16>::empty()) =~= Seq::<Seq<char>>::empty());
    assert(groups_text(Seq::<u16>::empty()) =~= Seq::<char>::empty());
    if groups.len() > 0 {
        assert(group_texts(groups.push(group)) =~= group_texts(groups).push(last));
        text::lemma_join_push(group_texts(groups), last, ':');
        assert(groups_text(groups.push(group)) =~= groups_text(groups) + seq![':'] + last);
    }
}

/// An IPv4-mapped address is written as `::ffff:` and the IPv4 address it carries.
pub proof fn law_text_of_mapped(ip: Ipv6Addr, v4: Ipv4Addr)
    requires
        ip.bits == 0xffff_0000_0000 + v4.bits,
    ensures
        v6_text(ip) == "::ffff:"@ + v4_text(v4),
{
    law_mapped_addresses(ip);
    reveal_strlit("::ffff:");
    assert("::ffff:"@ =~= seq![':', ':', 'f', 'f', 'f', 'f', ':']);
}

// --- Which texts are IPv6 addresses ------------------------------------------

/// Whether a text spells a group: one to four digits of base sixteen, in either case.
pub open spec fn spells_group(t: Seq<char>, group: u16) -> bool {
    &&& 1 <= t.len() <= 4
    &&& forall|i: int|
        0 <= i < t.len() ==> ('0' <= #[trigger] t[i] <= '9' || 'a' <= t[i] <= 'f' || 'A' <= t[i] <= 'F')
    &&& number::digits_value(t, 16) == group
}

/// Whether each piece spells the group at its place.
pub open spec fn spells_groups(pieces: Seq<Seq<char>>, groups: Seq<u16>) -> bool {
    &&& pieces.len() == groups.len()
    &&& forall|i: int| 0 <= i < pieces.len() ==> spells_group(#[trigger] pieces[i], groups[i])
}

/// Whether the pieces spell the groups, where the last piece may be an IPv4 address that
/// fills the last two groups.
pub open spec fn spells_tail(pieces: Seq<Seq<char>>, groups: Seq<u16>) -> bool {
    ||| spells_groups(pieces, groups)
    ||| pieces.len() > 0 && groups.len() == pieces.len() + 1 && spells_groups(
        pieces.take(pieces.len() - 1),
        groups.take(pieces.len() - 1),
    ) && exists|v4: Ipv4Addr|
        pieces[pieces.len() - 1] == #[trigger] v4_text(v4) && groups[pieces.len() - 1] == v4.bits / 65536
            && groups[pieces.len() as int] == v4.bits % 65536
}

/// A value of four digits of base sixteen fits in a group.
proof fn lemma_four_digits(t: Seq<char>)
    requires
        t.len() <= 4,
        number::is_digits(t, 16),
    ensures
        number::digits_value(t, 16) <= 0xffff,
{
    lemma_digits_fit(t, 4);
    assert(vstd::arithmetic::power::pow(16, 4) == 65536) by {
        reveal_with_fuel(vstd::arithmetic::power::pow, 5);
    }
}

/// Digits of base sixteen spell less than sixteen to the power of their count.
proof fn lemma_digits_fit(t: Seq<char>, count: nat)
    requires
        t.len() <= count,
        number::is_digits(t, 16),
    ensures
        number::digits_value(t, 16) < vstd::arithmetic::power::pow(16, count),
    decreases t.len(),
{
    reveal(vstd::arithmetic::power::pow);
    vstd::arithmetic::power::lemma_pow_positive(16, count);
    if t.len() > 0 {
        let front = t.drop_last();
        assert forall|i: int| 0 <= i < front.len() implies number::digit_value(#[trigger] front[i], 16) is Some by {
            assert(front[i] == t[i]);
        }
        assert(number::digit_value(t[t.len() - 1], 16) is Some);
        lemma_digits_fit(front, (count - 1) as nat);
        let shorter = vstd::arithmetic::power::pow(16, (count - 1) as nat);
        assert(vstd::arithmetic::power::pow(16, count) == 16 * shorter);
    }
}

/// A text is read as a group exactly when it spells it.
proof fn lemma_group_is_spelled(t: Seq<char>, group: u16)
    ensures
        group_of_text(t) == Some(group) <==> spells_group(t, group),
{
    assert forall|i: int| 0 <= i < t.len() implies (number::digit_value(#[trigger] t[i], 16) is Some <==> ('0'
        <= t[i] <= '9' || 'a' <= t[i] <= 'f' || 'A' <= t[i] <= 'F')) by {
        number::law_digits(t[i]);
    }
    if spells_group(t, group) {
        assert(number::is_digits(t, 16));
        lemma_four_digits(t);
    }
    if group_of_text(t) == Some(group) {
        assert forall|i: int| 0 <= i < t.len() implies ('0' <= #[trigger] t[i] <= '9' || 'a' <= t[i] <= 'f' || 'A'
            <= t[i] <= 'F') by {
            assert(number::digit_value(t[i], 16) is Some);
        }
    }
}

/// Pieces are read as groups exactly when they spell them.
proof fn lemma_groups_are_spelled(pieces: Seq<Seq<char>>, groups: Seq<u16>)
    ensures
        hex_groups(pieces) == Some(groups) <==> spells_groups(pieces, groups),
    decreases pieces.len(),
{
    if pieces.len() == 0 {
        if groups.len() == 0 {
            assert(groups =~= Seq::<u16>::empty());
        }
    } else {
        let short = pieces.drop_last();
        if groups.len() > 0 {
            let front = groups.drop_last();
            lemma_groups_are_spelled(short, front);
            lemma_group_is_spelled(pieces.last(), groups.last());
            assert(pieces.last() == pieces[pieces.len() - 1]);
            assert(groups.last() == groups[groups.len() - 1]);
            assert(front.push(groups.last()) =~= groups);
            if spells_groups(pieces, groups) {
                assert forall|i: int| 0 <= i < short.len() implies spells_group(#[trigger] short[i], front[i]) by {
                    assert(short[i] == pieces[i]);
                    assert(spells_group(pieces[i], groups[i]));
                }
                assert(spells_group(pieces[pieces.len() - 1], groups[groups.len() - 1]));
            }
            if hex_groups(pieces) == Some(groups) {
                assert(hex_groups(short)->0 =~= front);
                assert forall|i: int| 0 <= i < pieces.len() implies spells_group(#[trigger] pieces[i], groups[i]) by {
                    if i < short.len() {
                        assert(short[i] == pieces[i]);
                        assert(spells_group(short[i], front[i]));
                    }
                }
            }
        }
    }
}

/// A piece that spells a group holds no dot and no colon, and is not empty.
proof fn lemma_group_piece(t: Seq<char>, group: u16)
    requires
        spells_group(t, group),
    ensures
        t.len() > 0,
        !t.contains(':'),
        !t.contains('.'),
{
}

/// Pieces are read as groups, with or without an IPv4 address at the end, exactly when
/// they spell them.
proof fn lemma_tail_is_spelled(pieces: Seq<Seq<char>>, groups: Seq<u16>)
    ensures
        groups_of_pieces(pieces) == Some(groups) <==> spells_tail(pieces, groups),
{
    if pieces.len() == 0 {
        lemma_groups_are_spelled(pieces, groups);
    } else {
        let last = pieces.last();
        let short = pieces.drop_last();
        assert(pieces.take(pieces.len() - 1) =~= short);
        assert(last == pieces[pieces.len() - 1]);
        match v4_of_text(last) {
            Some(v4) => {
                law_which_texts_are_ipv4(last, v4);
                law_ipv4_fills_two_groups(v4);
                lemma_v4_round_trip(v4);
                if spells_groups(pieces, groups) {
                    lemma_group_piece(last, groups[pieces.len() - 1]);
                    lemma_no_dot_no_v4(last);
                }
                if groups_of_pieces(pieces) == Some(groups) {
                    let front = hex_groups(short)->0;
                    lemma_groups_are_spelled(short, front);
                    assert(groups.take(pieces.len() - 1) =~= front);
                }
                if spells_tail(pieces, groups) {
                    let front = groups.take(pieces.len() - 1);
                    lemma_groups_are_spelled(short, front);
                    let other = choose|other: Ipv4Addr|
                        last == #[trigger] v4_text(other) && groups[pieces.len() - 1] == other.bits / 65536
                            && groups[pieces.len() as int] == other.bits % 65536;
                    law_which_texts_are_ipv4(last, other);
                    assert(other == v4);
                    assert(front + groups_of_v4(v4) =~= groups);
                }
            },
            None => {
                lemma_groups_are_spelled(pieces, groups);
                assert forall|v4: Ipv4Addr| last != #[trigger] v4_text(v4) by {
                    lemma_v4_round_trip(v4);
                }
            },
        }
    }
}

/// Pieces that spell groups are found between the colons, and two colons do not meet.
proof fn lemma_spelled_pieces(pieces: Seq<Seq<char>>, groups: Seq<u16>)
    requires
        spells_tail(pieces, groups),
    ensures
        ({
            let t = text::join(pieces, ':');
            &&& colon_pieces(t) == pieces
            &&& t.len() > 0 ==> t[0] != ':' && t.last() != ':'
            &&& forall|i: int| #![trigger t[i]] 0 <= i && i + 1 < t.len() ==> !(t[i] == ':' && t[i + 1] == ':')
        }),
{
    let t = text::join(pieces, ':');
    assert forall|i: int| 0 <= i < pieces.len() implies (#[trigger] pieces[i]).len() > 0 && !pieces[i].contains(':') by {
        if spells_groups(pieces, groups) {
            lemma_group_piece(pieces[i], groups[i]);
        } else if i < pieces.len() - 1 {
            let short = pieces.take(pieces.len() - 1);
            let front = groups.take(pieces.len() - 1);
            assert(spells_group(short[i], front[i]));
            lemma_group_piece(pieces[i], groups[i]);
        } else {
            let v4 = choose|v4: Ipv4Addr|
                pieces[pieces.len() - 1] == #[trigger] v4_text(v4) && groups[pieces.len() - 1] == v4.bits / 65536
                    && groups[pieces.len() as int] == v4.bits % 65536;
            lemma_v4_round_trip(v4);
        }
    }
    if pieces.len() > 0 {
        text::lemma_join_ends(pieces, ':');
        text::lemma_split_join(pieces, ':');
    } else {
        assert(pieces =~= Seq::<Seq<char>>::empty());
    }
}

/// Eight groups with a colon between each two, where the last two may be written as an
/// IPv4 address, spell the IPv6 address of the groups.
pub proof fn law_eight_groups_are_ipv6(pieces: Seq<Seq<char>>, groups: Seq<u16>)
    requires
        groups.len() == 8,
        spells_tail(pieces, groups),
    ensures
        v6_of_text(text::join(pieces, ':')) == Some(v6_of(groups)),
{
    let t = text::join(pieces, ':');
    lemma_spelled_pieces(pieces, groups);
    lemma_tail_is_spelled(pieces, groups);
    lemma_double_colon_is(t, t.len() as int);
}

/// Fewer groups with two colons somewhere before, after or between them spell the IPv6
/// address in which the colons stand for as many groups of zero as are missing, and at
/// least one is missing.
pub proof fn law_two_colons_stand_for_zeros(
    head: Seq<Seq<char>>,
    high: Seq<u16>,
    tail: Seq<Seq<char>>,
    low: Seq<u16>,
)
    requires
        spells_groups(head, high),
        spells_tail(tail, low),
        high.len() + low.len() <= 7,
    ensures
        v6_of_text(text::join(head, ':') + seq![':', ':'] + text::join(tail, ':')) == Some(
            v6_of(high + Seq::new((8 - high.len() - low.len()) as nat, |i: int| 0u16) + low),
        ),
{
    let front = text::join(head, ':');
    let back = text::join(tail, ':');
    let t = front + seq![':', ':'] + back;
    lemma_spelled_pieces(head, high);
    lemma_spelled_pieces(tail, low);
    lemma_groups_are_spelled(head, high);
    lemma_tail_is_spelled(tail, low);
    assert forall|i: int| #![trigger t[i]] 0 <= i < front.len() && i + 1 < t.len() implies !(t[i] == ':'
        && t[i + 1] == ':') by {
        assert(t[i] == front[i]);
        if i + 1 < front.len() {
            assert(t[i + 1] == front[i + 1]);
        } else {
            assert(t[i] == front.last());
        }
    }
    lemma_double_colon_is(t, front.len() as int);
    assert(t.take(front.len() as int) =~= front);
    assert(t.skip(front.len() as int + 2) =~= back);
}

/// The pieces between colons make the text.
proof fn lemma_colon_pieces_join(t: Seq<char>)
    ensures
        text::join(colon_pieces(t), ':') == t,
{
    if t.len() == 0 {
        assert(t =~= Seq::<char>::empty());
    } else {
        text::lemma_join_split(t, ':');
    }
}

/// No other text spells an IPv6 address: it is eight groups, or fewer with two colons.
pub proof fn law_no_other_text_is_ipv6(t: Seq<char>, ip: Ipv6Addr)
    requires
        v6_of_text(t) == Some(ip),
    ensures
        ({
            ||| exists|pieces: Seq<Seq<char>>, groups: Seq<u16>|
                groups.len() == 8 && #[trigger] spells_tail(pieces, groups) && t == text::join(pieces, ':') && ip
                    == v6_of(groups)
            ||| exists|head: Seq<Seq<char>>, high: Seq<u16>, tail: Seq<Seq<char>>, low: Seq<u16>|
                #[trigger] spells_groups(head, high) && #[trigger] spells_tail(tail, low) && high.len() + low.len()
                    <= 7 && t == text::join(head, ':') + seq![':', ':'] + text::join(tail, ':') && ip == v6_of(
                    high + Seq::new((8 - high.len() - low.len()) as nat, |i: int| 0u16) + low,
                )
        }),
{
    let at = double_colon(t);
    lemma_double_colon(t);
    if at < t.len() {
        let head = colon_pieces(t.take(at));
        let tail = colon_pieces(t.skip(at + 2));
        let high = hex_groups(head)->0;
        let low = groups_of_pieces(tail)->0;
        lemma_groups_are_spelled(head, high);
        lemma_tail_is_spelled(tail, low);
        lemma_colon_pieces_join(t.take(at));
        lemma_colon_pieces_join(t.skip(at + 2));
        assert(t =~= t.take(at) + seq![':', ':'] + t.skip(at + 2));
        assert(spells_groups(head, high));
        assert(spells_tail(tail, low));
    } else {
        let pieces = colon_pieces(t);
        let groups = groups_of_pieces(pieces)->0;
        lemma_tail_is_spelled(pieces, groups);
        lemma_colon_pieces_join(t);
        assert(spells_tail(pieces, groups));
    }
}

/// A text spells an address when it spells an IPv4 address, or else an IPv6 address.
pub proof fn law_which_texts_are_addresses(t: Seq<char>)
    ensures
        ip_of_text(t) == match (v4_of_text(t), v6_of_text(t)) {
            (Some(v4), _) => Some(IpAddr::V4(v4)),
            (None, Some(v6)) => Some(IpAddr::V6(v6)),
            (None, None) => None,
        },
        forall|ip: IpAddr| #[trigger] ip_text(ip) == match ip {
            IpAddr::V4(v4) => v4_text(v4),
            IpAddr::V6(v6) => v6_text(v6),
        },
{
}

} // verus!
