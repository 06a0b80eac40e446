//! IP addresses as plain numbers, their total order, and their textual forms.
use crate::text::{all_digits, dec_value, lemma_split_nonempty, COLON, DOT, parse_digits_u32, ranges_match, split, split_ranges};
use vstd::prelude::*;

verus! {

/// An IPv4 or IPv6 address, held as its 32- or 128-bit value.
#[derive(Clone, Copy, Debug, PartialEq, Eq, Structural)]
pub enum IpAddress {
    V4(u32),
    V6(u128),
}

/// Position of an address in the natural order of addresses: every IPv4
/// address comes before every IPv6 address, and within a family the order
/// is numeric.
pub open spec fn rank(ip: IpAddress) -> int {
    match ip {
        IpAddress::V4(a) => a as int,
        IpAddress::V6(a) => 0x1_0000_0000 + a as int,
    }
}

pub proof fn lemma_rank_injective(a: IpAddress, b: IpAddress)
    ensures
        rank(a) == rank(b) <==> a == b,
{
}

impl IpAddress {
    /// Whether `self` comes no later than `other` in the order of addresses.
    pub fn le(&self, other: &IpAddress) -> (r: bool)
        ensures
            r == (rank(*self) <= rank(*other)),
    {
        match (self, other) {
            (IpAddress::V4(a), IpAddress::V4(b)) => *a <= *b,
            (IpAddress::V6(a), IpAddress::V6(b)) => *a <= *b,
            (IpAddress::V4(_), IpAddress::V6(_)) => true,
            (IpAddress::V6(_), IpAddress::V4(_)) => false,
        }
    }
}

pub open spec fn octet_of(p: Seq<u8>) -> Option<u8> {
    if 1 <= p.len() <= 3 && all_digits(p) && (p.len() == 1 || p[0] != 48) && dec_value(p) <= 255 {
        Some(dec_value(p) as u8)
    } else {
        None
    }
}

/// Dotted-quad IPv4 text: four octets in decimal, separated by dots, each
/// with one to three digits and no leading zero.
pub open spec fn ipv4_of(s: Seq<u8>) -> Option<u32> {
    let q = split(s, DOT);
    if q.len() == 4 && octet_of(q[0]) is Some && octet_of(q[1]) is Some && octet_of(q[2]) is Some
        && octet_of(q[3]) is Some {
        Some(
            (octet_of(q[0])->0 as int * 0x100_0000 + octet_of(q[1])->0 as int * 0x1_0000
                + octet_of(q[2])->0 as int * 0x100 + octet_of(q[3])->0 as int) as u32,
        )
    } else {
        None
    }
}

fn parse_octet(p: &[u8]) -> (r: Option<u8>)
    ensures
        r == octet_of(p@),
{
    if p.len() < 1 || p.len() > 3 || (p.len() > 1 && p[0] == 48) {
        return None;
    }
    match parse_digits_u32(p) {
        Some(v) => {
            if v <= 255 {
                Some(v as u8)
            } else {
                None
            }
        },
        None => None,
    }
}

/// Reads dotted-quad IPv4 text.
pub fn parse_ipv4(s: &[u8]) -> (r: Option<u32>)
    ensures
        r == ipv4_of(s@),
{
    let q = split_ranges(s, DOT);
    if q.len() != 4 {
        return None;
    }
    let ghost sq = split(s@, DOT);
    assert(ranges_match(s@, q@, sq, 4));
    assert(q@[0].0 <= q@[0].1 && q@[1].0 <= q@[1].1 && q@[2].0 <= q@[2].1 && q@[3].0 <= q@[3].1);
    let a = parse_octet(&s[q[0].0..q[0].1]);
    let b = parse_octet(&s[q[1].0..q[1].1]);
    let c = parse_octet(&s[q[2].0..q[2].1]);
    let d = parse_octet(&s[q[3].0..q[3].1]);
    match (a, b, c, d) {
        (Some(a), Some(b), Some(c), Some(d)) => {
            Some((a as u32) * 0x100_0000 + (b as u32) * 0x1_0000 + (c as u32) * 0x100 + d as u32)
        },
        _ => None,
    }
}

pub open spec fn hex_digit(b: u8) -> Option<nat> {
    if 48 <= b <= 57 {
        Some((b - 48) as nat)
    } else if 97 <= b <= 102 {
        Some((b - 87) as nat)
    } else if 65 <= b <= 70 {
        Some((b - 55) as nat)
    } else {
        None
    }
}

pub open spec fn all_hex(s: Seq<u8>) -> bool {
    forall|i: int| 0 <= i < s.len() ==> #[trigger] hex_digit(s[i]) is Some
}

/// The number that a string of hexadecimal digits denotes.
pub open spec fn hex_value(s: Seq<u8>) -> nat
    decreases s.len(),
{
    if s.len() == 0 {
        0
    } else {
        hex_value(s.drop_last()) * 16 + hex_digit(s.last())->0
    }
}

/// One group of IPv6 text: one to four hexadecimal digits.
pub open spec fn group_of(p: Seq<u8>) -> Option<u16> {
    if 1 <= p.len() <= 4 && all_hex(p) {
        Some(hex_value(p) as u16)
    } else {
        None
    }
}

/// The groups that the last piece of IPv6 text stands for: one hexadecimal
/// group, or, where `v4` allows it, dotted-quad IPv4 text for two groups.
pub open spec fn last_piece_of(p: Seq<u8>, v4: bool) -> Option<Seq<u16>> {
    match group_of(p) {
        Some(g) => Some(seq![g]),
        None => if v4 {
            match ipv4_of(p) {
                Some(a) => Some(seq![(a / 0x1_0000) as u16, (a % 0x1_0000) as u16]),
                None => None,
            }
        } else {
            None
        },
    }
}

/// Colon-separated groups, the last of which may be IPv4 text where `v4`
/// allows it; the empty text holds no group.
pub open spec fn groups_of(s: Seq<u8>, v4: bool) -> Option<Seq<u16>> {
    if s.len() == 0 {
        Some(Seq::empty())
    } else {
        let q = split(s, COLON);
        let n = q.len() - 1;
        if (forall|i: int| 0 <= i < n ==> #[trigger] group_of(q[i]) is Some) && last_piece_of(q[n], v4) is Some {
            Some(Seq::new(n as nat, |i: int| group_of(q[i])->0) + last_piece_of(q[n], v4)->0)
        } else {
            None
        }
    }
}

/// Index of the first `::` at or after `i`, or -1 where there is none.
pub open spec fn double_colon_from(s: Seq<u8>, i: int) -> int
    decreases s.len() - i,
{
    if i < 0 || i + 1 >= s.len() {
        -1
    } else if s[i] == COLON && s[i + 1] == COLON {
        i
    } else {
        double_colon_from(s, i + 1)
    }
}

/// The eight 16-bit groups that IPv6 text stands for: eight groups, or at
/// most seven around one `::` that stands for one or more zero groups. IPv4
/// text may stand for the last two groups, but not before a `::`.
pub open spec fn ipv6_groups(s: Seq<u8>) -> Option<Seq<u16>> {
    let k = double_colon_from(s, 0);
    if k < 0 {
        match groups_of(s, true) {
            Some(g) => if g.len() == 8 {
                Some(g)
            } else {
                None
            },
            None => None,
        }
    } else {
        match (groups_of(s.subrange(0, k), false), groups_of(s.subrange(k + 2, s.len() as int), true)) {
            (Some(h), Some(t)) => if h.len() + t.len() <= 7 {
                Some(h + Seq::new((8 - h.len() - t.len()) as nat, |i: int| 0u16) + t)
            } else {
                None
            },
            _ => None,
        }
    }
}

/// The number whose base-65536 digits are `g`, most significant first.
pub open spec fn join_groups(g: Seq<u16>) -> nat
    decreases g.len(),
{
    if g.len() == 0 {
        0
    } else {
        join_groups(g.drop_last()) * 0x1_0000 + g.last() as nat
    }
}

pub open spec fn ipv6_of(s: Seq<u8>) -> Option<u128> {
    match ipv6_groups(s) {
        Some(g) => Some(join_groups(g) as u128),
        None => None,
    }
}

fn parse_group(p: &[u8]) -> (r: Option<u16>)
    ensures
        r == group_of(p@),
{
    if p.len() < 1 || p.len() > 4 {
        return None;
    }
    let mut v: u16 = 0;
    let mut i: usize = 0;
    assert(p@.subrange(0, 0) =~= Seq::<u8>::empty());
    while i < p.len()
        invariant
            1 <= p@.len() <= 4,
            0 <= i <= p@.len(),
            all_hex(p@.subrange(0, i as int)),
            v as nat == hex_value(p@.subrange(0, i as int)),
            hex_value(p@.subrange(0, i as int)) < if i == 0 {
                1int
            } else if i == 1 {
                16int
            } else if i == 2 {
                256int
            } else if i == 3 {
                4096int
            } else {
                65536int
            },
        decreases p@.len() - i,
    {
        let b = p[i];
        let ghost cur = p@.subrange(0, i + 1);
        assert(cur.drop_last() =~= p@.subrange(0, i as int));
        let d: u16 = if 48 <= b && b <= 57 {
            (b - 48) as u16
        } else if 97 <= b && b <= 102 {
            (b - 87) as u16
        } else if 65 <= b && b <= 70 {
            (b - 55) as u16
        } else {
            assert(hex_digit(p@[i as int]) is None);
            return None;
        };
        v = v * 16 + d;
        i = i + 1;
        assert(all_hex(p@.subrange(0, i as int)));
    }
    assert(p@.subrange(0, p@.len() as int) =~= p@);
    Some(v)
}

fn parse_groups(s: &[u8], v4: bool) -> (r: Option<Vec<u16>>)
    ensures
        match r {
            Some(v) => groups_of(s@, v4) == Some(v@),
            None => groups_of(s@, v4) is None,
        },
{
    if s.len() == 0 {
        return Some(Vec::new());
    }
    let q = split_ranges(s, COLON);
    let ghost sq = split(s@, COLON);
    proof {
        lemma_split_nonempty(s@, COLON);
    }
    let n = q.len() - 1;
    let mut v: Vec<u16> = Vec::new();
    let mut i: usize = 0;
    while i < n
        invariant
            s@.len() > 0,
            sq == split(s@, COLON),
            q@.len() == sq.len(),
            n == q@.len() - 1,
            ranges_match(s@, q@, sq, q@.len() as int),
            0 <= i <= n,
            v@.len() == i,
            forall|j: int| 0 <= j < i ==> #[trigger] group_of(sq[j]) == Some(v@[j]),
        decreases n - i,
    {
        assert(q@[i as int].0 <= q@[i as int].1);
        assert(s@.subrange(q@[i as int].0 as int, q@[i as int].1 as int) == sq[i as int]);
        match parse_group(&s[q[i].0..q[i].1]) {
            Some(g) => {
                v.push(g);
            },
            None => {
                assert(group_of(sq[i as int]) is None);
                assert(!(forall|j: int| 0 <= j < n ==> #[trigger] group_of(sq[j]) is Some));
                return None;
            },
        }
        i = i + 1;
    }
    assert(q@[n as int].0 <= q@[n as int].1);
    assert(s@.subrange(q@[n as int].0 as int, q@[n as int].1 as int) == sq[n as int]);
    let last = &s[q[n].0..q[n].1];
    let ghost head = v@;
    assert(head =~= Seq::new(n as nat, |i: int| group_of(sq[i])->0));
    match parse_group(last) {
        Some(g) => {
            v.push(g);
            assert(v@ =~= head + seq![g]);
        },
        None => {
            if !v4 {
                return None;
            }
            match parse_ipv4(last) {
                Some(a) => {
                    v.push((a / 0x1_0000) as u16);
                    v.push((a % 0x1_0000) as u16);
                    assert(v@ =~= head + seq![(a / 0x1_0000) as u16, (a % 0x1_0000) as u16]);
                },
                None => {
                    return None;
                },
            }
        },
    }
    Some(v)
}

fn find_double_colon(s: &[u8]) -> (r: Option<usize>)
    ensures
        match r {
            Some(k) => double_colon_from(s@, 0) == k && k + 1 < s@.len(),
            None => double_colon_from(s@, 0) < 0,
        },
{
    let mut i: usize = 0;
    while s.len() > 1 && i < s.len() - 1
        invariant
            0 <= i <= s@.len(),
            double_colon_from(s@, 0) == double_colon_from(s@, i as int),
        decreases s@.len() - i,
    {
        if s[i] == COLON && s[i + 1] == COLON {
            return Some(i);
        }
        i = i + 1;
    }
    None
}

fn join_eight(g: &Vec<u16>) -> (r: u128)
    requires
        g@.len() == 8,
    ensures
        r as nat == join_groups(g@),
{
    proof {
        reveal_with_fuel(join_groups, 9);
    }
    ((((((((g[0] as u128) * 0x1_0000 + g[1] as u128) * 0x1_0000 + g[2] as u128) * 0x1_0000 + g[3] as u128) * 0x1_0000
        + g[4] as u128) * 0x1_0000 + g[5] as u128) * 0x1_0000 + g[6] as u128) * 0x1_0000 + g[7] as u128)
}

/// Reads IPv6 text made of hexadecimal groups, with at most one `::` and
/// possibly IPv4 text at its end.
pub fn parse_ipv6(s: &[u8]) -> (r: Option<u128>)
    ensures
        r == ipv6_of(s@),
{
    match find_double_colon(s) {
        None => {
            match parse_groups(s, true) {
                Some(g) => {
                    if g.len() == 8 {
                        Some(join_eight(&g))
                    } else {
                        None
                    }
                },
                None => None,
            }
        },
        Some(k) => {
            assert(k + 1 < s@.len());
            assert(s@.len() == s.len());
            let h = parse_groups(&s[0..k], false);
            let t = parse_groups(&s[k + 2..s.len()], true);
            match (h, t) {
                (Some(h), Some(t)) => {
                    if h.len() > 7 || t.len() > 7 - h.len() {
                        return None;
                    }
                    let mut g: Vec<u16> = Vec::new();
                    let mut i: usize = 0;
                    while i < h.len()
                        invariant
                            0 <= i <= h@.len(),
                            g@ =~= h@.subrange(0, i as int),
                        decreases h@.len() - i,
                    {
                        g.push(h[i]);
                        i = i + 1;
                    }
                    let zeros: usize = 8 - h.len() - t.len();
                    let mut z: usize = 0;
                    while z < zeros
                        invariant
                            h@.len() + t@.len() <= 7,
                            zeros == 8 - h@.len() - t@.len(),
                            0 <= z <= zeros,
                            g@ =~= h@ + Seq::new(z as nat, |i: int| 0u16),
                        decreases zeros - z,
                    {
                        g.push(0);
                        z = z + 1;
                    }
                    let mut j: usize = 0;
                    while j < t.len()
                        invariant
                            h@.len() + t@.len() <= 7,
                            zeros == 8 - h@.len() - t@.len(),
                            0 <= j <= t@.len(),
                            g@ =~= h@ + Seq::new(zeros as nat, |i: int| 0u16) + t@.subrange(0, j as int),
                        decreases t@.len() - j,
                    {
                        g.push(t[j]);
                        j = j + 1;
                    }
                    assert(t@.subrange(0, t@.len() as int) =~= t@);
                    Some(join_eight(&g))
                },
                _ => None,
            }
        },
    }
}

/// Address text as `IpAddr`'s parser reads it: dotted-quad IPv4, else
/// hexadecimal IPv6.
pub open spec fn ip_of(s: Seq<u8>) -> Option<IpAddress> {
    match ipv4_of(s) {
        Some(a) => Some(IpAddress::V4(a)),
        None => match ipv6_of(s) {
            Some(a) => Some(IpAddress::V6(a)),
            None => None,
        },
    }
}

/// Reads IPv4 or IPv6 address text.
pub fn parse_ip(s: &[u8]) -> (r: Option<IpAddress>)
    ensures
        r == ip_of(s@),
{
    match parse_ipv4(s) {
        Some(a) => Some(IpAddress::V4(a)),
        None => match parse_ipv6(s) {
            Some(a) => Some(IpAddress::V6(a)),
            None => None,
        },
    }
}

} // verus!
