//! Byte-level text helpers: splitting on a separator, decimal numbers and UTF-8.
use vstd::prelude::*;

verus! {

pub const TAB: u8 = 9;

pub const NEWLINE: u8 = 10;

pub const PLUS: u8 = 43;

pub const DOT: u8 = 46;

pub const COLON: u8 = 58;


/// The pieces of `s` between occurrences of `sep`, as `str::split` yields
/// them: `n` separators give `n + 1` pieces, some of them possibly empty.
pub open spec fn split(s: Seq<u8>, sep: u8) -> Seq<Seq<u8>>
    decreases s.len(),
{
    if s.len() == 0 {
        seq![Seq::<u8>::empty()]
    } else {
        let p = split(s.drop_last(), sep);
        if s.last() == sep {
            p.push(Seq::<u8>::empty())
        } else {
            p.update(p.len() - 1, p.last().push(s.last()))
        }
    }
}

pub proof fn lemma_split_nonempty(s: Seq<u8>, sep: u8)
    ensures
        split(s, sep).len() >= 1,
    decreases s.len(),
{
    if s.len() > 0 {
        lemma_split_nonempty(s.drop_last(), sep);
    }
}

/// Each of the first `n` ranges picks out, in `s`, the piece of the same index.
pub open spec fn ranges_match(s: Seq<u8>, r: Seq<(usize, usize)>, pieces: Seq<Seq<u8>>, n: int) -> bool {
    forall|j: int|
        0 <= j < n ==> #[trigger] r[j].0 <= r[j].1 <= s.len() && s.subrange(r[j].0 as int, r[j].1 as int)
            == pieces[j]
}

/// The pieces of `s` between occurrences of `sep`, as ranges of indices.
pub fn split_ranges(s: &[u8], sep: u8) -> (r: Vec<(usize, usize)>)
    ensures
        r@.len() == split(s@, sep).len(),
        ranges_match(s@, r@, split(s@, sep), r@.len() as int),
{
    let mut r: Vec<(usize, usize)> = Vec::new();
    let mut start: usize = 0;
    let mut i: usize = 0;
    assert(s@.subrange(0, 0) =~= Seq::<u8>::empty());
    while i < s.len()
        invariant
            0 <= start <= i <= s@.len(),
            split(s@.subrange(0, i as int), sep).len() == r@.len() + 1,
            split(s@.subrange(0, i as int), sep).last() == s@.subrange(start as int, i as int),
            ranges_match(s@, r@, split(s@.subrange(0, i as int), sep), r@.len() as int),
        decreases s@.len() - i,
    {
        let ghost pre = s@.subrange(0, i as int);
        let ghost cur = s@.subrange(0, i + 1);
        let ghost p = split(pre, sep);
        assert(cur.drop_last() =~= pre);
        assert(cur.last() == s@[i as int]);
        if s[i] == sep {
            let ghost old_r = r@;
            r.push((start, i));
            assert(split(cur, sep) == p.push(Seq::<u8>::empty()));
            assert forall|j: int| 0 <= j < r@.len() implies #[trigger] r@[j].0 <= r@[j].1 <= s@.len()
                && s@.subrange(r@[j].0 as int, r@[j].1 as int) == split(cur, sep)[j] by {
                if j < old_r.len() {
                    assert(r@[j] == old_r[j]);
                    assert(old_r[j].0 <= old_r[j].1);
                    assert(s@.subrange(old_r[j].0 as int, old_r[j].1 as int) == p[j]);
                } else {
                    assert(r@[j] == (start, i));
                    assert(p[j] == p.last());
                }
            }
            start = i + 1;
            assert(s@.subrange(start as int, i + 1) =~= Seq::<u8>::empty());
        } else {
            assert(s@.subrange(start as int, i + 1) =~= s@.subrange(start as int, i as int).push(
                s@[i as int],
            ));
            assert(split(cur, sep) == p.update(p.len() - 1, p.last().push(s@[i as int])));
            assert forall|j: int| 0 <= j < r@.len() implies #[trigger] r@[j].0 <= r@[j].1 <= s@.len()
                && s@.subrange(r@[j].0 as int, r@[j].1 as int) == split(cur, sep)[j] by {
                assert(r@[j].0 <= r@[j].1);
                assert(s@.subrange(r@[j].0 as int, r@[j].1 as int) == p[j]);
                assert(split(cur, sep)[j] == p[j]);
            }
        }
        assert(ranges_match(s@, r@, split(cur, sep), r@.len() as int));
        i = i + 1;
    }
    r.push((start, i));
    assert(s@.subrange(0, s@.len() as int) =~= s@);
    r
}

pub open spec fn is_digit(b: u8) -> bool {
    48 <= b <= 57
}

pub open spec fn all_digits(s: Seq<u8>) -> bool {
    forall|i: int| 0 <= i < s.len() ==> is_digit(#[trigger] s[i])
}

/// The number that a string of decimal digits denotes.
pub open spec fn dec_value(s: Seq<u8>) -> nat
    decreases s.len(),
{
    if s.len() == 0 {
        0
    } else {
        dec_value(s.drop_last()) * 10 + (s.last() - 48) as nat
    }
}

/// A run of one or more decimal digits that fits in a `u32`.
pub open spec fn digits_u32(s: Seq<u8>) -> Option<u32> {
    if s.len() > 0 && all_digits(s) && dec_value(s) <= u32::MAX {
        Some(dec_value(s) as u32)
    } else {
        None
    }
}

proof fn lemma_dec_prefix(s: Seq<u8>, k: int)
    requires
        0 <= k <= s.len(),
        all_digits(s),
    ensures
        dec_value(s.subrange(0, k)) <= dec_value(s),
    decreases s.len(),
{
    if k < s.len() {
        assert(s.drop_last() =~= s.subrange(0, s.len() - 1));
        assert(s.drop_last().subrange(0, k) =~= s.subrange(0, k));
        lemma_dec_prefix(s.drop_last(), k);
    } else {
        assert(s.subrange(0, k) =~= s);
    }
}

/// Reads `s` as one or more decimal digits whose value fits in a `u32`.
pub fn parse_digits_u32(s: &[u8]) -> (r: Option<u32>)
    ensures
        r == digits_u32(s@),
{
    if s.len() == 0 {
        return None;
    }
    let mut v: u32 = 0;
    let mut i: usize = 0;
    assert(s@.subrange(0, 0) =~= Seq::<u8>::empty());
    while i < s.len()
        invariant
            0 <= i <= s@.len(),
            all_digits(s@.subrange(0, i as int)),
            v as nat == dec_value(s@.subrange(0, i as int)),
        decreases s@.len() - i,
    {
        let b = s[i];
        let ghost cur = s@.subrange(0, i + 1);
        assert(cur.drop_last() =~= s@.subrange(0, i as int));
        if b < 48 || b > 57 {
            assert(!is_digit(s@[i as int]));
            return None;
        }
        let d: u32 = (b - 48) as u32;
        if v > (u32::MAX - d) / 10 {
            assert(dec_value(cur) > u32::MAX);
            proof {
                if all_digits(s@) {
                    lemma_dec_prefix(s@, i + 1);
                }
            }
            return None;
        }
        v = v * 10 + d;
        i = i + 1;
        assert(all_digits(s@.subrange(0, i as int)));
    }
    assert(s@.subrange(0, s@.len() as int) =~= s@);
    Some(v)
}

} // verus!
