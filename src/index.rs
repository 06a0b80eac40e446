//! The range index: records sorted by first address, searched for the
//! record whose range holds an address.
use crate::gzip::{gunzip, gunzip_of};
use crate::ip::{rank, IpAddress};
use crate::record::{record_of, AsnView, ASN};
use crate::text::{ranges_match, split, split_ranges, NEWLINE};
use vstd::prelude::*;

verus! {

/// Why a load produced no index.
#[derive(Debug, PartialEq, Eq)]
pub enum LoadError {
    /// The feed could not be fetched; the text says why.
    FetchError(String),
    /// The fetched body is not a valid gzip stream.
    DecodeError,
    /// The line of this number (counting from 1) is not a valid record.
    MalformedRecord(usize),
}

/// Strictly ascending by first address: no two records share a slot.
pub open spec fn sorted(s: Seq<AsnView>) -> bool {
    forall|i: int, j: int| 0 <= i < j < s.len() ==> rank(#[trigger] s[i].first_ip) < rank(#[trigger] s[j].first_ip)
}

/// Each range starts no later than it ends.
pub open spec fn ranges_ordered(s: Seq<AsnView>) -> bool {
    forall|i: int| 0 <= i < s.len() ==> rank((#[trigger] s[i]).first_ip) <= rank(s[i].last_ip)
}

/// `ip` lies in the range of `r`, bounds included.
pub open spec fn contains(r: AsnView, ip: IpAddress) -> bool {
    rank(r.first_ip) <= rank(ip) <= rank(r.last_ip)
}

/// No two ranges share an address.
pub open spec fn disjoint(s: Seq<AsnView>) -> bool {
    forall|i: int, j: int|
        0 <= i < j < s.len() ==> rank(#[trigger] s[i].last_ip) < rank(#[trigger] s[j].first_ip)
}

/// `i` is the last record that starts at or before `ip`.
pub open spec fn is_floor(s: Seq<AsnView>, ip: IpAddress, i: int) -> bool {
    &&& 0 <= i < s.len()
    &&& rank(s[i].first_ip) <= rank(ip)
    &&& forall|j: int| i < j < s.len() ==> rank(ip) < rank(#[trigger] s[j].first_ip)
}

/// The record that answers for `ip`: the last one that starts at or before
/// it, provided that its range reaches `ip` and that it is announced.
pub open spec fn spec_lookup(s: Seq<AsnView>, ip: IpAddress) -> Option<AsnView> {
    if exists|i: int| is_floor(s, ip, i) {
        let i = choose|i: int| is_floor(s, ip, i);
        if rank(ip) <= rank(s[i].last_ip) && s[i].number != 0 {
            Some(s[i])
        } else {
            None
        }
    } else {
        None
    }
}

/// Number of records that start before address rank `key`.
pub open spec fn count_below(s: Seq<AsnView>, key: int) -> nat
    decreases s.len(),
{
    if s.len() == 0 {
        0
    } else {
        count_below(s.drop_last(), key) + if rank(s.last().first_ip) < key {
            1nat
        } else {
            0nat
        }
    }
}

/// Adds `r` at its place in the order, unless a record with the same first
/// address is already there, which then stays.
pub open spec fn insert_record(s: Seq<AsnView>, r: AsnView) -> Seq<AsnView> {
    if exists|j: int| 0 <= j < s.len() && #[trigger] s[j].first_ip == r.first_ip {
        s
    } else {
        s.insert(count_below(s, rank(r.first_ip)) as int, r)
    }
}

/// The index built from the first `n` lines: each non-empty line is read as
/// a record and added; the first malformed one ends the load with its number.
pub open spec fn load_lines(lines: Seq<Seq<u8>>, n: nat) -> Result<Seq<AsnView>, LoadError>
    decreases n,
{
    if n == 0 {
        Ok(Seq::empty())
    } else {
        match load_lines(lines, (n - 1) as nat) {
            Err(e) => Err(e),
            Ok(s) => if lines[n - 1].len() == 0 {
                Ok(s)
            } else {
                match record_of(lines[n - 1]) {
                    Some(r) => Ok(insert_record(s, r)),
                    None => Err(LoadError::MalformedRecord(n as usize)),
                }
            },
        }
    }
}

/// The index that a decompressed feed describes, lines separated by `\n`.
pub open spec fn feed_index(text: Seq<u8>) -> Result<Seq<AsnView>, LoadError> {
    let lines = split(text, NEWLINE);
    load_lines(lines, lines.len())
}

/// The index that a gzip-compressed feed describes.
pub open spec fn compressed_feed_index(gz: Seq<u8>) -> Result<Seq<AsnView>, LoadError> {
    match gunzip_of(gz) {
        Some(text) => feed_index(text),
        None => Err(LoadError::DecodeError),
    }
}

/// An immutable index of address ranges.
pub struct ASNs {
    asns: Vec<ASN>,
}

/// What each record of `v` holds.
pub open spec fn views(v: Seq<ASN>) -> Seq<AsnView> {
    v.map_values(|a: ASN| a@)
}

impl View for ASNs {
    type V = Seq<AsnView>;

    closed spec fn view(&self) -> Seq<AsnView> {
        views(self.asns@)
    }
}

/// A load's outcome, with the index seen as its records.
pub open spec fn result_view(r: Result<ASNs, LoadError>) -> Result<Seq<AsnView>, LoadError> {
    match r {
        Ok(a) => Ok(a@),
        Err(e) => Err(e),
    }
}

impl ASNs {
    #[verifier::type_invariant]
    spec fn inv(self) -> bool {
        sorted(views(self.asns@))
    }

    /// Builds the index from decompressed feed text: all of it, or the
    /// number of the first malformed line.
    pub fn from_feed(text: &[u8]) -> (r: Result<ASNs, LoadError>)
        ensures
            result_view(r) == feed_index(text@),
            r is Ok ==> sorted(r->Ok_0@),
    {
        let lines = split_ranges(text, NEWLINE);
        let ghost ls = split(text@, NEWLINE);
        let mut v: Vec<ASN> = Vec::new();
        let mut i: usize = 0;
        assert(views(v@) =~= Seq::<AsnView>::empty());
        while i < lines.len()
            invariant
                ls == split(text@, NEWLINE),
                lines@.len() == ls.len(),
                ranges_match(text@, lines@, ls, lines@.len() as int),
                0 <= i <= lines@.len(),
                load_lines(ls, i as nat) == Ok::<Seq<AsnView>, LoadError>(views(v@)),
                sorted(views(v@)),
            decreases lines@.len() - i,
        {
            let (a, b) = lines[i];
            assert(a <= b);
            assert(text@.subrange(a as int, b as int) == ls[i as int]);
            if a < b {
                match ASN::parse(&text[a..b]) {
                    Some(rec) => {
                        insert_into(&mut v, rec);
                    },
                    None => {
                        proof {
                            lemma_load_err_stays(ls, (i + 1) as nat, ls.len());
                        }
                        return Err(LoadError::MalformedRecord(i + 1));
                    },
                }
            }
            i = i + 1;
        }
        Ok(ASNs { asns: v })
    }

    /// Builds the index from a gzip-compressed feed.
    pub fn new(gz: &[u8]) -> (r: Result<ASNs, LoadError>)
        ensures
            result_view(r) == compressed_feed_index(gz@),
            r is Ok ==> sorted(r->Ok_0@),
    {
        match gunzip(gz) {
            Some(text) => ASNs::from_feed(text.as_slice()),
            None => Err(LoadError::DecodeError),
        }
    }

    /// Builds the index from the outcome of fetching the feed: the body, or
    /// the reason that the fetch failed.
    pub fn load(fetched: Result<Vec<u8>, String>) -> (r: Result<ASNs, LoadError>)
        ensures
            match fetched {
                Ok(body) => result_view(r) == compressed_feed_index(body@),
                Err(why) => result_view(r) == Err::<Seq<AsnView>, LoadError>(LoadError::FetchError(why)),
            },
            r is Ok ==> sorted(r->Ok_0@),
    {
        match fetched {
            Ok(body) => ASNs::new(body.as_slice()),
            Err(why) => Err(LoadError::FetchError(why)),
        }
    }

    /// Number of records.
    pub fn len(&self) -> (r: usize)
        ensures
            r == self@.len(),
    {
        self.asns.len()
    }

    /// The record that answers for `ip`, if any: the last record that starts
    /// at or before `ip`, where its range reaches `ip` and it is announced.
    pub fn lookup_by_ip(&self, ip: IpAddress) -> (r: Option<&ASN>)
        ensures
            match r {
                Some(a) => spec_lookup(self@, ip) == Some(a@),
                None => spec_lookup(self@, ip) is None,
            },
    {
        proof {
            use_type_invariant(self);
        }
        let ghost s = self@;
        let mut lo: usize = 0;
        let mut hi: usize = self.asns.len();
        while lo < hi
            invariant
                s == views(self.asns@),
                sorted(s),
                0 <= lo <= hi <= s.len(),
                forall|j: int| 0 <= j < lo ==> rank(#[trigger] s[j].first_ip) <= rank(ip),
                forall|j: int| hi <= j < s.len() ==> rank(ip) < rank(#[trigger] s[j].first_ip),
            decreases hi - lo,
        {
            let mid = lo + (hi - lo) / 2;
            assert(s[mid as int] == self.asns@[mid as int]@);
            if self.asns[mid].first_ip.le(&ip) {
                assert forall|j: int| 0 <= j < mid + 1 implies rank(#[trigger] s[j].first_ip) <= rank(ip) by {
                    if j < mid {
                        assert(rank(s[j].first_ip) < rank(s[mid as int].first_ip));
                    }
                }
                lo = mid + 1;
            } else {
                assert forall|j: int| mid <= j < s.len() implies rank(ip) < rank(#[trigger] s[j].first_ip) by {
                    if j > mid {
                        assert(rank(s[mid as int].first_ip) < rank(s[j].first_ip));
                    }
                }
                hi = mid;
            }
        }
        if lo == 0 {
            assert forall|i: int| !is_floor(s, ip, i) by {
                if 0 <= i < s.len() {
                    assert(rank(ip) < rank(s[i].first_ip));
                }
            }
            return None;
        }
        let k = lo - 1;
        assert(is_floor(s, ip, k as int));
        proof {
            lemma_floor_unique(s, ip, k as int);
        }
        let a = &self.asns[k];
        assert(s[k as int] == a@);
        if ip.le(&a.last_ip) && a.number != 0 {
            Some(a)
        } else {
            None
        }
    }
}

proof fn lemma_count_below(s: Seq<AsnView>, key: int, k: int)
    requires
        0 <= k <= s.len(),
        forall|j: int| 0 <= j < k ==> rank(#[trigger] s[j].first_ip) < key,
        forall|j: int| k <= j < s.len() ==> key <= rank(#[trigger] s[j].first_ip),
    ensures
        count_below(s, key) == k,
    decreases s.len(),
{
    if s.len() > 0 {
        let d = s.drop_last();
        if k == s.len() {
            lemma_count_below(d, key, k - 1);
        } else {
            lemma_count_below(d, key, k);
        }
    }
}

/// Adds `a` to the sorted records in `v` as `insert_record` says.
fn insert_into(v: &mut Vec<ASN>, a: ASN)
    requires
        sorted(views(old(v)@)),
    ensures
        views(final(v)@) == insert_record(views(old(v)@), a@),
        sorted(views(final(v)@)),
{
    let ghost s = views(v@);
    let ghost key = rank(a.first_ip);
    let mut lo: usize = 0;
    let mut hi: usize = v.len();
    while lo < hi
        invariant
            s == views(v@),
            sorted(s),
            key == rank(a.first_ip),
            0 <= lo <= hi <= s.len(),
            forall|j: int| 0 <= j < lo ==> rank(#[trigger] s[j].first_ip) < key,
            forall|j: int| hi <= j < s.len() ==> key <= rank(#[trigger] s[j].first_ip),
        decreases hi - lo,
    {
        let mid = lo + (hi - lo) / 2;
        assert(s[mid as int] == v@[mid as int]@);
        if a.first_ip.le(&v[mid].first_ip) {
            assert forall|j: int| mid <= j < s.len() implies key <= rank(#[trigger] s[j].first_ip) by {
                if j > mid {
                    assert(rank(s[mid as int].first_ip) < rank(s[j].first_ip));
                }
            }
            hi = mid;
        } else {
            assert forall|j: int| 0 <= j < mid + 1 implies rank(#[trigger] s[j].first_ip) < key by {
                if j < mid {
                    assert(rank(s[j].first_ip) < rank(s[mid as int].first_ip));
                }
            }
            lo = mid + 1;
        }
    }
    if lo < v.len() && v[lo].first_ip == a.first_ip {
        assert(s[lo as int] == v@[lo as int]@);
        assert(s[lo as int].first_ip == a@.first_ip);
        return;
    }
    proof {
        lemma_count_below(s, key, lo as int);
        assert forall|j: int| 0 <= j < s.len() implies #[trigger] s[j].first_ip != a@.first_ip by {
            if j == lo {
                assert(s[lo as int] == v@[lo as int]@);
            } else if j > lo {
                assert(s[lo as int] == v@[lo as int]@);
                assert(rank(s[lo as int].first_ip) < rank(s[j].first_ip));
                crate::ip::lemma_rank_injective(s[lo as int].first_ip, a.first_ip);
            }
        }
        if lo < s.len() {
            assert(s[lo as int] == v@[lo as int]@);
            crate::ip::lemma_rank_injective(s[lo as int].first_ip, a.first_ip);
        }
    }
    let ghost av = a@;
    v.insert(lo, a);
    assert(views(v@) =~= s.insert(lo as int, av));
    let ghost t = views(v@);
    assert forall|i: int, j: int| 0 <= i < j < t.len() implies rank(#[trigger] t[i].first_ip) < rank(
        #[trigger] t[j].first_ip,
    ) by {
        if j < lo {
        } else if j == lo {
            assert(t[i] == s[i]);
        } else if i < lo {
            assert(t[j] == s[j - 1]);
            assert(t[i] == s[i]);
        } else if i == lo {
            assert(t[j] == s[j - 1]);
            if lo < s.len() {
                crate::ip::lemma_rank_injective(s[lo as int].first_ip, a.first_ip);
                if j - 1 > lo {
                    assert(rank(s[lo as int].first_ip) < rank(s[j - 1].first_ip));
                }
            }
        } else {
            assert(t[j] == s[j - 1]);
            assert(t[i] == s[i - 1]);
        }
    }
}

/// Containment: over disjoint ranges, an address anywhere in an announced
/// record's range, its bounds included, finds that record.
pub proof fn lemma_containment(s: Seq<AsnView>, i: int, ip: IpAddress)
    requires
        disjoint(s),
        0 <= i < s.len(),
        s[i].number != 0,
        contains(s[i], ip),
    ensures
        spec_lookup(s, ip) == Some(s[i]),
{
    assert forall|j: int| i < j < s.len() implies rank(ip) < rank(#[trigger] s[j].first_ip) by {
        assert(rank(s[i].last_ip) < rank(s[j].first_ip));
    }
    assert(is_floor(s, ip, i));
    lemma_floor_unique(s, ip, i);
}

/// Containment at the bounds: over disjoint, well-ordered ranges, the first
/// and the last address of an announced record find that record.
pub proof fn lemma_bounds_found(s: Seq<AsnView>, i: int)
    requires
        disjoint(s),
        ranges_ordered(s),
        0 <= i < s.len(),
        s[i].number != 0,
    ensures
        spec_lookup(s, s[i].first_ip) == Some(s[i]),
        spec_lookup(s, s[i].last_ip) == Some(s[i]),
{
    assert(rank(s[i].first_ip) <= rank(s[i].last_ip));
    lemma_containment(s, i, s[i].first_ip);
    lemma_containment(s, i, s[i].last_ip);
}

/// Unallocated space: over disjoint ranges, an address in a record with
/// number 0 finds nothing.
pub proof fn lemma_unannounced_not_found(s: Seq<AsnView>, i: int, ip: IpAddress)
    requires
        disjoint(s),
        0 <= i < s.len(),
        s[i].number == 0,
        contains(s[i], ip),
    ensures
        spec_lookup(s, ip) is None,
{
    assert forall|j: int| i < j < s.len() implies rank(ip) < rank(#[trigger] s[j].first_ip) by {
        assert(rank(s[i].last_ip) < rank(s[j].first_ip));
    }
    assert(is_floor(s, ip, i));
    lemma_floor_unique(s, ip, i);
}

/// Gaps: an address that lies in no record finds nothing.
pub proof fn lemma_gap_not_found(s: Seq<AsnView>, ip: IpAddress)
    requires
        forall|i: int| 0 <= i < s.len() ==> !contains(#[trigger] s[i], ip),
    ensures
        spec_lookup(s, ip) is None,
{
    if exists|i: int| is_floor(s, ip, i) {
        let i = choose|i: int| is_floor(s, ip, i);
        assert(!contains(s[i], ip));
    }
}

/// Boundary exactness: where one announced record ends at `X` and the next
/// announced one starts at `X + 1`, `X` finds the first and `X + 1` the
/// second.
pub proof fn lemma_adjacent_boundary(s: Seq<AsnView>, i: int, j: int)
    requires
        disjoint(s),
        ranges_ordered(s),
        0 <= i < s.len(),
        0 <= j < s.len(),
        rank(s[j].first_ip) == rank(s[i].last_ip) + 1,
        s[i].number != 0,
        s[j].number != 0,
    ensures
        spec_lookup(s, s[i].last_ip) == Some(s[i]),
        spec_lookup(s, s[j].first_ip) == Some(s[j]),
{
    lemma_bounds_found(s, i);
    lemma_bounds_found(s, j);
}

proof fn lemma_load_err_stays(lines: Seq<Seq<u8>>, m: nat, n: nat)
    requires
        m <= n,
        load_lines(lines, m) is Err,
    ensures
        load_lines(lines, n) == load_lines(lines, m),
    decreases n,
{
    if n > m {
        lemma_load_err_stays(lines, m, (n - 1) as nat);
    }
}

proof fn lemma_floor_unique(s: Seq<AsnView>, ip: IpAddress, i: int)
    requires
        is_floor(s, ip, i),
    ensures
        (choose|j: int| is_floor(s, ip, j)) == i,
{
    let j = choose|j: int| is_floor(s, ip, j);
    assert(is_floor(s, ip, j));
    if j < i {
        assert(rank(ip) < rank(s[i].first_ip));
    } else if j > i {
        assert(rank(ip) < rank(s[j].first_ip));
    }
}

} // verus!
