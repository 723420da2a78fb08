//! Byte ranges of a file and sets of them.
use vstd::prelude::*;
use rangemap::RangeSet;
use std::ops::Range;

verus! {

#[verifier::external_type_specification]
#[verifier::external_body]
#[verifier::reject_recursive_types(T)]
pub struct ExRangeSet<T>(RangeSet<T>);

/// The offsets that a range set holds.
pub uninterp spec fn range_set_points(s: RangeSet<usize>) -> Set<int>;

/// The offsets of the range `r`.
pub open spec fn span(r: Range<usize>) -> Set<int> {
    Set::new(|x: int| r.start <= x < r.end)
}

/// The offsets of all ranges of `rs` together.
pub open spec fn covered(rs: Seq<Range<usize>>) -> Set<int> {
    Set::new(|x: int| exists|i: int| 0 <= i < rs.len() && #[trigger] rs[i].start <= x < rs[i].end)
}

/// The ranges of `rs` are the pieces of a set of offsets: none is empty,
/// they rise, and between one and the next lies at least one offset.
pub open spec fn canonical(rs: Seq<Range<usize>>) -> bool {
    &&& forall|i: int| 0 <= i < rs.len() ==> (#[trigger] rs[i]).start < rs[i].end
    &&& forall|i: int, j: int|
        0 <= i < j < rs.len() ==> (#[trigger] rs[i]).end < (#[trigger] rs[j]).start
}

/// `RangeSet::new`: a set without offsets.
#[verifier::external_body]
fn set_new() -> (s: RangeSet<usize>)
    ensures
        range_set_points(s) == Set::<int>::empty(),
{
    RangeSet::new()
}

/// `RangeSet::insert`: adds the offsets of `r` to the set. The outside
/// function panics on an empty range, which `requires` leaves out.
#[verifier::external_body]
fn set_insert(s: &mut RangeSet<usize>, r: Range<usize>)
    requires
        r.start < r.end,
    ensures
        range_set_points(*final(s)) == range_set_points(*old(s)).union(span(r)),
{
    s.insert(r)
}

/// `RangeSet::iter`: the ranges that the set stores, in rising order. The
/// set stores its offsets as the fewest ranges that hold them: it joins
/// ranges that overlap or touch.
#[verifier::external_body]
fn set_ranges(s: &RangeSet<usize>) -> (rs: Vec<Range<usize>>)
    ensures
        canonical(rs@),
        covered(rs@) == range_set_points(*s),
{
    s.iter().cloned().collect()
}

/// `RangeSet::gaps`: the largest ranges inside `outer` that hold no offset
/// of the set, in rising order.
#[verifier::external_body]
fn set_gaps(s: &RangeSet<usize>, outer: &Range<usize>) -> (rs: Vec<Range<usize>>)
    requires
        outer.start < outer.end,
    ensures
        canonical(rs@),
        covered(rs@) == span(*outer).difference(range_set_points(*s)),
{
    s.gaps(outer).collect()
}

/// The part of a file of `len` bytes that a read of `expected_read_len`
/// bytes at `offset` covers: it starts at `offset` and ends where the read
/// or the file ends, whichever comes first.
pub fn make_range(offset: usize, expected_read_len: usize, len: usize) -> (r: Range<usize>)
    ensures
        r.start == offset,
        r.end == if offset + expected_read_len > len {
            len as int
        } else {
            offset + expected_read_len
        },
{
    if expected_read_len > len || offset > len - expected_read_len {
        offset..len
    } else {
        offset..(offset + expected_read_len)
    }
}

/// The range set that holds the offsets of all of `ranges`.
fn collect(ranges: &Vec<Range<usize>>) -> (set: RangeSet<usize>)
    requires
        forall|i: int| 0 <= i < ranges.len() ==> (#[trigger] ranges[i]).start < ranges[i].end,
    ensures
        range_set_points(set) == covered(ranges@),
{
    let mut set = set_new();
    let mut k: usize = 0;
    proof {
        assert(covered(ranges@.take(0)) =~= Set::<int>::empty());
    }
    while k < ranges.len()
        invariant
            k <= ranges.len(),
            forall|i: int| 0 <= i < ranges.len() ==> (#[trigger] ranges[i]).start < ranges[i].end,
            range_set_points(set) == covered(ranges@.take(k as int)),
        decreases ranges.len() - k,
    {
        let r: Range<usize> = ranges[k].start..ranges[k].end;
        set_insert(&mut set, r);
        proof {
            let head = ranges@.take(k as int);
            let next = ranges@.take(k + 1);
            assert forall|x: int| covered(next).contains(x) <==> covered(head).contains(x)
                || span(r).contains(x) by {
                if covered(head).contains(x) {
                    let i = choose|i: int|
                        0 <= i < head.len() && #[trigger] head[i].start <= x < head[i].end;
                    assert(next[i].start <= x < next[i].end);
                }
                if span(r).contains(x) {
                    assert(next[k as int].start <= x < next[k as int].end);
                }
                if covered(next).contains(x) {
                    let i = choose|i: int|
                        0 <= i < next.len() && #[trigger] next[i].start <= x < next[i].end;
                    if i < k {
                        assert(head[i].start <= x < head[i].end);
                    }
                }
            }
            assert(range_set_points(set) =~= covered(next));
        }
        k = k + 1;
    }
    proof {
        assert(ranges@.take(ranges.len() as int) =~= ranges@);
    }
    set
}

/// Joins ranges that overlap or touch: the result holds the same offsets as
/// `ranges` in the fewest ranges, in rising order.
pub fn coalesce(ranges: &Vec<Range<usize>>) -> (out: Vec<Range<usize>>)
    requires
        forall|i: int| 0 <= i < ranges.len() ==> (#[trigger] ranges[i]).start < ranges[i].end,
    ensures
        canonical(out@),
        covered(out@) == covered(ranges@),
{
    let set = collect(ranges);
    set_ranges(&set)
}

/// The largest ranges inside `outer` that none of `ranges` covers, in
/// rising order.
pub fn uncovered(ranges: &Vec<Range<usize>>, outer: &Range<usize>) -> (out: Vec<Range<usize>>)
    requires
        forall|i: int| 0 <= i < ranges.len() ==> (#[trigger] ranges[i]).start < ranges[i].end,
        outer.start < outer.end,
    ensures
        canonical(out@),
        covered(out@) == span(*outer).difference(covered(ranges@)),
{
    let set = collect(ranges);
    set_gaps(&set, outer)
}

/// A set of offsets has one way only to be cut into its pieces.
pub proof fn lemma_canonical_unique(a: Seq<Range<usize>>, b: Seq<Range<usize>>)
    requires
        canonical(a),
        canonical(b),
        covered(a) == covered(b),
    ensures
        a == b,
{
    lemma_canonical_prefix(a, b, a.len() as int);
    lemma_canonical_prefix(b, a, b.len() as int);
    assert(a =~= b);
}

proof fn lemma_canonical_prefix(a: Seq<Range<usize>>, b: Seq<Range<usize>>, n: int)
    requires
        canonical(a),
        canonical(b),
        covered(a) == covered(b),
        0 <= n <= a.len(),
    ensures
        n <= b.len(),
        forall|i: int| 0 <= i < n ==> #[trigger] a[i] == b[i],
    decreases n,
{
    if n > 0 {
        lemma_canonical_prefix(a, b, n - 1);
        let i = n - 1;
        let p = a[i].start as int;
        assert(a[i].start <= p < a[i].end);
        assert(covered(a).contains(p));
        assert(covered(b).contains(p));
        let j = choose|j: int| 0 <= j < b.len() && #[trigger] b[j].start <= p < b[j].end;
        if j < i {
            assert(a[j] == b[j]);
            assert(a[j].end < a[i].start);
        }
        assert(j >= i);
        assert(i < b.len());
        let q = b[i].start as int;
        assert(b[i].start <= q < b[i].end);
        assert(covered(b).contains(q));
        assert(covered(a).contains(q));
        let k = choose|k: int| 0 <= k < a.len() && #[trigger] a[k].start <= q < a[k].end;
        if k < i {
            assert(a[k] == b[k]);
            assert(b[k].end < b[i].start);
        }
        assert(k >= i);
        if j > i {
            assert(b[i].end < b[j].start);
        }
        if k > i {
            assert(a[i].end < a[k].start);
        }
        assert(a[i].start == b[i].start);
        if a[i].end < b[i].end {
            let e = a[i].end as int;
            assert(b[i].start <= e < b[i].end);
            assert(covered(b).contains(e));
            assert(covered(a).contains(e));
            let m = choose|m: int| 0 <= m < a.len() && #[trigger] a[m].start <= e < a[m].end;
            if m < i {
                assert(a[m].end < a[i].start);
            }
            if m > i {
                assert(a[i].end < a[m].start);
            }
            assert(false);
        }
        if b[i].end < a[i].end {
            let e = b[i].end as int;
            assert(a[i].start <= e < a[i].end);
            assert(covered(a).contains(e));
            assert(covered(b).contains(e));
            let m = choose|m: int| 0 <= m < b.len() && #[trigger] b[m].start <= e < b[m].end;
            if m < i {
                assert(b[m].end < b[i].start);
            }
            if m > i {
                assert(b[i].end < b[m].start);
            }
            assert(false);
        }
        assert(a[i] == b[i]);
    }
}

/// Joining is idempotent: ranges that came out of a joining come out of
/// another joining as they are.
pub proof fn lemma_coalesce_idempotent(first: Seq<Range<usize>>, second: Seq<Range<usize>>)
    requires
        canonical(first),
        canonical(second),
        covered(second) == covered(first),
    ensures
        second == first,
{
    lemma_canonical_unique(second, first);
}

} // verus!
