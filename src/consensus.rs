//! Majority-vote consensus over a run of overlapping reads.
use vstd::prelude::*;
use crate::read::{AlignedRead, ReadView, base_rank, base_char, views, rank_of, lemma_base_rank_injective};

verus! {

/// Read `r` has a stored base at reference position `p`.
pub open spec fn contributes(r: ReadView, p: int) -> bool {
    r.start <= p < r.end && p - r.start < r.bases.len()
}

/// The base that read `r` puts at reference position `p`.
pub open spec fn base_at(r: ReadView, p: int) -> u8 {
    r.bases[p - r.start]
}

/// How many reads of `rs` put base `b` at position `p`.
pub open spec fn count_at(rs: Seq<ReadView>, p: int, b: u8) -> nat
    decreases rs.len(),
{
    if rs.len() == 0 {
        0
    } else {
        count_at(rs.drop_last(), p, b) + if contributes(rs.last(), p) && base_at(rs.last(), p) == b {
            1nat
        } else {
            0nat
        }
    }
}

/// Some read of `rs` has a stored base at position `p`.
pub open spec fn covered(rs: Seq<ReadView>, p: int) -> bool {
    exists|i: int| 0 <= i < rs.len() && contributes(rs[i], p)
}

/// `b` is the most frequent base at `p`, and of the most frequent ones the
/// smallest under [`base_rank`].
pub open spec fn wins(rs: Seq<ReadView>, p: int, b: u8) -> bool {
    &&& count_at(rs, p, b) > 0
    &&& forall|c: u8|
        c != b ==> count_at(rs, p, c) < count_at(rs, p, b) || (count_at(rs, p, c) == count_at(
            rs,
            p,
            b,
        ) && base_rank(b) < base_rank(c))
}

/// The consensus base at a covered position.
pub open spec fn majority_base(rs: Seq<ReadView>, p: int) -> u8 {
    choose|b: u8| wins(rs, p, b)
}

/// The consensus characters for positions `lo .. hi`, in position order; a
/// position that no read covers contributes nothing.
pub open spec fn consensus_between(rs: Seq<ReadView>, lo: int, hi: int) -> Seq<char>
    decreases hi - lo,
{
    if hi <= lo {
        Seq::empty()
    } else if covered(rs, hi - 1) {
        consensus_between(rs, lo, hi - 1).push(base_char(majority_base(rs, hi - 1)))
    } else {
        consensus_between(rs, lo, hi - 1)
    }
}

/// The smallest start of a non-empty run.
pub open spec fn span_start(rs: Seq<ReadView>) -> int
    decreases rs.len(),
{
    if rs.len() <= 1 {
        rs[0].start
    } else {
        let m = span_start(rs.drop_last());
        if rs.last().start < m {
            rs.last().start
        } else {
            m
        }
    }
}

/// The largest end of a non-empty run.
pub open spec fn span_end(rs: Seq<ReadView>) -> int
    decreases rs.len(),
{
    if rs.len() <= 1 {
        rs[0].end
    } else {
        let m = span_end(rs.drop_last());
        if rs.last().end > m {
            rs.last().end
        } else {
            m
        }
    }
}

/// The consensus sequence of a non-empty run.
pub open spec fn consensus(rs: Seq<ReadView>) -> Seq<char> {
    consensus_between(rs, span_start(rs), span_end(rs))
}

proof fn lemma_count_bound(rs: Seq<ReadView>, p: int, b: u8)
    ensures
        count_at(rs, p, b) <= rs.len(),
    decreases rs.len(),
{
    if rs.len() > 0 {
        lemma_count_bound(rs.drop_last(), p, b);
    }
}

/// A read that contributes at `p` counts for its base there.
proof fn lemma_contributor_counted(rs: Seq<ReadView>, p: int, i: int)
    requires
        0 <= i < rs.len(),
        contributes(rs[i], p),
    ensures
        count_at(rs, p, base_at(rs[i], p)) > 0,
    decreases rs.len(),
{
    if i < rs.len() - 1 {
        lemma_contributor_counted(rs.drop_last(), p, i);
    }
}

/// A base counted at `p` comes from a contributing read.
proof fn lemma_counted_is_covered(rs: Seq<ReadView>, p: int, b: u8)
    requires
        count_at(rs, p, b) > 0,
    ensures
        covered(rs, p),
    decreases rs.len(),
{
    if contributes(rs.last(), p) && base_at(rs.last(), p) == b {
        assert(contributes(rs[rs.len() - 1], p));
    } else {
        lemma_counted_is_covered(rs.drop_last(), p, b);
        let i = choose|i: int| 0 <= i < rs.drop_last().len() && contributes(rs.drop_last()[i], p);
        assert(contributes(rs[i], p));
    }
}

/// At most one base wins at a position.
pub proof fn lemma_winner_unique(rs: Seq<ReadView>, p: int, a: u8, b: u8)
    requires
        wins(rs, p, a),
        wins(rs, p, b),
    ensures
        a == b,
{
    lemma_base_rank_injective(a, b);
}

/// Counts, indexed by base, of the bases that `reads` put at position `p`.
fn base_counts(reads: &Vec<AlignedRead>, p: i64) -> (counts: Vec<usize>)
    ensures
        counts@.len() == 256,
        forall|b: u8| #[trigger] counts@[b as int] == count_at(views(reads@), p as int, b),
{
    let ghost rs = views(reads@);
    let mut counts: Vec<usize> = vec![0usize; 256];
    let mut i: usize = 0;
    while i < reads.len()
        invariant
            i <= reads.len(),
            rs == views(reads@),
            counts@.len() == 256,
            forall|b: u8| #[trigger] counts@[b as int] == count_at(rs.take(i as int), p as int, b),
        decreases reads.len() - i,
    {
        let r = &reads[i];
        proof {
            assert(rs.take(i + 1).drop_last() =~= rs.take(i as int));
            assert(rs.take(i + 1).last() == r@);
            assert forall|b: u8| count_at(rs.take(i as int), p as int, b) <= i by {
                lemma_count_bound(rs.take(i as int), p as int, b);
            }
        }
        if r.start <= p && p < r.end {
            let off: i128 = p as i128 - r.start as i128;
            if off < r.bases.len() as i128 {
                let b = r.bases[off as usize];
                let c = counts[b as usize];
                counts.set(b as usize, c + 1);
                assert(counts@[b as int] == count_at(rs.take(i + 1), p as int, b));
            }
        }
        i += 1;
    }
    assert(rs.take(reads.len() as int) =~= rs);
    counts
}

/// The consensus base at position `p`, or `None` where no read has a base there.
pub fn majority_at(reads: &Vec<AlignedRead>, p: i64) -> (r: Option<u8>)
    ensures
        r == if covered(views(reads@), p as int) {
            Some(majority_base(views(reads@), p as int))
        } else {
            None::<u8>
        },
{
    let ghost rs = views(reads@);
    let ghost q = p as int;
    let counts = base_counts(reads, p);
    let mut best: Option<u8> = None;
    let mut best_count: usize = 0;
    let mut k: usize = 0;
    while k < 256
        invariant
            k <= 256,
            counts@.len() == 256,
            forall|b: u8| #[trigger] counts@[b as int] == count_at(rs, q, b),
            best is None ==> forall|b: u8| (b as int) < k ==> count_at(rs, q, b) == 0,
            best matches Some(w) ==> {
                &&& (w as int) < k
                &&& best_count == count_at(rs, q, w)
                &&& best_count > 0
                &&& forall|c: u8|
                    (c as int) < k && c != w ==> count_at(rs, q, c) < count_at(rs, q, w) || (
                    count_at(rs, q, c) == count_at(rs, q, w) && base_rank(w) < base_rank(c))
            },
        decreases 256 - k,
    {
        let b = k as u8;
        let c = counts[k];
        assert(counts@[b as int] == c);
        match best {
            None => {
                if c > 0 {
                    best = Some(b);
                    best_count = c;
                }
            },
            Some(w) => {
                if c > best_count || (c == best_count && rank_of(b) < rank_of(w)) {
                    best = Some(b);
                    best_count = c;
                }
            },
        }
        k += 1;
    }
    proof {
        match best {
            Some(w) => {
                assert(wins(rs, q, w));
                lemma_counted_is_covered(rs, q, w);
                let m = majority_base(rs, q);
                lemma_winner_unique(rs, q, m, w);
            },
            None => {
                if covered(rs, q) {
                    let i = choose|i: int| 0 <= i < rs.len() && contributes(rs[i], q);
                    lemma_contributor_counted(rs, q, i);
                    assert(count_at(rs, q, base_at(rs[i], q)) == 0);
                }
            },
        }
    }
    best
}

/// Relies on String::push: appends one character to the string.
#[verifier::external_body]
pub(crate) fn push_char(s: &mut String, c: char)
    ensures
        final(s)@ == old(s)@.push(c),
{
    s.push(c)
}

/// The smallest start and the largest end over a non-empty run.
pub fn span_of(reads: &Vec<AlignedRead>) -> (r: (i64, i64))
    requires
        reads.len() > 0,
    ensures
        r.0 as int == span_start(views(reads@)),
        r.1 as int == span_end(views(reads@)),
{
    let ghost rs = views(reads@);
    let mut lo = reads[0].start;
    let mut hi = reads[0].end;
    let mut i: usize = 1;
    assert(rs.take(1).len() == 1);
    while i < reads.len()
        invariant
            1 <= i <= reads.len(),
            rs == views(reads@),
            lo as int == span_start(rs.take(i as int)),
            hi as int == span_end(rs.take(i as int)),
        decreases reads.len() - i,
    {
        assert(rs.take(i + 1).drop_last() =~= rs.take(i as int));
        if reads[i].start < lo {
            lo = reads[i].start;
        }
        if reads[i].end > hi {
            hi = reads[i].end;
        }
        i += 1;
    }
    assert(rs.take(reads.len() as int) =~= rs);
    (lo, hi)
}

/// The majority-vote consensus of a non-empty run of reads: one character for
/// each position of `[min start, max end)` that some read has a base at, the
/// most frequent base there, ties going to the smallest by [`base_rank`].
pub fn consensus_of(reads: &Vec<AlignedRead>) -> (r: String)
    requires
        reads.len() > 0,
    ensures
        r@ == consensus(views(reads@)),
{
    let ghost rs = views(reads@);
    let (lo, hi) = span_of(reads);
    let mut out = String::new();
    if lo < hi {
        let mut p: i64 = lo;
        while p < hi
            invariant
                lo <= p <= hi,
                rs == views(reads@),
                lo as int == span_start(rs),
                hi as int == span_end(rs),
                out@ == consensus_between(rs, lo as int, p as int),
            decreases hi - p,
        {
            match majority_at(reads, p) {
                Some(b) => {
                    push_char(&mut out, b as char);
                },
                None => {},
            }
            p += 1;
        }
    }
    out
}

/// The positions of `lo .. hi` that some read has a base at, in increasing order.
pub open spec fn covered_positions(rs: Seq<ReadView>, lo: int, hi: int) -> Seq<int>
    decreases hi - lo,
{
    if hi <= lo {
        Seq::empty()
    } else if covered(rs, hi - 1) {
        covered_positions(rs, lo, hi - 1).push(hi - 1)
    } else {
        covered_positions(rs, lo, hi - 1)
    }
}

proof fn lemma_positions(rs: Seq<ReadView>, lo: int, hi: int)
    ensures
        consensus_between(rs, lo, hi) == covered_positions(rs, lo, hi).map_values(
            |p: int| base_char(majority_base(rs, p)),
        ),
        forall|p: int|
            #[trigger] covered_positions(rs, lo, hi).contains(p) <==> lo <= p < hi && covered(rs, p),
        forall|i: int, j: int|
            0 <= i < j < covered_positions(rs, lo, hi).len() ==> covered_positions(rs, lo, hi)[i]
                < covered_positions(rs, lo, hi)[j],
        forall|i: int|
            0 <= i < covered_positions(rs, lo, hi).len() ==> covered_positions(rs, lo, hi)[i]
                < hi,
    decreases hi - lo,
{
    if hi > lo {
        lemma_positions(rs, lo, hi - 1);
        let prev = covered_positions(rs, lo, hi - 1);
        let ext = prev.push(hi - 1);
        assert forall|p: int| prev.push(hi - 1).contains(p) <==> prev.contains(p) || p == hi - 1 by {
            if prev.push(hi - 1).contains(p) && p != hi - 1 {
                let i = choose|i: int| 0 <= i < ext.len() && ext[i] == p;
                assert(prev[i] == p);
            }
            if p == hi - 1 {
                assert(prev.push(hi - 1)[prev.len() as int] == p);
            }
            if prev.contains(p) {
                let i = choose|i: int| 0 <= i < prev.len() && prev[i] == p;
                assert(prev.push(hi - 1)[i] == p);
            }
        }
        assert forall|p: int|
            #[trigger] covered_positions(rs, lo, hi).contains(p) <==> lo <= p < hi && covered(rs, p) by {
            assert(prev.contains(p) <==> lo <= p < hi - 1 && covered(rs, p));
            if covered(rs, hi - 1) {
                assert(covered_positions(rs, lo, hi) == ext);
                assert(ext.contains(p) <==> prev.contains(p) || p == hi - 1);
            } else {
                assert(covered_positions(rs, lo, hi) == prev);
            }
        }
        assert(consensus_between(rs, lo, hi) =~= covered_positions(rs, lo, hi).map_values(
            |p: int| base_char(majority_base(rs, p)),
        ));
    } else {
        assert forall|p: int| !#[trigger] covered_positions(rs, lo, hi).contains(p) by {
            assert(covered_positions(rs, lo, hi).len() == 0);
        }
        assert(consensus_between(rs, lo, hi) =~= covered_positions(rs, lo, hi).map_values(
            |p: int| base_char(majority_base(rs, p)),
        ));
    }
}

proof fn lemma_span_bounds(rs: Seq<ReadView>)
    requires
        rs.len() > 0,
    ensures
        forall|i: int|
            0 <= i < rs.len() ==> span_start(rs) <= #[trigger] rs[i].start && rs[i].end <= span_end(rs),
    decreases rs.len(),
{
    if rs.len() > 1 {
        lemma_span_bounds(rs.drop_last());
        assert forall|i: int|
            0 <= i < rs.len() implies span_start(rs) <= #[trigger] rs[i].start && rs[i].end
            <= span_end(rs) by {
            if i < rs.len() - 1 {
                assert(rs[i] == rs.drop_last()[i]);
            }
        }
    }
}

/// The consensus of a non-empty run has one character for each position that
/// some read has a base at, in increasing position order: every such position
/// lies in `[min start, max end)`, and no other position is emitted.
pub proof fn lemma_span_correct(rs: Seq<ReadView>)
    requires
        rs.len() > 0,
    ensures
        consensus(rs) == covered_positions(rs, span_start(rs), span_end(rs)).map_values(
            |p: int| base_char(majority_base(rs, p)),
        ),
        forall|p: int| covered(rs, p) ==> span_start(rs) <= p < span_end(rs),
        forall|p: int|
            covered_positions(rs, span_start(rs), span_end(rs)).contains(p) <==> covered(rs, p),
        forall|i: int, j: int|
            0 <= i < j < covered_positions(rs, span_start(rs), span_end(rs)).len()
                ==> covered_positions(rs, span_start(rs), span_end(rs))[i] < covered_positions(
                rs,
                span_start(rs),
                span_end(rs),
            )[j],
{
    lemma_positions(rs, span_start(rs), span_end(rs));
    lemma_span_bounds(rs);
    assert forall|p: int| covered(rs, p) implies span_start(rs) <= p < span_end(rs) by {
        let i = choose|i: int| 0 <= i < rs.len() && contributes(rs[i], p);
        assert(span_start(rs) <= rs[i].start && rs[i].end <= span_end(rs));
    }
}

} // verus!
