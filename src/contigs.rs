//! Ordering a group's reads and splitting them into runs of overlapping reads.
use vstd::prelude::*;
use crate::read::{AlignedRead, ReadView, views};

verus! {

/// `a` comes no later than `b` when reads are ordered by start, then end.
pub open spec fn read_le(a: ReadView, b: ReadView) -> bool {
    a.start < b.start || (a.start == b.start && a.end <= b.end)
}

/// `x` put into the ordered sequence `s` after every read that does not come
/// later than it.
pub open spec fn insert_ordered(s: Seq<ReadView>, x: ReadView) -> Seq<ReadView>
    decreases s.len(),
{
    if s.len() == 0 {
        seq![x]
    } else if read_le(s.last(), x) {
        s.push(x)
    } else {
        insert_ordered(s.drop_last(), x).push(s.last())
    }
}

/// The reads of `s` ordered by start, then end; reads with equal keys keep
/// their arrival order.
pub open spec fn sorted_reads(s: Seq<ReadView>) -> Seq<ReadView>
    decreases s.len(),
{
    if s.len() == 0 {
        s
    } else {
        insert_ordered(sorted_reads(s.drop_last()), s.last())
    }
}

/// The state of the greedy merge: the closed runs, the open run and the
/// largest end seen in it.
pub struct MergeState {
    pub closed: Seq<Seq<ReadView>>,
    pub run: Seq<ReadView>,
    pub run_end: int,
}

/// The merge state after reading `s` left to right: a read that starts no
/// later than the open run's end joins it, any other read closes the open run
/// and opens a new one.
pub open spec fn merge_state(s: Seq<ReadView>) -> MergeState
    decreases s.len(),
{
    if s.len() == 0 {
        MergeState { closed: seq![], run: seq![], run_end: 0 }
    } else {
        let st = merge_state(s.drop_last());
        let x = s.last();
        if st.run.len() > 0 && x.start <= st.run_end {
            MergeState {
                closed: st.closed,
                run: st.run.push(x),
                run_end: if x.end > st.run_end {
                    x.end
                } else {
                    st.run_end
                },
            }
        } else if st.run.len() > 0 {
            MergeState { closed: st.closed.push(st.run), run: seq![x], run_end: x.end }
        } else {
            MergeState { closed: st.closed, run: seq![x], run_end: x.end }
        }
    }
}

/// The runs of the greedy merge of `s`, in order.
pub open spec fn merge_runs(s: Seq<ReadView>) -> Seq<Seq<ReadView>> {
    let st = merge_state(s);
    if st.run.len() > 0 {
        st.closed.push(st.run)
    } else {
        st.closed
    }
}

/// The contigs of a group: the runs of its reads once ordered.
pub open spec fn contigs(s: Seq<ReadView>) -> Seq<Seq<ReadView>> {
    merge_runs(sorted_reads(s))
}

/// Where the scan for the insertion point stops, the insertion is a splice.
proof fn lemma_insert_at(s: Seq<ReadView>, x: ReadView, j: int)
    requires
        0 <= j <= s.len(),
        j > 0 ==> read_le(s[j - 1], x),
        forall|k: int| j <= k < s.len() ==> !read_le(#[trigger] s[k], x),
    ensures
        insert_ordered(s, x) == s.take(j).push(x) + s.skip(j),
    decreases s.len(),
{
    if s.len() == j {
        assert(s.skip(j) =~= seq![]);
        assert(s.take(j) =~= s);
        if j > 0 {
            assert(s.last() == s[j - 1]);
        }
        assert(s.take(j).push(x) + s.skip(j) =~= s.push(x));
    } else {
        let d = s.drop_last();
        assert(!read_le(s[s.len() - 1], x));
        lemma_insert_at(d, x, j);
        assert(d.take(j) =~= s.take(j));
        assert((d.take(j).push(x) + d.skip(j)).push(s.last()) =~= s.take(j).push(x) + s.skip(j));
    }
}

/// The reads of `reads`, ordered by start, then end, equal keys in arrival order.
pub fn sort_reads(reads: &Vec<AlignedRead>) -> (r: Vec<AlignedRead>)
    ensures
        views(r@) == sorted_reads(views(reads@)),
{
    let ghost rs = views(reads@);
    let mut out: Vec<AlignedRead> = Vec::new();
    let mut i: usize = 0;
    assert(rs.take(0) =~= seq![]);
    assert(views(out@) =~= seq![]);
    while i < reads.len()
        invariant
            i <= reads.len(),
            rs == views(reads@),
            views(out@) == sorted_reads(rs.take(i as int)),
        decreases reads.len() - i,
    {
        let x = &reads[i];
        let ghost s = views(out@);
        let mut j: usize = out.len();
        while j > 0 && !(out[j - 1].start < x.start || (out[j - 1].start == x.start && out[j
            - 1].end <= x.end))
            invariant
                j <= out.len(),
                s == views(out@),
                forall|k: int| j <= k < s.len() ==> !read_le(#[trigger] s[k], x@),
            decreases j,
        {
            j -= 1;
        }
        proof {
            lemma_insert_at(s, x@, j as int);
            assert(rs.take(i + 1).drop_last() =~= rs.take(i as int));
        }
        out.insert(j, x.duplicate());
        assert(views(out@) =~= s.take(j as int).push(x@) + s.skip(j as int));
        i += 1;
    }
    assert(rs.take(reads.len() as int) =~= rs);
    out
}

/// The views of a sequence of runs.
pub open spec fn run_views(v: Seq<Vec<AlignedRead>>) -> Seq<Seq<ReadView>> {
    v.map_values(|r: Vec<AlignedRead>| views(r@))
}

/// Splits reads, taken in the order given, into maximal runs of overlapping
/// reads.
pub fn merge_overlapping(reads: &Vec<AlignedRead>) -> (r: Vec<Vec<AlignedRead>>)
    ensures
        run_views(r@) == merge_runs(views(reads@)),
{
    let ghost rs = views(reads@);
    let mut closed: Vec<Vec<AlignedRead>> = Vec::new();
    let mut run: Vec<AlignedRead> = Vec::new();
    let mut run_end: i64 = 0;
    let mut i: usize = 0;
    assert(rs.take(0) =~= seq![]);
    assert(run_views(closed@) =~= seq![]);
    assert(views(run@) =~= seq![]);
    while i < reads.len()
        invariant
            i <= reads.len(),
            rs == views(reads@),
            run_views(closed@) == merge_state(rs.take(i as int)).closed,
            views(run@) == merge_state(rs.take(i as int)).run,
            run@.len() > 0 ==> run_end as int == merge_state(rs.take(i as int)).run_end,
        decreases reads.len() - i,
    {
        let x = &reads[i];
        proof {
            assert(rs.take(i + 1).drop_last() =~= rs.take(i as int));
            assert(rs.take(i + 1).last() == x@);
        }
        if run.len() > 0 && x.start <= run_end {
            run.push(x.duplicate());
            assert(views(run@) =~= merge_state(rs.take(i + 1)).run);
            if x.end > run_end {
                run_end = x.end;
            }
        } else {
            let was_open = run.len() > 0;
            let mut fresh: Vec<AlignedRead> = Vec::new();
            fresh.push(x.duplicate());
            let done = run;
            run = fresh;
            if was_open {
                closed.push(done);
                assert(run_views(closed@) =~= merge_state(rs.take(i + 1)).closed);
            }
            assert(views(run@) =~= merge_state(rs.take(i + 1)).run);
            run_end = x.end;
        }
        i += 1;
    }
    assert(rs.take(reads.len() as int) =~= rs);
    if run.len() > 0 {
        closed.push(run);
        assert(run_views(closed@) =~= merge_runs(rs));
    }
    closed
}

/// Every run that the merge closes or leaves open holds at least one read.
pub proof fn lemma_runs_nonempty(s: Seq<ReadView>)
    ensures
        forall|i: int| 0 <= i < merge_runs(s).len() ==> #[trigger] merge_runs(s)[i].len() > 0,
        forall|i: int|
            0 <= i < merge_state(s).closed.len() ==> #[trigger] merge_state(s).closed[i].len() > 0,
        s.len() > 0 ==> merge_state(s).run.len() > 0,
    decreases s.len(),
{
    if s.len() > 0 {
        let d = s.drop_last();
        lemma_runs_nonempty(d);
        let st = merge_state(d);
        assert forall|i: int| 0 <= i < merge_state(s).closed.len() implies #[trigger] merge_state(
            s,
        ).closed[i].len() > 0 by {
            if i < st.closed.len() {
                assert(st.closed[i].len() > 0);
            }
        }
    }
    assert forall|i: int| 0 <= i < merge_runs(s).len() implies #[trigger] merge_runs(s)[i].len()
        > 0 by {
        if i < merge_state(s).closed.len() {
            assert(merge_state(s).closed[i].len() > 0);
        }
    }
}

/// Each read starts after every earlier one has ended.
pub open spec fn disjoint_in_order(s: Seq<ReadView>) -> bool {
    &&& forall|i: int| 0 <= i < s.len() ==> #[trigger] s[i].start <= s[i].end
    &&& forall|i: int, j: int| 0 <= j < i < s.len() ==> #[trigger] s[j].end < #[trigger] s[i].start
}

proof fn lemma_disjoint_state(s: Seq<ReadView>)
    requires
        disjoint_in_order(s),
    ensures
        sorted_reads(s) == s,
        s.len() > 0 ==> merge_state(s).closed.len() == s.len() - 1 && merge_state(s).run.len() == 1
            && merge_state(s).run_end == s.last().end,
    decreases s.len(),
{
    if s.len() > 0 {
        let d = s.drop_last();
        assert(disjoint_in_order(d)) by {
            assert forall|i: int, j: int| 0 <= j < i < d.len() implies #[trigger] d[j].end
                < #[trigger] d[i].start by {
                assert(s[j].end < s[i].start);
            }
            assert forall|i: int| 0 <= i < d.len() implies #[trigger] d[i].start <= d[i].end by {
                assert(s[i].start <= s[i].end);
            }
        }
        lemma_disjoint_state(d);
        if d.len() > 0 {
            let k = d.len() - 1;
            assert(s[k].end < s[s.len() - 1].start);
            assert(s[k].start <= s[k].end);
            assert(read_le(d.last(), s.last()));
        }
        assert(d.push(s.last()) =~= s);
    }
}

/// Reads that each start after all earlier reads have ended give one contig
/// per read.
pub proof fn lemma_disjoint_reads_one_contig_each(s: Seq<ReadView>)
    requires
        disjoint_in_order(s),
    ensures
        contigs(s).len() == s.len(),
{
    lemma_disjoint_state(s);
}

} // verus!
