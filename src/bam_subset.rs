//! Reads grouped by barcode, and the parallel assembly of every group.
use vstd::prelude::*;
use rayon::iter::{IntoParallelRefIterator, ParallelIterator};
use vstd::arithmetic::div_mod::{lemma_div_is_ordered, lemma_div_by_multiple};
use vstd::arithmetic::mul::{lemma_mul_inequality, lemma_mul_is_commutative};
use crate::read::{AlignedRead, ReadView, views};
use crate::consensus::{consensus, consensus_of};
use crate::records::{group_texts, texts, transcripts};

verus! {

/// The reads that share one barcode, in arrival order.
pub struct BarcodeGroup {
    pub barcode: String,
    pub reads: Vec<AlignedRead>,
}

/// The value of a [`BarcodeGroup`].
pub struct GroupView {
    pub barcode: Seq<char>,
    pub reads: Seq<ReadView>,
}

impl View for BarcodeGroup {
    type V = GroupView;

    open spec fn view(&self) -> GroupView {
        GroupView { barcode: self.barcode@, reads: views(self.reads@) }
    }
}

/// The values of a sequence of groups.
pub open spec fn group_views(v: Seq<BarcodeGroup>) -> Seq<GroupView> {
    v.map_values(|g: BarcodeGroup| g@)
}

/// Groups are keyed by distinct barcodes, none is empty, and every read in a
/// group carries that group's barcode.
pub open spec fn groups_wf(gs: Seq<GroupView>) -> bool {
    &&& forall|i: int, j: int|
        0 <= i < gs.len() && 0 <= j < gs.len() && i != j ==> gs[i].barcode != gs[j].barcode
    &&& forall|i: int| 0 <= i < gs.len() ==> #[trigger] gs[i].reads.len() > 0
    &&& forall|i: int, k: int|
        0 <= i < gs.len() && 0 <= k < gs[i].reads.len() ==> #[trigger] gs[i].reads[k].barcode
            == Some(gs[i].barcode)
}

/// Some group has barcode `b`.
pub open spec fn has_group(gs: Seq<GroupView>, b: Seq<char>) -> bool {
    exists|i: int| 0 <= i < gs.len() && gs[i].barcode == b
}

/// The index of the group with barcode `b`, where there is one.
pub open spec fn group_index(gs: Seq<GroupView>, b: Seq<char>) -> int {
    choose|i: int| 0 <= i < gs.len() && gs[i].barcode == b
}

/// The groups after taking in read `r`: a read without barcode is dropped; any
/// other is appended to the group of its barcode, which is created, last, on
/// first sight.
pub open spec fn ingest(gs: Seq<GroupView>, r: ReadView) -> Seq<GroupView> {
    match r.barcode {
        None => gs,
        Some(b) => if has_group(gs, b) {
            let i = group_index(gs, b);
            gs.update(i, GroupView { barcode: b, reads: gs[i].reads.push(r) })
        } else {
            gs.push(GroupView { barcode: b, reads: seq![r] })
        },
    }
}

/// The groups after taking in the reads of `rs` in order.
pub open spec fn ingest_all(rs: Seq<ReadView>) -> Seq<GroupView>
    decreases rs.len(),
{
    if rs.len() == 0 {
        seq![]
    } else {
        ingest(ingest_all(rs.drop_last()), rs.last())
    }
}

/// The reads of `rs` that carry barcode `b`, in their order in `rs`.
pub open spec fn with_barcode(rs: Seq<ReadView>, b: Seq<char>) -> Seq<ReadView>
    decreases rs.len(),
{
    if rs.len() == 0 {
        seq![]
    } else if rs.last().barcode == Some(b) {
        with_barcode(rs.drop_last(), b).push(rs.last())
    } else {
        with_barcode(rs.drop_last(), b)
    }
}

/// The records of groups `lo .. hi`, group after group.
pub open spec fn records_between(gs: Seq<GroupView>, lo: int, hi: int) -> Seq<Seq<char>>
    decreases hi - lo,
{
    if hi <= lo {
        seq![]
    } else {
        records_between(gs, lo, hi - 1) + group_texts(gs[hi - 1].barcode, gs[hi - 1].reads)
    }
}

/// The records of all groups, ordered by group (in order of first sight of the
/// barcode), then by transcript number.
pub open spec fn all_records(gs: Seq<GroupView>) -> Seq<Seq<char>> {
    records_between(gs, 0, gs.len() as int)
}

/// Where chunk `i` of `w` near-equal chunks of `0 .. n` begins.
pub open spec fn chunk_start(n: int, w: int, i: int) -> int {
    i * n / w
}

/// The records of chunks `0 .. k` of `w` chunks, chunk after chunk.
pub open spec fn chunked_records(gs: Seq<GroupView>, w: int, k: int) -> Seq<Seq<char>>
    decreases k,
{
    if k <= 0 {
        seq![]
    } else {
        let n = gs.len() as int;
        chunked_records(gs, w, k - 1) + records_between(
            gs,
            chunk_start(n, w, k - 1),
            chunk_start(n, w, k),
        )
    }
}

/// The chunks begin at 0, end at `n`, and do not go backwards.
pub proof fn lemma_chunk_start(n: int, w: int, i: int)
    requires
        n >= 0,
        w >= 1,
        0 <= i <= w,
    ensures
        chunk_start(n, w, 0) == 0,
        chunk_start(n, w, w) == n,
        0 <= chunk_start(n, w, i) <= n,
        i < w ==> chunk_start(n, w, i) <= chunk_start(n, w, i + 1),
{
    assert(0 * n == 0);
    lemma_mul_is_commutative(w, n);
    lemma_div_by_multiple(n, w);
    lemma_mul_inequality(i, w, n);
    lemma_mul_inequality(0, i, n);
    lemma_div_is_ordered(0, i * n, w);
    lemma_div_is_ordered(i * n, w * n, w);
    if i < w {
        lemma_mul_inequality(i, i + 1, n);
        lemma_div_is_ordered(i * n, (i + 1) * n, w);
    }
}

/// Records of adjacent ranges of groups join into the records of their union.
pub proof fn lemma_records_split(gs: Seq<GroupView>, lo: int, mid: int, hi: int)
    requires
        lo <= mid <= hi,
    ensures
        records_between(gs, lo, mid) + records_between(gs, mid, hi) == records_between(gs, lo, hi),
    decreases hi - mid,
{
    if hi == mid {
        assert(records_between(gs, lo, mid) + records_between(gs, mid, hi) =~= records_between(
            gs,
            lo,
            hi,
        ));
    } else {
        lemma_records_split(gs, lo, mid, hi - 1);
        assert(records_between(gs, lo, mid) + records_between(gs, mid, hi) =~= records_between(
            gs,
            lo,
            mid,
        ) + records_between(gs, mid, hi - 1) + group_texts(gs[hi - 1].barcode, gs[hi - 1].reads));
    }
}

/// The records of the first `k` chunks are those of the groups they cover.
proof fn lemma_chunked_prefix(gs: Seq<GroupView>, w: int, k: int)
    requires
        w >= 1,
        0 <= k <= w,
    ensures
        chunked_records(gs, w, k) == records_between(gs, 0, chunk_start(gs.len() as int, w, k)),
    decreases k,
{
    let n = gs.len() as int;
    lemma_chunk_start(n, w, k);
    if k > 0 {
        lemma_chunked_prefix(gs, w, k - 1);
        lemma_chunk_start(n, w, k - 1);
        lemma_records_split(gs, 0, chunk_start(n, w, k - 1), chunk_start(n, w, k));
    }
}

/// Splitting the groups into any number of chunks, processing each chunk on
/// its own and joining the results chunk after chunk gives the records of all
/// groups; so the output does not depend on the number of workers.
pub proof fn lemma_worker_count_irrelevant(gs: Seq<GroupView>, w1: int, w2: int)
    requires
        w1 >= 1,
        w2 >= 1,
    ensures
        chunked_records(gs, w1, w1) == all_records(gs),
        chunked_records(gs, w1, w1) == chunked_records(gs, w2, w2),
{
    lemma_chunked_prefix(gs, w1, w1);
    lemma_chunked_prefix(gs, w2, w2);
    lemma_chunk_start(gs.len() as int, w1, w1);
    lemma_chunk_start(gs.len() as int, w2, w2);
}

/// Reads that carry the same barcode are in the same group.
pub proof fn lemma_same_barcode_same_group(gs: Seq<GroupView>, i: int, k: int, j: int, l: int)
    requires
        groups_wf(gs),
        0 <= i < gs.len(),
        0 <= k < gs[i].reads.len(),
        0 <= j < gs.len(),
        0 <= l < gs[j].reads.len(),
        gs[i].reads[k].barcode == gs[j].reads[l].barcode,
    ensures
        i == j,
{
    assert(gs[i].reads[k].barcode == Some(gs[i].barcode));
    assert(gs[j].reads[l].barcode == Some(gs[j].barcode));
}

/// Taking in a read keeps the groups well formed.
pub proof fn lemma_ingest_wf(gs: Seq<GroupView>, r: ReadView)
    requires
        groups_wf(gs),
    ensures
        groups_wf(ingest(gs, r)),
{
    match r.barcode {
        None => {},
        Some(b) => {
            let out = ingest(gs, r);
            if has_group(gs, b) {
                let i = group_index(gs, b);
                assert forall|x: int, k: int|
                    0 <= x < out.len() && 0 <= k < out[x].reads.len() implies #[trigger] out[x].reads[k].barcode
                    == Some(out[x].barcode) by {
                    if x == i && k < gs[i].reads.len() {
                        assert(out[x].reads[k] == gs[i].reads[k]);
                    }
                }
            } else {
                assert forall|x: int, k: int|
                    0 <= x < out.len() && 0 <= k < out[x].reads.len() implies #[trigger] out[x].reads[k].barcode
                    == Some(out[x].barcode) by {
                    if x < gs.len() {
                        assert(out[x] == gs[x]);
                    }
                }
            }
        },
    }
}

/// The records of groups `lo .. hi`.
pub fn records_in(groups: &Vec<BarcodeGroup>, lo: usize, hi: usize) -> (r: Vec<String>)
    requires
        lo <= hi <= groups.len(),
    ensures
        texts(r@) == records_between(group_views(groups@), lo as int, hi as int),
{
    let ghost gs = group_views(groups@);
    let mut out: Vec<String> = Vec::new();
    let mut i: usize = lo;
    while i < hi
        invariant
            lo <= i <= hi <= groups.len(),
            gs == group_views(groups@),
            texts(out@) == records_between(gs, lo as int, i as int),
        decreases hi - i,
    {
        let g = &groups[i];
        assert(g@ == gs[i as int]);
        let mut part = transcripts(&g.barcode, &g.reads);
        let ghost before = out@;
        let ghost added = part@;
        out.append(&mut part);
        assert(texts(out@) =~= texts(before) + texts(added));
        i += 1;
    }
    out
}

/// The `w` near-equal chunks of `0 .. n`, as pairs of bounds.
pub fn chunk_bounds(n: usize, w: usize) -> (r: Vec<(usize, usize)>)
    requires
        w >= 1,
    ensures
        r@.len() == w,
        forall|i: int|
            0 <= i < w ==> #[trigger] r@[i].0 as int == chunk_start(n as int, w as int, i)
                && r@[i].1 as int == chunk_start(n as int, w as int, i + 1),
{
    let mut out: Vec<(usize, usize)> = Vec::new();
    let mut lo: usize = 0;
    let mut i: usize = 0;
    proof {
        lemma_chunk_start(n as int, w as int, 0);
    }
    while i < w
        invariant
            i <= w,
            w >= 1,
            out@.len() == i,
            lo as int == chunk_start(n as int, w as int, i as int),
            forall|k: int|
                0 <= k < i ==> #[trigger] out@[k].0 as int == chunk_start(n as int, w as int, k)
                    && out@[k].1 as int == chunk_start(n as int, w as int, k + 1),
        decreases w - i,
    {
        proof {
            lemma_chunk_start(n as int, w as int, i + 1);
            assert((i + 1) as int * n as int <= (w as int) * (n as int)) by (nonlinear_arith)
                requires
                    i + 1 <= w,
            ;
            assert((w as int) * (n as int) <= 0xffff_ffff_ffff_ffff * 0xffff_ffff_ffff_ffff) by (nonlinear_arith)
                requires
                    w <= 0xffff_ffff_ffff_ffff,
                    n <= 0xffff_ffff_ffff_ffff,
            ;
        }
        let prod: u128 = (i as u128 + 1) * (n as u128);
        let hi: usize = (prod / (w as u128)) as usize;
        out.push((lo, hi));
        lo = hi;
        i += 1;
    }
    out
}

/// Relies on rayon's `par_iter().map(..).collect()` into a `Vec`: an indexed
/// parallel iterator collects the mapped items in the order of the input.
/// Each chunk `(lo, hi)` becomes the records of groups `lo .. hi`.
#[verifier::external_body]
fn records_of_chunks(groups: &Vec<BarcodeGroup>, bounds: &Vec<(usize, usize)>) -> (r: Vec<
    Vec<String>,
>)
    requires
        forall|i: int|
            0 <= i < bounds@.len() ==> #[trigger] bounds@[i].0 <= bounds@[i].1 <= groups@.len(),
    ensures
        r@.len() == bounds@.len(),
        forall|i: int|
            0 <= i < bounds@.len() ==> #[trigger] texts(r@[i]@) == records_between(
                group_views(groups@),
                bounds@[i].0 as int,
                bounds@[i].1 as int,
            ),
{
    bounds.par_iter().map(|&(lo, hi)| records_in(groups, lo, hi)).collect()
}

/// Reads grouped by cell barcode, with the number of workers to assemble them.
pub struct BamSubset {
    pub groups: Vec<BarcodeGroup>,
    pub num_threads: usize,
}

impl BamSubset {
    /// The groups, as values.
    pub open spec fn groups_view(&self) -> Seq<GroupView> {
        group_views(self.groups@)
    }

    /// The groups are well formed.
    pub open spec fn wf(&self) -> bool {
        groups_wf(self.groups_view())
    }

    /// No reads yet; `num_threads` workers will assemble them.
    pub fn new(num_threads: usize) -> (r: BamSubset)
        ensures
            r.wf(),
            r.groups_view() == Seq::<GroupView>::empty(),
            r.num_threads == num_threads,
    {
        let r = BamSubset { groups: Vec::new(), num_threads };
        assert(r.groups_view() =~= Seq::<GroupView>::empty());
        r
    }

    /// Takes in one read: dropped without a barcode, else appended to the group
    /// of its barcode, a new group being made on first sight.
    pub fn push(&mut self, record: AlignedRead)
        requires
            old(self).wf(),
        ensures
            final(self).wf(),
            final(self).groups_view() == ingest(old(self).groups_view(), record@),
            final(self).num_threads == old(self).num_threads,
    {
        let ghost gs = self.groups_view();
        let ghost rv = record@;
        proof {
            lemma_ingest_wf(gs, rv);
        }
        let barcode = match &record.barcode {
            None => {
                return;
            },
            Some(b) => b.clone(),
        };
        let mut i: usize = 0;
        while i < self.groups.len()
            invariant
                i <= self.groups.len(),
                gs == group_views(self.groups@),
                groups_wf(gs),
                gs == old(self).groups_view(),
                rv == record@,
                rv.barcode == Some(barcode@),
                self.num_threads == old(self).num_threads,
                forall|k: int| 0 <= k < i ==> #[trigger] gs[k].barcode != barcode@,
            decreases self.groups.len() - i,
        {
            if self.groups[i].barcode == barcode {
                assert(gs[i as int].barcode == barcode@);
                assert(has_group(gs, barcode@));
                let ghost j = group_index(gs, barcode@);
                assert(j == i) by {
                    if j != i {
                        assert(gs[j].barcode != gs[i as int].barcode);
                    }
                }
                let ghost before = self.groups@;
                let mut g = self.groups.remove(i);
                assert(g == before[i as int]);
                g.reads.push(record);
                assert(views(g.reads@) =~= gs[i as int].reads.push(rv));
                let ghost gv = g@;
                self.groups.insert(i, g);
                assert(self.groups@ =~= before.update(i as int, self.groups@[i as int]));
                assert(self.groups_view() =~= gs.update(i as int, gv));
                assert(self.groups_view() =~= ingest(gs, rv));
                return;
            }
            i += 1;
        }
        let mut reads: Vec<AlignedRead> = Vec::new();
        reads.push(record);
        assert(views(reads@) =~= seq![rv]);
        self.groups.push(BarcodeGroup { barcode, reads });
        assert(!has_group(gs, barcode@));
        assert(self.groups_view() =~= ingest(gs, rv));
    }

    /// The number of distinct barcodes taken in.
    pub fn len(&self) -> (r: usize)
        ensures
            r == self.groups_view().len(),
    {
        self.groups.len()
    }

    /// The consensus of a non-empty run of reads.
    pub fn build_consensus(&self, contig_reads: &Vec<AlignedRead>) -> (r: String)
        requires
            contig_reads.len() > 0,
        ensures
            r@ == consensus(views(contig_reads@)),
    {
        consensus_of(contig_reads)
    }

    /// The records of every group: the barcodes are split into
    /// `max(num_threads, 1)` near-equal chunks processed in parallel, and the
    /// results are joined chunk after chunk, so they come ordered by group,
    /// then by transcript number, whatever the number of workers.
    pub fn assemble_contigs(&self) -> (r: Vec<String>)
        ensures
            texts(r@) == all_records(self.groups_view()),
    {
        let ghost gs = self.groups_view();
        let n = self.groups.len();
        let w: usize = if self.num_threads < 1 {
            1
        } else {
            self.num_threads
        };
        let bounds = chunk_bounds(n, w);
        proof {
            assert forall|i: int| 0 <= i < bounds@.len() implies #[trigger] bounds@[i].0
                <= bounds@[i].1 <= self.groups@.len() by {
                lemma_chunk_start(n as int, w as int, i);
                lemma_chunk_start(n as int, w as int, i + 1);
                assert(bounds@[i].0 as int == chunk_start(n as int, w as int, i));
                assert(bounds@[i].1 as int == chunk_start(n as int, w as int, i + 1));
            }
        }
        let parts = records_of_chunks(&self.groups, &bounds);
        let mut out: Vec<String> = Vec::new();
        let mut k: usize = 0;
        while k < w
            invariant
                k <= w,
                w >= 1,
                n == gs.len(),
                gs == group_views(self.groups@),
                parts@.len() == w,
                forall|i: int|
                    0 <= i < w ==> #[trigger] texts(parts@[i]@) == records_between(
                        gs,
                        chunk_start(n as int, w as int, i),
                        chunk_start(n as int, w as int, i + 1),
                    ),
                texts(out@) == chunked_records(gs, w as int, k as int),
            decreases w - k,
        {
            let part = &parts[k];
            let mut j: usize = 0;
            let ghost base = out@;
            while j < part.len()
                invariant
                    j <= part.len(),
                    out@.len() == base.len() + j,
                    forall|x: int| 0 <= x < base.len() ==> out@[x] == base[x],
                    forall|x: int| 0 <= x < j ==> out@[base.len() + x] == part@[x],
                decreases part.len() - j,
            {
                out.push(part[j].clone());
                j += 1;
            }
            assert(texts(out@) =~= texts(base) + texts(part@));
            assert(texts(out@) =~= chunked_records(gs, w as int, k + 1));
            k += 1;
        }
        proof {
            lemma_worker_count_irrelevant(gs, w as int, w as int);
        }
        out
    }
}

/// In well-formed groups the group of a barcode is found where it stands.
proof fn lemma_group_index_at(gs: Seq<GroupView>, i: int)
    requires
        groups_wf(gs),
        0 <= i < gs.len(),
    ensures
        has_group(gs, gs[i].barcode),
        group_index(gs, gs[i].barcode) == i,
{
    let b = gs[i].barcode;
    assert(has_group(gs, b));
    let j = group_index(gs, b);
    if j != i {
        assert(gs[j].barcode != gs[i].barcode);
    }
}

/// Whatever the reads and their order, taking them in gives well-formed
/// groups in which the group of barcode `b` exists exactly when some read
/// carries `b`, and holds exactly the reads that carry `b`, in arrival order.
/// So two reads with the same barcode always share a group.
pub proof fn lemma_groups_by_barcode(rs: Seq<ReadView>, b: Seq<char>)
    ensures
        groups_wf(ingest_all(rs)),
        has_group(ingest_all(rs), b) <==> with_barcode(rs, b).len() > 0,
        has_group(ingest_all(rs), b) ==> ingest_all(rs)[group_index(ingest_all(rs), b)].reads
            == with_barcode(rs, b),
    decreases rs.len(),
{
    if rs.len() > 0 {
        let d = rs.drop_last();
        let x = rs.last();
        let gs = ingest_all(d);
        let out = ingest_all(rs);
        lemma_groups_by_barcode(d, b);
        lemma_ingest_wf(gs, x);
        assert(out == ingest(gs, x));
        match x.barcode {
            None => {},
            Some(c) => {
                if has_group(gs, c) {
                    let i = group_index(gs, c);
                    if has_group(gs, b) {
                        let j = group_index(gs, b);
                        lemma_group_index_at(gs, j);
                        lemma_group_index_at(out, j);
                        assert(out[j].barcode == b);
                    }
                    if c == b {
                        lemma_group_index_at(out, i);
                        assert(with_barcode(rs, b) == with_barcode(d, b).push(x));
                    } else if has_group(out, b) {
                        let k = group_index(out, b);
                        assert(gs[k].barcode == b);
                    }
                } else {
                    let n = gs.len() as int;
                    if has_group(gs, b) {
                        let j = group_index(gs, b);
                        lemma_group_index_at(gs, j);
                        lemma_group_index_at(out, j);
                        assert(out[j] == gs[j]);
                    }
                    if c == b {
                        lemma_group_index_at(out, n);
                        assert(with_barcode(d, b) =~= seq![]);
                        assert(with_barcode(rs, b) =~= seq![x]);
                    } else if has_group(out, b) {
                        let k = group_index(out, b);
                        if k < n {
                            assert(gs[k].barcode == b);
                        }
                    }
                }
            },
        }
    }
}

} // verus!
