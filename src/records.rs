//! The labelled consensus records of one barcode group.
use vstd::prelude::*;
use crate::read::{AlignedRead, ReadView, views};
use crate::consensus::{consensus, consensus_of, push_char};
use crate::contigs::{contigs, sort_reads, merge_overlapping, run_views, lemma_runs_nonempty};

verus! {

/// The character of a decimal digit.
pub open spec fn digit_char(d: u8) -> char {
    ((48 + d) as u8) as char
}

/// The decimal notation of `n`, without leading zeros.
pub open spec fn decimal(n: nat) -> Seq<char>
    decreases n,
{
    if n < 10 {
        seq![digit_char(n as u8)]
    } else {
        decimal(n / 10).push(digit_char((n % 10) as u8))
    }
}

/// The text of one record: `>{barcode}|transcript_{n}`, a line break, then the
/// consensus sequence.
pub open spec fn record_text(barcode: Seq<char>, n: nat, sequence: Seq<char>) -> Seq<char> {
    ">"@ + barcode + "|transcript_"@ + decimal(n) + "\n"@ + sequence
}

/// The records of a group with barcode `barcode` and reads `rs`: one per
/// contig, numbered from 1 in contig order.
pub open spec fn group_texts(barcode: Seq<char>, rs: Seq<ReadView>) -> Seq<Seq<char>> {
    let cs = contigs(rs);
    Seq::new(cs.len(), |i: int| record_text(barcode, (i + 1) as nat, consensus(cs[i])))
}

/// The contents of a sequence of strings.
pub open spec fn texts(v: Seq<String>) -> Seq<Seq<char>> {
    v.map_values(|s: String| s@)
}

/// Appends the decimal notation of `n`.
fn push_decimal(s: &mut String, n: usize)
    ensures
        final(s)@ == old(s)@ + decimal(n as nat),
    decreases n,
{
    if n >= 10 {
        push_decimal(s, n / 10);
    }
    let d: u8 = (n % 10) as u8;
    push_char(s, (48u8 + d) as char);
    assert(final(s)@ =~= old(s)@ + decimal(n as nat));
}

/// The text of one record, as [`record_text`] states it.
pub fn format_record(barcode: &String, n: usize, sequence: &String) -> (r: String)
    ensures
        r@ == record_text(barcode@, n as nat, sequence@),
{
    let mut out = String::new();
    out.append(">");
    out.append(barcode.as_str());
    out.append("|transcript_");
    push_decimal(&mut out, n);
    out.append("\n");
    out.append(sequence.as_str());
    assert(out@ =~= record_text(barcode@, n as nat, sequence@));
    out
}

/// Orders a group's reads, splits them into contigs and gives one labelled
/// consensus record per contig.
pub fn transcripts(barcode: &String, reads: &Vec<AlignedRead>) -> (r: Vec<String>)
    ensures
        texts(r@) == group_texts(barcode@, views(reads@)),
{
    let ghost rs = views(reads@);
    let sorted = sort_reads(reads);
    let runs = merge_overlapping(&sorted);
    proof {
        lemma_runs_nonempty(views(sorted@));
    }
    let ghost cs = contigs(rs);
    let mut out: Vec<String> = Vec::new();
    let mut i: usize = 0;
    while i < runs.len()
        invariant
            i <= runs.len(),
            cs == run_views(runs@),
            cs == contigs(rs),
            out@.len() == i,
            forall|k: int| 0 <= k < cs.len() ==> #[trigger] cs[k].len() > 0,
            texts(out@) =~= group_texts(barcode@, rs).take(i as int),
        decreases runs.len() - i,
    {
        assert(views(runs@[i as int]@) == cs[i as int]);
        let sequence = consensus_of(&runs[i]);
        let rec = format_record(barcode, i + 1, &sequence);
        out.push(rec);
        assert(texts(out@)[i as int] == group_texts(barcode@, rs)[i as int]);
        i += 1;
    }
    assert(group_texts(barcode@, rs).take(runs.len() as int) =~= group_texts(barcode@, rs));
    out
}

} // verus!
