//! The aligned read record and the fixed order on bases used to break ties.
use vstd::prelude::*;

verus! {

/// A decoded alignment: the half-open reference span `[start, end)`, the
/// sequenced bases, and the cell barcode when the record carried one.
#[derive(Debug)]
pub struct AlignedRead {
    pub start: i64,
    pub end: i64,
    pub bases: Vec<u8>,
    pub barcode: Option<String>,
}

/// The mathematical value of an [`AlignedRead`].
pub struct ReadView {
    pub start: int,
    pub end: int,
    pub bases: Seq<u8>,
    pub barcode: Option<Seq<char>>,
}

impl View for AlignedRead {
    type V = ReadView;

    open spec fn view(&self) -> ReadView {
        ReadView {
            start: self.start as int,
            end: self.end as int,
            bases: self.bases@,
            barcode: match self.barcode {
                Some(b) => Some(b@),
                None => None,
            },
        }
    }
}

/// The values of a sequence of reads.
pub open spec fn views(v: Seq<AlignedRead>) -> Seq<ReadView> {
    v.map_values(|r: AlignedRead| r@)
}

/// Position of a base in the tie-break order: `A < C < G < T`, then every other
/// symbol by its byte value.
pub open spec fn base_rank(b: u8) -> int {
    if b == 65 {
        0
    } else if b == 67 {
        1
    } else if b == 71 {
        2
    } else if b == 84 {
        3
    } else {
        4 + b as int
    }
}

/// Distinct bases have distinct ranks, so the tie-break order is total.
pub proof fn lemma_base_rank_injective(a: u8, b: u8)
    ensures
        base_rank(a) == base_rank(b) ==> a == b,
{
}

/// Executable form of [`base_rank`].
pub fn rank_of(b: u8) -> (r: u16)
    ensures
        r as int == base_rank(b),
{
    if b == 65 {
        0
    } else if b == 67 {
        1
    } else if b == 71 {
        2
    } else if b == 84 {
        3
    } else {
        4 + b as u16
    }
}

/// The character written for a base byte.
pub open spec fn base_char(b: u8) -> char {
    b as char
}

impl AlignedRead {
    /// A read with the given span, bases and barcode.
    pub fn new(start: i64, end: i64, bases: Vec<u8>, barcode: Option<String>) -> (r: AlignedRead)
        ensures
            r.start == start,
            r.end == end,
            r.bases@ == bases@,
            r.barcode == barcode,
    {
        AlignedRead { start, end, bases, barcode }
    }

    /// A copy with the same value.
    pub fn duplicate(&self) -> (r: AlignedRead)
        ensures
            r@ == self@,
    {
        let bases = self.bases.clone();
        assert(bases@ =~= self.bases@);
        let barcode = match &self.barcode {
            Some(b) => Some(b.clone()),
            None => None,
        };
        AlignedRead { start: self.start, end: self.end, bases, barcode }
    }
}

} // verus!
