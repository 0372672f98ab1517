//! Groups aligned reads by cell barcode, merges overlapping reads into
//! contigs, and builds one majority-vote consensus sequence per contig.

pub mod read;
pub mod consensus;
pub mod contigs;
pub mod records;
pub mod bam_subset;
