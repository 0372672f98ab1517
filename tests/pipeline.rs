use bam_aligner::bam_subset::{chunk_bounds, BamSubset};
use bam_aligner::consensus::{consensus_of, majority_at, span_of};
use bam_aligner::contigs::{merge_overlapping, sort_reads};
use bam_aligner::read::{rank_of, AlignedRead};
use bam_aligner::records::{format_record, transcripts};

fn read(start: i64, bases: &str, barcode: Option<&str>) -> AlignedRead {
    AlignedRead::new(
        start,
        start + bases.len() as i64,
        bases.as_bytes().to_vec(),
        barcode.map(|b| b.to_string()),
    )
}

fn subset(threads: usize, reads: Vec<AlignedRead>) -> BamSubset {
    let mut s = BamSubset::new(threads);
    for r in reads {
        s.push(r);
    }
    s
}

#[test]
fn concrete_scenario_two_transcripts() {
    let s = subset(
        1,
        vec![
            read(0, "ACGTA", Some("AAAA")),
            read(3, "TAGGC", Some("AAAA")),
            read(10, "TTTTT", Some("AAAA")),
        ],
    );
    assert_eq!(
        s.assemble_contigs(),
        vec![
            ">AAAA|transcript_1\nACGTAGGC".to_string(),
            ">AAAA|transcript_2\nTTTTT".to_string()
        ]
    );
}

#[test]
fn tie_goes_to_smaller_base() {
    let reads = vec![read(0, "G", Some("B")), read(0, "C", Some("B"))];
    let first = consensus_of(&reads);
    assert_eq!(first, "C");
    for _ in 0..5 {
        assert_eq!(consensus_of(&reads), first);
    }
    let reads = vec![read(0, "T", None), read(0, "A", None)];
    assert_eq!(consensus_of(&reads), "A");
}

#[test]
fn other_symbols_rank_after_t() {
    let reads = vec![read(0, "N", None), read(0, "T", None)];
    assert_eq!(consensus_of(&reads), "T");
    assert!(rank_of(b'T') < rank_of(b'N'));
    assert!(rank_of(b'A') < rank_of(b'C'));
    assert!(rank_of(b'C') < rank_of(b'G'));
    assert!(rank_of(b'G') < rank_of(b'T'));
}

#[test]
fn majority_beats_rank() {
    let reads = vec![
        read(0, "GG", None),
        read(0, "GA", None),
        read(0, "AA", None),
        read(1, "C", None),
    ];
    assert_eq!(consensus_of(&reads), "GA");
}

#[test]
fn same_barcode_same_group_any_order() {
    let a = subset(
        2,
        vec![
            read(0, "AC", Some("X")),
            read(5, "GT", Some("Y")),
            read(1, "CA", Some("X")),
        ],
    );
    assert_eq!(a.len(), 2);
    assert_eq!(a.groups[0].barcode, "X");
    assert_eq!(a.groups[0].reads.len(), 2);
    assert_eq!(a.groups[1].barcode, "Y");
    assert_eq!(a.groups[1].reads.len(), 1);
    let b = subset(
        2,
        vec![
            read(1, "CA", Some("X")),
            read(5, "GT", Some("Y")),
            read(0, "AC", Some("X")),
        ],
    );
    assert_eq!(b.len(), 2);
    assert_eq!(b.groups[0].reads.len(), 2);
    assert_eq!(a.assemble_contigs(), b.assemble_contigs());
}

#[test]
fn read_without_barcode_is_dropped() {
    let s = subset(1, vec![read(0, "AC", None), read(0, "GG", Some("Z"))]);
    assert_eq!(s.len(), 1);
    assert_eq!(s.assemble_contigs(), vec![">Z|transcript_1\nGG".to_string()]);
    let empty = subset(1, vec![read(0, "AC", None)]);
    assert_eq!(empty.len(), 0);
    assert!(empty.assemble_contigs().is_empty());
}

#[test]
fn disjoint_reads_give_one_contig_each() {
    let reads: Vec<AlignedRead> =
        (0..12).map(|i| read(i * 10, "ACG", Some("Q"))).collect();
    let out = transcripts(&"Q".to_string(), &reads);
    assert_eq!(out.len(), 12);
    assert_eq!(out[0], ">Q|transcript_1\nACG");
    assert_eq!(out[11], ">Q|transcript_12\nACG");
}

#[test]
fn touching_reads_merge() {
    let reads = vec![read(0, "AAA", None), read(3, "CCC", None)];
    let runs = merge_overlapping(&reads);
    assert_eq!(runs.len(), 1);
    assert_eq!(consensus_of(&runs[0]), "AAACCC");
}

#[test]
fn unsorted_group_is_sorted_before_merging() {
    let reads = vec![
        read(10, "TTTTT", Some("U")),
        read(3, "TAGGC", Some("U")),
        read(0, "ACGTA", Some("U")),
    ];
    let sorted = sort_reads(&reads);
    let starts: Vec<i64> = sorted.iter().map(|r| r.start).collect();
    assert_eq!(starts, vec![0, 3, 10]);
    assert_eq!(
        transcripts(&"U".to_string(), &reads),
        vec![
            ">U|transcript_1\nACGTAGGC".to_string(),
            ">U|transcript_2\nTTTTT".to_string()
        ]
    );
}

#[test]
fn sort_keeps_arrival_order_of_equal_keys() {
    let reads = vec![
        read(5, "A", None),
        read(2, "C", None),
        read(5, "G", None),
        read(2, "T", None),
    ];
    let sorted = sort_reads(&reads);
    let bases: Vec<u8> = sorted.iter().map(|r| r.bases[0]).collect();
    assert_eq!(bases, b"CTAG".to_vec());
}

#[test]
fn uncovered_positions_are_skipped() {
    // The second read claims [2, 8) but holds only two bases.
    let reads = vec![
        read(0, "AC", None),
        AlignedRead::new(2, 8, b"GT".to_vec(), None),
    ];
    assert_eq!(span_of(&reads), (0, 8));
    assert_eq!(consensus_of(&reads), "ACGT");
    assert_eq!(majority_at(&reads, 5), None);
    assert_eq!(majority_at(&reads, 3), Some(b'T'));
}

#[test]
fn span_is_min_start_to_max_end() {
    let reads = vec![
        AlignedRead::new(4, 6, b"GG".to_vec(), None),
        AlignedRead::new(1, 9, b"AAAAAAAA".to_vec(), None),
    ];
    assert_eq!(span_of(&reads), (1, 9));
    assert_eq!(consensus_of(&reads), "AAAAAAAA");
}

#[test]
fn worker_count_does_not_change_output() {
    let mut reads = Vec::new();
    for (k, bc) in ["AAAA", "CCCC", "GGGG", "TTTT", "ACGT"].iter().enumerate() {
        reads.push(read(0, "ACGTA", Some(bc)));
        reads.push(read(3 + (k as i64 % 3), "TAGGC", Some(bc)));
        reads.push(read(20, "TTTTT", Some(bc)));
    }
    let dup = |rs: &Vec<AlignedRead>| -> Vec<AlignedRead> { rs.iter().map(|r| r.duplicate()).collect() };
    let one = subset(1, dup(&reads)).assemble_contigs();
    assert_eq!(one.len(), 10);
    for w in [0usize, 2, 3, 7, 64] {
        assert_eq!(subset(w, dup(&reads)).assemble_contigs(), one);
    }
    assert_eq!(one[0], ">AAAA|transcript_1\nACGTAGGC");
    assert_eq!(one[9], ">ACGT|transcript_2\nTTTTT");
}

#[test]
fn chunks_are_near_equal() {
    assert_eq!(chunk_bounds(10, 3), vec![(0, 3), (3, 6), (6, 10)]);
    assert_eq!(chunk_bounds(2, 4), vec![(0, 0), (0, 1), (1, 1), (1, 2)]);
    assert_eq!(chunk_bounds(0, 1), vec![(0, 0)]);
}

#[test]
fn record_text_layout() {
    assert_eq!(format_record(&"BC".to_string(), 107, &"ACGT".to_string()), ">BC|transcript_107\nACGT");
    assert_eq!(format_record(&"".to_string(), 0, &"".to_string()), ">|transcript_0\n");
}

#[test]
fn build_consensus_matches_free_function() {
    let s = BamSubset::new(1);
    let reads = vec![read(0, "ACGTA", None), read(3, "TAGGC", None)];
    assert_eq!(s.build_consensus(&reads), "ACGTAGGC");
}
