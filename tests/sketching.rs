use std::collections::HashMap;
use sylph::genome::{unique_markers, GenomeSketchBuilder};
use sylph::pairing::{
    collect_pairs_file_names, combine_sketches, mate_digit_position, pair_stem,
    unpaired_file_name,
};
use sylph::reads::{batch_markers, SequencesSketch};
use sylph::sampler::{encode_base, extract_markers, hash64, window_marker};

fn markers_of(seq: &[u8], c: usize, k: usize) -> Vec<u64> {
    let mut out = Vec::new();
    extract_markers(seq, &mut out, c, k);
    out
}

fn pseudo_random_bases(len: usize, seed: u64) -> Vec<u8> {
    let mut state = seed;
    let mut seq = Vec::with_capacity(len);
    for _ in 0..len {
        state = state
            .wrapping_mul(6364136223846793005)
            .wrapping_add(1442695040888963407);
        seq.push(b"ACGT"[(state >> 62) as usize]);
    }
    seq
}

fn reverse_complement(seq: &[u8]) -> Vec<u8> {
    seq.iter()
        .rev()
        .map(|b| match b {
            b'A' => b'T',
            b'C' => b'G',
            b'G' => b'C',
            _ => b'A',
        })
        .collect()
}

fn sample(name: &str, counts: &[(u64, u64)]) -> SequencesSketch {
    let mut s = SequencesSketch::new(name.to_string(), 1, 3);
    for &(m, n) in counts {
        s.kmer_counts.insert(m, n);
    }
    s
}

#[test]
fn base_codes() {
    assert_eq!(encode_base(b'A'), Some(0));
    assert_eq!(encode_base(b'c'), Some(1));
    assert_eq!(encode_base(b'G'), Some(2));
    assert_eq!(encode_base(b't'), Some(3));
    assert_eq!(encode_base(b'N'), None);
}

#[test]
fn hash_values() {
    assert_eq!(hash64(0), 8633297058295171728);
    assert_eq!(hash64(1), 6614235796240398542);
    assert_eq!(hash64(6), 2792028467992890898);
}

#[test]
fn window_uses_smaller_strand() {
    // ACG reads 6 forward; its reverse complement CGT reads 27.
    assert_eq!(window_marker(b"ACG", 0, 3), Some(2792028467992890898));
    assert_eq!(window_marker(b"CGT", 0, 3), Some(2792028467992890898));
    assert_eq!(window_marker(b"ACN", 0, 3), None);
    assert_eq!(window_marker(b"ACG", 1, 3), None);
}

#[test]
fn extraction_appends_to_buffer() {
    let mut out = vec![42u64];
    extract_markers(b"ACG", &mut out, 1, 3);
    assert_eq!(out, vec![42, 2792028467992890898]);
}

#[test]
fn ambiguous_bases_break_windows() {
    let m = markers_of(b"ACGNACG", 1, 3);
    assert_eq!(m, vec![2792028467992890898, 2792028467992890898]);
}

#[test]
fn short_sequence_has_no_markers() {
    assert!(markers_of(b"ACGT", 1, 5).is_empty());
    assert!(markers_of(b"", 1, 3).is_empty());
}

#[test]
fn scalar_parity_k21() {
    let seq = pseudo_random_bases(500, 7);
    let k = 21;
    let rolled = markers_of(&seq, 1, k);
    assert_eq!(rolled.len(), seq.len() - k + 1);
    for (i, m) in rolled.iter().enumerate() {
        assert_eq!(Some(*m), window_marker(&seq, i, k));
    }
}

#[test]
fn scalar_parity_largest_k() {
    let seq = pseudo_random_bases(300, 11);
    let rolled = markers_of(&seq, 1, 32);
    assert_eq!(rolled.len(), seq.len() - 32 + 1);
    for (i, m) in rolled.iter().enumerate() {
        assert_eq!(Some(*m), window_marker(&seq, i, 32));
    }
}

#[test]
fn subsampled_markers_are_a_subsequence() {
    let seq = pseudo_random_bases(2000, 3);
    let all = markers_of(&seq, 1, 21);
    let threshold = u64::MAX / 8;
    let kept: Vec<u64> = all.into_iter().filter(|h| *h <= threshold).collect();
    assert_eq!(markers_of(&seq, 8, 21), kept);
}

#[test]
fn strand_independence() {
    let seq = pseudo_random_bases(400, 5);
    let mut fwd = markers_of(&seq, 1, 21);
    let rev = markers_of(&reverse_complement(&seq), 1, 21);
    fwd.reverse();
    assert_eq!(fwd, rev);
}

#[test]
fn determinism() {
    let seq = pseudo_random_bases(5000, 13);
    assert_eq!(markers_of(&seq, 10, 21), markers_of(&seq, 10, 21));
}

#[test]
fn subsampling_rate() {
    let seq = pseudo_random_bases(400_000, 17);
    let k = 21;
    let c = 10;
    let windows = (seq.len() - k + 1) as f64;
    let kept = markers_of(&seq, c, k).len() as f64;
    let rate = kept / windows;
    assert!((rate - 0.1).abs() < 0.005, "rate {}", rate);
}

#[test]
fn unique_markers_drop_repeats() {
    assert_eq!(unique_markers(&vec![1, 2, 3, 2, 4, 1]), vec![3, 4]);
    assert_eq!(unique_markers(&vec![]), Vec::<u64>::new());
    assert_eq!(unique_markers(&vec![9, 9, 9]), Vec::<u64>::new());
}

#[test]
fn genome_sketch_dedup() {
    let mut b = GenomeSketchBuilder::new(1, 3, "g.fa".to_string());
    // ACG and CGT are reverse complements of each other, so they share a marker.
    b.add_record("contig1".to_string(), b"ACGTA");
    b.add_record("contig2".to_string(), b"TTT");
    let g = b.finish();
    assert_eq!(g.first_contig_name, "contig1");
    assert_eq!(g.file_name, "g.fa");
    assert_eq!((g.c, g.k), (1, 3));
    let gta = window_marker(b"GTA", 0, 3).unwrap();
    let ttt = window_marker(b"TTT", 0, 3).unwrap();
    assert_eq!(g.genome_kmers, vec![gta, ttt]);
}

#[test]
fn genome_sketch_across_contigs() {
    let mut b = GenomeSketchBuilder::new(1, 3, "g.fa".to_string());
    b.add_record("a".to_string(), b"GTA");
    b.add_record("b".to_string(), b"TAC");
    let g = b.finish();
    assert!(g.genome_kmers.is_empty());
    assert_eq!(g.first_contig_name, "a");
}

#[test]
fn empty_genome() {
    let g = GenomeSketchBuilder::new(1, 3, "e.fa".to_string()).finish();
    assert_eq!(g.first_contig_name, "");
    assert!(g.genome_kmers.is_empty());
}

#[test]
fn counts_per_marker() {
    let mut s = SequencesSketch::new("r.fq".to_string(), 1, 3);
    s.add_markers(&vec![5, 5, 7]);
    s.add_markers(&vec![7, 9]);
    let expected: HashMap<u64, u64> = [(5, 2), (7, 2), (9, 1)].into_iter().collect();
    assert_eq!(s.kmer_counts, expected);
}

#[test]
fn batch_counts_match_records() {
    let records = vec![b"ACGTACGT".to_vec(), b"GGGNCCC".to_vec(), b"TTTT".to_vec()];
    let batch = batch_markers(&records, 1, 3);
    let mut expected = Vec::new();
    for r in &records {
        extract_markers(r, &mut expected, 1, 3);
    }
    assert_eq!(batch, expected);
    let mut s = SequencesSketch::new("r.fq".to_string(), 1, 3);
    s.add_markers(&batch);
    let total: u64 = s.kmer_counts.values().sum();
    assert_eq!(total as usize, expected.len());
    for m in &expected {
        let n = expected.iter().filter(|x| *x == m).count() as u64;
        assert_eq!(s.kmer_counts[m], n);
    }
}

#[test]
fn batch_order_does_not_matter() {
    let a = vec![1u64, 2, 2];
    let b = vec![2u64, 3];
    let mut s1 = SequencesSketch::new("x".to_string(), 1, 3);
    s1.add_markers(&a);
    s1.add_markers(&b);
    let mut s2 = SequencesSketch::new("x".to_string(), 1, 3);
    s2.add_markers(&b);
    s2.add_markers(&a);
    assert_eq!(s1.kmer_counts, s2.kmer_counts);
}

#[test]
fn pairing_and_merge() {
    let a = 11u64;
    let b = 12u64;
    let s1 = sample("s_1.fq", &[(a, 2)]);
    let s2 = sample("s_2.fq", &[(a, 1), (b, 1)]);
    let merged = combine_sketches(vec![s1, s2]);
    let expected: HashMap<u64, u64> = [(a, 3), (b, 1)].into_iter().collect();
    assert_eq!(merged.kmer_counts, expected);
    assert_eq!(merged.file_name, "s.fq");
    assert_eq!((merged.c, merged.k), (1, 3));
}

#[test]
fn single_sketch_name_rewritten() {
    let merged = combine_sketches(vec![sample("sample1.fasta", &[(4, 1)])]);
    assert_eq!(merged.file_name, "sample.fasta");
    assert_eq!(merged.kmer_counts.len(), 1);
    let kept = combine_sketches(vec![sample("reads.fq", &[])]);
    assert_eq!(kept.file_name, "reads.fq");
}

#[test]
fn mate_pattern() {
    assert_eq!(mate_digit_position("s_1.fq"), Some(2));
    assert_eq!(mate_digit_position("a1.b2.c"), Some(4));
    assert_eq!(mate_digit_position("1.fq"), None);
    assert_eq!(mate_digit_position("a1."), None);
    assert_eq!(mate_digit_position("a3.fq"), None);
    assert_eq!(mate_digit_position("reads.fq"), None);
    assert_eq!(pair_stem("x_2.fastq.gz"), Some("x_".to_string()));
    assert_eq!(pair_stem("reads.fq"), None);
}

#[test]
fn unpaired_names() {
    assert_eq!(unpaired_file_name("sample_1.fastq"), "sample.fastq");
    assert_eq!(unpaired_file_name("x_2.fastq.gz"), "x.fastq.gz");
    assert_eq!(unpaired_file_name("a1.b2.c"), "a1.b.c");
    assert_eq!(unpaired_file_name("reads.fq"), "reads.fq");
    assert_eq!(unpaired_file_name("é_1.fq"), "é.fq");
}

fn names(v: &[&str]) -> Vec<String> {
    v.iter().map(|s| s.to_string()).collect()
}

#[test]
fn pairs_grouped() {
    let files = names(&["a_1.fq", "b.fq", "a_2.fq"]);
    let groups = collect_pairs_file_names(&files);
    assert_eq!(groups, vec![vec![0, 2], vec![1]]);
}

#[test]
fn over_grouping_fallback() {
    let files = names(&["s_1.fq", "s_2.fq", "s_1.fastq"]);
    let groups = collect_pairs_file_names(&files);
    assert_eq!(groups, vec![vec![0], vec![1], vec![2]]);
}

#[test]
fn lone_mate_is_single() {
    let files = names(&["only_1.fq", "other.fa"]);
    let groups = collect_pairs_file_names(&files);
    assert_eq!(groups, vec![vec![0], vec![1]]);
    assert!(collect_pairs_file_names(&Vec::new()).is_empty());
}
