use kmer::aggregate_kmers;
use kmer::check_bases;
use kmer::count_kmers;
use kmer::kmers;
use kmer::output_path_from_input;
use kmer::render_kmer_count;
use kmer::KMers;
use kmer::KmerError;
use kmer::KmerRecord;

fn records(item: Vec<(&str, u64)>) -> Vec<KmerRecord> {
    item.into_iter()
        .map(|x| KmerRecord {
            seq: x.0.as_bytes().to_vec(),
            count: x.1,
        })
        .collect()
}

#[test]
fn window_count_matches_formula() {
    for (s, k) in [
        (b"ATCGGATCG".as_slice(), 1usize),
        (b"ATCGGATCG".as_slice(), 3),
        (b"ATCGGATCG".as_slice(), 9),
        (b"A".as_slice(), 1),
    ] {
        let ws = kmers(s, k).unwrap();
        assert_eq!(ws.len(), s.len() - k + 1);
        for w in &ws {
            assert_eq!(w.len(), k);
        }
    }
}

#[test]
fn counts_sum_to_window_count() {
    for (s, k) in [
        (b"ATCGGATCG".as_slice(), 3usize),
        (b"AAAAAA".as_slice(), 2),
        (b"ABCD".as_slice(), 1),
    ] {
        let table = count_kmers(s, k).unwrap();
        let total: u64 = table.iter().map(|r| r.count).sum();
        assert_eq!(total, (s.len() - k + 1) as u64);
    }
}

#[test]
fn ranked_output_reproducible() {
    let first = count_kmers(b"ATCGGATCGNNATCG", 4).unwrap();
    let second = count_kmers(b"ATCGGATCGNNATCG", 4).unwrap();
    assert_eq!(first, second);
    assert_eq!(
        render_kmer_count(&first),
        render_kmer_count(&second)
    );
}

#[test]
fn ranked_order_adjacent_invariant() {
    let table = count_kmers(b"GGCATCGATCGGGGTTAACG", 2).unwrap();
    for pair in table.windows(2) {
        let (a, b) = (&pair[0], &pair[1]);
        assert!(a.count > b.count || (a.count == b.count && a.seq < b.seq));
    }
}

#[test]
fn kmer_zero_always_too_small() {
    for s in [b"".as_slice(), b"A".as_slice(), b"ATCG".as_slice()] {
        assert_eq!(
            kmers(s, 0).unwrap_err(),
            KmerError::KmerLengthTooSmall { k: 0 }
        );
        assert_eq!(
            count_kmers(s, 0).unwrap_err(),
            KmerError::KmerLengthTooSmall { k: 0 }
        );
    }
}

#[test]
fn kmer_longer_than_sequence_rejected() {
    assert_eq!(
        count_kmers(b"ABC", 10).unwrap_err(),
        KmerError::KmerLengthTooLong { k: 10, seq_len: 3 }
    );
}

#[test]
fn empty_sequence_rejected() {
    for k in [1usize, 5] {
        assert_eq!(
            count_kmers(b"", k).unwrap_err(),
            KmerError::KmerLengthTooLong { k, seq_len: 0 }
        );
    }
}

#[test]
fn ranked_scenario_rendered() {
    let table = count_kmers(b"ATCGGATCG", 3).unwrap();
    assert_eq!(
        table,
        records(vec![
            ("ATC", 2),
            ("TCG", 2),
            ("CGG", 1),
            ("GAT", 1),
            ("GGA", 1),
        ])
    );
    assert_eq!(
        render_kmer_count(&table),
        b"kmer\tcount\nATC\t2\nTCG\t2\nCGG\t1\nGAT\t1\nGGA\t1\n".to_vec()
    );
}

#[test]
fn single_symbol_kmers_alphabetical() {
    let table = count_kmers(b"ABCD", 1).unwrap();
    assert_eq!(
        table,
        records(vec![("A", 1), ("B", 1), ("C", 1), ("D", 1)])
    );
}

#[test]
fn invalid_bases_still_counted() {
    assert_eq!(
        check_bases(b"ATCNTTZ").unwrap_err(),
        KmerError::IncorrectBases {
            bases: b"NZ".to_vec()
        }
    );
    let table = count_kmers(b"ATCNTTZ", 1).unwrap();
    assert_eq!(
        table,
        records(vec![("T", 3), ("A", 1), ("C", 1), ("N", 1), ("Z", 1)])
    );
}

#[test]
fn render_multi_digit_count() {
    let table = count_kmers(b"AAAAAAAAAAAA", 1).unwrap();
    assert_eq!(table, records(vec![("A", 12)]));
    assert_eq!(
        render_kmer_count(&table),
        b"kmer\tcount\nA\t12\n".to_vec()
    );
}

#[test]
fn render_empty_table() {
    let table: Vec<KmerRecord> = Vec::new();
    assert_eq!(render_kmer_count(&table), b"kmer\tcount\n".to_vec());
}

#[test]
fn aggregate_counts_every_window() {
    let ws = kmers(b"ATCGGATCG", 3).unwrap();
    let table = aggregate_kmers(&ws);
    let total: u64 = table.iter().map(|r| r.count).sum();
    assert_eq!(total, ws.len() as u64);
    for w in &ws {
        assert!(table.iter().any(|r| &r.seq == w));
    }
}

#[test]
fn lazy_generator_edge_cases() {
    let mut zero = KMers::new(b"ABCD".to_vec(), 0);
    assert_eq!(zero.next(), None);
    let mut short = KMers::new(b"AB".to_vec(), 3);
    assert_eq!(short.next(), None);
    let mut exact = KMers::new(b"AB".to_vec(), 2);
    assert_eq!(exact.next(), Some(b"AB".to_vec()));
    assert_eq!(exact.next(), None);
}

#[test]
fn output_path_edge_cases() {
    assert_eq!(output_path_from_input(b"/b/x/f.txt", b"/a", b"/out"), None);
    assert_eq!(
        output_path_from_input(b"/a/f", b"/a", b"/o").unwrap(),
        b"/o/f_kmer.txt".to_vec()
    );
    assert_eq!(output_path_from_input(b"/a/dir/", b"/a", b"/o"), None);
}
