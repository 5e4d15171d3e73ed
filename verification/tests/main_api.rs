use kmer::count_kmers;
use kmer::kmers;
use kmer::KMers;
use kmer::KmerError;
use kmer::KmerRecord;

/// test helper to run the window generator, lazily flavoured: a length
/// error yields no windows, as the lazy generator hands out none either
fn kmers_vec(sequence: &[u8], k: usize) -> Vec<Vec<u8>> {
    kmers(sequence, k).unwrap_or_default()
}

/// test helper to convert a tuple vector to a record vector
fn kmer_count_from_tuples(item: Vec<(&str, u64)>) -> Vec<KmerRecord> {
    item.into_iter()
        .map(|x| KmerRecord {
            seq: x.0.as_bytes().to_vec(),
            count: x.1,
        })
        .collect()
}

#[test]
fn test_kmers_iterator_basic() {
    let mut state = KMers::new(b"ABCD".to_vec(), 2);
    let mut collected: Vec<Vec<u8>> = Vec::new();
    while let Some(w) = state.next() {
        collected.push(w);
    }
    assert_eq!(
        collected,
        vec![b"AB".to_vec(), b"BC".to_vec(), b"CD".to_vec()]
    );
}

#[test]
/// kmers_vec simplifies comparisons
fn main_test_kmers_vec_helper_demo() -> Result<(), KmerError> {
    assert_eq!(kmers(b"ABCD", 2)?, kmers_vec(b"ABCD", 2));
    Ok(())
}

#[test]
fn main_test_kmers_fn_basic() {
    assert_eq!(
        kmers_vec(b"ABCD", 1),
        vec![b"A".to_vec(), b"B".to_vec(), b"C".to_vec(), b"D".to_vec()]
    );
    assert_eq!(
        kmers_vec(b"ABCD", 2),
        vec![b"AB".to_vec(), b"BC".to_vec(), b"CD".to_vec()]
    );
    assert_eq!(kmers_vec(b"ABCD", 3), vec![b"ABC".to_vec(), b"BCD".to_vec()]);
    assert_eq!(kmers_vec(b"ABCD", 4), vec![b"ABCD".to_vec()]);
}

#[test]
fn main_test_kmer_0() {
    let empty_vec: Vec<Vec<u8>> = vec![];
    assert_eq!(kmers_vec(b"ABCD", 0), empty_vec);
}

#[test]
fn main_test_kmer_empty_string() {
    let empty_vec: Vec<Vec<u8>> = vec![];
    assert_eq!(kmers_vec(b"", 10), empty_vec);
}

#[test]
fn main_test_kmer_k_too_big() {
    let empty_vec: Vec<Vec<u8>> = vec![];
    assert_eq!(kmers_vec(b"ABCDE", 10), empty_vec);
}

#[test]
fn main_test_count_kmers() {
    let sequence = b"ATCGGATCG";
    let expected: Vec<KmerRecord> = kmer_count_from_tuples(vec![
        ("ATC", 2),
        ("TCG", 2),
        ("CGG", 1),
        ("GAT", 1),
        ("GGA", 1),
    ]);
    assert_eq!(count_kmers(sequence, 3).unwrap(), expected);
}
