use kmer::check_bases;
use kmer::count_kmers;
use kmer::kmers;
use kmer::output_path_from_input;
use kmer::KmerError;
use kmer::KmerRecord;

/// test helper to run the window generator
fn kmers_vec(sequence: &[u8], k: usize) -> Vec<Vec<u8>> {
    kmers(sequence, k).unwrap()
}

/// test helper to convert a tuple vector to a record vector
fn kmer_count_from_tuples(item: Vec<(&str, u64)>) -> Vec<KmerRecord> {
    item.into_iter()
        .map(|x| KmerRecord {
            seq: x.0.as_bytes().to_vec(),
            count: x.1,
        })
        .collect()
}

#[test]
/// kmers_vec simplifies comparisons
fn lib_test_kmers_vec_helper_demo() -> Result<(), KmerError> {
    assert_eq!(kmers(b"ABCD", 2)?, kmers_vec(b"ABCD", 2));
    Ok(())
}

#[test]
fn lib_test_kmers_fn_basic() {
    assert_eq!(
        kmers_vec(b"ABCD", 1),
        vec![b"A".to_vec(), b"B".to_vec(), b"C".to_vec(), b"D".to_vec()]
    );
    assert_eq!(
        kmers_vec(b"ABCD", 2),
        vec![b"AB".to_vec(), b"BC".to_vec(), b"CD".to_vec()]
    );
    assert_eq!(kmers_vec(b"ABCD", 3), vec![b"ABC".to_vec(), b"BCD".to_vec()]);
    assert_eq!(kmers_vec(b"ABCD", 4), vec![b"ABCD".to_vec()]);
}

#[test]
fn lib_test_kmer_0() -> Result<(), String> {
    match kmers(b"ABCD", 0) {
        Err(e) => Ok(assert_eq!(e, KmerError::KmerLengthTooSmall { k: 0 })),
        Ok(_) => Err(String::from("Should have generated error on k = 0")),
    }
}

#[test]
fn lib_test_kmer_empty_string() -> Result<(), String> {
    match kmers(b"", 10) {
        Err(err) => Ok(assert_eq!(
            err,
            KmerError::KmerLengthTooLong { k: 10, seq_len: 0 }
        )),
        Ok(_) => Err(String::from("Should have generated error on empty string")),
    }
}

#[test]
fn lib_test_kmer_k_too_big() -> Result<(), String> {
    match kmers(b"ABC", 10) {
        Err(err) => Ok(assert_eq!(
            err,
            KmerError::KmerLengthTooLong { k: 10, seq_len: 3 }
        )),
        Ok(_) => Err(String::from(
            "Should have generated error when k > length of sequence",
        )),
    }
}

#[test]
fn lib_test_count_kmers() {
    let sequence = b"ATCGGATCG";
    let expected: Vec<KmerRecord> = kmer_count_from_tuples(vec![
        ("ATC", 2),
        ("TCG", 2),
        ("CGG", 1),
        ("GAT", 1),
        ("GGA", 1),
    ]);
    assert_eq!(count_kmers(sequence, 3).unwrap(), expected);
}

#[test]
fn test_output_path_from_input() {
    assert_eq!(
        b"/output/dir/path_kmer.txt".to_vec(),
        output_path_from_input(b"/a/input/dir/path.txt", b"/a/input", b"/output").unwrap()
    );
}

#[test]
fn test_check_bases_success() {
    check_bases(b"ATCGATGCAAA").unwrap();
}

#[test]
fn test_check_bases_bad_base() {
    assert_eq!(
        check_bases(b"ATCNTTZ").unwrap_err(),
        KmerError::IncorrectBases {
            bases: b"NZ".to_vec()
        }
    );
}
