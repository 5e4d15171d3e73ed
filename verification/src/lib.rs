//! A verified k-mer counting core: sliding-window extraction of all
//! length-k subsequences of a byte sequence, frequency aggregation,
//! deterministic ranking (count descending, byte-lexicographic ascending
//! tie-break), base-alphabet validation, tabular rendering, and output
//! path derivation.

pub mod count;
pub mod errors;
pub mod paths;
pub mod render;
pub mod validate;
pub mod windows;

pub use count::aggregate_kmers;
pub use count::count_kmers;
pub use count::KmerRecord;
pub use errors::KmerError;
pub use paths::output_path_from_input;
pub use render::render_kmer_count;
pub use validate::check_bases;
pub use windows::kmers;
pub use windows::KMers;
