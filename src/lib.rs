pub mod circular;
pub mod eight_puzzle;
pub mod error;
pub mod kdtrees;
pub mod percolation;
mod random;
pub mod randomized_queue;
pub mod sieve;
pub mod union_find;
pub mod util;
pub mod wordnet;
