pub mod burrows_wheeler_transform;
pub mod knuth_morris_pratt;
pub mod manacher;
pub mod matching;
pub mod rabin_karp;
pub mod reverse;
pub mod text;
