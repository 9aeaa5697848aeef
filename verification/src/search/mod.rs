pub mod binary_search;
pub mod binary_search_rec;
pub mod kth_smallest;
pub mod linear_search;
