pub mod bubble_sort;
pub mod bucket_sort;
pub mod cocktail_shaker_sort;
pub mod comb_sort;
pub mod counting_sort;
pub mod gnome_sort;
pub mod heap_sort;
pub mod inversions;
pub mod merge_sort;
pub mod odd_even_sort;
pub mod quick_sort;
pub mod radix_sort;
pub mod selection_sort;
pub mod shell_sort;
pub mod slices;
pub mod stooge_sort;
pub mod tim_sort;
