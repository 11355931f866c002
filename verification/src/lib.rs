//! Classic algorithms and small data structures, each with a contract that Verus proves.
//!
//! The heart of the crate is [`sort`]: a merge sort that needs no memory beside the slice it
//! sorts, a quicksort without recursion that draws its pivots from a caller's generator, and
//! a selection sort to hold them against. [`order`] says what the sorts ask of the elements'
//! order, [`sequence`] what "sorted", "rearranged" and "ties keep their order" mean, and
//! [`merging`] and [`work_stack`] hold the reasoning behind the two bigger sorts.
//!
//! Beside them stand a binary search, a scan for the nearest smaller element to the left,
//! the edit distance of two strings, longest increasing subsequences, the longest run of
//! numbers under a limit, and a stack and a queue that know their largest element.

pub mod binary_search;
pub mod left_nearest_number;
pub mod levenshtein_distance;
pub mod longest_increasing_subsequence;
pub mod longest_subsequence_below_or_equal_m;
pub mod merging;
pub mod order;
pub mod sequence;
pub mod sort;
pub mod stack_with_constant_max;
pub mod two_stack_queue;
pub mod work_stack;
