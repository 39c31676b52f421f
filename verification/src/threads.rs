//! How many threads to use.

use vstd::prelude::*;

use crate::text::{parse_usize, parsed_usize};

verus! {

/// The number of threads that a setting asks for: zero where there is no setting, or where
/// it is not a number.
pub open spec fn threads_asked_for(setting: Option<Seq<char>>) -> usize {
    match setting {
        Some(s) => match parsed_usize(s) {
            Some(n) => n,
            None => 0,
        },
        None => 0,
    }
}

/// Reads the number of threads from a setting.
pub fn get_num_threads(setting: Option<&str>) -> (n: usize)
    ensures
        n == threads_asked_for(match setting {
            Some(s) => Some(s@),
            None => None,
        }),
{
    match setting {
        Some(s) => match parse_usize(s) {
            Some(n) => n,
            None => 0,
        },
        None => 0,
    }
}

/// The size of the thread pool to create, or `None` to use the global pool: zero threads
/// mean the global pool.
pub fn custom_pool_size(num_threads: usize) -> (size: Option<usize>)
    ensures
        size == if num_threads > 0 {
            Some(num_threads)
        } else {
            None
        },
{
    if num_threads > 0 {
        Some(num_threads)
    } else {
        None
    }
}

} // verus!
