//! Byte and substring search, relied on from the `memchr` crate.
use vstd::prelude::*;

use crate::text::{count_byte, nonoverlap_count, novl_positions};

verus! {

/// Relies on memchr::memchr: the index of the first occurrence of `b` in
/// `data`, or none when `b` does not occur.
#[verifier::external_body]
pub(crate) fn memchr_first(b: u8, data: &[u8]) -> (r: Option<usize>)
    ensures
        match r {
            Some(i) => i < data@.len() && data@[i as int] == b && forall|k: int|
                0 <= k < i ==> #[trigger] data@[k] != b,
            None => forall|k: int| 0 <= k < data@.len() ==> #[trigger] data@[k] != b,
        },
{
    memchr::memchr(b, data)
}

/// Relies on memchr::memchr_iter: one iterator item per occurrence of `b`
/// in `data`, so the count of items is the count of occurrences.
#[verifier::external_body]
pub(crate) fn memchr_count(b: u8, data: &[u8]) -> (r: usize)
    ensures
        r as int == count_byte(data@, b),
{
    memchr::memchr_iter(b, data).count()
}

/// Relies on memchr::memmem::find_iter: one iterator item per
/// non-overlapping occurrence of `pat` in `data`, leftmost first.
#[verifier::external_body]
pub(crate) fn memmem_count(data: &[u8], pat: &[u8]) -> (r: usize)
    requires
        1 <= pat@.len(),
    ensures
        r as int == nonoverlap_count(data@, pat@),
{
    memchr::memmem::find_iter(data, pat).count()
}

/// Relies on memchr::memmem::find_iter: the same non-overlapping
/// occurrences of `pat` in `data`, as starting offsets in ascending order.
#[verifier::external_body]
pub(crate) fn memmem_positions(data: &[u8], pat: &[u8]) -> (r: Vec<usize>)
    requires
        1 <= pat@.len(),
    ensures
        r@.map_values(|x: usize| x as int) == novl_positions(data@, pat@),
{
    memchr::memmem::find_iter(data, pat).collect()
}

} // verus!
