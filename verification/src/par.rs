//! Chunk fan-out, relied on from rayon: each wrapper maps a verified
//! sequential scanner over the windows of a chunk plan and collects one
//! partial result per window, in window order.
use vstd::prelude::*;

use rayon::iter::{IndexedParallelIterator, IntoParallelIterator, ParallelIterator};

use crate::plan::is_chunk_plan;
use crate::scan::{blank_count_chunk, line_lengths_chunk, max_line_chunk, newline_count,
    pattern_count_chunk};
use crate::text::{blank_line_count, count_byte, line_lengths, nonoverlap_count, seq_max, NL};
use crate::unicode::{char_count_chunk, char_count_mixed, word_count_chunk, word_count_mixed};

verus! {

/// The window `[bounds[k], bounds[k+1])` of a chunk plan, as a slice.
fn window<'a>(data: &'a [u8], bounds: &Vec<usize>, k: usize) -> (r: &'a [u8])
    requires
        is_chunk_plan(bounds@, data@.len() as int),
        k + 1 < bounds@.len(),
    ensures
        r@ == data@.subrange(bounds@[k as int] as int, bounds@[k as int + 1] as int),
{
    proof {
        crate::plan::lemma_plan_in_range(bounds@, data@.len() as int, k as int + 1);
    }
    let n = bounds.len();
    assert(k + 1 < n);
    let lo = bounds[k];
    let hi = bounds[k + 1];
    &data[lo..hi]
}

/// Line terminators in one window of a chunk plan.
pub fn newline_count_window(data: &[u8], bounds: &Vec<usize>, k: usize) -> (r: usize)
    requires
        is_chunk_plan(bounds@, data@.len() as int),
        k + 1 < bounds@.len(),
    ensures
        r as int == count_byte(
            data@.subrange(bounds@[k as int] as int, bounds@[k as int + 1] as int),
            NL,
        ),
{
    newline_count(window(data, bounds, k))
}

/// Blank records in one window of a chunk plan.
pub fn blank_count_window(data: &[u8], bounds: &Vec<usize>, k: usize) -> (r: usize)
    requires
        is_chunk_plan(bounds@, data@.len() as int),
        k + 1 < bounds@.len(),
    ensures
        r as int == blank_line_count(
            data@.subrange(bounds@[k as int] as int, bounds@[k as int + 1] as int),
        ),
{
    blank_count_chunk(window(data, bounds, k))
}

/// Longest record in one window of a chunk plan.
pub fn max_line_window(data: &[u8], bounds: &Vec<usize>, k: usize) -> (r: usize)
    requires
        is_chunk_plan(bounds@, data@.len() as int),
        k + 1 < bounds@.len(),
    ensures
        r as int == seq_max(
            line_lengths(data@.subrange(bounds@[k as int] as int, bounds@[k as int + 1] as int)),
        ),
{
    max_line_chunk(window(data, bounds, k))
}

/// Record lengths in one window of a chunk plan.
pub fn line_lengths_window(data: &[u8], bounds: &Vec<usize>, k: usize) -> (r: Vec<usize>)
    requires
        is_chunk_plan(bounds@, data@.len() as int),
        k + 1 < bounds@.len(),
    ensures
        r@.map_values(|x: usize| x as int) == line_lengths(
            data@.subrange(bounds@[k as int] as int, bounds@[k as int + 1] as int),
        ),
{
    line_lengths_chunk(window(data, bounds, k))
}

/// Words in one window of a chunk plan.
pub fn word_count_window(data: &[u8], bounds: &Vec<usize>, k: usize) -> (r: usize)
    requires
        is_chunk_plan(bounds@, data@.len() as int),
        k + 1 < bounds@.len(),
    ensures
        r as int == word_count_mixed(
            data@.subrange(bounds@[k as int] as int, bounds@[k as int + 1] as int),
        ),
{
    word_count_chunk(window(data, bounds, k))
}

/// Characters in one window of a chunk plan.
pub fn char_count_window(data: &[u8], bounds: &Vec<usize>, k: usize) -> (r: usize)
    requires
        is_chunk_plan(bounds@, data@.len() as int),
        k + 1 < bounds@.len(),
    ensures
        r as int == char_count_mixed(
            data@.subrange(bounds@[k as int] as int, bounds@[k as int + 1] as int),
        ),
{
    char_count_chunk(window(data, bounds, k))
}

/// Non-overlapping pattern occurrences in one window of a chunk plan.
pub fn pattern_count_window(data: &[u8], bounds: &Vec<usize>, k: usize, pat: &[u8]) -> (r: usize)
    requires
        is_chunk_plan(bounds@, data@.len() as int),
        k + 1 < bounds@.len(),
        1 <= pat@.len(),
    ensures
        r as int == nonoverlap_count(
            data@.subrange(bounds@[k as int] as int, bounds@[k as int + 1] as int),
            pat@,
        ),
{
    pattern_count_chunk(window(data, bounds, k), pat)
}

/// Relies on rayon's into_par_iter, map and collect over the window
/// indices: collect on an indexed parallel iterator returns one entry per
/// window, in window order. Each entry is computed by the verified window
/// scanner, so it equals that scanner's specification.
#[verifier::external_body]
pub(crate) fn par_newline_counts(data: &[u8], bounds: &Vec<usize>) -> (r: Vec<usize>)
    requires
        is_chunk_plan(bounds@, data@.len() as int),
    ensures
        r@.len() + 1 == bounds@.len(),
        forall|k: int|
            0 <= k < r@.len() ==> #[trigger] r@[k] as int == count_byte(
                data@.subrange(bounds@[k] as int, bounds@[k + 1] as int),
                NL,
            ),
{
    (0..bounds.len() - 1).into_par_iter().map(|k| newline_count_window(data, bounds, k)).collect()
}

/// Relies on rayon's into_par_iter, map and collect, as
/// `par_newline_counts`: one entry per window, in order, for blank
/// records.
#[verifier::external_body]
pub(crate) fn par_blank_counts(data: &[u8], bounds: &Vec<usize>) -> (r: Vec<usize>)
    requires
        is_chunk_plan(bounds@, data@.len() as int),
    ensures
        r@.len() + 1 == bounds@.len(),
        forall|k: int|
            0 <= k < r@.len() ==> #[trigger] r@[k] as int == blank_line_count(
                data@.subrange(bounds@[k] as int, bounds@[k + 1] as int),
            ),
{
    (0..bounds.len() - 1).into_par_iter().map(|k| blank_count_window(data, bounds, k)).collect()
}

/// Relies on rayon's into_par_iter, map and collect, as
/// `par_newline_counts`: one entry per window, in order, for the longest
/// record.
#[verifier::external_body]
pub(crate) fn par_max_line_lengths(data: &[u8], bounds: &Vec<usize>) -> (r: Vec<usize>)
    requires
        is_chunk_plan(bounds@, data@.len() as int),
    ensures
        r@.len() + 1 == bounds@.len(),
        forall|k: int|
            0 <= k < r@.len() ==> #[trigger] r@[k] as int == seq_max(
                line_lengths(data@.subrange(bounds@[k] as int, bounds@[k + 1] as int)),
            ),
{
    (0..bounds.len() - 1).into_par_iter().map(|k| max_line_window(data, bounds, k)).collect()
}

/// Relies on rayon's into_par_iter, map and collect, as
/// `par_newline_counts`: one entry per window, in order, for
/// record-length lists.
#[verifier::external_body]
pub(crate) fn par_line_length_lists(data: &[u8], bounds: &Vec<usize>) -> (r: Vec<Vec<usize>>)
    requires
        is_chunk_plan(bounds@, data@.len() as int),
    ensures
        r@.len() + 1 == bounds@.len(),
        forall|k: int|
            0 <= k < r@.len() ==> (#[trigger] r@[k])@.map_values(|x: usize| x as int)
                == line_lengths(data@.subrange(bounds@[k] as int, bounds@[k + 1] as int)),
{
    (0..bounds.len() - 1).into_par_iter().map(|k| line_lengths_window(data, bounds, k)).collect()
}

/// Relies on rayon's into_par_iter, map and collect, as
/// `par_newline_counts`: one entry per window, in order, for word counts.
#[verifier::external_body]
pub(crate) fn par_word_counts(data: &[u8], bounds: &Vec<usize>) -> (r: Vec<usize>)
    requires
        is_chunk_plan(bounds@, data@.len() as int),
    ensures
        r@.len() + 1 == bounds@.len(),
        forall|k: int|
            0 <= k < r@.len() ==> #[trigger] r@[k] as int == word_count_mixed(
                data@.subrange(bounds@[k] as int, bounds@[k + 1] as int),
            ),
{
    (0..bounds.len() - 1).into_par_iter().map(|k| word_count_window(data, bounds, k)).collect()
}

/// Relies on rayon's into_par_iter, map and collect, as
/// `par_newline_counts`: one entry per window, in order, for character
/// counts.
#[verifier::external_body]
pub(crate) fn par_char_counts(data: &[u8], bounds: &Vec<usize>) -> (r: Vec<usize>)
    requires
        is_chunk_plan(bounds@, data@.len() as int),
    ensures
        r@.len() + 1 == bounds@.len(),
        forall|k: int|
            0 <= k < r@.len() ==> #[trigger] r@[k] as int == char_count_mixed(
                data@.subrange(bounds@[k] as int, bounds@[k + 1] as int),
            ),
{
    (0..bounds.len() - 1).into_par_iter().map(|k| char_count_window(data, bounds, k)).collect()
}

/// Relies on rayon's into_par_iter, map and collect, as
/// `par_newline_counts`: one entry per window, in order, for pattern
/// occurrence counts.
#[verifier::external_body]
pub(crate) fn par_pattern_counts(data: &[u8], bounds: &Vec<usize>, pat: &[u8]) -> (r: Vec<usize>)
    requires
        is_chunk_plan(bounds@, data@.len() as int),
        1 <= pat@.len(),
    ensures
        r@.len() + 1 == bounds@.len(),
        forall|k: int|
            0 <= k < r@.len() ==> #[trigger] r@[k] as int == nonoverlap_count(
                data@.subrange(bounds@[k] as int, bounds@[k + 1] as int),
                pat@,
            ),
{
    (0..bounds.len() - 1).into_par_iter().map(
        |k| pattern_count_window(data, bounds, k, pat),
    ).collect()
}

} // verus!
