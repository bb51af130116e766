//! Properties that hold across the library: chunked decoding reproduces
//! the whole-buffer decode, and every statistic takes its zero value on an
//! empty buffer. The per-statistic seam properties live beside their
//! models: `text::lemma_blanks_split`, `text::lemma_lens_split`,
//! `text::lemma_count_byte_split`, `text::lemma_occ_prefix_step` and
//! `unicode::lemma_words_split`.
use vstd::prelude::*;

use crate::plan::{is_chunk_plan, lemma_plan_char_boundary, lemma_plan_in_range, utf8_aligned};
use crate::text::{
    blank_line_count, count_byte, count_val, line_lengths, nonoverlap_count, occurrence_count,
    seq_max, seq_sum,
};
use crate::unicode::{char_count_mixed, word_count_mixed};
use crate::words::word_tokens;
use vstd::utf8::{decode_utf8, decode_utf8_split, valid_utf8, valid_utf8_split};

verus! {

/// Under a UTF-8-aligned chunk plan over a valid buffer, each chunk is
/// itself valid UTF-8, and decoding the chunks one after another extends
/// the decode of the buffer prefix: chunk-wise decoding reproduces the
/// whole-buffer decode.
pub proof fn lemma_utf8_chunks_decode(s: Seq<u8>, bs: Seq<usize>, k: int)
    requires
        valid_utf8(s),
        is_chunk_plan(bs, s.len() as int),
        utf8_aligned(s, bs),
        0 <= k < bs.len() - 1,
    ensures
        valid_utf8(s.subrange(bs[k] as int, bs[k + 1] as int)),
        decode_utf8(s.subrange(0, bs[k + 1] as int)) == decode_utf8(s.subrange(0, bs[k] as int))
            + decode_utf8(s.subrange(bs[k] as int, bs[k + 1] as int)),
{
    lemma_plan_in_range(bs, s.len() as int, k + 1);
    let b0 = bs[k] as int;
    let b1 = bs[k + 1] as int;
    lemma_plan_char_boundary(s, bs, k + 1);
    valid_utf8_split(s, b1);
    let t = s.subrange(0, b1);
    assert(valid_utf8(t));
    vstd::utf8::is_char_boundary_start_end_of_seq(t);
    if b0 != 0 {
        lemma_plan_char_boundary(s, bs, k);
        assert(t[b0] == s[b0]);
        vstd::utf8::is_char_boundary_iff_not_is_continuation_byte(s, b0);
        vstd::utf8::is_char_boundary_iff_not_is_continuation_byte(t, b0);
    }
    valid_utf8_split(t, b0);
    decode_utf8_split(t, b0);
    assert(t.subrange(0, b0) =~= s.subrange(0, b0));
    assert(t.subrange(b0, t.len() as int) =~= s.subrange(b0, b1));
}

/// On an empty buffer every statistic takes its zero value: zero counts,
/// an empty length list, and an empty word set, for any byte and any
/// pattern.
pub proof fn lemma_empty_input_zero(p: Seq<u8>, b: u8)
    ensures
        count_byte(Seq::<u8>::empty(), b) == 0,
        blank_line_count(Seq::<u8>::empty()) == 0,
        line_lengths(Seq::<u8>::empty()) == Seq::<int>::empty(),
        seq_max(line_lengths(Seq::<u8>::empty())) == 0,
        seq_sum(line_lengths(Seq::<u8>::empty())) == 0,
        count_val(line_lengths(Seq::<u8>::empty()), 0) == 0,
        word_count_mixed(Seq::<u8>::empty()) == 0,
        char_count_mixed(Seq::<u8>::empty()) == 0,
        nonoverlap_count(Seq::<u8>::empty(), p) == 0,
        occurrence_count(Seq::<u8>::empty(), p) == 0,
        word_tokens(Seq::<u8>::empty()).to_set().len() == 0,
{
    let e = Seq::<u8>::empty();
    assert(line_lengths(e) =~= Seq::<int>::empty());
    assert(valid_utf8(e));
    assert(decode_utf8(e) =~= Seq::<char>::empty());
    assert(word_tokens(e) =~= Seq::<Seq<u8>>::empty());
    assert(word_tokens(e).no_duplicates());
    word_tokens(e).unique_seq_to_set();
}

} // verus!
