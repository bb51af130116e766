//! Public statistics: each function states its result over the byte-level
//! model and chooses between one sequential pass and the chunked path,
//! whose reduction is proved equal to the sequential specification.
use vstd::prelude::*;

use crate::par::{
    par_blank_counts, par_char_counts, par_max_line_lengths, par_newline_counts,
    par_pattern_counts, par_word_counts,
};
use crate::plan::{
    is_chunk_plan, lemma_plan_char_boundary, lemma_plan_in_range, line_aligned,
    plan_fixed_boundaries, plan_line_boundaries, plan_utf8_boundaries, utf8_aligned,
};
use crate::scan::{blank_count_chunk, max_line_chunk, newline_count, pattern_count_chunk};
use crate::search::memchr_first;
use crate::text::{
    blank_line_count, count_byte, lemma_blanks_bound, lemma_blanks_split, lemma_count_byte_bound,
    lemma_count_byte_split, lemma_lens_bounds, lemma_lens_split, lemma_novl_eq_occ,
    lemma_novl_mul_bound, lemma_novl_positions_props, lemma_occ_between_bound,
    lemma_occ_from_between, lemma_seq_max_concat,
    lemma_seq_max_nonneg, line_lengths, no_self_overlap, nonoverlap_count, novl_from, occ_between,
    occurrence_count, occurs_at, seq_max, clip0, NL,
};
use crate::unicode::{
    ascii_ws_text, char_count_chunk, char_count_mixed, char_word_count, lemma_ascii_ws_text_split,
    lemma_decode_le_len, lemma_wcc_bound, lemma_word_count_mixed_bound, lemma_words_split,
    word_count_chunk, word_count_mixed,
};
use crate::{CHUNK_SIZE, PARALLEL_THRESHOLD};
use vstd::utf8::{
    decode_utf8, decode_utf8_split, is_char_boundary_iff_not_is_continuation_byte,
    is_char_boundary_start_end_of_seq, valid_utf8, valid_utf8_split,
};

verus! {

/// Number of line terminators in `data`.
pub fn count_lines(data: &[u8]) -> (r: usize)
    ensures
        r as int == count_byte(data@, NL),
{
    if data.len() < PARALLEL_THRESHOLD {
        return newline_count(data);
    }
    let ghost s = data@;
    let bounds = plan_fixed_boundaries(data.len(), CHUNK_SIZE);
    let parts = par_newline_counts(data, &bounds);
    let mut total: usize = 0;
    let mut k: usize = 0;
    while k < parts.len()
        invariant
            s == data@,
            is_chunk_plan(bounds@, s.len() as int),
            parts@.len() + 1 == bounds@.len(),
            forall|j: int|
                0 <= j < parts@.len() ==> #[trigger] parts@[j] as int == count_byte(
                    s.subrange(bounds@[j] as int, bounds@[j + 1] as int),
                    NL,
                ),
            k <= parts@.len(),
            total as int == count_byte(s.subrange(0, bounds@[k as int] as int), NL),
        decreases parts@.len() - k,
    {
        proof {
            lemma_plan_in_range(bounds@, s.len() as int, k as int + 1);
            let b0 = bounds@[k as int] as int;
            let b1 = bounds@[k as int + 1] as int;
            lemma_count_byte_split(s, NL, 0, b0);
            lemma_count_byte_split(s, NL, 0, b1);
            lemma_count_byte_split(s, NL, b0, b1);
            lemma_count_byte_bound(s.subrange(0, b1), NL, 0);
        }
        total = total + parts[k];
        k = k + 1;
    }
    proof {
        assert(s.subrange(0, s.len() as int) =~= s);
    }
    total
}

/// Number of blank records of `data`.
#[verifier::rlimit(60)]
pub fn count_blank_lines(data: &[u8]) -> (r: usize)
    ensures
        r as int == blank_line_count(data@),
{
    if data.len() == 0 {
        return 0;
    }
    if data.len() < PARALLEL_THRESHOLD {
        return blank_count_chunk(data);
    }
    let ghost s = data@;
    let bounds = plan_line_boundaries(data, CHUNK_SIZE);
    let parts = par_blank_counts(data, &bounds);
    let mut total: usize = 0;
    let mut k: usize = 0;
    while k < parts.len()
        invariant
            s == data@,
            is_chunk_plan(bounds@, s.len() as int),
            line_aligned(s, bounds@),
            parts@.len() + 1 == bounds@.len(),
            forall|j: int|
                0 <= j < parts@.len() ==> #[trigger] parts@[j] as int == blank_line_count(
                    s.subrange(bounds@[j] as int, bounds@[j + 1] as int),
                ),
            k <= parts@.len(),
            total as int == blank_line_count(s.subrange(0, bounds@[k as int] as int)),
        decreases parts@.len() - k,
    {
        proof {
            lemma_plan_in_range(bounds@, s.len() as int, k as int + 1);
            let b0 = bounds@[k as int] as int;
            let b1 = bounds@[k as int + 1] as int;
            let t = s.subrange(0, b1);
            assert(b0 == 0 || b0 == t.len() || t[b0 - 1] == NL) by {
                if k >= 1 && b0 < b1 {
                    assert(b0 < s.len());
                    assert(bounds@[k as int] as int == s.len() || s[b0 - 1] == NL);
                }
            }
            lemma_blanks_split(t, b0);
            assert(t.take(b0) =~= s.subrange(0, b0));
            assert(t.skip(b0) =~= s.subrange(b0, b1));
            lemma_blanks_bound(t, 0, 0);
        }
        total = total + parts[k];
        k = k + 1;
    }
    proof {
        assert(s.subrange(0, s.len() as int) =~= s);
    }
    total
}

/// Length of the longest record of `data`, or 0 when there is none.
pub fn max_line_length(data: &[u8]) -> (r: usize)
    ensures
        r as int == seq_max(line_lengths(data@)),
{
    if data.len() == 0 {
        return 0;
    }
    if data.len() < PARALLEL_THRESHOLD {
        return max_line_chunk(data);
    }
    let ghost s = data@;
    let bounds = plan_line_boundaries(data, CHUNK_SIZE);
    let parts = par_max_line_lengths(data, &bounds);
    let mut total: usize = 0;
    let mut k: usize = 0;
    while k < parts.len()
        invariant
            s == data@,
            is_chunk_plan(bounds@, s.len() as int),
            line_aligned(s, bounds@),
            parts@.len() + 1 == bounds@.len(),
            forall|j: int|
                0 <= j < parts@.len() ==> #[trigger] parts@[j] as int == seq_max(
                    line_lengths(s.subrange(bounds@[j] as int, bounds@[j + 1] as int)),
                ),
            k <= parts@.len(),
            total as int == seq_max(line_lengths(s.subrange(0, bounds@[k as int] as int))),
        decreases parts@.len() - k,
    {
        proof {
            lemma_plan_in_range(bounds@, s.len() as int, k as int + 1);
            let b0 = bounds@[k as int] as int;
            let b1 = bounds@[k as int + 1] as int;
            let t = s.subrange(0, b1);
            assert(b0 == 0 || b0 == t.len() || t[b0 - 1] == NL) by {
                if k >= 1 && b0 < b1 {
                    assert(b0 < s.len());
                    assert(bounds@[k as int] as int == s.len() || s[b0 - 1] == NL);
                }
            }
            lemma_lens_split(t, b0);
            assert(t.take(b0) =~= s.subrange(0, b0));
            assert(t.skip(b0) =~= s.subrange(b0, b1));
            lemma_lens_bounds(s.subrange(0, b0), 0, 0);
            lemma_seq_max_nonneg(line_lengths(s.subrange(0, b0)));
            lemma_seq_max_concat(
                line_lengths(s.subrange(0, b0)),
                line_lengths(s.subrange(b0, b1)),
            );
        }
        if parts[k] > total {
            total = parts[k];
        }
        k = k + 1;
    }
    proof {
        assert(s.subrange(0, s.len() as int) =~= s);
    }
    total
}

/// Number of characters of `data`: decoded characters when it is valid
/// UTF-8; for invalid input below the chunking threshold, its byte length.
pub fn count_chars(data: &[u8]) -> (r: usize)
    ensures
        data@.len() == 0 ==> r == 0,
        data@.len() < PARALLEL_THRESHOLD ==> r as int == char_count_mixed(data@),
        valid_utf8(data@) ==> r as int == decode_utf8(data@).len(),
        r as int <= data@.len(),
{
    if data.len() == 0 {
        return 0;
    }
    if data.len() < PARALLEL_THRESHOLD {
        let c = char_count_chunk(data);
        proof {
            if valid_utf8(data@) {
                lemma_decode_le_len(data@);
            }
        }
        return c;
    }
    let ghost s = data@;
    let bounds = plan_utf8_boundaries(data, CHUNK_SIZE);
    let parts = par_char_counts(data, &bounds);
    let mut total: usize = 0;
    let mut k: usize = 0;
    while k < parts.len()
        invariant
            s == data@,
            is_chunk_plan(bounds@, s.len() as int),
            utf8_aligned(s, bounds@),
            parts@.len() + 1 == bounds@.len(),
            forall|j: int|
                0 <= j < parts@.len() ==> #[trigger] parts@[j] as int == char_count_mixed(
                    s.subrange(bounds@[j] as int, bounds@[j + 1] as int),
                ),
            k <= parts@.len(),
            total as int <= bounds@[k as int] as int,
            valid_utf8(s) ==> total as int == decode_utf8(
                s.subrange(0, bounds@[k as int] as int),
            ).len(),
        decreases parts@.len() - k,
    {
        proof {
            lemma_plan_in_range(bounds@, s.len() as int, k as int + 1);
            let b0 = bounds@[k as int] as int;
            let b1 = bounds@[k as int + 1] as int;
            let chunk = s.subrange(b0, b1);
            if valid_utf8(chunk) {
                lemma_decode_le_len(chunk);
            }
            if valid_utf8(s) {
                lemma_plan_char_boundary(s, bounds@, k as int + 1);
                valid_utf8_split(s, b1);
                let t = s.subrange(0, b1);
                assert(valid_utf8(t));
                is_char_boundary_start_end_of_seq(t);
                if b0 != 0 {
                    assert(t[b0] == s[b0]);
                    assert(1 <= (k as int) && (k as int) < bounds@.len() - 1);
                    assert(!vstd::utf8::is_continuation_byte(s[b0]));
                    is_char_boundary_iff_not_is_continuation_byte(t, b0);
                }
                valid_utf8_split(t, b0);
                decode_utf8_split(t, b0);
                assert(t.subrange(0, b0) =~= s.subrange(0, b0));
                assert(t.subrange(b0, t.len() as int) =~= chunk);
                assert(valid_utf8(chunk));
            }
        }
        total = total + parts[k];
        k = k + 1;
    }
    proof {
        assert(s.subrange(0, s.len() as int) =~= s);
    }
    total
}

/// Number of words of `data`. Below the chunking threshold this is the
/// mixed word count (decoded characters for valid UTF-8, bytes
/// otherwise); on any valid buffer whose whitespace is plain ASCII it is
/// the word count over decoded characters, whatever the path taken.
#[verifier::rlimit(60)]
pub fn count_all_words(data: &[u8]) -> (r: usize)
    ensures
        data@.len() == 0 ==> r == 0,
        data@.len() < PARALLEL_THRESHOLD ==> r as int == word_count_mixed(data@),
        valid_utf8(data@) && ascii_ws_text(data@) ==> r as int == word_count_mixed(data@),
        r as int <= data@.len(),
{
    if data.len() == 0 {
        return 0;
    }
    if data.len() < PARALLEL_THRESHOLD {
        let c = word_count_chunk(data);
        proof {
            lemma_word_count_mixed_bound(data@);
        }
        return c;
    }
    let ghost s = data@;
    let bounds = plan_utf8_boundaries(data, CHUNK_SIZE);
    let parts = par_word_counts(data, &bounds);
    let mut sum: usize = 0;
    let mut corr: usize = 0;
    let mut k: usize = 0;
    while k < parts.len()
        invariant
            s == data@,
            is_chunk_plan(bounds@, s.len() as int),
            utf8_aligned(s, bounds@),
            parts@.len() + 1 == bounds@.len(),
            forall|j: int|
                0 <= j < parts@.len() ==> #[trigger] parts@[j] as int == word_count_mixed(
                    s.subrange(bounds@[j] as int, bounds@[j + 1] as int),
                ),
            k <= parts@.len(),
            sum as int <= bounds@[k as int] as int,
            corr <= k,
            valid_utf8(s) && ascii_ws_text(s) ==> sum as int - corr as int == char_word_count(
                decode_utf8(s.subrange(0, bounds@[k as int] as int)),
            ) && corr <= sum,
        decreases parts@.len() - k,
    {
        proof {
            lemma_plan_in_range(bounds@, s.len() as int, k as int + 1);
            let b0 = bounds@[k as int] as int;
            let b1 = bounds@[k as int + 1] as int;
            let chunk = s.subrange(b0, b1);
            lemma_word_count_mixed_bound(chunk);
            if valid_utf8(s) && ascii_ws_text(s) {
                lemma_plan_char_boundary(s, bounds@, k as int + 1);
                valid_utf8_split(s, b1);
                lemma_ascii_ws_text_split(s, b1 as int);
                let t = s.subrange(0, b1);
                assert(valid_utf8(t));
                assert(ascii_ws_text(t));
                is_char_boundary_start_end_of_seq(t);
                if b0 != 0 {
                    assert(t[b0] == s[b0]);
                    assert(1 <= (k as int) && (k as int) < bounds@.len() - 1);
                    assert(!vstd::utf8::is_continuation_byte(s[b0]));
                    is_char_boundary_iff_not_is_continuation_byte(t, b0);
                }
                lemma_words_split(t, b0);
                valid_utf8_split(t, b0);
                assert(t.subrange(0, b0) =~= s.subrange(0, b0));
                assert(t.subrange(b0, t.len() as int) =~= chunk);
                assert(valid_utf8(chunk));
                lemma_wcc_bound(decode_utf8(t), false, 0);
                if b0 != 0 {
                    assert(t[b0 - 1] == s[b0 - 1]);
                }
            }
        }
        sum = sum + parts[k];
        if k >= 1 {
            let b = bounds[k];
            proof {
                assert(bounds@[k as int - 1] < bounds@[k as int]);
                assert(bounds@[k as int] < bounds@[k as int + 1]);
                lemma_plan_in_range(bounds@, s.len() as int, k as int + 1);
            }
            let prev = data[b - 1];
            let cur = data[b];
            let prev_ws = prev == 32 || prev == 9 || prev == 10 || prev == 12 || prev == 13;
            let cur_ws = cur == 32 || cur == 9 || cur == 10 || cur == 12 || cur == 13;
            if !prev_ws && !cur_ws {
                corr = corr + 1;
            }
        }
        k = k + 1;
    }
    proof {
        assert(s.subrange(0, s.len() as int) =~= s);
    }
    if corr > sum {
        0
    } else {
        sum - corr
    }
}

/// Number of straddling matches recovered at the cut `b`: a rescan of a
/// window of one pattern length less one byte on each side of the cut,
/// keeping matches that begin before the cut and end after it.
fn window_straddle_count(data: &[u8], b: usize, pattern: &[u8]) -> (wc: usize)
    requires
        1 <= pattern@.len(),
        0 < b < data@.len(),
    ensures
        wc <= 1,
        ({
            let l = pattern@.len() as int;
            let rs = clip0(b - l + 1);
            let re = if data@.len() - b > l - 1 {
                b + l - 1
            } else {
                data@.len() as int
            };
            wc as int == if rs < re {
                novl_from(data@.subrange(rs, re), pattern@, 0)
            } else {
                0int
            }
        }),
{
    let ghost s = data@;
    let ghost p = pattern@;
    let ghost l = p.len() as int;
    let plen = pattern.len();
    let dlen = data.len();
    let rs: usize = if b > plen - 1 {
        b - (plen - 1)
    } else {
        0
    };
    let re: usize = if dlen - b > plen - 1 {
        b + (plen - 1)
    } else {
        dlen
    };
    proof {
        assert(rs as int == clip0(b - l + 1));
    }
    if rs >= re {
        return 0;
    }
    let region = &data[rs..re];
    let pos = crate::search::memmem_positions(region, pattern);
    proof {
        lemma_novl_positions_props(region@, p, 0);
        lemma_novl_mul_bound(region@, p, 0);
        assert(novl_from(region@, p, 0) <= 1) by {
            let n = novl_from(region@, p, 0);
            if n >= 2 {
                assert(l * n >= 2 * l) by (nonlinear_arith)
                    requires
                        n >= 2,
                        l >= 1,
                ;
            }
        }
        assert(crate::text::novl_positions(region@, p) == crate::text::novl_positions_from(
            region@,
            p,
            0,
        ));
    }
    let mut wc: usize = 0;
    let mut j: usize = 0;
    while j < pos.len()
        invariant
            s == data@,
            p == pattern@,
            l == p.len(),
            1 <= plen == p.len(),
            dlen == s.len(),
            0 < b < dlen,
            rs as int == clip0(b - l + 1),
            rs < re <= dlen,
            re as int == if s.len() - b > l - 1 {
                b + l - 1
            } else {
                s.len() as int
            },
            region@ == s.subrange(rs as int, re as int),
            pos@.map_values(|x: usize| x as int) == crate::text::novl_positions_from(
                region@,
                p,
                0,
            ),
            forall|q: int|
                0 <= q < crate::text::novl_positions_from(region@, p, 0).len() ==> {
                    let w = #[trigger] crate::text::novl_positions_from(region@, p, 0)[q];
                    0 <= w && w + p.len() <= region@.len() && occurs_at(region@, p, w)
                },
            j <= pos@.len(),
            wc == j,
            pos@.len() == novl_from(region@, p, 0),
        decreases pos@.len() - j,
    {
        let w = pos[j];
        proof {
            assert(pos@.map_values(|x: usize| x as int)[j as int] == w as int);
            let wq = crate::text::novl_positions_from(region@, p, 0)[j as int];
            assert(w as int == wq);
            assert(w + p.len() <= region@.len());
            assert(region@.len() == re - rs);
        }
        let abs = rs + w;
        proof {
            assert(abs + plen <= re);
            assert(re as int - l <= b - 1);
            assert(abs as int >= rs >= b - l + 1);
            assert(abs as int + l >= b + 1);
            assert(abs < b && abs as int + plen as int > b as int);
        }
        if abs < b && abs + plen > b {
            wc = wc + 1;
        }
        j = j + 1;
    }
    wc
}

/// Number of non-overlapping occurrences of `pattern` in `data`. An empty
/// pattern or buffer counts zero; below the chunking threshold the count
/// is exact; for a pattern that cannot overlap itself and fits in one
/// chunk, the count equals the number of occurrence offsets, whatever the
/// path taken.
#[verifier::rlimit(100)]
pub fn count_pattern(data: &[u8], pattern: &[u8]) -> (r: usize)
    ensures
        data@.len() == 0 || pattern@.len() == 0 ==> r == 0,
        data@.len() < PARALLEL_THRESHOLD ==> r as int == nonoverlap_count(data@, pattern@),
        1 <= pattern@.len() <= CHUNK_SIZE && no_self_overlap(pattern@) ==> r as int
            == occurrence_count(data@, pattern@),
        r as int <= data@.len(),
{
    if data.len() == 0 || pattern.len() == 0 {
        return 0;
    }
    let plen = pattern.len();
    let ghost s = data@;
    let ghost p = pattern@;
    if data.len() < PARALLEL_THRESHOLD {
        let c = pattern_count_chunk(data, pattern);
        proof {
            if no_self_overlap(p) {
                lemma_novl_eq_occ(s, p, 0);
            }
            lemma_novl_mul_bound(s, p, 0);
            assert(novl_from(s, p, 0) <= p.len() * novl_from(s, p, 0)) by (nonlinear_arith)
                requires
                    p.len() >= 1,
                    novl_from(s, p, 0) >= 0,
            ;
        }
        return c;
    }
    let dlen = data.len();
    let bounds = plan_fixed_boundaries(dlen, CHUNK_SIZE);
    let parts = par_pattern_counts(data, &bounds, pattern);
    let mut sum: usize = 0;
    let mut extra: usize = 0;
    let mut k: usize = 0;
    while k < parts.len()
        invariant
            s == data@,
            p == pattern@,
            1 <= plen,
            plen == p.len(),
            dlen == s.len(),
            is_chunk_plan(bounds@, s.len() as int),
            forall|i: int|
                0 <= i < bounds@.len() - 1 ==> (#[trigger] bounds@[i]) as int == i * (
                CHUNK_SIZE as int),
            parts@.len() + 1 == bounds@.len(),
            forall|j: int|
                0 <= j < parts@.len() ==> #[trigger] parts@[j] as int == nonoverlap_count(
                    s.subrange(bounds@[j] as int, bounds@[j + 1] as int),
                    p,
                ),
            k <= parts@.len(),
            p.len() * (sum as int) <= bounds@[k as int] as int,
            sum as int <= bounds@[k as int] as int,
            extra as int <= if k == 0 {
                0int
            } else {
                k - 1
            },
            plen == 1 ==> extra == 0,
            no_self_overlap(p) && p.len() <= CHUNK_SIZE ==> sum as int + extra as int
                == occ_between(s, p, 0, clip0(bounds@[k as int] as int - p.len() + 1)),
        decreases parts@.len() - k,
    {
        let ghost b0 = bounds@[k as int] as int;
        let ghost b1 = bounds@[k as int + 1] as int;
        let ghost l = p.len() as int;
        let ghost borderless = no_self_overlap(p) && p.len() <= CHUNK_SIZE;
        proof {
            lemma_plan_in_range(bounds@, s.len() as int, k as int + 1);
            let chunk = s.subrange(b0, b1);
            lemma_novl_mul_bound(chunk, p, 0);
            assert(l * (sum as int + parts@[k as int] as int) <= b0 + (b1 - b0))
                by (nonlinear_arith)
                requires
                    l * (sum as int) <= b0,
                    l * (parts@[k as int] as int) <= b1 - b0,
                    l >= 1,
            ;
            assert(sum as int + parts@[k as int] as int <= l * (sum as int
                + parts@[k as int] as int)) by (nonlinear_arith)
                requires
                    l >= 1,
                    sum as int + parts@[k as int] as int >= 0,
            ;
            if borderless {
                assert(l <= b1 - b0 || b1 == s.len()) by {
                    if k as int + 1 < bounds@.len() - 1 {
                        assert(b0 == (k as int) * (CHUNK_SIZE as int));
                        assert(b1 == (k as int + 1) * (CHUNK_SIZE as int));
                        assert(b1 - b0 == CHUNK_SIZE as int) by (nonlinear_arith)
                            requires
                                b0 == (k as int) * (CHUNK_SIZE as int),
                                b1 == (k as int + 1) * (CHUNK_SIZE as int),
                        ;
                    } else {
                        assert(k as int + 1 == bounds@.len() - 1);
                        assert(b1 == s.len());
                    }
                }
                crate::text::lemma_occ_prefix_step(s, p, b0, b1);
            }
        }
        sum = sum + parts[k];
        if k >= 1 {
            let b = bounds[k];
            proof {
                assert(bounds@[k as int - 1] < bounds@[k as int]);
                lemma_plan_in_range(bounds@, s.len() as int, k as int + 1);
                assert(0 < b0 < s.len());
            }
            let wc = window_straddle_count(data, b, pattern);
            proof {
                if plen == 1 {
                    assert(clip0(b0 - l + 1) == b0);
                    assert(wc == 0);
                }
                if borderless {
                    let rs = clip0(b0 - l + 1);
                    let re: int = if s.len() - b0 > l - 1 {
                        b0 + l - 1
                    } else {
                        s.len() as int
                    };
                    if rs < re {
                        crate::text::lemma_window_occ(s, p, rs, re);
                        assert(re - l + 1 == crate::text::win_hi(s.len() as int, b0, l));
                        assert(wc as int == occ_between(
                            s,
                            p,
                            rs,
                            crate::text::win_hi(s.len() as int, b0, l),
                        ));
                    } else {
                        assert(l == 1 || re > b0) by {
                            if l >= 2 {
                                assert(re >= b0 + 1);
                            }
                        }
                        assert(crate::text::win_hi(s.len() as int, b0, l) <= rs);
                        lemma_occ_between_bound(
                            s,
                            p,
                            rs,
                            crate::text::win_hi(s.len() as int, b0, l),
                        );
                        assert(wc as int == occ_between(
                            s,
                            p,
                            rs,
                            crate::text::win_hi(s.len() as int, b0, l),
                        ));
                    }
                }
            }
            extra = extra + wc;
        } else {
            proof {
                if borderless {
                    assert(clip0(b0 - l + 1) == 0);
                    assert(crate::text::win_hi(s.len() as int, b0, l) <= 0);
                    lemma_occ_between_bound(
                        s,
                        p,
                        clip0(b0 - l + 1),
                        crate::text::win_hi(s.len() as int, b0, l),
                    );
                }
            }
        }
        k = k + 1;
    }
    proof {
        let n = parts@.len() as int;
        let l = p.len() as int;
        assert(bounds@[n] as int == s.len());
        if no_self_overlap(p) && p.len() <= CHUNK_SIZE {
            lemma_occ_from_between(s, p, 0);
            if s.len() - l + 1 < 0 {
                lemma_occ_between_bound(s, p, 0, s.len() - l + 1);
                lemma_occ_between_bound(s, p, 0, clip0(s.len() - l + 1));
            }
            lemma_novl_eq_occ(s, p, 0);
        }
        if plen == 1 {
            assert(sum as int <= bounds@[n] as int);
        }
        if plen >= 2 {
            assert(2 * (sum as int) <= l * (sum as int)) by (nonlinear_arith)
                requires
                    l >= 2,
                    sum as int >= 0,
            ;
        }
        if n >= 2 {
            assert(bounds@[n - 1] as int == (n - 1) * (CHUNK_SIZE as int));
            lemma_plan_in_range(bounds@, s.len() as int, n - 1);
            assert((extra as int) * (CHUNK_SIZE as int) <= (n - 1) * (CHUNK_SIZE as int))
                by (nonlinear_arith)
                requires
                    extra as int <= n - 1,
                    CHUNK_SIZE as int >= 0,
                    extra as int >= 0,
            ;
            assert(2 * (extra as int) <= (extra as int) * (CHUNK_SIZE as int))
                by (nonlinear_arith)
                requires
                    extra as int >= 0,
                    CHUNK_SIZE as int >= 2,
            ;
        } else {
            assert(extra == 0);
        }
        assert(sum as int + extra as int <= s.len());
    }
    sum + extra
}

/// A NUL byte occurs among the first 8192 bytes of `s`.
pub open spec fn has_nul_prefix(s: Seq<u8>) -> bool {
    exists|k: int| 0 <= k < s.len() && k < 8192 && s[k] == 0
}

/// Whether `data` looks binary: a NUL byte occurs in its leading sample.
pub fn is_binary(data: &[u8]) -> (r: bool)
    ensures
        r == has_nul_prefix(data@),
{
    let n = if data.len() < 8192 {
        data.len()
    } else {
        8192
    };
    let sample = &data[0..n];
    let found = memchr_first(0, sample);
    proof {
        if let Some(i) = found {
            assert(data@[i as int] == 0);
        } else {
            assert forall|k: int| !(0 <= k < data@.len() && k < 8192 && data@[k] == 0) by {
                if 0 <= k < n {
                    assert(sample@[k] != 0);
                    assert(sample@[k] == data@[k]);
                }
            }
        }
    }
    found.is_some()
}

} // verus!
