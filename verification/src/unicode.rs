//! Verified UTF-8 scanning: one decode step, whole-buffer validation with
//! scalar counting, and word counting over decoded characters with a
//! byte-wise fallback for invalid input.
use vstd::prelude::*;

use crate::text::{byte_word_count, is_ascii_ws, wcb_from};
use vstd::utf8::{
    decode_first_codepoint, decode_first_scalar, decode_utf8, decode_utf8_split,
    is_char_boundary, is_char_boundary_iff_not_is_continuation_byte, is_continuation_byte,
    is_leading_byte_width_1, is_leading_byte_width_2, is_leading_byte_width_3,
    is_leading_byte_width_4, length_of_first_codepoint, length_of_first_scalar,
    partial_valid_partial_invalid_utf8, partial_valid_utf8,
    partial_valid_utf8_extend, valid_first_scalar,
    valid_leading_and_continuation_bytes_first_codepoint, valid_utf8, valid_utf8_split,
};

verus! {

/// Unicode scalar values with the White_Space property.
pub open spec fn is_ws_scalar(v: u32) -> bool {
    ||| v == 0x09
    ||| v == 0x0a
    ||| v == 0x0b
    ||| v == 0x0c
    ||| v == 0x0d
    ||| v == 0x20
    ||| v == 0x85
    ||| v == 0xa0
    ||| v == 0x1680
    ||| (0x2000 <= v <= 0x200a)
    ||| v == 0x2028
    ||| v == 0x2029
    ||| v == 0x202f
    ||| v == 0x205f
    ||| v == 0x3000
}

/// A whitespace character: one whose scalar value has the White_Space
/// property.
pub open spec fn is_ws_char(c: char) -> bool {
    is_ws_scalar(c as u32)
}

/// Runtime test for `is_ws_scalar`.
pub fn ws_scalar(v: u32) -> (r: bool)
    ensures
        r == is_ws_scalar(v),
{
    v == 0x09 || v == 0x0a || v == 0x0b || v == 0x0c || v == 0x0d || v == 0x20 || v == 0x85
        || v == 0xa0 || v == 0x1680 || (0x2000 <= v && v <= 0x200a) || v == 0x2028 || v == 0x2029
        || v == 0x202f || v == 0x205f || v == 0x3000
}

/// Number of words of `cs[i..]`, where a word is counted at each
/// non-whitespace character that follows whitespace or the scan start.
pub open spec fn wcc_from(cs: Seq<char>, in_word: bool, i: int) -> int
    decreases cs.len() - i,
    when 0 <= i <= cs.len()
{
    if i >= cs.len() {
        0
    } else if is_ws_char(cs[i]) {
        wcc_from(cs, false, i + 1)
    } else {
        (if in_word {
            0int
        } else {
            1int
        }) + wcc_from(cs, true, i + 1)
    }
}

/// Number of words of the character sequence `cs`.
pub open spec fn char_word_count(cs: Seq<char>) -> int {
    wcc_from(cs, false, 0)
}

/// Whether a scan of `cs[i..]` that starts in state `in_word` ends inside
/// a word.
pub open spec fn state_from(cs: Seq<char>, in_word: bool, i: int) -> bool
    decreases cs.len() - i,
    when 0 <= i <= cs.len()
{
    if i >= cs.len() {
        in_word
    } else {
        state_from(cs, !is_ws_char(cs[i]), i + 1)
    }
}

/// Number of words of a byte buffer: over decoded characters when the
/// buffer is valid UTF-8, over bytes with ASCII classification otherwise.
pub open spec fn word_count_mixed(s: Seq<u8>) -> int {
    if valid_utf8(s) {
        char_word_count(decode_utf8(s))
    } else {
        byte_word_count(s)
    }
}

/// Number of characters of a byte buffer: decoded characters when the
/// buffer is valid UTF-8, its byte length otherwise.
pub open spec fn char_count_mixed(s: Seq<u8>) -> int {
    if valid_utf8(s) {
        decode_utf8(s).len() as int
    } else {
        s.len() as int
    }
}

/// Appending one character to a scanned sequence adds one word exactly
/// when the character is not whitespace and the scan ended out of a word.
pub proof fn lemma_wcc_push(cs: Seq<char>, c: char, in_word: bool, i: int)
    requires
        0 <= i <= cs.len(),
    ensures
        wcc_from(cs.push(c), in_word, i) == wcc_from(cs, in_word, i) + (if !is_ws_char(c)
            && !state_from(cs, in_word, i) {
            1int
        } else {
            0int
        }),
        state_from(cs.push(c), in_word, i) == !is_ws_char(c),
    decreases cs.len() - i,
{
    assert(cs.push(c).len() == cs.len() + 1);
    if i == cs.len() {
        assert(cs.push(c)[i] == c);
        assert(state_from(cs.push(c), !is_ws_char(c), i + 1) == !is_ws_char(c));
        assert(wcc_from(cs.push(c), false, i + 1) == 0);
        assert(wcc_from(cs.push(c), true, i + 1) == 0);
        assert(state_from(cs, in_word, i) == in_word);
        assert(wcc_from(cs, in_word, i) == 0);
    } else {
        assert(cs.push(c)[i] == cs[i]);
        lemma_wcc_push(cs, c, !is_ws_char(cs[i]), i + 1);
        assert(state_from(cs, in_word, i) == state_from(cs, !is_ws_char(cs[i]), i + 1));
        if is_ws_char(cs[i]) {
            assert(wcc_from(cs.push(c), in_word, i) == wcc_from(cs.push(c), false, i + 1));
            assert(wcc_from(cs, in_word, i) == wcc_from(cs, false, i + 1));
        } else {
            assert(wcc_from(cs.push(c), in_word, i) == (if in_word {
                0int
            } else {
                1int
            }) + wcc_from(cs.push(c), true, i + 1));
            assert(wcc_from(cs, in_word, i) == (if in_word {
                0int
            } else {
                1int
            }) + wcc_from(cs, true, i + 1));
        }
    }
}

/// Every whitespace character of the text is plain ASCII whitespace: no
/// multi-byte whitespace and no vertical tab, so that the byte just before
/// or after a cut classifies the same way as the character it belongs to.
pub open spec fn ascii_ws_text(s: Seq<u8>) -> bool {
    forall|j: int|
        0 <= j < decode_utf8(s).len() ==> (is_ws_char(#[trigger] decode_utf8(s)[j]) ==> (
        decode_utf8(s)[j] as u32) < 0x80 && (decode_utf8(s)[j] as u32) != 0x0b)
}

/// The first scalar of a valid encoding is a Unicode scalar; a one-byte
/// encoding decodes to its own byte, a longer one to at least 0x80.
pub proof fn lemma_first_scalar_is_scalar(u: Seq<u8>)
    requires
        valid_first_scalar(u),
    ensures
        vstd::utf8::is_scalar(decode_first_scalar(u)),
        length_of_first_scalar(u) == 1 ==> u[0] < 0x80 && decode_first_scalar(u) == u[0] as u32,
        length_of_first_scalar(u) >= 2 ==> decode_first_scalar(u) >= 0x80,
    decreases u.len(),
{
    let b0 = u[0];
    if is_leading_byte_width_1(b0) {
        assert((b0 & 0x7f) == b0) by (bit_vector)
            requires
                b0 < 0x80,
        ;
    } else if is_leading_byte_width_2(b0) {
        let b1 = u[1];
        assert((((b0 & 0x1f) as u32) << 6 | (b1 & 0x3f) as u32) <= 0x7ff) by (bit_vector)
            requires
                b0 <= 0xdf,
        ;
    } else if is_leading_byte_width_3(b0) {
        let b1 = u[1];
        let b2 = u[2];
        assert((((b0 & 0x0f) as u32) << 12 | ((b1 & 0x3f) as u32) << 6 | (b2 & 0x3f) as u32)
            <= 0xffff) by (bit_vector);
    } else {
    }
}

/// A valid encoding decodes to at most one character per byte.
pub proof fn lemma_decode_le_len(s: Seq<u8>)
    requires
        valid_utf8(s),
    ensures
        decode_utf8(s).len() <= s.len(),
    decreases s.len(),
{
    if s.len() > 0 {
        assert(length_of_first_scalar(s) >= 1);
        lemma_decode_le_len(vstd::utf8::pop_first_scalar(s));
    }
}

/// Last character against its last byte: when the last byte is not a
/// continuation byte it is ASCII and equals the character's scalar; when
/// it is, the character's scalar is at least 0x80.
pub proof fn lemma_last_char(t: Seq<u8>)
    requires
        valid_utf8(t),
        t.len() > 0,
    ensures
        decode_utf8(t).len() > 0,
        !is_continuation_byte(t.last()) ==> t.last() < 0x80 && decode_utf8(t).last() as u32
            == t.last() as u32,
        is_continuation_byte(t.last()) ==> decode_utf8(t).last() as u32 >= 0x80,
    decreases t.len(),
{
    let l = length_of_first_scalar(t);
    let v = decode_first_scalar(t);
    let pop = vstd::utf8::pop_first_scalar(t);
    lemma_first_scalar_is_scalar(t);
    assert((v as char) as u32 == v);
    assert(1 <= l && l <= t.len()) by {
        assert(valid_leading_and_continuation_bytes_first_codepoint(t));
    }
    assert(pop.len() == t.len() - l);
    if pop.len() == 0 {
        assert(decode_utf8(pop) =~= Seq::<char>::empty());
        assert(decode_utf8(t) == seq![v as char] + decode_utf8(pop));
        assert(decode_utf8(t) =~= seq![v as char]);
        assert(t.len() == l);
        assert(t.last() == t[l - 1]);
        if l == 1 {
            assert(!is_continuation_byte(t.last()));
        } else {
            assert(is_continuation_byte(t[l - 1]));
        }
    } else {
        lemma_last_char(pop);
        assert(pop.last() == t.last());
        assert(decode_utf8(t) == seq![v as char] + decode_utf8(pop));
        assert(decode_utf8(t).last() == decode_utf8(pop).last());
    }
}

/// First character against its first byte: an ASCII first byte is the
/// character's scalar; otherwise the scalar is at least 0x80.
pub proof fn lemma_first_char(u: Seq<u8>)
    requires
        valid_utf8(u),
        u.len() > 0,
    ensures
        decode_utf8(u).len() > 0,
        u[0] < 0x80 ==> decode_utf8(u)[0] as u32 == u[0] as u32,
        u[0] >= 0x80 ==> decode_utf8(u)[0] as u32 >= 0x80,
{
    let v = decode_first_scalar(u);
    lemma_first_scalar_is_scalar(u);
    assert((v as char) as u32 == v);
    assert(decode_utf8(u)[0] == v as char);
    if u[0] < 0x80 {
        assert(is_leading_byte_width_1(u[0]));
    } else {
        assert(length_of_first_scalar(u) >= 2);
    }
}

/// Scanning the right part of a concatenation from its start scans that
/// part alone.
proof fn lemma_wcc_concat_shift(a: Seq<char>, b: Seq<char>, w: bool, j: int)
    requires
        0 <= j <= b.len(),
    ensures
        wcc_from(a + b, w, a.len() + j) == wcc_from(b, w, j),
        state_from(a + b, w, a.len() + j) == state_from(b, w, j),
    decreases b.len() - j,
{
    assert((a + b).len() == a.len() + b.len());
    if j < b.len() {
        assert((a + b)[a.len() + j] == b[j]);
        lemma_wcc_concat_shift(a, b, false, j + 1);
        lemma_wcc_concat_shift(a, b, true, j + 1);
    }
}

/// The word fold over a concatenation threads its state through the left
/// part into the right part.
proof fn lemma_wcc_concat(a: Seq<char>, b: Seq<char>, w: bool, i: int)
    requires
        0 <= i <= a.len(),
    ensures
        wcc_from(a + b, w, i) == wcc_from(a, w, i) + wcc_from(b, state_from(a, w, i), 0),
    decreases a.len() - i,
{
    assert((a + b).len() == a.len() + b.len());
    if i == a.len() {
        lemma_wcc_concat_shift(a, b, w, 0);
        assert(wcc_from(a, w, i) == 0);
        assert(state_from(a, w, i) == w);
    } else {
        assert((a + b)[i] == a[i]);
        if is_ws_char(a[i]) {
            lemma_wcc_concat(a, b, false, i + 1);
        } else {
            lemma_wcc_concat(a, b, true, i + 1);
        }
    }
}

/// The final state of the word fold is set by the last character alone.
proof fn lemma_state_last(a: Seq<char>, w: bool, i: int)
    requires
        0 <= i <= a.len(),
    ensures
        state_from(a, w, i) == if i < a.len() {
            !is_ws_char(a.last())
        } else {
            w
        },
    decreases a.len() - i,
{
    if i < a.len() {
        lemma_state_last(a, !is_ws_char(a[i]), i + 1);
    }
}

/// Word counts lie between zero and the number of characters scanned.
pub proof fn lemma_wcc_bound(cs: Seq<char>, w: bool, i: int)
    requires
        0 <= i <= cs.len(),
    ensures
        0 <= wcc_from(cs, w, i) <= cs.len() - i,
    decreases cs.len() - i,
{
    if i < cs.len() {
        lemma_wcc_bound(cs, false, i + 1);
        lemma_wcc_bound(cs, true, i + 1);
    }
}

/// Word counts of a concatenation: the two counts add up, less one when a
/// word straddles the seam (both adjacent characters are non-whitespace).
pub proof fn lemma_cwc_concat(a: Seq<char>, b: Seq<char>)
    ensures
        char_word_count(a + b) == char_word_count(a) + char_word_count(b) - (if a.len() > 0
            && b.len() > 0 && !is_ws_char(a.last()) && !is_ws_char(b[0]) {
            1int
        } else {
            0int
        }),
{
    lemma_wcc_concat(a, b, false, 0);
    lemma_state_last(a, false, 0);
    if b.len() > 0 {
        if a.len() > 0 && !is_ws_char(a.last()) {
            if is_ws_char(b[0]) {
                assert(wcc_from(b, true, 0) == wcc_from(b, false, 1));
                assert(wcc_from(b, false, 0) == wcc_from(b, false, 1));
            } else {
                assert(wcc_from(b, true, 0) == wcc_from(b, true, 1));
                assert(wcc_from(b, false, 0) == 1 + wcc_from(b, true, 1));
            }
        }
    } else {
        assert(wcc_from(b, true, 0) == 0);
        assert(wcc_from(b, false, 0) == 0);
    }
}

/// At a character boundary of whitespace-plain text, the byte test (both
/// bytes around the cut non-whitespace) agrees with the character test.
pub proof fn lemma_merge_at_boundary(s: Seq<u8>, m: int)
    requires
        valid_utf8(s),
        ascii_ws_text(s),
        0 < m < s.len(),
        vstd::utf8::is_char_boundary(s, m),
    ensures
        decode_utf8(s.subrange(0, m)).len() > 0,
        decode_utf8(s.subrange(m, s.len() as int)).len() > 0,
        (!is_ascii_ws(s[m - 1]) && !is_ascii_ws(s[m])) == (!is_ws_char(
            decode_utf8(s.subrange(0, m)).last(),
        ) && !is_ws_char(decode_utf8(s.subrange(m, s.len() as int))[0])),
{
    valid_utf8_split(s, m);
    decode_utf8_split(s, m);
    let a = decode_utf8(s.subrange(0, m));
    let b = decode_utf8(s.subrange(m, s.len() as int));
    assert(decode_utf8(s) == a + b);
    lemma_last_char(s.subrange(0, m));
    lemma_first_char(s.subrange(m, s.len() as int));
    assert(s.subrange(0, m).last() == s[m - 1]);
    assert(s.subrange(m, s.len() as int)[0] == s[m]);
    assert(a.last() == decode_utf8(s)[a.len() - 1]);
    assert(b[0] == decode_utf8(s)[a.len() as int]);
    let la = a.last() as u32;
    let fb = b[0] as u32;
    if !is_continuation_byte(s[m - 1]) {
        assert(la == s[m - 1] as u32 && s[m - 1] < 0x80);
        assert(is_ascii_ws(s[m - 1]) == is_ws_char(a.last()));
    } else {
        assert(la >= 0x80);
        assert(!is_ascii_ws(s[m - 1]));
        assert(!is_ws_char(a.last()));
    }
    if s[m] < 0x80 {
        assert(fb == s[m] as u32);
        assert(is_ascii_ws(s[m]) == is_ws_char(b[0]));
    } else {
        assert(fb >= 0x80);
        assert(!is_ascii_ws(s[m]));
        assert(!is_ws_char(b[0]));
    }
}

/// Word count of whitespace-plain text split at a character boundary: the
/// two sides' counts add up, less one when the byte test at the cut shows
/// a straddling word.
pub proof fn lemma_words_split(s: Seq<u8>, m: int)
    requires
        valid_utf8(s),
        ascii_ws_text(s),
        0 <= m <= s.len(),
        vstd::utf8::is_char_boundary(s, m),
    ensures
        char_word_count(decode_utf8(s)) == char_word_count(decode_utf8(s.subrange(0, m)))
            + char_word_count(decode_utf8(s.subrange(m, s.len() as int))) - (if 0 < m < s.len()
            && !is_ascii_ws(s[m - 1]) && !is_ascii_ws(s[m]) {
            1int
        } else {
            0int
        }),
{
    valid_utf8_split(s, m);
    decode_utf8_split(s, m);
    let a = decode_utf8(s.subrange(0, m));
    let b = decode_utf8(s.subrange(m, s.len() as int));
    lemma_cwc_concat(a, b);
    if m == 0 {
        assert(s.subrange(0, 0).len() == 0);
        assert(a =~= Seq::<char>::empty());
        assert(a.len() == 0);
    } else if m == s.len() {
        assert(s.subrange(m, s.len() as int).len() == 0);
        assert(b =~= Seq::<char>::empty());
        assert(b.len() == 0);
    } else {
        lemma_merge_at_boundary(s, m);
    }
}

/// A whitespace-plain text stays whitespace-plain on each side of a
/// character boundary.
pub proof fn lemma_ascii_ws_text_split(s: Seq<u8>, m: int)
    requires
        valid_utf8(s),
        ascii_ws_text(s),
        0 <= m <= s.len(),
        vstd::utf8::is_char_boundary(s, m),
    ensures
        ascii_ws_text(s.subrange(0, m)),
        ascii_ws_text(s.subrange(m, s.len() as int)),
{
    valid_utf8_split(s, m);
    decode_utf8_split(s, m);
    let a = decode_utf8(s.subrange(0, m));
    let b = decode_utf8(s.subrange(m, s.len() as int));
    assert(decode_utf8(s) == a + b);
    assert(forall|j: int| 0 <= j < a.len() ==> a[j] == decode_utf8(s)[j]);
    assert(forall|j: int| 0 <= j < b.len() ==> b[j] == decode_utf8(s)[a.len() + j]);
}

/// Mixed word counts lie between zero and the byte length.
pub proof fn lemma_word_count_mixed_bound(s: Seq<u8>)
    ensures
        0 <= word_count_mixed(s) <= s.len(),
{
    if valid_utf8(s) {
        lemma_decode_le_len(s);
        lemma_wcc_bound(decode_utf8(s), false, 0);
    } else {
        crate::text::lemma_wcb_bound(s, false, 0);
    }
}

/// One UTF-8 decode step at offset `i`: the scalar there and the width of
/// its encoding, or none when no valid scalar encoding starts at `i`.
pub fn utf8_advance(data: &[u8], i: usize) -> (r: Option<(u32, usize)>)
    requires
        i < data@.len(),
    ensures
        match r {
            Some(p) => {
                &&& valid_first_scalar(data@.subrange(i as int, data@.len() as int))
                &&& p.1 as int == length_of_first_scalar(
                    data@.subrange(i as int, data@.len() as int),
                )
                &&& p.0 == decode_first_scalar(data@.subrange(i as int, data@.len() as int))
                &&& vstd::utf8::is_scalar(p.0)
                &&& 1 <= p.1 <= 4
                &&& i + p.1 <= data@.len()
            },
            None => !valid_first_scalar(data@.subrange(i as int, data@.len() as int)),
        },
{
    let ghost rest = data@.subrange(i as int, data@.len() as int);
    let len = data.len();
    let b0 = data[i];
    assert(rest[0] == b0);
    if b0 < 0x80 {
        proof {
            assert((b0 & 0x7f) == b0) by (bit_vector)
                requires
                    b0 < 0x80,
            ;
        }
        Some((b0 as u32, 1))
    } else if b0 < 0xc2 {
        proof {
            if valid_leading_and_continuation_bytes_first_codepoint(rest) {
                assert(is_leading_byte_width_2(rest[0]));
                let ghost b1 = rest[1];
                assert((((b0 & 0x1f) as u32) << 6 | (b1 & 0x3f) as u32) < 0x80) by (bit_vector)
                    requires
                        0xc0 <= b0 < 0xc2,
                ;
            }
        }
        None
    } else if b0 < 0xe0 {
        if len - i < 2 {
            return None;
        }
        let b1 = data[i + 1];
        assert(rest[1] == b1);
        if !(0x80 <= b1 && b1 <= 0xbf) {
            return None;
        }
        let v: u32 = ((b0 & 0x1f) as u32) << 6 | (b1 & 0x3f) as u32;
        proof {
            assert((((b0 & 0x1f) as u32) << 6 | (b1 & 0x3f) as u32) >= 0x80) by (bit_vector)
                requires
                    0xc2 <= b0 < 0xe0,
            ;
            assert((((b0 & 0x1f) as u32) << 6 | (b1 & 0x3f) as u32) <= 0x7ff) by (bit_vector)
                requires
                    b0 < 0xe0,
            ;
        }
        Some((v, 2))
    } else if b0 < 0xf0 {
        if len - i < 3 {
            return None;
        }
        let b1 = data[i + 1];
        let b2 = data[i + 2];
        assert(rest[1] == b1 && rest[2] == b2);
        if !(0x80 <= b1 && b1 <= 0xbf) || !(0x80 <= b2 && b2 <= 0xbf) {
            return None;
        }
        let ok = if b0 == 0xe0 {
            b1 >= 0xa0
        } else if b0 == 0xed {
            b1 <= 0x9f
        } else {
            true
        };
        let v: u32 = ((b0 & 0x0f) as u32) << 12 | ((b1 & 0x3f) as u32) << 6 | (b2 & 0x3f) as u32;
        proof {
            assert((((b0 & 0x0f) as u32) << 12 | ((b1 & 0x3f) as u32) << 6 | (b2
                & 0x3f) as u32) <= 0xffff) by (bit_vector);
            if b0 == 0xe0 && b1 >= 0xa0 {
                assert((((b0 & 0x0f) as u32) << 12 | ((b1 & 0x3f) as u32) << 6 | (b2
                    & 0x3f) as u32) >= 0x800) by (bit_vector)
                    requires
                        b0 == 0xe0 && 0xa0 <= b1 <= 0xbf,
                ;
                assert((((b0 & 0x0f) as u32) << 12 | ((b1 & 0x3f) as u32) << 6 | (b2
                    & 0x3f) as u32) < 0xd800) by (bit_vector)
                    requires
                        b0 == 0xe0,
                ;
            }
            if b0 == 0xe0 && b1 < 0xa0 {
                assert((((b0 & 0x0f) as u32) << 12 | ((b1 & 0x3f) as u32) << 6 | (b2
                    & 0x3f) as u32) < 0x800) by (bit_vector)
                    requires
                        b0 == 0xe0 && 0x80 <= b1 < 0xa0,
                ;
            }
            if b0 == 0xed && b1 <= 0x9f {
                assert((((b0 & 0x0f) as u32) << 12 | ((b1 & 0x3f) as u32) << 6 | (b2
                    & 0x3f) as u32) < 0xd800) by (bit_vector)
                    requires
                        b0 == 0xed && 0x80 <= b1 <= 0x9f,
                ;
                assert((((b0 & 0x0f) as u32) << 12 | ((b1 & 0x3f) as u32) << 6 | (b2
                    & 0x3f) as u32) >= 0x800) by (bit_vector)
                    requires
                        b0 == 0xed,
                ;
            }
            if b0 == 0xed && b1 > 0x9f && b1 <= 0xbf {
                assert(0xd800 <= (((b0 & 0x0f) as u32) << 12 | ((b1 & 0x3f) as u32) << 6 | (b2
                    & 0x3f) as u32) <= 0xdfff) by (bit_vector)
                    requires
                        b0 == 0xed && 0x9f < b1 <= 0xbf,
                ;
            }
            if b0 != 0xe0 && b0 != 0xed {
                assert(0x800 <= (((b0 & 0x0f) as u32) << 12 | ((b1 & 0x3f) as u32) << 6 | (b2
                    & 0x3f) as u32) && !(0xd800 <= (((b0 & 0x0f) as u32) << 12 | ((b1
                    & 0x3f) as u32) << 6 | (b2 & 0x3f) as u32) <= 0xdfff)) by (bit_vector)
                    requires
                        0xe0 < b0 < 0xf0 && b0 != 0xed,
                ;
            }
        }
        if !ok {
            return None;
        }
        Some((v, 3))
    } else if b0 < 0xf5 {
        if len - i < 4 {
            return None;
        }
        let b1 = data[i + 1];
        let b2 = data[i + 2];
        let b3 = data[i + 3];
        assert(rest[1] == b1 && rest[2] == b2 && rest[3] == b3);
        if !(0x80 <= b1 && b1 <= 0xbf) || !(0x80 <= b2 && b2 <= 0xbf) || !(0x80 <= b3 && b3
            <= 0xbf) {
            return None;
        }
        let ok = if b0 == 0xf0 {
            b1 >= 0x90
        } else if b0 == 0xf4 {
            b1 <= 0x8f
        } else {
            true
        };
        let v: u32 = ((b0 & 0x07) as u32) << 18 | ((b1 & 0x3f) as u32) << 12 | ((b2
            & 0x3f) as u32) << 6 | (b3 & 0x3f) as u32;
        proof {
            if b0 == 0xf0 && b1 >= 0x90 {
                assert(0x10000 <= (((b0 & 0x07) as u32) << 18 | ((b1 & 0x3f) as u32) << 12 | ((b2
                    & 0x3f) as u32) << 6 | (b3 & 0x3f) as u32) <= 0x10ffff) by (bit_vector)
                    requires
                        b0 == 0xf0 && 0x90 <= b1 <= 0xbf,
                ;
            }
            if b0 == 0xf0 && b1 < 0x90 {
                assert((((b0 & 0x07) as u32) << 18 | ((b1 & 0x3f) as u32) << 12 | ((b2
                    & 0x3f) as u32) << 6 | (b3 & 0x3f) as u32) < 0x10000) by (bit_vector)
                    requires
                        b0 == 0xf0 && 0x80 <= b1 < 0x90,
                ;
            }
            if b0 == 0xf4 && b1 <= 0x8f {
                assert(0x10000 <= (((b0 & 0x07) as u32) << 18 | ((b1 & 0x3f) as u32) << 12 | ((b2
                    & 0x3f) as u32) << 6 | (b3 & 0x3f) as u32) <= 0x10ffff) by (bit_vector)
                    requires
                        b0 == 0xf4 && 0x80 <= b1 <= 0x8f,
                ;
            }
            if b0 == 0xf4 && b1 > 0x8f && b1 <= 0xbf {
                assert((((b0 & 0x07) as u32) << 18 | ((b1 & 0x3f) as u32) << 12 | ((b2
                    & 0x3f) as u32) << 6 | (b3 & 0x3f) as u32) > 0x10ffff) by (bit_vector)
                    requires
                        b0 == 0xf4 && 0x8f < b1 <= 0xbf,
                ;
            }
            if b0 != 0xf0 && b0 != 0xf4 {
                assert(0x10000 <= (((b0 & 0x07) as u32) << 18 | ((b1 & 0x3f) as u32) << 12 | ((b2
                    & 0x3f) as u32) << 6 | (b3 & 0x3f) as u32) <= 0x10ffff) by (bit_vector)
                    requires
                        0xf0 < b0 < 0xf5 && b0 != 0xf4,
                ;
            }
        }
        if !ok {
            return None;
        }
        Some((v, 4))
    } else {
        proof {
            if valid_leading_and_continuation_bytes_first_codepoint(rest) {
                assert(is_leading_byte_width_4(rest[0]));
                let ghost b1 = rest[1];
                let ghost b2 = rest[2];
                let ghost b3 = rest[3];
                assert((((b0 & 0x07) as u32) << 18 | ((b1 & 0x3f) as u32) << 12 | ((b2
                    & 0x3f) as u32) << 6 | (b3 & 0x3f) as u32) > 0x10ffff) by (bit_vector)
                    requires
                        0xf5 <= b0 <= 0xf7,
                ;
            }
        }
        None
    }
}

/// After a valid prefix of length `i`, one more valid scalar extends the
/// valid prefix and appends exactly its character to the decoded prefix.
pub proof fn lemma_prefix_step(s: Seq<u8>, i: int)
    requires
        partial_valid_utf8(s, i),
        i < s.len(),
        valid_first_scalar(s.subrange(i, s.len() as int)),
    ensures
        ({
            let rest = s.subrange(i, s.len() as int);
            let l = length_of_first_scalar(rest);
            &&& partial_valid_utf8(s, i + l)
            &&& decode_utf8(s.subrange(0, i + l)) == decode_utf8(s.subrange(0, i)).push(
                decode_first_scalar(rest) as char,
            )
        }),
{
    let rest = s.subrange(i, s.len() as int);
    let l = length_of_first_scalar(rest);
    partial_valid_utf8_extend(s, i);
    let pre = s.subrange(0, i + l);
    assert(valid_utf8(pre));
    // The byte at offset `i` of the extended prefix is a leading byte, so
    // `i` is a character boundary of it.
    assert(pre[i] == rest[0]);
    assert(!is_continuation_byte(pre[i])) by {
        assert(valid_leading_and_continuation_bytes_first_codepoint(rest));
    }
    is_char_boundary_iff_not_is_continuation_byte(pre, i);
    valid_utf8_split(pre, i);
    decode_utf8_split(pre, i);
    let mid = pre.subrange(i, pre.len() as int);
    assert(mid.len() == l);
    assert(forall|j: int| 0 <= j < l ==> mid[j] == rest[j]);
    assert(valid_utf8(mid));
    assert(length_of_first_codepoint(mid) == length_of_first_codepoint(rest));
    assert(decode_first_codepoint(mid) == decode_first_codepoint(rest));
    assert(valid_first_scalar(mid));
    assert(vstd::utf8::pop_first_scalar(mid).len() == 0);
    assert(decode_utf8(vstd::utf8::pop_first_scalar(mid)) =~= Seq::<char>::empty());
    assert(decode_utf8(mid) =~= seq![decode_first_scalar(rest) as char]);
    assert(pre.subrange(0, i) =~= s.subrange(0, i));
    assert(decode_utf8(s.subrange(0, i + l)) =~= decode_utf8(s.subrange(0, i)).push(
        decode_first_scalar(rest) as char,
    ));
}

/// A valid prefix followed by an offset where no valid scalar encoding
/// starts makes the whole buffer invalid.
pub proof fn lemma_invalid_at(s: Seq<u8>, i: int)
    requires
        0 <= i < s.len(),
        partial_valid_utf8(s, i),
        !valid_first_scalar(s.subrange(i, s.len() as int)),
    ensures
        !valid_utf8(s),
{
    let rest = s.subrange(i, s.len() as int);
    assert(rest.len() != 0);
    assert(!valid_utf8(rest));
    partial_valid_partial_invalid_utf8(s, i);
}

/// Validates `data` as UTF-8 and counts its characters: the number of
/// decoded characters when valid, nothing when invalid.
pub fn utf8_scalar_count(data: &[u8]) -> (r: Option<usize>)
    ensures
        match r {
            Some(n) => valid_utf8(data@) && n as int == decode_utf8(data@).len(),
            None => !valid_utf8(data@),
        },
{
    let ghost s = data@;
    let mut i: usize = 0;
    let mut n: usize = 0;
    while i < data.len()
        invariant
            s == data@,
            0 <= i <= s.len(),
            n <= i,
            partial_valid_utf8(s, i as int),
            n as int == decode_utf8(s.subrange(0, i as int)).len(),
        decreases s.len() - i,
    {
        match utf8_advance(data, i) {
            Some(p) => {
                proof {
                    lemma_prefix_step(s, i as int);
                }
                n = n + 1;
                i = i + p.1;
            },
            None => {
                proof {
                    lemma_invalid_at(s, i as int);
                }
                return None;
            },
        }
    }
    proof {
        assert(s.subrange(0, s.len() as int) =~= s);
    }
    Some(n)
}

/// Counts words of `data` as UTF-8 text: the word count over decoded
/// characters when valid, nothing when invalid.
fn word_count_text(data: &[u8]) -> (r: Option<usize>)
    ensures
        match r {
            Some(n) => valid_utf8(data@) && n as int == char_word_count(decode_utf8(data@)),
            None => !valid_utf8(data@),
        },
{
    let ghost s = data@;
    let mut i: usize = 0;
    let mut n: usize = 0;
    let mut in_word: bool = false;
    while i < data.len()
        invariant
            s == data@,
            0 <= i <= s.len(),
            n <= i,
            partial_valid_utf8(s, i as int),
            n as int == char_word_count(decode_utf8(s.subrange(0, i as int))),
            in_word == state_from(decode_utf8(s.subrange(0, i as int)), false, 0),
        decreases s.len() - i,
    {
        match utf8_advance(data, i) {
            Some(p) => {
                proof {
                    lemma_prefix_step(s, i as int);
                    lemma_wcc_push(
                        decode_utf8(s.subrange(0, i as int)),
                        decode_first_scalar(s.subrange(i as int, s.len() as int)) as char,
                        false,
                        0,
                    );
                    assert((p.0 as char) as u32 == p.0);
                }
                let ws = ws_scalar(p.0);
                if !ws && !in_word {
                    n = n + 1;
                }
                in_word = !ws;
                i = i + p.1;
            },
            None => {
                proof {
                    lemma_invalid_at(s, i as int);
                }
                return None;
            },
        }
    }
    proof {
        assert(s.subrange(0, s.len() as int) =~= s);
    }
    Some(n)
}

/// Counts words of `data` byte-wise under ASCII classification.
pub fn word_count_bytes(data: &[u8]) -> (r: usize)
    ensures
        r as int == byte_word_count(data@),
{
    let ghost s = data@;
    let mut i: usize = 0;
    let mut n: usize = 0;
    let mut in_word: bool = false;
    while i < data.len()
        invariant
            s == data@,
            0 <= i <= s.len(),
            n <= i,
            n + wcb_from(s, in_word, i as int) == byte_word_count(s),
        decreases s.len() - i,
    {
        let b = data[i];
        let ws = b == 32 || b == 9 || b == 10 || b == 12 || b == 13;
        proof {
            assert(ws == is_ascii_ws(s[i as int]));
        }
        if !ws && !in_word {
            n = n + 1;
        }
        in_word = !ws;
        i = i + 1;
    }
    n
}

/// Number of words of `data`: over decoded characters when it is valid
/// UTF-8, over bytes otherwise.
pub fn word_count_chunk(data: &[u8]) -> (r: usize)
    ensures
        r as int == word_count_mixed(data@),
{
    match word_count_text(data) {
        Some(n) => n,
        None => word_count_bytes(data),
    }
}

/// Number of characters of `data`: decoded characters when it is valid
/// UTF-8, its byte length otherwise.
pub fn char_count_chunk(data: &[u8]) -> (r: usize)
    ensures
        r as int == char_count_mixed(data@),
{
    match utf8_scalar_count(data) {
        Some(n) => n,
        None => data.len(),
    }
}

} // verus!
