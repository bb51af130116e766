//! Byte-level model of the statistics: what a record is, what a word is,
//! where a pattern occurs. Every public counting function is specified
//! against these definitions.
use vstd::prelude::*;

verus! {

/// Line terminator byte.
pub const NL: u8 = 10;

/// Carriage return byte, trimmed from a record end before its length counts.
pub const CR: u8 = 13;

/// ASCII whitespace: space, horizontal tab, line feed, form feed, carriage
/// return.
pub open spec fn is_ascii_ws(b: u8) -> bool {
    b == 32 || b == 9 || b == 10 || b == 12 || b == 13
}

/// Number of occurrences of `b` in `s[i..]`.
pub open spec fn count_byte_from(s: Seq<u8>, b: u8, i: int) -> int
    decreases s.len() - i,
    when 0 <= i <= s.len()
{
    if i >= s.len() {
        0
    } else {
        (if s[i] == b {
            1int
        } else {
            0int
        }) + count_byte_from(s, b, i + 1)
    }
}

/// Number of occurrences of `b` in `s`.
pub open spec fn count_byte(s: Seq<u8>, b: u8) -> int {
    count_byte_from(s, b, 0)
}

/// There are at least zero and at most `s.len() - i` occurrences of `b` in
/// `s[i..]`.
pub proof fn lemma_count_byte_bound(s: Seq<u8>, b: u8, i: int)
    requires
        0 <= i <= s.len(),
    ensures
        0 <= count_byte_from(s, b, i) <= s.len() - i,
    decreases s.len() - i,
{
    if i < s.len() {
        lemma_count_byte_bound(s, b, i + 1);
    }
}

/// Counting a suffix of `s` counts the matching subrange.
pub proof fn lemma_count_byte_offset(t: Seq<u8>, b: u8, k: int)
    requires
        0 <= k <= t.len(),
    ensures
        count_byte_from(t, b, k) == count_byte(t.subrange(k, t.len() as int), b),
    decreases t.len() - k,
{
    if k == t.len() {
    } else {
        lemma_count_byte_offset(t, b, k + 1);
        let u = t.subrange(k, t.len() as int);
        lemma_count_byte_offset(u, b, 1);
        assert(u.subrange(1, u.len() as int) =~= t.subrange(k + 1, t.len() as int));
    }
}

/// The occurrences counted from `lo` are those inside `s[lo..hi]` plus the
/// ones counted from `hi`.
pub proof fn lemma_count_byte_split(s: Seq<u8>, b: u8, lo: int, hi: int)
    requires
        0 <= lo <= hi <= s.len(),
    ensures
        count_byte_from(s, b, lo) == count_byte(s.subrange(lo, hi), b) + count_byte_from(
            s,
            b,
            hi,
        ),
    decreases hi - lo,
{
    if lo == hi {
    } else {
        lemma_count_byte_split(s, b, lo + 1, hi);
        let sub = s.subrange(lo, hi);
        lemma_count_byte_offset(sub, b, 1);
        assert(sub.subrange(1, sub.len() as int) =~= s.subrange(lo + 1, hi));
    }
}

/// Every byte of `s[lo..hi]` is ASCII whitespace.
pub open spec fn all_ws_range(s: Seq<u8>, lo: int, hi: int) -> bool {
    forall|k: int| lo <= k < hi ==> is_ascii_ws(#[trigger] s[k])
}

/// Content length of the record `s[start..end]`: a carriage return just
/// before the terminator is not part of the content.
pub open spec fn trimmed_len(s: Seq<u8>, start: int, end: int) -> int {
    if end > start && s[end - 1] == CR {
        end - 1 - start
    } else {
        end - start
    }
}

/// Content lengths of the records of `s[i..]`, where the current record
/// began at `start`. A record ends at each terminator; trailing content
/// without a terminator forms a final record only if it is non-empty.
pub open spec fn lens_from(s: Seq<u8>, start: int, i: int) -> Seq<int>
    decreases s.len() - i,
    when 0 <= start <= i <= s.len()
{
    if i >= s.len() {
        if start < s.len() {
            seq![trimmed_len(s, start, s.len() as int)]
        } else {
            Seq::empty()
        }
    } else if s[i] == NL {
        seq![trimmed_len(s, start, i)] + lens_from(s, i + 1, i + 1)
    } else {
        lens_from(s, start, i + 1)
    }
}

/// Content lengths of all records of `s`, in order.
pub open spec fn line_lengths(s: Seq<u8>) -> Seq<int> {
    lens_from(s, 0, 0)
}

/// Number of blank records of `s[i..]` (records whose every byte is ASCII
/// whitespace), where the current record began at `start`.
pub open spec fn blanks_from(s: Seq<u8>, start: int, i: int) -> int
    decreases s.len() - i,
    when 0 <= start <= i <= s.len()
{
    if i >= s.len() {
        if start < s.len() && all_ws_range(s, start, s.len() as int) {
            1
        } else {
            0
        }
    } else if s[i] == NL {
        (if all_ws_range(s, start, i) {
            1int
        } else {
            0int
        }) + blanks_from(s, i + 1, i + 1)
    } else {
        blanks_from(s, start, i + 1)
    }
}

/// Number of blank records of `s`.
pub open spec fn blank_line_count(s: Seq<u8>) -> int {
    blanks_from(s, 0, 0)
}

/// Largest element of `s`, or 0 when `s` is empty.
pub open spec fn seq_max(s: Seq<int>) -> int
    decreases s.len(),
{
    if s.len() == 0 {
        0
    } else {
        let m = seq_max(s.drop_last());
        if s.last() > m {
            s.last()
        } else {
            m
        }
    }
}

/// Sum of the elements of `s`.
pub open spec fn seq_sum(s: Seq<int>) -> int
    decreases s.len(),
{
    if s.len() == 0 {
        0
    } else {
        seq_sum(s.drop_last()) + s.last()
    }
}

/// Sum of the squares of the elements of `s`.
pub open spec fn seq_sum_sq(s: Seq<int>) -> int
    decreases s.len(),
{
    if s.len() == 0 {
        0
    } else {
        seq_sum_sq(s.drop_last()) + s.last() * s.last()
    }
}

/// Number of elements of `s` equal to `v`.
pub open spec fn count_val(s: Seq<int>, v: int) -> int
    decreases s.len(),
{
    if s.len() == 0 {
        0
    } else {
        count_val(s.drop_last(), v) + if s.last() == v {
            1int
        } else {
            0int
        }
    }
}

/// Histogram bucket of a record length: the length rounded down to a
/// multiple of ten.
pub open spec fn bucket_of(l: int) -> int {
    (l / 10) * 10
}

/// Number of elements of `ls` whose bucket is `b`.
pub open spec fn count_bucket(ls: Seq<int>, b: int) -> int
    decreases ls.len(),
{
    if ls.len() == 0 {
        0
    } else {
        count_bucket(ls.drop_last(), b) + if bucket_of(ls.last()) == b {
            1int
        } else {
            0int
        }
    }
}

/// Shifting the sequence start shifts an all-whitespace range.
proof fn lemma_all_ws_shift(t: Seq<u8>, d: int, a: int, b: int)
    requires
        0 <= d <= a <= b <= t.len(),
    ensures
        all_ws_range(t, a, b) == all_ws_range(t.skip(d), a - d, b - d),
{
    if all_ws_range(t, a, b) {
        assert forall|k: int| a - d <= k < b - d implies is_ascii_ws(#[trigger] t.skip(d)[k]) by {
            assert(t.skip(d)[k] == t[k + d]);
            assert(is_ascii_ws(t[k + d]));
        }
    }
    if all_ws_range(t.skip(d), a - d, b - d) {
        assert forall|k: int| a <= k < b implies is_ascii_ws(#[trigger] t[k]) by {
            assert(t.skip(d)[k - d] == t[k]);
            assert(is_ascii_ws(t.skip(d)[k - d]));
        }
    }
}

/// Counting blank records of a suffix counts the records of the shifted
/// sequence.
proof fn lemma_blanks_shift(t: Seq<u8>, d: int, start: int, i: int)
    requires
        0 <= d <= start <= i <= t.len(),
    ensures
        blanks_from(t, start, i) == blanks_from(t.skip(d), start - d, i - d),
    decreases t.len() - i,
{
    let u = t.skip(d);
    assert(u.len() == t.len() - d);
    if i == t.len() {
        lemma_all_ws_shift(t, d, start, t.len() as int);
    } else {
        assert(u[i - d] == t[i]);
        if t[i] == NL {
            lemma_all_ws_shift(t, d, start, i);
            lemma_blanks_shift(t, d, i + 1, i + 1);
        } else {
            lemma_blanks_shift(t, d, start, i + 1);
        }
    }
}

/// Blank records split at a cut that follows a terminator.
proof fn lemma_blanks_split_h(t: Seq<u8>, m: int, start: int, i: int)
    requires
        0 <= start <= i < m <= t.len(),
        t[m - 1] == NL,
    ensures
        blanks_from(t, start, i) == blanks_from(t.take(m), start, i) + blanks_from(
            t.skip(m),
            0,
            0,
        ),
    decreases m - i,
{
    let a = t.take(m);
    assert(a.len() == m);
    assert(forall|k: int| 0 <= k < m ==> a[k] == t[k]);
    if i == m - 1 {
        assert(t[i] == NL);
        assert(all_ws_range(t, start, i) == all_ws_range(a, start, i)) by {
            assert(forall|k: int| start <= k < i ==> a[k] == t[k]);
        }
        lemma_blanks_shift(t, m, m, m);
        assert(blanks_from(a, m, m) == 0);
    } else {
        assert(a[i] == t[i]);
        if t[i] == NL {
            assert(all_ws_range(t, start, i) == all_ws_range(a, start, i)) by {
                assert(forall|k: int| start <= k < i ==> a[k] == t[k]);
            }
            lemma_blanks_split_h(t, m, i + 1, i + 1);
        } else {
            lemma_blanks_split_h(t, m, start, i + 1);
        }
    }
}

/// Blank records of a buffer split at any cut that follows a terminator:
/// each side counts its own records.
pub proof fn lemma_blanks_split(t: Seq<u8>, m: int)
    requires
        0 <= m <= t.len(),
        m == 0 || m == t.len() || t[m - 1] == NL,
    ensures
        blank_line_count(t) == blank_line_count(t.take(m)) + blank_line_count(t.skip(m)),
{
    if m == 0 {
        assert(t.take(0) =~= Seq::<u8>::empty());
        assert(t.skip(0) =~= t);
    } else if m == t.len() {
        assert(t.take(m) =~= t);
        assert(t.skip(m).len() == 0);
    } else {
        lemma_blanks_split_h(t, m, 0, 0);
    }
}

/// Record lengths of a suffix are the record lengths of the shifted
/// sequence.
proof fn lemma_lens_shift(t: Seq<u8>, d: int, start: int, i: int)
    requires
        0 <= d <= start <= i <= t.len(),
    ensures
        lens_from(t, start, i) == lens_from(t.skip(d), start - d, i - d),
    decreases t.len() - i,
{
    let u = t.skip(d);
    assert(u.len() == t.len() - d);
    if i == t.len() {
        if start < t.len() {
            assert(u[u.len() - 1] == t[t.len() - 1]);
            assert(trimmed_len(t, start, t.len() as int) == trimmed_len(
                u,
                start - d,
                u.len() as int,
            ));
        }
    } else {
        assert(u[i - d] == t[i]);
        if t[i] == NL {
            if i > start {
                assert(u[i - d - 1] == t[i - 1]);
            }
            assert(trimmed_len(t, start, i) == trimmed_len(u, start - d, i - d));
            lemma_lens_shift(t, d, i + 1, i + 1);
        } else {
            lemma_lens_shift(t, d, start, i + 1);
        }
    }
}

/// Record lengths split at a cut that follows a terminator.
proof fn lemma_lens_split_h(t: Seq<u8>, m: int, start: int, i: int)
    requires
        0 <= start <= i < m <= t.len(),
        t[m - 1] == NL,
    ensures
        lens_from(t, start, i) == lens_from(t.take(m), start, i) + lens_from(t.skip(m), 0, 0),
    decreases m - i,
{
    let a = t.take(m);
    assert(a.len() == m);
    assert(forall|k: int| 0 <= k < m ==> a[k] == t[k]);
    if i == m - 1 {
        assert(t[i] == NL);
        assert(a[i] == t[i]);
        if i > start {
            assert(a[i - 1] == t[i - 1]);
        }
        assert(trimmed_len(t, start, i) == trimmed_len(a, start, i));
        lemma_lens_shift(t, m, m, m);
        assert(lens_from(a, m, m) =~= Seq::<int>::empty());
        assert(seq![trimmed_len(t, start, i)] + (lens_from(t.skip(m), 0, 0)) =~= (seq![
            trimmed_len(a, start, i),
        ] + lens_from(a, m, m)) + lens_from(t.skip(m), 0, 0));
    } else {
        assert(a[i] == t[i]);
        if t[i] == NL {
            if i > start {
                assert(a[i - 1] == t[i - 1]);
            }
            assert(trimmed_len(t, start, i) == trimmed_len(a, start, i));
            lemma_lens_split_h(t, m, i + 1, i + 1);
            assert(seq![trimmed_len(t, start, i)] + (lens_from(a, i + 1, i + 1) + lens_from(
                t.skip(m),
                0,
                0,
            )) =~= (seq![trimmed_len(a, start, i)] + lens_from(a, i + 1, i + 1)) + lens_from(
                t.skip(m),
                0,
                0,
            ));
        } else {
            lemma_lens_split_h(t, m, start, i + 1);
        }
    }
}

/// Record lengths of a buffer split at any cut that follows a terminator:
/// the list is the concatenation of each side's lists.
pub proof fn lemma_lens_split(t: Seq<u8>, m: int)
    requires
        0 <= m <= t.len(),
        m == 0 || m == t.len() || t[m - 1] == NL,
    ensures
        line_lengths(t) == line_lengths(t.take(m)) + line_lengths(t.skip(m)),
{
    if m == 0 {
        assert(t.take(0).len() == 0);
        assert(t.skip(0) =~= t);
        assert(line_lengths(t.take(0)) =~= Seq::<int>::empty());
        assert(line_lengths(t.take(0)) + line_lengths(t.skip(0)) =~= line_lengths(t));
    } else if m == t.len() {
        assert(t.take(m) =~= t);
        assert(t.skip(m).len() == 0);
        assert(line_lengths(t.skip(m)) =~= Seq::<int>::empty());
        assert(line_lengths(t.take(m)) + line_lengths(t.skip(m)) =~= line_lengths(t));
    } else {
        lemma_lens_split_h(t, m, 0, 0);
    }
}

/// The sum of a sequence with one element prepended.
pub proof fn lemma_seq_sum_cons(x: int, r: Seq<int>)
    ensures
        seq_sum(seq![x] + r) == x + seq_sum(r),
    decreases r.len(),
{
    if r.len() == 0 {
        assert(seq![x] + r =~= seq![x]);
        assert(seq![x].drop_last() =~= Seq::<int>::empty());
        assert(seq_sum(Seq::<int>::empty()) == 0);
        assert(seq![x].last() == x);
        assert(seq_sum(seq![x]) == seq_sum(seq![x].drop_last()) + x);
        assert(seq_sum(seq![x] + r) == x + seq_sum(r));
    } else {
        assert((seq![x] + r).drop_last() =~= seq![x] + r.drop_last());
        assert((seq![x] + r).last() == r.last());
        lemma_seq_sum_cons(x, r.drop_last());
        assert(seq_sum(seq![x] + r) == seq_sum((seq![x] + r).drop_last()) + r.last());
        assert(seq_sum(r) == seq_sum(r.drop_last()) + r.last());
    }
}

/// A sequence of non-negative elements has a non-negative maximum.
pub proof fn lemma_seq_max_nonneg(s: Seq<int>)
    requires
        forall|j: int| 0 <= j < s.len() ==> #[trigger] s[j] >= 0,
    ensures
        seq_max(s) >= 0,
    decreases s.len(),
{
    if s.len() > 0 {
        lemma_seq_max_nonneg(s.drop_last());
    }
}

/// The maximum over a concatenation is the larger of the two maxima, for
/// sequences whose maxima are non-negative.
pub proof fn lemma_seq_max_concat(a: Seq<int>, b: Seq<int>)
    requires
        seq_max(a) >= 0,
    ensures
        seq_max(a + b) == if seq_max(b) > seq_max(a) {
            seq_max(b)
        } else {
            seq_max(a)
        },
    decreases b.len(),
{
    if b.len() == 0 {
        assert(a + b =~= a);
        assert(seq_max(b) == 0);
    } else {
        assert((a + b).drop_last() =~= a + b.drop_last());
        assert((a + b).last() == b.last());
        lemma_seq_max_concat(a, b.drop_last());
        assert(seq_max(a + b) == if (a + b).last() > seq_max((a + b).drop_last()) {
            (a + b).last()
        } else {
            seq_max((a + b).drop_last())
        });
        assert(seq_max(b) == if b.last() > seq_max(b.drop_last()) {
            b.last()
        } else {
            seq_max(b.drop_last())
        });
    }
}

/// Every record length lies between zero and the buffer length, there are
/// at most as many records as bytes past `start`, and their lengths sum to
/// at most the bytes past `start`.
pub proof fn lemma_lens_bounds(t: Seq<u8>, start: int, i: int)
    requires
        0 <= start <= i <= t.len(),
    ensures
        lens_from(t, start, i).len() <= t.len() - start,
        seq_sum(lens_from(t, start, i)) <= t.len() - start,
        forall|j: int|
            0 <= j < lens_from(t, start, i).len() ==> 0 <= #[trigger] lens_from(t, start, i)[j]
                <= t.len(),
    decreases t.len() - i,
{
    if i == t.len() {
        if start < t.len() {
            let x = trimmed_len(t, start, t.len() as int);
            assert(seq![x].drop_last() =~= Seq::<int>::empty());
            assert(seq_sum(Seq::<int>::empty()) == 0);
            assert(seq_sum(seq![x]) == seq_sum(seq![x].drop_last()) + x);
            assert(seq_sum(seq![x]) == x);
        }
    } else {
        if t[i] == NL {
            lemma_lens_bounds(t, i + 1, i + 1);
            lemma_seq_sum_cons(trimmed_len(t, start, i), lens_from(t, i + 1, i + 1));
            assert(forall|j: int|
                0 <= j < lens_from(t, i + 1, i + 1).len() ==> (seq![trimmed_len(t, start, i)]
                    + lens_from(t, i + 1, i + 1))[j + 1] == #[trigger] lens_from(
                    t,
                    i + 1,
                    i + 1,
                )[j]);
        } else {
            lemma_lens_bounds(t, start, i + 1);
        }
    }
}

/// There are at most as many blank records as bytes past `start`.
pub proof fn lemma_blanks_bound(t: Seq<u8>, start: int, i: int)
    requires
        0 <= start <= i <= t.len(),
    ensures
        0 <= blanks_from(t, start, i) <= t.len() - start,
    decreases t.len() - i,
{
    if i < t.len() {
        if t[i] == NL {
            lemma_blanks_bound(t, i + 1, i + 1);
        } else {
            lemma_blanks_bound(t, start, i + 1);
        }
    }
}

/// Number of words of `s[i..]` under byte-wise ASCII classification, given
/// whether the scan is currently inside a word. A word is counted at each
/// non-whitespace byte that follows whitespace or the start of the scan.
pub open spec fn wcb_from(s: Seq<u8>, in_word: bool, i: int) -> int
    decreases s.len() - i,
    when 0 <= i <= s.len()
{
    if i >= s.len() {
        0
    } else if is_ascii_ws(s[i]) {
        wcb_from(s, false, i + 1)
    } else {
        (if in_word {
            0int
        } else {
            1int
        }) + wcb_from(s, true, i + 1)
    }
}

/// Number of words of `s` under byte-wise ASCII classification.
pub open spec fn byte_word_count(s: Seq<u8>) -> int {
    wcb_from(s, false, 0)
}

/// Byte-wise word counts lie between zero and the number of bytes
/// scanned.
pub proof fn lemma_wcb_bound(s: Seq<u8>, in_word: bool, i: int)
    requires
        0 <= i <= s.len(),
    ensures
        0 <= wcb_from(s, in_word, i) <= s.len() - i,
    decreases s.len() - i,
{
    if i < s.len() {
        lemma_wcb_bound(s, false, i + 1);
        lemma_wcb_bound(s, true, i + 1);
    }
}

/// The pattern `p` occurs in `s` starting at offset `i`.
pub open spec fn occurs_at(s: Seq<u8>, p: Seq<u8>, i: int) -> bool {
    0 <= i && i + p.len() <= s.len() && s.subrange(i, i + p.len()) == p
}

/// Number of non-overlapping occurrences of `p` in `s[i..]`, taking the
/// leftmost occurrence first and resuming after its end.
pub open spec fn novl_from(s: Seq<u8>, p: Seq<u8>, i: int) -> int
    decreases s.len() - i,
    when 0 <= i && 1 <= p.len()
{
    if i + p.len() > s.len() {
        0
    } else if occurs_at(s, p, i) {
        1 + novl_from(s, p, i + p.len())
    } else {
        novl_from(s, p, i + 1)
    }
}

/// Number of non-overlapping occurrences of `p` in `s`; zero for an empty
/// pattern.
pub open spec fn nonoverlap_count(s: Seq<u8>, p: Seq<u8>) -> int {
    if p.len() == 0 {
        0
    } else {
        novl_from(s, p, 0)
    }
}

/// Number of offsets of `s[i..]` at which `p` occurs, overlaps included.
pub open spec fn occ_from(s: Seq<u8>, p: Seq<u8>, i: int) -> int
    decreases s.len() - i,
    when 0 <= i && 1 <= p.len()
{
    if i + p.len() > s.len() {
        0
    } else {
        (if occurs_at(s, p, i) {
            1int
        } else {
            0int
        }) + occ_from(s, p, i + 1)
    }
}

/// Number of offsets of `s` at which `p` occurs, overlaps included.
pub open spec fn occurrence_count(s: Seq<u8>, p: Seq<u8>) -> int {
    if p.len() == 0 {
        0
    } else {
        occ_from(s, p, 0)
    }
}

/// Starting offsets of the non-overlapping occurrences counted by
/// `novl_from`, in ascending order.
pub open spec fn novl_positions_from(s: Seq<u8>, p: Seq<u8>, i: int) -> Seq<int>
    decreases s.len() - i,
    when 0 <= i && 1 <= p.len()
{
    if i + p.len() > s.len() {
        Seq::empty()
    } else if occurs_at(s, p, i) {
        seq![i] + novl_positions_from(s, p, i + p.len())
    } else {
        novl_positions_from(s, p, i + 1)
    }
}

/// Starting offsets of the non-overlapping occurrences of `p` in `s`.
pub open spec fn novl_positions(s: Seq<u8>, p: Seq<u8>) -> Seq<int> {
    if p.len() == 0 {
        Seq::empty()
    } else {
        novl_positions_from(s, p, 0)
    }
}

/// No occurrence of `p` can overlap another: `p` does not match any of its
/// own proper non-empty suffixes.
pub open spec fn no_self_overlap(p: Seq<u8>) -> bool {
    forall|d: int| 0 < d < p.len() ==> p.skip(d) != #[trigger] p.take(p.len() - d)
}

/// Number of offsets in `[lo, hi)` at which `p` occurs in `s`.
pub open spec fn occ_between(s: Seq<u8>, p: Seq<u8>, lo: int, hi: int) -> int
    decreases hi - lo,
{
    if lo >= hi {
        0
    } else {
        (if occurs_at(s, p, lo) {
            1int
        } else {
            0int
        }) + occ_between(s, p, lo + 1, hi)
    }
}

/// Occurrence counts over adjacent intervals add up.
pub proof fn lemma_occ_between_add(s: Seq<u8>, p: Seq<u8>, lo: int, mid: int, hi: int)
    requires
        lo <= mid <= hi,
    ensures
        occ_between(s, p, lo, hi) == occ_between(s, p, lo, mid) + occ_between(s, p, mid, hi),
    decreases mid - lo,
{
    if lo < mid {
        lemma_occ_between_add(s, p, lo + 1, mid, hi);
    }
}

/// Occurrence counts are non-negative and at most the interval width.
pub proof fn lemma_occ_between_bound(s: Seq<u8>, p: Seq<u8>, lo: int, hi: int)
    ensures
        0 <= occ_between(s, p, lo, hi),
        occ_between(s, p, lo, hi) <= if hi - lo >= 0 {
            hi - lo
        } else {
            0
        },
    decreases hi - lo,
{
    if lo < hi {
        lemma_occ_between_bound(s, p, lo + 1, hi);
    }
}

/// An occurrence in a subrange is an occurrence in the buffer, shifted.
pub proof fn lemma_occurs_transfer(s: Seq<u8>, p: Seq<u8>, lo: int, hi: int, w: int)
    requires
        0 <= lo <= hi <= s.len(),
        0 <= w,
        w + p.len() <= hi - lo,
    ensures
        occurs_at(s.subrange(lo, hi), p, w) == occurs_at(s, p, lo + w),
{
    let u = s.subrange(lo, hi);
    if occurs_at(u, p, w) {
        assert(s.subrange(lo + w, lo + w + p.len() as int) =~= u.subrange(
            w,
            w + p.len() as int,
        ));
    }
    if occurs_at(s, p, lo + w) {
        assert(u.subrange(w, w + p.len() as int) =~= s.subrange(
            lo + w,
            lo + w + p.len() as int,
        ));
    }
}

/// Counting occurrences over a subrange counts the shifted interval of
/// the buffer.
pub proof fn lemma_occ_between_transfer(s: Seq<u8>, p: Seq<u8>, lo: int, hi: int, a: int, b: int)
    requires
        0 <= lo <= hi <= s.len(),
        0 <= a,
        b <= hi - lo - p.len() + 1,
    ensures
        occ_between(s.subrange(lo, hi), p, a, b) == occ_between(s, p, lo + a, lo + b),
    decreases b - a,
{
    if a < b {
        lemma_occurs_transfer(s, p, lo, hi, a);
        lemma_occ_between_transfer(s, p, lo, hi, a + 1, b);
    }
}

/// The positional count from `i` counts the interval of offsets where an
/// occurrence can fit.
pub proof fn lemma_occ_from_between(t: Seq<u8>, p: Seq<u8>, i: int)
    requires
        1 <= p.len(),
        0 <= i,
    ensures
        occ_from(t, p, i) == occ_between(t, p, i, t.len() - p.len() + 1),
    decreases t.len() - i,
{
    if i + p.len() <= t.len() {
        lemma_occ_from_between(t, p, i + 1);
    }
}

/// Occurrences of a pattern without self-overlap lie at least a pattern
/// length apart.
pub proof fn lemma_occurrences_apart(s: Seq<u8>, p: Seq<u8>, i: int, j: int)
    requires
        no_self_overlap(p),
        occurs_at(s, p, i),
        occurs_at(s, p, j),
        i < j,
    ensures
        j >= i + p.len(),
{
    if j < i + p.len() {
        let d = j - i;
        let l = p.len() as int;
        assert forall|k: int| 0 <= k < l - d implies p.skip(d)[k] == p.take(l - d)[k] by {
            assert(p.skip(d)[k] == p[d + k]);
            assert(p.take(l - d)[k] == p[k]);
            assert(s.subrange(i, i + l)[d + k] == p[d + k]);
            assert(s.subrange(j, j + l)[k] == p[k]);
            assert(s[i + d + k] == p[d + k]);
            assert(s[j + k] == p[k]);
        }
        assert(p.skip(d) =~= p.take(l - d));
    }
}

/// Positional counts skip over a gap with no occurrences.
proof fn lemma_occ_no_hits(s: Seq<u8>, p: Seq<u8>, a: int, b: int)
    requires
        1 <= p.len(),
        0 <= a <= b,
        forall|w: int| a <= w < b ==> !occurs_at(s, p, w),
    ensures
        occ_from(s, p, a) == occ_from(s, p, b),
    decreases b - a,
{
    if a < b {
        if a + p.len() > s.len() {
            lemma_occ_from_between(s, p, a);
            lemma_occ_from_between(s, p, b);
            lemma_occ_between_bound(s, p, a, s.len() - p.len() + 1);
            lemma_occ_between_bound(s, p, b, s.len() - p.len() + 1);
        } else {
            lemma_occ_no_hits(s, p, a + 1, b);
        }
    }
}

/// For a pattern without self-overlap, the non-overlapping count is the
/// count of all occurrence offsets.
pub proof fn lemma_novl_eq_occ(s: Seq<u8>, p: Seq<u8>, i: int)
    requires
        no_self_overlap(p),
        1 <= p.len(),
        0 <= i,
    ensures
        novl_from(s, p, i) == occ_from(s, p, i),
    decreases s.len() - i,
{
    if i + p.len() <= s.len() {
        if occurs_at(s, p, i) {
            assert forall|w: int| i + 1 <= w < i + p.len() implies !occurs_at(s, p, w) by {
                if occurs_at(s, p, w) {
                    lemma_occurrences_apart(s, p, i, w);
                }
            }
            lemma_occ_no_hits(s, p, i + 1, i + p.len() as int);
            lemma_novl_eq_occ(s, p, i + p.len() as int);
        } else {
            lemma_novl_eq_occ(s, p, i + 1);
        }
    }
}

/// Each non-overlapping occurrence claims `p.len()` bytes, so the count
/// times the pattern length is at most the bytes scanned.
pub proof fn lemma_novl_mul_bound(s: Seq<u8>, p: Seq<u8>, i: int)
    requires
        1 <= p.len(),
        0 <= i <= s.len(),
    ensures
        0 <= novl_from(s, p, i),
        p.len() * novl_from(s, p, i) <= s.len() - i,
    decreases s.len() - i,
{
    if i + p.len() <= s.len() {
        if occurs_at(s, p, i) {
            lemma_novl_mul_bound(s, p, i + p.len() as int);
            let n = novl_from(s, p, i + p.len() as int);
            assert(p.len() * (n + 1) == p.len() * n + p.len()) by (nonlinear_arith);
            if n == 0 {
                assert(p.len() * novl_from(s, p, i) == p.len() * 1int) by (nonlinear_arith)
                    requires
                        novl_from(s, p, i) == 1,
                ;
            }
        } else {
            lemma_novl_mul_bound(s, p, i + 1);
        }
    }
}

/// Clamp a position to zero from below.
pub open spec fn clip0(x: int) -> int {
    if x > 0 {
        x
    } else {
        0
    }
}

/// First offset past the zone of occurrences that straddle the cut `b`:
/// the cut itself, clipped so that an occurrence still fits in the
/// buffer.
pub open spec fn win_hi(len: int, b: int, l: int) -> int {
    if b < len - l + 1 {
        b
    } else {
        len - l + 1
    }
}

/// The non-overlapping count over a rescan window equals the count of all
/// occurrence offsets in the window's interval, for a pattern without
/// self-overlap.
pub proof fn lemma_window_occ(s: Seq<u8>, p: Seq<u8>, rs: int, re: int)
    requires
        no_self_overlap(p),
        1 <= p.len(),
        0 <= rs <= re <= s.len(),
    ensures
        novl_from(s.subrange(rs, re), p, 0) == occ_between(s, p, rs, re - p.len() + 1),
{
    let region = s.subrange(rs, re);
    lemma_novl_eq_occ(region, p, 0);
    lemma_occ_from_between(region, p, 0);
    lemma_occ_between_transfer(s, p, rs, re, 0, re - rs - p.len() + 1);
}

/// One chunk's worth of occurrences: the occurrences ending inside
/// `[b0, b1)` are those fully inside the chunk plus those straddling the
/// cut at `b0`, provided the chunk is at least a pattern long or final.
pub proof fn lemma_occ_prefix_step(s: Seq<u8>, p: Seq<u8>, b0: int, b1: int)
    requires
        no_self_overlap(p),
        1 <= p.len(),
        0 <= b0 < b1 <= s.len(),
        p.len() <= b1 - b0 || b1 == s.len(),
    ensures
        occ_between(s, p, 0, clip0(b1 - p.len() + 1)) == occ_between(
            s,
            p,
            0,
            clip0(b0 - p.len() + 1),
        ) + novl_from(s.subrange(b0, b1), p, 0) + occ_between(
            s,
            p,
            clip0(b0 - p.len() + 1),
            win_hi(s.len() as int, b0, p.len() as int),
        ),
{
    let l = p.len() as int;
    let len = s.len() as int;
    let c0 = clip0(b0 - l + 1);
    let c1 = clip0(b1 - l + 1);
    let wh = win_hi(len, b0, l);
    let chunk = s.subrange(b0, b1);
    lemma_novl_eq_occ(chunk, p, 0);
    lemma_occ_from_between(chunk, p, 0);
    lemma_occ_between_transfer(s, p, b0, b1, 0, b1 - b0 - l + 1);
    assert(novl_from(chunk, p, 0) == occ_between(s, p, b0, b1 - l + 1));
    if l <= b1 - b0 {
        assert(c1 == b1 - l + 1);
        assert(wh == b0) by {
            assert(len >= b1 >= b0 + l);
        }
        lemma_occ_between_add(s, p, 0, c0, b0);
        lemma_occ_between_add(s, p, 0, b0, c1);
        lemma_occ_between_add(s, p, c0, b0, c1);
    } else {
        assert(b1 == len);
        assert(wh == len - l + 1) by {
            assert(len - b0 < l);
        }
        assert(occ_between(s, p, b0, b1 - l + 1) == 0) by {
            lemma_occ_between_bound(s, p, b0, b1 - l + 1);
        }
        if wh >= 0 {
            assert(c1 == wh);
            assert(c0 <= wh) by {
                assert(b0 - l + 1 <= len - l + 1);
            }
            lemma_occ_between_add(s, p, 0, c0, wh);
        } else {
            assert(c1 == 0);
            assert(c0 == 0);
            lemma_occ_between_bound(s, p, c0, wh);
        }
    }
}

/// Every listed non-overlapping occurrence offset is a real occurrence at
/// or past `i`, and the list has exactly `novl_from` entries.
pub proof fn lemma_novl_positions_props(s: Seq<u8>, p: Seq<u8>, i: int)
    requires
        1 <= p.len(),
        0 <= i,
    ensures
        novl_positions_from(s, p, i).len() == novl_from(s, p, i),
        forall|j: int|
            0 <= j < novl_positions_from(s, p, i).len() ==> {
                let w = #[trigger] novl_positions_from(s, p, i)[j];
                i <= w && w + p.len() <= s.len() && occurs_at(s, p, w)
            },
    decreases s.len() - i,
{
    if i + p.len() <= s.len() {
        if occurs_at(s, p, i) {
            lemma_novl_positions_props(s, p, i + p.len() as int);
        } else {
            lemma_novl_positions_props(s, p, i + 1);
        }
    }
}

} // verus!
