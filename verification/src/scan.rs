//! Sequential scanners: one pass over a contiguous slice, one statistic
//! each. These are the per-chunk units of work of the chunked path.
use vstd::prelude::*;

use crate::search::{memchr_count, memmem_count};
use crate::text::{
    all_ws_range, blank_line_count, blanks_from, count_byte, is_ascii_ws, lens_from, line_lengths,
    nonoverlap_count, seq_max, trimmed_len, CR, NL,
};

verus! {

/// Number of line terminators in `data`.
pub fn newline_count(data: &[u8]) -> (r: usize)
    ensures
        r as int == count_byte(data@, NL),
{
    memchr_count(NL, data)
}

/// Number of non-overlapping occurrences of `pat` in `data`.
pub fn pattern_count_chunk(data: &[u8], pat: &[u8]) -> (r: usize)
    requires
        1 <= pat@.len(),
    ensures
        r as int == nonoverlap_count(data@, pat@),
{
    memmem_count(data, pat)
}

/// Number of blank records of `data`: records whose every byte is ASCII
/// whitespace, the trailing unterminated record counting only when
/// non-empty.
pub fn blank_count_chunk(data: &[u8]) -> (r: usize)
    ensures
        r as int == blank_line_count(data@),
{
    let ghost s = data@;
    let mut count: usize = 0;
    let mut start: usize = 0;
    let mut cur_blank: bool = true;
    let mut i: usize = 0;
    while i < data.len()
        invariant
            0 <= start <= i <= s.len(),
            s == data@,
            count <= start,
            cur_blank == all_ws_range(s, start as int, i as int),
            count + blanks_from(s, start as int, i as int) == blank_line_count(s),
        decreases s.len() - i,
    {
        let b = data[i];
        if b == NL {
            if cur_blank {
                count = count + 1;
            }
            start = i + 1;
            cur_blank = true;
        } else {
            let ws = b == 32 || b == 9 || b == 12 || b == 13;
            proof {
                if cur_blank && ws {
                    assert forall|k: int| start <= k < i + 1 implies crate::text::is_ascii_ws(
                        #[trigger] s[k],
                    ) by {
                        if k < i {
                            assert(is_ascii_ws(s[k]));
                        }
                    }
                }
                if !ws {
                    assert(!is_ascii_ws(s[i as int]));
                    assert(!all_ws_range(s, start as int, (i + 1) as int));
                }
                if !cur_blank {
                    assert(!all_ws_range(s, start as int, i as int));
                    let k = choose|k: int| start <= k < i && !is_ascii_ws(#[trigger] s[k]);
                    assert(start <= k < i + 1 && !is_ascii_ws(s[k]));
                    assert(!all_ws_range(s, start as int, (i + 1) as int));
                }
            }
            if !ws {
                cur_blank = false;
            }
        }
        i = i + 1;
    }
    if start < data.len() && cur_blank {
        count = count + 1;
    }
    count
}

/// Content lengths of the records of `data`, in order, with a carriage
/// return before each terminator trimmed.
pub fn line_lengths_chunk(data: &[u8]) -> (r: Vec<usize>)
    ensures
        r@.map_values(|x: usize| x as int) == line_lengths(data@),
{
    let ghost s = data@;
    let mut r: Vec<usize> = Vec::new();
    let mut start: usize = 0;
    let mut i: usize = 0;
    while i < data.len()
        invariant
            0 <= start <= i <= s.len(),
            s == data@,
            r@.map_values(|x: usize| x as int) + lens_from(s, start as int, i as int)
                == line_lengths(s),
        decreases s.len() - i,
    {
        if data[i] == NL {
            let end: usize = if i > start && data[i - 1] == CR {
                i - 1
            } else {
                i
            };
            proof {
                assert(end - start == trimmed_len(s, start as int, i as int));
            }
            let ghost om = r@;
            r.push(end - start);
            proof {
                assert(r@.map_values(|x: usize| x as int) =~= om.map_values(
                    |x: usize| x as int,
                ).push((end - start) as int));
            }
            start = i + 1;
        }
        i = i + 1;
    }
    if start < data.len() {
        let end: usize = if data.len() > start && data[data.len() - 1] == CR {
            data.len() - 1
        } else {
            data.len()
        };
        r.push(end - start);
        proof {
            assert(r@.map_values(|x: usize| x as int) =~= line_lengths(s));
        }
    }
    r
}

/// Length of the longest record of `data`, or 0 when there is none.
pub fn max_line_chunk(data: &[u8]) -> (r: usize)
    ensures
        r as int == seq_max(line_lengths(data@)),
{
    let ghost s = data@;
    let ghost emitted: Seq<int> = Seq::empty();
    let mut max_len: usize = 0;
    let mut start: usize = 0;
    let mut i: usize = 0;
    while i < data.len()
        invariant
            0 <= start <= i <= s.len(),
            s == data@,
            emitted + lens_from(s, start as int, i as int) == line_lengths(s),
            max_len as int == seq_max(emitted),
            max_len <= i,
        decreases s.len() - i,
    {
        if data[i] == NL {
            let end: usize = if i > start && data[i - 1] == CR {
                i - 1
            } else {
                i
            };
            let l = end - start;
            proof {
                assert(l as int == trimmed_len(s, start as int, i as int));
                lemma_seq_max_push(emitted, l as int);
                assert(emitted.push(l as int) + lens_from(s, i + 1, i + 1) =~= emitted + (seq![
                    l as int,
                ] + lens_from(s, i + 1, i + 1)));
            }
            proof {
                emitted = emitted.push(l as int);
            }
            if l > max_len {
                max_len = l;
            }
            start = i + 1;
        }
        i = i + 1;
    }
    if start < data.len() {
        let end: usize = if data.len() > start && data[data.len() - 1] == CR {
            data.len() - 1
        } else {
            data.len()
        };
        let l = end - start;
        proof {
            lemma_seq_max_push(emitted, l as int);
            assert(emitted.push(l as int) =~= line_lengths(s));
        }
        if l > max_len {
            max_len = l;
        }
    }
    max_len
}

/// Appending one element to a sequence takes the maximum of the old
/// maximum and the new element.
proof fn lemma_seq_max_push(a: Seq<int>, x: int)
    ensures
        seq_max(a.push(x)) == if x > seq_max(a) {
            x
        } else {
            seq_max(a)
        },
{
    assert(a.push(x).drop_last() =~= a);
    assert(a.push(x).last() == x);
}

} // verus!
