//! Markup filtering: drops fenced code blocks and inline code spans from
//! markdown text, line by line. Invalid UTF-8 passes through unchanged.
use vstd::prelude::*;

use crate::plan::find_nl_from;
use crate::text::{CR, NL};
use crate::unicode::{is_ws_scalar, utf8_advance, utf8_scalar_count, ws_scalar};
use vstd::utf8::{
    decode_first_scalar, is_char_boundary, is_char_boundary_iff_not_is_continuation_byte,
    is_char_boundary_start_end_of_seq, is_continuation_byte, length_of_first_scalar,
    valid_first_scalar, valid_utf8, valid_utf8_split,
};

verus! {

/// Offset of the first line terminator of `s[i..]`, or the buffer end.
pub open spec fn find_nl(s: Seq<u8>, i: int) -> int
    decreases s.len() - i,
    when 0 <= i <= s.len()
{
    if i >= s.len() {
        s.len() as int
    } else if s[i] == NL {
        i
    } else {
        find_nl(s, i + 1)
    }
}

/// `find_nl` returns the offset whose characterization the search
/// established.
proof fn lemma_find_nl_char(s: Seq<u8>, i: int, j: int)
    requires
        0 <= i <= j <= s.len(),
        forall|k: int| i <= k < j ==> #[trigger] s[k] != NL,
        j == s.len() || s[j] == NL,
    ensures
        find_nl(s, i) == j,
    decreases j - i,
{
    if i < j {
        lemma_find_nl_char(s, i + 1, j);
    }
}

/// `find_nl` stays within the buffer and at or past its start.
pub(crate) proof fn lemma_find_nl_bounds(s: Seq<u8>, i: int)
    requires
        0 <= i <= s.len(),
    ensures
        i <= find_nl(s, i) <= s.len(),
        find_nl(s, i) < s.len() ==> s[find_nl(s, i)] == NL,
    decreases s.len() - i,
{
    if i < s.len() && s[i] != NL {
        lemma_find_nl_bounds(s, i + 1);
    }
}

/// End of the line content that starts at `i`: the next terminator, less
/// a carriage return just before it. A carriage return at the very end of
/// the buffer, with no terminator after it, stays part of the content.
pub open spec fn line_end2(s: Seq<u8>, i: int) -> int {
    let e = find_nl(s, i);
    if e < s.len() && e > i && s[e - 1] == CR {
        e - 1
    } else {
        e
    }
}

/// In valid UTF-8, the offset after a one-byte character at a boundary is
/// again a boundary.
proof fn lemma_boundary_after_ascii(s: Seq<u8>, e: int)
    requires
        valid_utf8(s),
        0 <= e < s.len(),
        is_char_boundary(s, e),
        s[e] < 0x80,
    ensures
        is_char_boundary(s, e + 1),
{
    is_char_boundary_start_end_of_seq(s);
    if e + 1 < s.len() {
        valid_utf8_split(s, e);
        let u = s.subrange(e, s.len() as int);
        assert(valid_utf8(u));
        assert(u[0] == s[e]);
        assert(vstd::utf8::is_leading_byte_width_1(u[0]));
        assert(length_of_first_scalar(u) == 1);
        let v = vstd::utf8::pop_first_scalar(u);
        assert(valid_utf8(v));
        assert(v.len() > 0);
        assert(v[0] == s[e + 1]);
        assert(!is_continuation_byte(v[0])) by {
            assert(valid_first_scalar(v));
            assert(vstd::utf8::valid_leading_and_continuation_bytes_first_codepoint(v));
        }
        is_char_boundary_iff_not_is_continuation_byte(s, e + 1);
    }
}

/// A whole character fits between two boundaries.
proof fn lemma_char_fits(s: Seq<u8>, k: int, e2: int)
    requires
        valid_utf8(s),
        0 <= k < e2 <= s.len(),
        is_char_boundary(s, k),
        is_char_boundary(s, e2),
    ensures
        k + length_of_first_scalar(s.subrange(k, s.len() as int)) <= e2,
        valid_first_scalar(s.subrange(k, s.len() as int)),
{
    valid_utf8_split(s, k);
    let u = s.subrange(k, s.len() as int);
    assert(valid_utf8(u) && u.len() > 0);
    assert(valid_first_scalar(u));
    let l = length_of_first_scalar(u);
    assert(1 <= l <= u.len()) by {
        assert(vstd::utf8::valid_leading_and_continuation_bytes_first_codepoint(u));
    }
    if e2 < k + l {
        assert(is_continuation_byte(s[e2])) by {
            assert(vstd::utf8::valid_leading_and_continuation_bytes_first_codepoint(u));
            assert(u[e2 - k] == s[e2]);
        }
        is_char_boundary_iff_not_is_continuation_byte(s, e2);
    }
}

/// First offset in `[k, e2)` whose character is not whitespace, walking
/// characters; `e2` when all are.
pub open spec fn lead_ws_end(s: Seq<u8>, k: int, e2: int) -> int
    decreases e2 - k,
    when 0 <= k && k <= e2 <= s.len()
{
    if k >= e2 {
        k
    } else if !valid_first_scalar(s.subrange(k, s.len() as int)) {
        k
    } else {
        let l = length_of_first_scalar(s.subrange(k, s.len() as int));
        if is_ws_scalar(decode_first_scalar(s.subrange(k, s.len() as int))) {
            if k + l <= e2 {
                lead_ws_end(s, k + l, e2)
            } else {
                e2
            }
        } else {
            k
        }
    }
}

/// A line whose content after leading whitespace starts with a triple
/// backtick toggles the fenced-block state.
pub open spec fn is_fence(s: Seq<u8>, i: int, e2: int) -> bool {
    let k = lead_ws_end(s, i, e2);
    k + 3 <= e2 && s[k] == 96 && s[k + 1] == 96 && s[k + 2] == 96
}

/// The line content `[k, e2)` with backticks and the text between paired
/// backticks removed. An unpaired backtick hides the rest of the line.
pub open spec fn inline_from(s: Seq<u8>, k: int, e2: int, in_code: bool) -> Seq<u8>
    decreases e2 - k,
    when 0 <= k && k <= e2 <= s.len()
{
    if k >= e2 {
        Seq::empty()
    } else if !valid_first_scalar(s.subrange(k, s.len() as int)) {
        Seq::empty()
    } else {
        let l = length_of_first_scalar(s.subrange(k, s.len() as int));
        let nk = if k + l <= e2 {
            k + l
        } else {
            e2
        };
        if s[k] == 96 {
            inline_from(s, nk, e2, !in_code)
        } else if in_code {
            inline_from(s, nk, e2, in_code)
        } else {
            s.subrange(k, nk) + inline_from(s, nk, e2, in_code)
        }
    }
}

/// The markdown filter from line start `i` in state `in_block`: fence
/// lines toggle the state and are dropped, lines inside a fence are
/// dropped, other lines keep their inline-filtered content followed by a
/// terminator.
pub open spec fn md_from(s: Seq<u8>, i: int, in_block: bool) -> Seq<u8>
    decreases s.len() - i,
    when 0 <= i <= s.len()
{
    if i >= s.len() {
        Seq::empty()
    } else {
        let e = find_nl(s, i);
        let e2 = line_end2(s, i);
        let rs0 = if e < s.len() {
            e + 1
        } else {
            s.len() as int
        };
        let rest = if i + 1 <= rs0 && rs0 <= s.len() {
            rs0
        } else {
            i + 1
        };
        if is_fence(s, i, e2) {
            md_from(s, rest, !in_block)
        } else if in_block {
            md_from(s, rest, in_block)
        } else {
            inline_from(s, i, e2, false) + seq![NL] + md_from(s, rest, in_block)
        }
    }
}

/// What the markdown filter produces: the filtered lines for valid
/// UTF-8, the input unchanged otherwise.
pub open spec fn markdown_filtered(s: Seq<u8>) -> Seq<u8> {
    if valid_utf8(s) {
        md_from(s, 0, false)
    } else {
        s
    }
}

/// A byte-for-byte copy of the input.
pub fn copy_bytes(data: &[u8]) -> (r: Vec<u8>)
    ensures
        r@ == data@,
{
    let mut r: Vec<u8> = Vec::new();
    let mut i: usize = 0;
    while i < data.len()
        invariant
            i <= data@.len(),
            r@ == data@.subrange(0, i as int),
        decreases data@.len() - i,
    {
        r.push(data[i]);
        proof {
            assert(r@ =~= data@.subrange(0, i + 1));
        }
        i = i + 1;
    }
    proof {
        assert(data@.subrange(0, data@.len() as int) =~= data@);
    }
    r
}

/// Line bookkeeping for one filtered line: terminator offset, content
/// end, and next line start.
pub(crate) fn line_bounds(data: &[u8], i: usize) -> (r: (usize, usize, usize))
    requires
        i < data@.len(),
    ensures
        r.0 as int == find_nl(data@, i as int),
        r.1 as int == line_end2(data@, i as int),
        i <= r.1 <= r.0 <= data@.len(),
        r.2 as int == if r.0 < data@.len() {
            r.0 + 1
        } else {
            data@.len() as int
        },
        i < r.2 <= data@.len(),
        r.0 < data@.len() ==> data@[r.0 as int] == NL,
{
    let e: usize = match find_nl_from(data, i) {
        Some(j) => {
            proof {
                lemma_find_nl_char(data@, i as int, j as int);
            }
            j
        },
        None => {
            proof {
                lemma_find_nl_char(data@, i as int, data@.len() as int);
            }
            data.len()
        },
    };
    let e2: usize = if e < data.len() && e > i && data[e - 1] == CR {
        e - 1
    } else {
        e
    };
    let next: usize = if e < data.len() {
        e + 1
    } else {
        data.len()
    };
    (e, e2, next)
}

/// First non-whitespace character offset of the line `[i, e2)`.
fn lead_ws_scan(data: &[u8], i: usize, e2: usize) -> (k: usize)
    requires
        valid_utf8(data@),
        i <= e2 <= data@.len(),
        is_char_boundary(data@, i as int),
        is_char_boundary(data@, e2 as int),
    ensures
        i <= k <= e2,
        k as int == lead_ws_end(data@, i as int, e2 as int),
        is_char_boundary(data@, k as int),
    decreases e2 - i,
{
    let ghost s = data@;
    if i >= e2 {
        return i;
    }
    proof {
        lemma_char_fits(s, i as int, e2 as int);
    }
    let p = match utf8_advance(data, i) {
        Some(p) => p,
        None => {
            proof {
                valid_utf8_split(s, i as int);
                assert(valid_first_scalar(s.subrange(i as int, s.len() as int)));
            }
            (0, 1)
        },
    };
    if !ws_scalar(p.0) {
        return i;
    }
    proof {
        lemma_boundary_next(s, i as int, p.1 as int);
    }
    lead_ws_scan(data, i + p.1, e2)
}

/// The offset one character past a boundary is again a boundary.
proof fn lemma_boundary_next(s: Seq<u8>, i: int, l: int)
    requires
        valid_utf8(s),
        0 <= i < s.len(),
        is_char_boundary(s, i),
        valid_first_scalar(s.subrange(i, s.len() as int)),
        l == length_of_first_scalar(s.subrange(i, s.len() as int)),
    ensures
        i + l <= s.len(),
        is_char_boundary(s, i + l),
{
    valid_utf8_split(s, i);
    let u = s.subrange(i, s.len() as int);
    assert(valid_utf8(u));
    assert(1 <= l <= u.len()) by {
        assert(vstd::utf8::valid_leading_and_continuation_bytes_first_codepoint(u));
    }
    is_char_boundary_start_end_of_seq(s);
    if i + l < s.len() {
        let v = vstd::utf8::pop_first_scalar(u);
        assert(valid_utf8(v));
        assert(v.len() > 0);
        assert(v[0] == s[i + l]);
        assert(!is_continuation_byte(v[0])) by {
            assert(valid_first_scalar(v));
            assert(vstd::utf8::valid_leading_and_continuation_bytes_first_codepoint(v));
        }
        is_char_boundary_iff_not_is_continuation_byte(s, i + l);
    }
}

/// Removes fenced code blocks and inline code spans from markdown text.
/// Kept lines appear in order, each closed by a line terminator; input
/// that is not valid UTF-8 is returned unchanged.
pub fn filter_markdown_code(data: &[u8]) -> (r: Vec<u8>)
    ensures
        r@ == markdown_filtered(data@),
{
    let ghost s = data@;
    if utf8_scalar_count(data).is_none() {
        return copy_bytes(data);
    }
    let mut out: Vec<u8> = Vec::new();
    let mut in_block = false;
    let mut i: usize = 0;
    proof {
        is_char_boundary_start_end_of_seq(s);
        assert(out@ + md_from(s, 0, false) =~= md_from(s, 0, false));
    }
    while i < data.len()
        invariant
            s == data@,
            valid_utf8(s),
            0 <= i <= s.len(),
            is_char_boundary(s, i as int),
            out@ + md_from(s, i as int, in_block) == md_from(s, 0, false),
        decreases s.len() - i,
    {
        let (e, e2, next) = line_bounds(data, i);
        proof {
            lemma_find_nl_bounds(s, i as int);
            assert(is_char_boundary(s, e2 as int)) by {
                if (e2 as int) < s.len() {
                    assert(s[e2 as int] == NL || s[e2 as int] == CR) by {
                        if e2 == e {
                        } else {
                            assert(s[e2 as int] == CR);
                        }
                    }
                    is_char_boundary_iff_not_is_continuation_byte(s, e2 as int);
                } else {
                    is_char_boundary_start_end_of_seq(s);
                }
            }
            assert(is_char_boundary(s, next as int)) by {
                if e < data.len() {
                    assert(is_char_boundary(s, e as int)) by {
                        is_char_boundary_iff_not_is_continuation_byte(s, e as int);
                    }
                    lemma_boundary_after_ascii(s, e as int);
                } else {
                    is_char_boundary_start_end_of_seq(s);
                }
            }
        }
        let k = lead_ws_scan(data, i, e2);
        let fence = e2 - k >= 3 && data[k] == 96 && data[k + 1] == 96 && data[k + 2] == 96;
        proof {
            assert(fence == is_fence(s, i as int, e2 as int));
        }
        if fence {
            proof {
                assert(md_from(s, i as int, in_block) == md_from(s, next as int, !in_block));
            }
            in_block = !in_block;
            i = next;
            continue;
        }
        if in_block {
            proof {
                assert(md_from(s, i as int, in_block) == md_from(s, next as int, in_block));
            }
            i = next;
            continue;
        }
        let mut c: usize = i;
        let mut code = false;
        proof {
            assert(md_from(s, i as int, in_block) == inline_from(s, i as int, e2 as int, false)
                + seq![NL] + md_from(s, next as int, in_block));
            assert(out@ + (inline_from(s, c as int, e2 as int, code) + seq![NL] + md_from(
                s,
                next as int,
                in_block,
            )) =~= md_from(s, 0, false));
        }
        while c < e2
            invariant
                s == data@,
                valid_utf8(s),
                i <= c <= e2,
                e2 <= s.len(),
                is_char_boundary(s, c as int),
                is_char_boundary(s, e2 as int),
                next <= s.len(),
                out@ + (inline_from(s, c as int, e2 as int, code) + seq![NL] + md_from(
                    s,
                    next as int,
                    in_block,
                )) == md_from(s, 0, false),
            decreases e2 - c,
        {
            proof {
                lemma_char_fits(s, c as int, e2 as int);
            }
            let p = match utf8_advance(data, c) {
                Some(p) => p,
                None => {
                    proof {
                        valid_utf8_split(s, c as int);
                        assert(valid_first_scalar(s.subrange(c as int, s.len() as int)));
                    }
                    (0, 1)
                },
            };
            let b0 = data[c];
            proof {
                lemma_boundary_next(s, c as int, p.1 as int);
            }
            if b0 == 96 {
                proof {
                    assert(inline_from(s, c as int, e2 as int, code) == inline_from(
                        s,
                        c as int + p.1,
                        e2 as int,
                        !code,
                    ));
                }
                code = !code;
            } else if !code {
                let ghost pre = out@;
                let mut j: usize = c;
                while j < c + p.1
                    invariant
                        s == data@,
                        c <= j <= c + p.1,
                        c + p.1 <= s.len(),
                        s.len() <= usize::MAX as int,
                        out@ == pre + s.subrange(c as int, j as int),
                    decreases c + p.1 - j,
                {
                    out.push(data[j]);
                    proof {
                        assert(out@ =~= pre + s.subrange(c as int, j + 1));
                    }
                    j = j + 1;
                }
                proof {
                    assert(inline_from(s, c as int, e2 as int, code) == s.subrange(
                        c as int,
                        c as int + p.1,
                    ) + inline_from(s, c as int + p.1, e2 as int, code));
                    assert(out@ + (inline_from(s, c as int + p.1, e2 as int, code) + seq![NL]
                        + md_from(s, next as int, in_block)) =~= pre + (inline_from(
                        s,
                        c as int,
                        e2 as int,
                        code,
                    ) + seq![NL] + md_from(s, next as int, in_block)));
                }
            } else {
                proof {
                    assert(inline_from(s, c as int, e2 as int, code) == inline_from(
                        s,
                        c as int + p.1,
                        e2 as int,
                        code,
                    ));
                }
            }
            c = c + p.1;
        }
        proof {
            assert(inline_from(s, e2 as int, e2 as int, code) =~= Seq::<u8>::empty());
            assert(out@ + (Seq::<u8>::empty() + seq![NL] + md_from(s, next as int, in_block))
                =~= out@.push(NL) + md_from(s, next as int, in_block));
        }
        out.push(NL);
        i = next;
    }
    proof {
        assert(out@ =~= md_from(s, 0, false));
    }
    out
}

} // verus!
