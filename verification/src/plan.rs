//! Chunk planning: a buffer is cut into contiguous chunks at offsets that
//! respect an alignment rule, so that each chunk can be scanned on its own.
use vstd::prelude::*;

use crate::text::NL;
use vstd::utf8::is_continuation_byte;

verus! {

/// A chunk plan over a buffer of length `len`: offsets begin at 0, increase
/// strictly, and end at `len`.
pub open spec fn is_chunk_plan(bs: Seq<usize>, len: int) -> bool {
    &&& bs.len() >= 2
    &&& bs[0] == 0
    &&& bs.last() as int == len
    &&& forall|i: int| 0 <= i < bs.len() - 1 ==> (#[trigger] bs[i]) < bs[i + 1]
}

/// Every internal offset of a line-aligned plan immediately follows a line
/// terminator, unless it is the buffer end.
pub open spec fn line_aligned(s: Seq<u8>, bs: Seq<usize>) -> bool {
    forall|i: int|
        1 <= i < bs.len() - 1 ==> (#[trigger] bs[i]) as int == s.len() || s[bs[i] - 1] == NL
}

/// Every internal offset of a UTF-8-aligned plan lands on a byte that is
/// not a continuation byte, unless it is the buffer end.
pub open spec fn utf8_aligned(s: Seq<u8>, bs: Seq<usize>) -> bool {
    forall|i: int|
        1 <= i < bs.len() - 1 ==> (#[trigger] bs[i]) as int == s.len() || !is_continuation_byte(
            s[bs[i] as int],
        )
}

/// Every offset of a chunk plan lies within the buffer.
pub proof fn lemma_plan_in_range(bs: Seq<usize>, len: int, i: int)
    requires
        is_chunk_plan(bs, len),
        0 <= i < bs.len(),
    ensures
        bs[i] as int <= len,
    decreases bs.len() - i,
{
    if i < bs.len() - 1 {
        lemma_plan_in_range(bs, len, i + 1);
    }
}

/// Chunk plan at fixed strides of `csize` bytes, with no alignment rule.
pub fn plan_fixed_boundaries(len: usize, csize: usize) -> (r: Vec<usize>)
    requires
        1 <= csize,
        1 <= len,
    ensures
        is_chunk_plan(r@, len as int),
        forall|i: int| 0 <= i < r@.len() - 1 ==> (#[trigger] r@[i]) as int == i * (csize as int),
{
    let mut bs: Vec<usize> = Vec::new();
    bs.push(0);
    let mut last: usize = 0;
    proof {
        assert(0int * (csize as int) == 0) by (nonlinear_arith);
        assert(forall|i: int|
            0 <= i < bs@.len() ==> (#[trigger] bs@[i]) as int == i * (csize as int));
    }
    while len - last > csize
        invariant
            1 <= csize,
            1 <= bs@.len(),
            bs@[0] == 0,
            bs@.last() == last,
            last <= len,
            forall|i: int| 0 <= i < bs@.len() - 1 ==> (#[trigger] bs@[i]) < bs@[i + 1],
            forall|i: int| 0 <= i < bs@.len() ==> (#[trigger] bs@[i]) as int == i * (csize as int),
        decreases len - last,
    {
        let next = last + csize;
        proof {
            assert((bs@.len() - 1) * (csize as int) + csize == bs@.len() * (csize as int))
                by (nonlinear_arith);
        }
        bs.push(next);
        last = next;
    }
    if last != len {
        bs.push(len);
    }
    bs
}

/// Every offset of a UTF-8-aligned chunk plan over a valid buffer is a
/// character boundary.
pub proof fn lemma_plan_char_boundary(s: Seq<u8>, bs: Seq<usize>, i: int)
    requires
        vstd::utf8::valid_utf8(s),
        is_chunk_plan(bs, s.len() as int),
        utf8_aligned(s, bs),
        0 <= i < bs.len(),
    ensures
        vstd::utf8::is_char_boundary(s, bs[i] as int),
{
    vstd::utf8::is_char_boundary_start_end_of_seq(s);
    lemma_plan_in_range(bs, s.len() as int, i);
    let b = bs[i] as int;
    if b != 0 && b != s.len() {
        assert(1 <= i < bs.len() - 1) by {
            if i == 0 {
                assert(b == 0);
            }
            if i == bs.len() - 1 {
                assert(b == s.len());
            }
        }
        assert(!vstd::utf8::is_continuation_byte(s[b]));
        vstd::utf8::is_char_boundary_iff_not_is_continuation_byte(s, b);
    }
}

/// Offset of the first line terminator of `data[from..]`, if any.
pub fn find_nl_from(data: &[u8], from: usize) -> (r: Option<usize>)
    requires
        from <= data@.len(),
    ensures
        match r {
            Some(j) => from <= j < data@.len() && data@[j as int] == NL && forall|k: int|
                from <= k < j ==> #[trigger] data@[k] != NL,
            None => forall|k: int| from <= k < data@.len() ==> #[trigger] data@[k] != NL,
        },
{
    let mut i: usize = from;
    while i < data.len()
        invariant
            from <= i <= data@.len(),
            forall|k: int| from <= k < i ==> #[trigger] data@[k] != NL,
        decreases data@.len() - i,
    {
        if data[i] == NL {
            return Some(i);
        }
        i = i + 1;
    }
    None
}

/// First offset at or after `from` that does not land on a UTF-8
/// continuation byte, or the buffer end.
pub fn find_utf8_boundary(data: &[u8], from: usize) -> (r: usize)
    requires
        from <= data@.len(),
    ensures
        from <= r <= data@.len(),
        r < data@.len() ==> !is_continuation_byte(data@[r as int]),
        forall|k: int| from <= k < r ==> is_continuation_byte(#[trigger] data@[k]),
{
    let mut i: usize = from;
    while i < data.len() && data[i] >= 0x80 && data[i] <= 0xbf
        invariant
            from <= i <= data@.len(),
            forall|k: int| from <= k < i ==> is_continuation_byte(#[trigger] data@[k]),
        decreases data@.len() - i,
    {
        i = i + 1;
    }
    i
}

/// Line-aligned chunk plan: from each stride of `csize` bytes, the next
/// offset just after a terminator (or the buffer end) becomes a cut.
pub fn plan_line_boundaries(data: &[u8], csize: usize) -> (r: Vec<usize>)
    requires
        1 <= csize,
        1 <= data@.len(),
    ensures
        is_chunk_plan(r@, data@.len() as int),
        line_aligned(data@, r@),
{
    let len = data.len();
    let mut bs: Vec<usize> = Vec::new();
    bs.push(0);
    let mut last: usize = 0;
    while len - last > csize
        invariant
            1 <= bs@.len(),
            bs@[0] == 0,
            bs@.last() == last,
            last <= len,
            len == data@.len(),
            forall|i: int| 0 <= i < bs@.len() - 1 ==> (#[trigger] bs@[i]) < bs@[i + 1],
            forall|i: int|
                1 <= i < bs@.len() ==> (#[trigger] bs@[i]) as int == data@.len()
                    || data@[bs@[i] - 1] == NL,
        decreases len - last,
    {
        let pos = last + csize;
        let next: usize = match find_nl_from(data, pos) {
            Some(j) => j + 1,
            None => len,
        };
        bs.push(next);
        last = next;
    }
    if last != len {
        bs.push(len);
    }
    bs
}

/// UTF-8-aligned chunk plan: from each stride of `csize` bytes, the cut
/// advances past any continuation bytes.
pub fn plan_utf8_boundaries(data: &[u8], csize: usize) -> (r: Vec<usize>)
    requires
        1 <= csize,
        1 <= data@.len(),
    ensures
        is_chunk_plan(r@, data@.len() as int),
        utf8_aligned(data@, r@),
{
    let len = data.len();
    let mut bs: Vec<usize> = Vec::new();
    bs.push(0);
    let mut last: usize = 0;
    while len - last > csize
        invariant
            1 <= csize,
            1 <= bs@.len(),
            bs@[0] == 0,
            bs@.last() == last,
            last <= len,
            len == data@.len(),
            forall|i: int| 0 <= i < bs@.len() - 1 ==> (#[trigger] bs@[i]) < bs@[i + 1],
            forall|i: int|
                1 <= i < bs@.len() ==> (#[trigger] bs@[i]) as int == data@.len()
                    || !is_continuation_byte(data@[bs@[i] as int]),
        decreases len - last,
    {
        let pos = last + csize;
        let next = find_utf8_boundary(data, pos);
        proof {
            assert(last < pos <= next);
        }
        bs.push(next);
        proof {
            assert(bs@.last() == next);
            assert(forall|i: int| 0 <= i < bs@.len() - 1 ==> (#[trigger] bs@[i]) < bs@[i + 1]);
        }
        last = next;
    }
    if last != len {
        bs.push(len);
    }
    bs
}

} // verus!
