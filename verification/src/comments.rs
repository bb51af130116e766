//! Comment filtering: a line-oriented state machine that strips line
//! comments, block comments and docstrings from code, dropping lines
//! that end up blank. Invalid UTF-8 passes through unchanged.
use vstd::prelude::*;

use crate::filter::{find_nl, line_end2};
use crate::text::NL;
use crate::unicode::is_ws_scalar;
use vstd::utf8::{
    codepoint_width_1, codepoint_width_2, codepoint_width_3, codepoint_width_4,
    is_continuation_byte, valid_utf8,
};

verus! {

/// Multi-line scanning state: outside any comment, inside a block
/// comment, or inside one of the two docstring forms.
#[derive(Clone, Copy, PartialEq, Eq, Structural, Debug)]
pub enum ScanState {
    /// Outside any multi-line construct.
    Normal,
    /// Inside a `/*` block comment.
    InBlock,
    /// Inside a docstring opened by three double quotes.
    InDocDouble,
    /// Inside a docstring opened by three single quotes.
    InDocSingle,
}

/// Scalar value of the character that ends at `pos`, the scan having
/// started at `cur`; 0 when no complete character ends there.
pub open spec fn last_scalar_of(s: Seq<u8>, cur: int, pos: int) -> u32 {
    if pos - cur >= 1 && !is_continuation_byte(s[pos - 1]) {
        codepoint_width_1(s[pos - 1])
    } else if pos - cur >= 2 && !is_continuation_byte(s[pos - 2]) {
        codepoint_width_2(s[pos - 2], s[pos - 1])
    } else if pos - cur >= 3 && !is_continuation_byte(s[pos - 3]) {
        codepoint_width_3(s[pos - 3], s[pos - 2], s[pos - 1])
    } else if pos - cur >= 4 {
        codepoint_width_4(s[pos - 4], s[pos - 3], s[pos - 2], s[pos - 1])
    } else {
        0
    }
}

/// The guard for line-comment markers: the marker stands at the scan
/// start or right after a whitespace character.
pub open spec fn prev_is_ws(s: Seq<u8>, cur: int, pos: int) -> bool {
    pos == cur || is_ws_scalar(last_scalar_of(s, cur, pos))
}

/// A two-byte marker occurs at `pos` within the line ending at `e2`.
pub open spec fn two_at(s: Seq<u8>, pos: int, e2: int, c1: u8, c2: u8) -> bool {
    pos + 2 <= e2 && s[pos] == c1 && s[pos + 1] == c2
}

/// A three-byte marker of one repeated byte occurs at `pos`.
pub open spec fn three_at(s: Seq<u8>, pos: int, e2: int, c: u8) -> bool {
    pos + 3 <= e2 && s[pos] == c && s[pos + 1] == c && s[pos + 2] == c
}

/// Some comment marker begins at `pos`: a guarded line-comment opener
/// (`//`, `#`, `--`), a guarded block opener (`/*`), or an unguarded
/// docstring delimiter.
pub open spec fn marker_at(s: Seq<u8>, cur: int, pos: int, e2: int) -> bool {
    ||| (prev_is_ws(s, cur, pos) && (two_at(s, pos, e2, 47, 47) || (pos + 1 <= e2 && s[pos] == 35)
        || two_at(s, pos, e2, 45, 45) || two_at(s, pos, e2, 47, 42)))
    ||| three_at(s, pos, e2, 34)
    ||| three_at(s, pos, e2, 39)
}

/// First offset in `[j, e2)` where a marker begins, or `e2`.
pub open spec fn find_marker(s: Seq<u8>, cur: int, j: int, e2: int) -> int
    decreases e2 - j,
    when 0 <= j && j <= e2
{
    if j >= e2 {
        e2
    } else if marker_at(s, cur, j, e2) {
        j
    } else {
        find_marker(s, cur, j + 1, e2)
    }
}

/// First offset in `[j, e2)` where the two bytes `c1 c2` occur, or `e2`.
pub open spec fn find_two(s: Seq<u8>, j: int, e2: int, c1: u8, c2: u8) -> int
    decreases e2 - j,
    when 0 <= j && j <= e2
{
    if j >= e2 {
        e2
    } else if two_at(s, j, e2, c1, c2) {
        j
    } else {
        find_two(s, j + 1, e2, c1, c2)
    }
}

/// First offset in `[j, e2)` where the byte `c` occurs three times in a
/// row, or `e2`.
pub open spec fn find_three(s: Seq<u8>, j: int, e2: int, c: u8) -> int
    decreases e2 - j,
    when 0 <= j && j <= e2
{
    if j >= e2 {
        e2
    } else if three_at(s, j, e2, c) {
        j
    } else {
        find_three(s, j + 1, e2, c)
    }
}

/// Clamp a scan position into `(cur, e2]` so that the scan always
/// advances.
pub open spec fn step_to(cur: int, t: int, e2: int) -> int {
    if cur + 1 <= t && t <= e2 {
        t
    } else {
        e2
    }
}

/// Scans one line from `cur` in the given state: the content that
/// survives, and the state after the line.
pub open spec fn line_scan(s: Seq<u8>, cur: int, e2: int, st: ScanState) -> (Seq<u8>, ScanState)
    decreases e2 - cur,
    when 0 <= cur && cur <= e2 <= s.len()
{
    if cur >= e2 {
        (Seq::empty(), st)
    } else if st is InBlock {
        let q = find_two(s, cur, e2, 42, 47);
        if q < e2 {
            line_scan(s, step_to(cur, q + 2, e2), e2, ScanState::Normal)
        } else {
            (Seq::empty(), ScanState::InBlock)
        }
    } else if st is InDocDouble {
        let q = find_three(s, cur, e2, 34);
        if q < e2 {
            line_scan(s, step_to(cur, q + 3, e2), e2, ScanState::Normal)
        } else {
            (Seq::empty(), ScanState::InDocDouble)
        }
    } else if st is InDocSingle {
        let q = find_three(s, cur, e2, 39);
        if q < e2 {
            line_scan(s, step_to(cur, q + 3, e2), e2, ScanState::Normal)
        } else {
            (Seq::empty(), ScanState::InDocSingle)
        }
    } else {
        let p = find_marker(s, cur, cur, e2);
        if p >= e2 {
            (s.subrange(cur, e2), ScanState::Normal)
        } else if two_at(s, p, e2, 47, 42) {
            let q = find_two(s, step_to(cur, p + 2, e2), e2, 42, 47);
            if q < e2 {
                let rec = line_scan(s, step_to(cur, q + 2, e2), e2, ScanState::Normal);
                (s.subrange(cur, p) + rec.0, rec.1)
            } else {
                (s.subrange(cur, p), ScanState::InBlock)
            }
        } else if three_at(s, p, e2, 34) {
            let q = find_three(s, step_to(cur, p + 3, e2), e2, 34);
            if q < e2 {
                let rec = line_scan(s, step_to(cur, q + 3, e2), e2, ScanState::Normal);
                (s.subrange(cur, p) + rec.0, rec.1)
            } else {
                (s.subrange(cur, p), ScanState::InDocDouble)
            }
        } else if three_at(s, p, e2, 39) {
            let q = find_three(s, step_to(cur, p + 3, e2), e2, 39);
            if q < e2 {
                let rec = line_scan(s, step_to(cur, q + 3, e2), e2, ScanState::Normal);
                (s.subrange(cur, p) + rec.0, rec.1)
            } else {
                (s.subrange(cur, p), ScanState::InDocSingle)
            }
        } else {
            (s.subrange(cur, p), ScanState::Normal)
        }
    }
}

/// Width in bytes of the last complete character encoding of `c`, 0 when
/// there is none.
pub open spec fn last_len_of(c: Seq<u8>) -> int {
    let n = c.len() as int;
    if n >= 1 && !is_continuation_byte(c[n - 1]) {
        1
    } else if n >= 2 && !is_continuation_byte(c[n - 2]) {
        2
    } else if n >= 3 && !is_continuation_byte(c[n - 3]) {
        3
    } else if n >= 4 {
        4
    } else {
        0
    }
}

/// `c` with its trailing whitespace characters removed.
pub open spec fn trim_ws_end(c: Seq<u8>) -> Seq<u8>
    decreases c.len(),
{
    if c.len() == 0 {
        c
    } else {
        let l = last_len_of(c);
        if l == 0 || l > c.len() {
            c
        } else if is_ws_scalar(last_scalar_of(c, 0, c.len() as int)) {
            trim_ws_end(c.take(c.len() - l))
        } else {
            c
        }
    }
}

/// The comment filter from line start `i` in state `st`: each line's
/// surviving content is trimmed of trailing whitespace and kept with a
/// terminator only when a non-whitespace residue remains.
pub open spec fn cmt_from(s: Seq<u8>, i: int, st: ScanState) -> Seq<u8>
    decreases s.len() - i,
    when 0 <= i <= s.len()
{
    if i >= s.len() {
        Seq::empty()
    } else {
        let e = find_nl(s, i);
        let e2 = line_end2(s, i);
        let rs0 = if e < s.len() {
            e + 1
        } else {
            s.len() as int
        };
        let rest = if i + 1 <= rs0 && rs0 <= s.len() {
            rs0
        } else {
            i + 1
        };
        let e2c = if i <= e2 && e2 <= s.len() {
            e2
        } else {
            i
        };
        let sc = line_scan(s, i, e2c, st);
        let tc = trim_ws_end(sc.0);
        (if tc.len() > 0 {
            tc + seq![NL]
        } else {
            Seq::empty()
        }) + cmt_from(s, rest, sc.1)
    }
}

/// What the comment filter produces: the filtered lines for valid UTF-8,
/// the input unchanged otherwise.
pub open spec fn comments_filtered(s: Seq<u8>) -> Seq<u8> {
    if valid_utf8(s) {
        cmt_from(s, 0, ScanState::Normal)
    } else {
        s
    }
}

/// Appends the bytes `data[a..b]` to `buf`.
fn push_range(buf: &mut Vec<u8>, data: &[u8], a: usize, b: usize)
    requires
        a <= b <= data@.len(),
    ensures
        final (buf)@ == old(buf)@ + data@.subrange(a as int, b as int),
{
    let ghost pre = buf@;
    let mut j: usize = a;
    proof {
        assert(pre + data@.subrange(a as int, a as int) =~= pre);
    }
    while j < b
        invariant
            a <= j <= b <= data@.len(),
            buf@ == pre + data@.subrange(a as int, j as int),
        decreases b - j,
    {
        buf.push(data[j]);
        proof {
            assert(buf@ =~= pre + data@.subrange(a as int, j + 1));
        }
        j = j + 1;
    }
}

/// The guard test: the scan start, or a whitespace character right
/// before `pos`.
fn prev_ws_at(data: &[u8], cur: usize, pos: usize) -> (r: bool)
    requires
        cur <= pos <= data@.len(),
    ensures
        r == prev_is_ws(data@, cur as int, pos as int),
{
    if pos == cur {
        return true;
    }
    let b1 = data[pos - 1];
    let v: u32 = if !(0x80 <= b1 && b1 <= 0xbf) {
        (b1 & 0x7f) as u32
    } else if pos - cur >= 2 && !(0x80 <= data[pos - 2] && data[pos - 2] <= 0xbf) {
        ((data[pos - 2] & 0x1f) as u32) << 6 | (b1 & 0x3f) as u32
    } else if pos - cur >= 3 && !(0x80 <= data[pos - 3] && data[pos - 3] <= 0xbf) {
        ((data[pos - 3] & 0x0f) as u32) << 12 | ((data[pos - 2] & 0x3f) as u32) << 6 | (b1
            & 0x3f) as u32
    } else if pos - cur >= 4 {
        ((data[pos - 4] & 0x07) as u32) << 18 | ((data[pos - 3] & 0x3f) as u32) << 12 | ((data[pos
            - 2] & 0x3f) as u32) << 6 | (b1 & 0x3f) as u32
    } else {
        0
    };
    proof {
        assert(v == last_scalar_of(data@, cur as int, pos as int));
    }
    crate::unicode::ws_scalar(v)
}

/// First offset in `[j0, e2)` where the two bytes `c1 c2` occur, or `e2`.
fn find_two_from(data: &[u8], j0: usize, e2: usize, c1: u8, c2: u8) -> (p: usize)
    requires
        j0 <= e2 <= data@.len(),
    ensures
        j0 <= p <= e2,
        p as int == find_two(data@, j0 as int, e2 as int, c1, c2),
        p < e2 ==> two_at(data@, p as int, e2 as int, c1, c2),
{
    let mut j = j0;
    while j < e2
        invariant
            j0 <= j <= e2 <= data@.len(),
            find_two(data@, j0 as int, e2 as int, c1, c2) == find_two(
                data@,
                j as int,
                e2 as int,
                c1,
                c2,
            ),
        decreases e2 - j,
    {
        if e2 - j >= 2 && data[j] == c1 && data[j + 1] == c2 {
            return j;
        }
        proof {
            assert(!two_at(data@, j as int, e2 as int, c1, c2));
        }
        j = j + 1;
    }
    e2
}

/// First offset in `[j0, e2)` where the byte `c` occurs three times in a
/// row, or `e2`.
fn find_three_from(data: &[u8], j0: usize, e2: usize, c: u8) -> (p: usize)
    requires
        j0 <= e2 <= data@.len(),
    ensures
        j0 <= p <= e2,
        p as int == find_three(data@, j0 as int, e2 as int, c),
        p < e2 ==> three_at(data@, p as int, e2 as int, c),
{
    let mut j = j0;
    while j < e2
        invariant
            j0 <= j <= e2 <= data@.len(),
            find_three(data@, j0 as int, e2 as int, c) == find_three(
                data@,
                j as int,
                e2 as int,
                c,
            ),
        decreases e2 - j,
    {
        if e2 - j >= 3 && data[j] == c && data[j + 1] == c && data[j + 2] == c {
            return j;
        }
        proof {
            assert(!three_at(data@, j as int, e2 as int, c));
        }
        j = j + 1;
    }
    e2
}

/// First offset in `[cur, e2)` where a comment marker begins, or `e2`.
fn find_marker_from(data: &[u8], cur: usize, e2: usize) -> (p: usize)
    requires
        cur <= e2 <= data@.len(),
    ensures
        cur <= p <= e2,
        p as int == find_marker(data@, cur as int, cur as int, e2 as int),
        p < e2 ==> marker_at(data@, cur as int, p as int, e2 as int),
{
    let mut j = cur;
    while j < e2
        invariant
            cur <= j <= e2 <= data@.len(),
            find_marker(data@, cur as int, cur as int, e2 as int) == find_marker(
                data@,
                cur as int,
                j as int,
                e2 as int,
            ),
        decreases e2 - j,
    {
        let b = data[j];
        let mut hit = false;
        if b == 34 || b == 39 {
            hit = e2 - j >= 3 && data[j + 1] == b && data[j + 2] == b;
        }
        if !hit && (b == 47 || b == 35 || b == 45) {
            let shape = if b == 35 {
                true
            } else if b == 47 {
                e2 - j >= 2 && (data[j + 1] == 47 || data[j + 1] == 42)
            } else {
                e2 - j >= 2 && data[j + 1] == 45
            };
            if shape {
                if prev_ws_at(data, cur, j) {
                    hit = true;
                }
            }
        }
        proof {
            assert(hit == marker_at(data@, cur as int, j as int, e2 as int));
        }
        if hit {
            return j;
        }
        j = j + 1;
    }
    e2
}

/// Scans one line from `i` to `e2` in the given state, returning the
/// surviving content and the state after the line.
fn scan_line(data: &[u8], i: usize, e2: usize, st: ScanState) -> (r: (Vec<u8>, ScanState))
    requires
        i <= e2 <= data@.len(),
    ensures
        r.0@ == line_scan(data@, i as int, e2 as int, st).0,
        r.1 == line_scan(data@, i as int, e2 as int, st).1,
{
    let ghost s = data@;
    let mut buf: Vec<u8> = Vec::new();
    let mut cur = i;
    let mut state = st;
    proof {
        assert(buf@ + line_scan(s, cur as int, e2 as int, state).0 =~= line_scan(
            s,
            i as int,
            e2 as int,
            st,
        ).0);
    }
    while cur < e2
        invariant
            i <= cur <= e2 <= s.len(),
            s == data@,
            line_scan(s, i as int, e2 as int, st).0 == buf@ + line_scan(
                s,
                cur as int,
                e2 as int,
                state,
            ).0,
            line_scan(s, i as int, e2 as int, st).1 == line_scan(s, cur as int, e2 as int, state).1,
        decreases e2 - cur,
    {
        match state {
            ScanState::InBlock => {
                let q = find_two_from(data, cur, e2, 42, 47);
                if q < e2 {
                    proof {
                        assert(step_to(cur as int, q + 2, e2 as int) == q + 2);
                    }
                    cur = q + 2;
                    state = ScanState::Normal;
                } else {
                    proof {
                        assert(line_scan(s, cur as int, e2 as int, state).0
                            =~= Seq::<u8>::empty());
                        assert(buf@ + Seq::<u8>::empty() =~= buf@);
                    }
                    cur = e2;
                }
            },
            ScanState::InDocDouble => {
                let q = find_three_from(data, cur, e2, 34);
                if q < e2 {
                    proof {
                        assert(step_to(cur as int, q + 3, e2 as int) == q + 3);
                    }
                    cur = q + 3;
                    state = ScanState::Normal;
                } else {
                    proof {
                        assert(line_scan(s, cur as int, e2 as int, state).0
                            =~= Seq::<u8>::empty());
                        assert(buf@ + Seq::<u8>::empty() =~= buf@);
                    }
                    cur = e2;
                }
            },
            ScanState::InDocSingle => {
                let q = find_three_from(data, cur, e2, 39);
                if q < e2 {
                    proof {
                        assert(step_to(cur as int, q + 3, e2 as int) == q + 3);
                    }
                    cur = q + 3;
                    state = ScanState::Normal;
                } else {
                    proof {
                        assert(line_scan(s, cur as int, e2 as int, state).0
                            =~= Seq::<u8>::empty());
                        assert(buf@ + Seq::<u8>::empty() =~= buf@);
                    }
                    cur = e2;
                }
            },
            ScanState::Normal => {
                let p = find_marker_from(data, cur, e2);
                if p >= e2 {
                    let ghost pre = buf@;
                    push_range(&mut buf, data, cur, e2);
                    proof {
                        assert(line_scan(s, cur as int, e2 as int, state).0 == s.subrange(
                            cur as int,
                            e2 as int,
                        ));
                        assert(buf@ + line_scan(s, e2 as int, e2 as int, ScanState::Normal).0
                            =~= pre + line_scan(s, cur as int, e2 as int, state).0);
                    }
                    cur = e2;
                } else {
                    let b = data[p];
                    let ghost pre = buf@;
                    if b == 47 && data[p + 1] == 42 {
                        push_range(&mut buf, data, cur, p);
                        proof {
                            assert(two_at(s, p as int, e2 as int, 47, 42));
                            assert(step_to(cur as int, p + 2, e2 as int) == p + 2);
                        }
                        let q = find_two_from(data, p + 2, e2, 42, 47);
                        if q < e2 {
                            proof {
                                assert(step_to(cur as int, q + 2, e2 as int) == q + 2);
                                assert(pre + (s.subrange(cur as int, p as int) + line_scan(
                                    s,
                                    q + 2,
                                    e2 as int,
                                    ScanState::Normal,
                                ).0) =~= buf@ + line_scan(s, q + 2, e2 as int, ScanState::Normal).0);
                            }
                            cur = q + 2;
                        } else {
                            proof {
                                assert(line_scan(s, cur as int, e2 as int, state).0 == s.subrange(
                                    cur as int,
                                    p as int,
                                ));
                                assert(line_scan(s, cur as int, e2 as int, state).1
                                    == ScanState::InBlock);
                                assert(buf@ + line_scan(s, e2 as int, e2 as int, ScanState::InBlock).0
                                    =~= pre + line_scan(s, cur as int, e2 as int, state).0);
                            }
                            cur = e2;
                            state = ScanState::InBlock;
                        }
                    } else if b == 34 || b == 39 {
                        push_range(&mut buf, data, cur, p);
                        proof {
                            assert(three_at(s, p as int, e2 as int, b));
                            assert(step_to(cur as int, p + 3, e2 as int) == p + 3);
                        }
                        let q = find_three_from(data, p + 3, e2, b);
                        let ghost tgt = if b == 34 {
                            ScanState::InDocDouble
                        } else {
                            ScanState::InDocSingle
                        };
                        if q < e2 {
                            proof {
                                assert(step_to(cur as int, q + 3, e2 as int) == q + 3);
                                assert(pre + (s.subrange(cur as int, p as int) + line_scan(
                                    s,
                                    q + 3,
                                    e2 as int,
                                    ScanState::Normal,
                                ).0) =~= buf@ + line_scan(s, q + 3, e2 as int, ScanState::Normal).0);
                            }
                            cur = q + 3;
                        } else {
                            proof {
                                assert(line_scan(s, cur as int, e2 as int, state).0 == s.subrange(
                                    cur as int,
                                    p as int,
                                ));
                                assert(line_scan(s, cur as int, e2 as int, state).1 == tgt);
                                assert(buf@ + line_scan(s, e2 as int, e2 as int, tgt).0 =~= pre
                                    + line_scan(s, cur as int, e2 as int, state).0);
                            }
                            cur = e2;
                            state = if b == 34 {
                                ScanState::InDocDouble
                            } else {
                                ScanState::InDocSingle
                            };
                        }
                    } else {
                        push_range(&mut buf, data, cur, p);
                        proof {
                            assert(!two_at(s, p as int, e2 as int, 47, 42)) by {
                                if b == 47 {
                                    assert(marker_at(s, cur as int, p as int, e2 as int));
                                }
                            }
                            assert(!three_at(s, p as int, e2 as int, 34));
                            assert(!three_at(s, p as int, e2 as int, 39));
                            assert(line_scan(s, cur as int, e2 as int, state).0 == s.subrange(
                                cur as int,
                                p as int,
                            ));
                            assert(line_scan(s, cur as int, e2 as int, state).1
                                == ScanState::Normal);
                            assert(buf@ + line_scan(s, e2 as int, e2 as int, ScanState::Normal).0
                                =~= pre + line_scan(s, cur as int, e2 as int, state).0);
                        }
                        cur = e2;
                    }
                }
            },
        }
    }
    proof {
        assert(line_scan(s, cur as int, e2 as int, state).0 =~= Seq::<u8>::empty());
        assert(buf@ + Seq::<u8>::empty() =~= buf@);
    }
    (buf, state)
}

/// Removes trailing whitespace characters from the line buffer.
fn trim_line(buf: &mut Vec<u8>)
    ensures
        final (buf)@ == trim_ws_end(old(buf)@),
{
    let ghost orig = buf@;
    let mut done = false;
    while !done
        invariant
            trim_ws_end(orig) == trim_ws_end(buf@),
            done ==> trim_ws_end(buf@) == buf@,
        decreases buf@.len(), (if done {
            0int
        } else {
            1int
        }),
    {
        let n = buf.len();
        if n == 0 {
            done = true;
        } else {
            let bl = buf[n - 1];
            let (l, v): (usize, u32) = if !(0x80 <= bl && bl <= 0xbf) {
                (1, (bl & 0x7f) as u32)
            } else if n >= 2 && !(0x80 <= buf[n - 2] && buf[n - 2] <= 0xbf) {
                (2, ((buf[n - 2] & 0x1f) as u32) << 6 | (bl & 0x3f) as u32)
            } else if n >= 3 && !(0x80 <= buf[n - 3] && buf[n - 3] <= 0xbf) {
                (3, ((buf[n - 3] & 0x0f) as u32) << 12 | ((buf[n - 2] & 0x3f) as u32) << 6 | (bl
                    & 0x3f) as u32)
            } else if n >= 4 {
                (4, ((buf[n - 4] & 0x07) as u32) << 18 | ((buf[n - 3] & 0x3f) as u32) << 12 | ((
                buf[n - 2] & 0x3f) as u32) << 6 | (bl & 0x3f) as u32)
            } else {
                (0, 0)
            };
            proof {
                assert(l as int == last_len_of(buf@));
                assert(l > 0 ==> v == last_scalar_of(buf@, 0, buf@.len() as int));
            }
            if l == 0 {
                done = true;
            } else if crate::unicode::ws_scalar(v) {
                let ghost before = buf@;
                buf.truncate(n - l);
                proof {
                    assert(buf@ =~= before.take(before.len() - last_len_of(before)));
                }
            } else {
                done = true;
            }
        }
    }
}

/// Strips code comments from `data`: line comments after whitespace,
/// block comments, and docstrings; lines left blank are dropped. Input
/// that is not valid UTF-8 is returned unchanged.
pub fn filter_code_comments(data: &[u8]) -> (r: Vec<u8>)
    ensures
        r@ == comments_filtered(data@),
{
    let ghost s = data@;
    if crate::unicode::utf8_scalar_count(data).is_none() {
        return crate::filter::copy_bytes(data);
    }
    let mut out: Vec<u8> = Vec::new();
    let mut state = ScanState::Normal;
    let mut i: usize = 0;
    proof {
        assert(out@ + cmt_from(s, 0, ScanState::Normal) =~= cmt_from(s, 0, ScanState::Normal));
    }
    while i < data.len()
        invariant
            s == data@,
            0 <= i <= s.len(),
            out@ + cmt_from(s, i as int, state) == cmt_from(s, 0, ScanState::Normal),
        decreases s.len() - i,
    {
        let (e, e2, next) = crate::filter::line_bounds(data, i);
        let sc = scan_line(data, i, e2, state);
        let mut buf = sc.0;
        let st2 = sc.1;
        trim_line(&mut buf);
        let ghost pre = out@;
        proof {
            let e2c = line_end2(s, i as int);
            assert(e2c == e2 as int);
            assert(cmt_from(s, i as int, state) == (if trim_ws_end(
                line_scan(s, i as int, e2 as int, state).0,
            ).len() > 0 {
                trim_ws_end(line_scan(s, i as int, e2 as int, state).0) + seq![NL]
            } else {
                Seq::<u8>::empty()
            }) + cmt_from(s, next as int, line_scan(s, i as int, e2 as int, state).1));
        }
        if buf.len() > 0 {
            let blen = buf.len();
            push_range(&mut out, buf.as_slice(), 0, blen);
            out.push(NL);
            proof {
                assert(buf@.subrange(0, buf@.len() as int) =~= buf@);
                assert(out@ =~= pre + (buf@ + seq![NL]));
                assert(out@ + cmt_from(s, next as int, st2) =~= pre + cmt_from(
                    s,
                    i as int,
                    state,
                ));
            }
        } else {
            proof {
                assert(out@ + cmt_from(s, next as int, st2) =~= pre + cmt_from(
                    s,
                    i as int,
                    state,
                ));
            }
        }
        state = st2;
        i = next;
    }
    proof {
        assert(out@ =~= cmt_from(s, 0, ScanState::Normal));
    }
    out
}

} // verus!
