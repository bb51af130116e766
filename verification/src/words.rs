//! Distinct words: tokenization of a UTF-8 buffer at character-level
//! whitespace boundaries into zero-copy byte spans, and the count of
//! distinct token contents.
use vstd::prelude::*;

use crate::unicode::{is_ws_scalar, utf8_advance, ws_scalar, lemma_invalid_at};
use vstd::utf8::{
    decode_first_scalar, length_of_first_scalar, partial_valid_utf8, valid_first_scalar,
    valid_utf8,
};

verus! {

broadcast use vstd::seq_lib::lemma_seq_contains;

/// The token contents named by a list of byte spans.
pub open spec fn span_tokens(spans: Seq<(usize, usize)>, s: Seq<u8>) -> Seq<Seq<u8>> {
    spans.map_values(|t: (usize, usize)| s.subrange(t.0 as int, t.1 as int))
}

/// Tokens of `s[i..]`, where the current token has been open since
/// `start` (`start == i` means no token is open). A token ends at each
/// whitespace character; trailing content forms a final token.
pub open spec fn toks_from(s: Seq<u8>, start: int, i: int) -> Seq<Seq<u8>>
    decreases s.len() - i,
    when 0 <= start <= i <= s.len()
{
    if i >= s.len() {
        if start < i {
            seq![s.subrange(start, i)]
        } else {
            Seq::empty()
        }
    } else if !valid_first_scalar(s.subrange(i, s.len() as int)) {
        Seq::empty()
    } else {
        let l = length_of_first_scalar(s.subrange(i, s.len() as int));
        if is_ws_scalar(decode_first_scalar(s.subrange(i, s.len() as int))) {
            (if start < i {
                seq![s.subrange(start, i)]
            } else {
                Seq::empty()
            }) + toks_from(s, if i + l <= s.len() {
                i + l
            } else {
                s.len() as int
            }, if i + l <= s.len() {
                i + l
            } else {
                s.len() as int
            })
        } else {
            toks_from(s, start, if i + l <= s.len() {
                i + l
            } else {
                s.len() as int
            })
        }
    }
}

/// The word tokens of `s`, in order of appearance.
pub open spec fn word_tokens(s: Seq<u8>) -> Seq<Seq<u8>> {
    toks_from(s, 0, 0)
}

/// Splits `data` into word spans. The spans name exactly the word tokens
/// of the buffer, in order; nothing for invalid UTF-8.
pub fn tokenize(data: &[u8]) -> (r: Option<Vec<(usize, usize)>>)
    ensures
        match r {
            Some(spans) => valid_utf8(data@) && span_tokens(spans@, data@) == word_tokens(data@)
                && forall|q: int|
                0 <= q < spans@.len() ==> (#[trigger] spans@[q]).0 < spans@[q].1 <= data@.len(),
            None => !valid_utf8(data@),
        },
{
    let ghost s = data@;
    let mut spans: Vec<(usize, usize)> = Vec::new();
    let mut start: usize = 0;
    let mut i: usize = 0;
    proof {
        assert(span_tokens(spans@, s) =~= Seq::<Seq<u8>>::empty());
    }
    while i < data.len()
        invariant
            s == data@,
            0 <= start <= i <= s.len(),
            partial_valid_utf8(s, i as int),
            valid_utf8(s) ==> span_tokens(spans@, s) + toks_from(s, start as int, i as int)
                == word_tokens(s),
            forall|q: int|
                0 <= q < spans@.len() ==> (#[trigger] spans@[q]).0 < spans@[q].1 <= s.len(),
        decreases s.len() - i,
    {
        match utf8_advance(data, i) {
            Some(p) => {
                let ws = ws_scalar(p.0);
                proof {
                    vstd::utf8::partial_valid_utf8_extend(s, i as int);
                    if valid_utf8(s) && ws && start < i {
                        let tok = s.subrange(start as int, i as int);
                        assert(span_tokens(spans@.push((start, i)), s) =~= span_tokens(
                            spans@,
                            s,
                        ).push(tok));
                        assert(span_tokens(spans@, s).push(tok) + toks_from(
                            s,
                            i + p.1,
                            i + p.1,
                        ) =~= span_tokens(spans@, s) + (seq![tok] + toks_from(
                            s,
                            i + p.1,
                            i + p.1,
                        )));
                    }
                }
                if ws {
                    if start < i {
                        spans.push((start, i));
                    }
                    start = i + p.1;
                }
                i = i + p.1;
            },
            None => {
                proof {
                    lemma_invalid_at(s, i as int);
                }
                return None;
            },
        }
    }
    proof {
        assert(s.subrange(0, s.len() as int) =~= s);
        assert(valid_utf8(s));
        if start < i {
            let tok = s.subrange(start as int, s.len() as int);
            assert(span_tokens(spans@.push((start, i)), s) =~= span_tokens(spans@, s).push(tok));
            assert(span_tokens(spans@, s).push(tok) =~= span_tokens(spans@, s) + seq![tok]);
        }
    }
    if start < i {
        spans.push((start, i));
    }
    proof {
        assert(span_tokens(spans@, s) =~= word_tokens(s));
    }
    Some(spans)
}

/// Compares the contents of two byte ranges of `data`.
fn bytes_range_eq(data: &[u8], a1: usize, b1: usize, a2: usize, b2: usize) -> (r: bool)
    requires
        a1 <= b1 <= data@.len(),
        a2 <= b2 <= data@.len(),
    ensures
        r == (data@.subrange(a1 as int, b1 as int) == data@.subrange(a2 as int, b2 as int)),
{
    let ghost s = data@;
    let n1 = b1 - a1;
    let n2 = b2 - a2;
    if n1 != n2 {
        proof {
            assert(s.subrange(a1 as int, b1 as int).len() != s.subrange(a2 as int, b2 as int).len());
        }
        return false;
    }
    let mut j: usize = 0;
    while j < n1
        invariant
            s == data@,
            a1 <= b1 <= s.len(),
            a2 <= b2 <= s.len(),
            n1 == b1 - a1 == b2 - a2,
            j <= n1,
            forall|m: int|
                0 <= m < j ==> s.subrange(a1 as int, b1 as int)[m] == s.subrange(
                    a2 as int,
                    b2 as int,
                )[m],
        decreases n1 - j,
    {
        if data[a1 + j] != data[a2 + j] {
            proof {
                assert(s.subrange(a1 as int, b1 as int)[j as int] != s.subrange(
                    a2 as int,
                    b2 as int,
                )[j as int]);
            }
            return false;
        }
        j = j + 1;
    }
    proof {
        assert(s.subrange(a1 as int, b1 as int) =~= s.subrange(a2 as int, b2 as int));
    }
    true
}

/// Whether the token `data[a..b]` already occurs among the kept spans.
fn contains_token(data: &[u8], kept: &Vec<(usize, usize)>, a: usize, b: usize) -> (r: bool)
    requires
        a <= b <= data@.len(),
        forall|q: int|
            0 <= q < kept@.len() ==> (#[trigger] kept@[q]).0 <= kept@[q].1 <= data@.len(),
    ensures
        r == span_tokens(kept@, data@).contains(data@.subrange(a as int, b as int)),
{
    let ghost s = data@;
    let ghost tok = s.subrange(a as int, b as int);
    let mut m: usize = 0;
    while m < kept.len()
        invariant
            s == data@,
            a <= b <= s.len(),
            tok == s.subrange(a as int, b as int),
            forall|q: int|
                0 <= q < kept@.len() ==> (#[trigger] kept@[q]).0 <= kept@[q].1 <= s.len(),
            m <= kept@.len(),
            forall|q: int| 0 <= q < m ==> #[trigger] span_tokens(kept@, s)[q] != tok,
        decreases kept@.len() - m,
    {
        let sp = kept[m];
        if bytes_range_eq(data, sp.0, sp.1, a, b) {
            proof {
                assert(span_tokens(kept@, s)[m as int] == tok);
                assert(span_tokens(kept@, s).contains(tok));
            }
            return true;
        }
        proof {
            assert(span_tokens(kept@, s)[m as int] != tok);
        }
        m = m + 1;
    }
    proof {
        if span_tokens(kept@, s).contains(tok) {
            let q = choose|q: int|
                0 <= q < span_tokens(kept@, s).len() && span_tokens(kept@, s)[q] == tok;
            assert(span_tokens(kept@, s)[q] != tok);
        }
    }
    false
}

/// Number of distinct words of `data`: the size of the set of word token
/// contents for valid UTF-8, zero otherwise.
pub fn count_unique_words(data: &[u8]) -> (r: usize)
    ensures
        !valid_utf8(data@) ==> r == 0,
        valid_utf8(data@) ==> r as int == word_tokens(data@).to_set().len(),
{
    let ghost s = data@;
    let spans_opt = tokenize(data);
    let spans = match spans_opt {
        Some(sp) => sp,
        None => {
            return 0;
        },
    };
    let mut kept: Vec<(usize, usize)> = Vec::new();
    let mut q: usize = 0;
    proof {
        assert(span_tokens(kept@, s) =~= Seq::<Seq<u8>>::empty());
        assert(span_tokens(spans@.subrange(0, 0), s) =~= Seq::<Seq<u8>>::empty());
        assert(span_tokens(kept@, s).to_set() =~= span_tokens(
            spans@.subrange(0, 0),
            s,
        ).to_set());
        kept@.map_values(|t: (usize, usize)| s.subrange(t.0 as int, t.1 as int)).unique_seq_to_set();
    }
    while q < spans.len()
        invariant
            s == data@,
            valid_utf8(s),
            span_tokens(spans@, s) == word_tokens(s),
            forall|j: int|
                0 <= j < spans@.len() ==> (#[trigger] spans@[j]).0 < spans@[j].1 <= s.len(),
            forall|j: int|
                0 <= j < kept@.len() ==> (#[trigger] kept@[j]).0 <= kept@[j].1 <= s.len(),
            q <= spans@.len(),
            span_tokens(kept@, s).no_duplicates(),
            span_tokens(kept@, s).to_set() == span_tokens(spans@.subrange(0, q as int), s).to_set(),
            kept@.len() == span_tokens(kept@, s).to_set().len(),
        decreases spans@.len() - q,
    {
        let sp = spans[q];
        let ghost tok = s.subrange(sp.0 as int, sp.1 as int);
        let found = contains_token(data, &kept, sp.0, sp.1);
        proof {
            assert(span_tokens(spans@.subrange(0, q + 1), s) =~= span_tokens(
                spans@.subrange(0, q as int),
                s,
            ).push(tok));
            assert(span_tokens(spans@.subrange(0, q + 1), s).to_set() =~= span_tokens(
                spans@.subrange(0, q as int),
                s,
            ).to_set().insert(tok)) by {
                let a = span_tokens(spans@.subrange(0, q as int), s);
                assert forall|x: Seq<u8>|
                    a.push(tok).to_set().contains(x) == a.to_set().insert(tok).contains(x) by {
                    if a.push(tok).contains(x) {
                        let w = choose|w: int| 0 <= w < a.push(tok).len() && a.push(tok)[w] == x;
                        if w < a.len() {
                            assert(a[w] == x);
                        }
                    }
                    if a.to_set().insert(tok).contains(x) {
                        if a.contains(x) {
                            let w = choose|w: int| 0 <= w < a.len() && a[w] == x;
                            assert(a.push(tok)[w] == x);
                        } else {
                            assert(a.push(tok)[a.len() as int] == tok);
                        }
                    }
                }
            }
            if found {
                assert(span_tokens(kept@, s).to_set().contains(tok));
                assert(span_tokens(kept@, s).to_set().insert(tok) =~= span_tokens(kept@, s).to_set());
            }
        }
        if !found {
            let ghost old_kept = kept@;
            kept.push(sp);
            proof {
                assert(span_tokens(kept@, s) =~= span_tokens(old_kept, s).push(tok));
                let a = span_tokens(old_kept, s);
                assert(a.push(tok).no_duplicates()) by {
                    assert(!a.contains(tok));
                    assert forall|x: int, y: int|
                        0 <= x < a.push(tok).len() && 0 <= y < a.push(tok).len() && x != y
                            implies a.push(tok)[x] != a.push(tok)[y] by {
                        if x < a.len() && y < a.len() {
                            assert(a[x] != a[y]);
                        } else if x < a.len() {
                            assert(a.push(tok)[y] == tok);
                            if a.push(tok)[x] == tok {
                                assert(a.contains(tok));
                            }
                        } else {
                            assert(a.push(tok)[x] == tok);
                            if a.push(tok)[y] == tok {
                                assert(a.contains(tok));
                            }
                        }
                    }
                }
                assert(a.push(tok).to_set() =~= a.to_set().insert(tok)) by {
                    assert forall|x: Seq<u8>|
                        a.push(tok).to_set().contains(x) == a.to_set().insert(tok).contains(
                            x,
                        ) by {
                        if a.push(tok).contains(x) {
                            let w = choose|w: int|
                                0 <= w < a.push(tok).len() && a.push(tok)[w] == x;
                            if w < a.len() {
                                assert(a[w] == x);
                            }
                        }
                        if a.to_set().insert(tok).contains(x) {
                            if a.contains(x) {
                                let w = choose|w: int| 0 <= w < a.len() && a[w] == x;
                                assert(a.push(tok)[w] == x);
                            } else {
                                assert(a.push(tok)[a.len() as int] == tok);
                            }
                        }
                    }
                }
                span_tokens(kept@, s).unique_seq_to_set();
            }
        }
        q = q + 1;
    }
    proof {
        assert(spans@.subrange(0, spans@.len() as int) =~= spans@);
    }
    kept.len()
}

} // verus!
