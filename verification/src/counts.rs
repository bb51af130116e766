//! Accumulated results of one invocation, and their merge across files.
use vstd::prelude::*;

use std::collections::HashMap;

use crate::comments::comments_filtered;
use crate::config::Args;
use crate::count::{
    count_all_words, count_blank_lines, count_chars, count_lines, count_pattern, max_line_length,
};
use crate::filter::markdown_filtered;
use crate::stats::{calculate_statistics, generate_histogram, Statistics};
use crate::text::{
    blank_line_count, count_bucket, count_byte, count_val, line_lengths, nonoverlap_count,
    seq_max, seq_sum, seq_sum_sq, NL,
};
use crate::unicode::{char_count_mixed, word_count_mixed};
use crate::words::{count_unique_words, word_tokens};
use crate::PARALLEL_THRESHOLD;
use vstd::utf8::{decode_utf8, encode_utf8, valid_utf8};

verus! {

/// All counters of one processed buffer or of a running total.
pub struct Counts {
    /// Line terminator count.
    pub lines: usize,
    /// Word count.
    pub words: usize,
    /// Byte count.
    pub bytes: usize,
    /// Character count.
    pub chars: usize,
    /// Length of the longest line.
    pub max_line_length: usize,
    /// Blank line count.
    pub blank_lines: usize,
    /// Pattern occurrence count.
    pub pattern: usize,
    /// Distinct word count.
    pub unique_words: usize,
    /// Detailed statistics, when requested.
    pub statistics: Option<Statistics>,
    /// Line length histogram, when requested.
    pub histogram: Option<HashMap<usize, usize>>,
}

impl Counts {
    /// All counters zero, no statistics, no histogram.
    pub fn new() -> (c: Counts)
        ensures
            c.lines == 0 && c.words == 0 && c.bytes == 0 && c.chars == 0,
            c.max_line_length == 0 && c.blank_lines == 0 && c.pattern == 0,
            c.unique_words == 0,
            c.statistics is None,
            c.histogram is None,
    {
        Counts {
            lines: 0,
            words: 0,
            bytes: 0,
            chars: 0,
            max_line_length: 0,
            blank_lines: 0,
            pattern: 0,
            unique_words: 0,
            statistics: None,
            histogram: None,
        }
    }

    /// Adds another file's counters into this total: sums everywhere, the
    /// maximum for the longest line; statistics and histogram are left as
    /// they are.
    pub fn add(&mut self, other: &Counts)
        requires
            old(self).lines + other.lines <= usize::MAX,
            old(self).words + other.words <= usize::MAX,
            old(self).bytes + other.bytes <= usize::MAX,
            old(self).chars + other.chars <= usize::MAX,
            old(self).blank_lines + other.blank_lines <= usize::MAX,
            old(self).pattern + other.pattern <= usize::MAX,
            old(self).unique_words + other.unique_words <= usize::MAX,
        ensures
            final (self).lines == old(self).lines + other.lines,
            final (self).words == old(self).words + other.words,
            final (self).bytes == old(self).bytes + other.bytes,
            final (self).chars == old(self).chars + other.chars,
            final (self).max_line_length == if other.max_line_length > old(
                self,
            ).max_line_length {
                other.max_line_length
            } else {
                old(self).max_line_length
            },
            final (self).blank_lines == old(self).blank_lines + other.blank_lines,
            final (self).pattern == old(self).pattern + other.pattern,
            final (self).unique_words == old(self).unique_words + other.unique_words,
            final (self).statistics == old(self).statistics,
            final (self).histogram == old(self).histogram,
    {
        self.lines = self.lines + other.lines;
        self.words = self.words + other.words;
        self.bytes = self.bytes + other.bytes;
        self.chars = self.chars + other.chars;
        if other.max_line_length > self.max_line_length {
            self.max_line_length = other.max_line_length;
        }
        self.blank_lines = self.blank_lines + other.blank_lines;
        self.pattern = self.pattern + other.pattern;
        self.unique_words = self.unique_words + other.unique_words;
    }

    /// The counters selected by the flags, in display order: lines,
    /// words, chars, bytes, longest line, blank lines, unique words,
    /// pattern.
    pub fn get_values(&self, args: &Args) -> (r: Vec<usize>)
        ensures
            r@ == selected_values(self, args),
    {
        let mut values: Vec<usize> = Vec::new();
        if args.lines {
            values.push(self.lines);
        }
        if args.words {
            values.push(self.words);
        }
        if args.chars {
            values.push(self.chars);
        }
        if args.bytes {
            values.push(self.bytes);
        }
        if args.max_line_length {
            values.push(self.max_line_length);
        }
        if args.blank_lines {
            values.push(self.blank_lines);
        }
        if args.unique {
            values.push(self.unique_words);
        }
        if args.pattern.is_some() {
            values.push(self.pattern);
        }
        proof {
            assert(values@ =~= selected_values(self, args));
        }
        values
    }
}

/// The buffer the scanners actually see: the comment filter's output
/// under `--code`, the markup filter's under `--markdown`, else the
/// input.
pub open spec fn filtered_input(s: Seq<u8>, a: &Args) -> Seq<u8> {
    if a.code {
        comments_filtered(s)
    } else if a.markdown {
        markdown_filtered(s)
    } else {
        s
    }
}

/// Computes every requested statistic of one (already decoded) buffer.
/// Under `--code` or `--markdown` the buffer is filtered first; each
/// counter then equals its specification over the filtered bytes, and
/// unrequested counters stay zero.
pub fn process_data(data: &[u8], args: &Args) -> (c: Counts)
    ensures
        ({
            let f = filtered_input(data@, args);
            &&& c.lines as int == if args.lines || args.stats {
                count_byte(f, NL)
            } else {
                0
            }
            &&& c.bytes as int == if args.bytes || args.stats {
                f.len() as int
            } else {
                0
            }
            &&& !(args.words || args.stats) ==> c.words == 0
            &&& (args.words || args.stats) && f.len() < PARALLEL_THRESHOLD ==> c.words as int
                == word_count_mixed(f)
            &&& !args.chars ==> c.chars == 0
            &&& args.chars && args.fast ==> c.chars as int == f.len()
            &&& args.chars && !args.fast && f.len() < PARALLEL_THRESHOLD ==> c.chars as int
                == char_count_mixed(f)
            &&& args.chars && !args.fast && valid_utf8(f) ==> c.chars as int == decode_utf8(
                f,
            ).len()
            &&& c.max_line_length as int == if args.max_line_length {
                seq_max(line_lengths(f))
            } else {
                0
            }
            &&& c.blank_lines as int == if args.blank_lines {
                blank_line_count(f)
            } else {
                0
            }
            &&& !args.unique ==> c.unique_words == 0
            &&& args.unique && valid_utf8(f) ==> c.unique_words as int == word_tokens(
                f,
            ).to_set().len()
            &&& args.unique && !valid_utf8(f) ==> c.unique_words == 0
            &&& args.pattern is None ==> c.pattern == 0
            &&& match args.pattern {
                Some(p) => {
                    let pb = encode_utf8(p@);
                    &&& f.len() == 0 || pb.len() == 0 ==> c.pattern == 0
                    &&& f.len() < PARALLEL_THRESHOLD ==> c.pattern as int == nonoverlap_count(
                        f,
                        pb,
                    )
                },
                None => true,
            }
            &&& !args.stats ==> c.statistics is None
            &&& args.stats ==> match c.statistics {
                Some(st) => {
                    let l = line_lengths(f);
                    &&& st.count as int == l.len()
                    &&& st.sum as int == seq_sum(l)
                    &&& st.sum_squares as int == seq_sum_sq(l)
                    &&& st.empty_lines as int == count_val(l, 0)
                    &&& l.len() > 0 ==> st.median_low as int == l.sort()[(l.len() - 1) as int / 2]
                        && st.median_high as int == l.sort()[l.len() as int / 2]
                        && st.min_line_length as int == l.sort()[0] && st.max_line_length as int
                        == l.sort()[l.len() - 1]
                },
                None => false,
            }
            &&& !args.histogram ==> c.histogram is None
            &&& args.histogram ==> match c.histogram {
                Some(h) => {
                    &&& forall|b: usize|
                        h@.contains_key(b) <==> count_bucket(line_lengths(f), b as int) > 0
                    &&& forall|b: usize|
                        #[trigger] h@.contains_key(b) ==> h@[b] as int == count_bucket(
                            line_lengths(f),
                            b as int,
                        )
                },
                None => false,
            }
        }),
{
    let mut c = Counts::new();
    let filtered_vec: Vec<u8>;
    let use_filtered: bool;
    if args.code {
        filtered_vec = crate::comments::filter_code_comments(data);
        use_filtered = true;
    } else if args.markdown {
        filtered_vec = crate::filter::filter_markdown_code(data);
        use_filtered = true;
    } else {
        filtered_vec = Vec::new();
        use_filtered = false;
    }
    let buf: &[u8] = if use_filtered {
        filtered_vec.as_slice()
    } else {
        data
    };
    proof {
        assert(buf@ == filtered_input(data@, args));
    }
    if args.lines || args.stats {
        c.lines = count_lines(buf);
    }
    if args.words || args.stats {
        c.words = count_all_words(buf);
    }
    if args.chars {
        if args.fast {
            c.chars = buf.len();
        } else {
            c.chars = count_chars(buf);
        }
    }
    if args.bytes || args.stats {
        c.bytes = buf.len();
    }
    if args.max_line_length {
        c.max_line_length = max_line_length(buf);
    }
    if args.blank_lines {
        c.blank_lines = count_blank_lines(buf);
    }
    if args.unique {
        c.unique_words = count_unique_words(buf);
    }
    match &args.pattern {
        Some(p) => {
            c.pattern = count_pattern(buf, p.as_str().as_bytes());
        },
        None => {},
    }
    if args.stats {
        c.statistics = Some(calculate_statistics(buf));
    }
    if args.histogram {
        c.histogram = Some(generate_histogram(buf));
    }
    c
}

/// The counters selected by the flags, in display order.
pub open spec fn selected_values(c: &Counts, a: &Args) -> Seq<usize> {
    let s0 = Seq::<usize>::empty();
    let s1 = if a.lines {
        s0.push(c.lines)
    } else {
        s0
    };
    let s2 = if a.words {
        s1.push(c.words)
    } else {
        s1
    };
    let s3 = if a.chars {
        s2.push(c.chars)
    } else {
        s2
    };
    let s4 = if a.bytes {
        s3.push(c.bytes)
    } else {
        s3
    };
    let s5 = if a.max_line_length {
        s4.push(c.max_line_length)
    } else {
        s4
    };
    let s6 = if a.blank_lines {
        s5.push(c.blank_lines)
    } else {
        s5
    };
    let s7 = if a.unique {
        s6.push(c.unique_words)
    } else {
        s6
    };
    if a.pattern is Some {
        s7.push(c.pattern)
    } else {
        s7
    }
}

} // verus!
