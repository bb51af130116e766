//! Invocation options: which statistics to compute and how the input is
//! gathered and presented.
use vstd::prelude::*;

verus! {

/// Options of one invocation. Flags select statistics; the rest describe
/// input handling and presentation.
pub struct Args {
    /// Files to process; standard input when empty.
    pub files: Vec<String>,
    /// Print line counts.
    pub lines: bool,
    /// Print byte counts.
    pub bytes: bool,
    /// Print character counts.
    pub chars: bool,
    /// Print word counts.
    pub words: bool,
    /// Print the length of the longest line.
    pub max_line_length: bool,
    /// Print blank line counts.
    pub blank_lines: bool,
    /// Count occurrences of this pattern.
    pub pattern: Option<String>,
    /// Read NUL-terminated file names from this file.
    pub files0_from: Option<String>,
    /// Generate a completion script for this shell.
    pub generate_completion: Option<String>,
    /// Output results as JSON.
    pub json: bool,
    /// Show detailed statistics.
    pub stats: bool,
    /// Count unique words.
    pub unique: bool,
    /// Process directories recursively.
    pub recursive: bool,
    /// Exclude files matching these patterns.
    pub exclude: Vec<String>,
    /// Skip UTF-8 validation for faster processing.
    pub fast: bool,
    /// Show a line length histogram.
    pub histogram: bool,
    /// Count only code, skipping comments and blank lines.
    pub code: bool,
    /// Count markdown text, skipping code blocks.
    pub markdown: bool,
    /// Show warnings and errors.
    pub verbose: bool,
    /// Show processing time for each file.
    pub timing: bool,
    /// Force this input encoding instead of auto-detection.
    pub encoding: Option<String>,
    /// Show progress while processing files.
    pub progress: bool,
    /// Print only the total line.
    pub total_only: bool,
}

/// No statistic was requested explicitly.
pub open spec fn no_statistic_selected(a: &Args) -> bool {
    !a.lines && !a.bytes && !a.chars && !a.words && !a.max_line_length && a.pattern is None
        && !a.stats && !a.unique && !a.histogram
}

impl Args {
    /// When no statistic is selected, fall back to the default set:
    /// lines, bytes and words. Everything else is untouched.
    pub fn normalize(&mut self)
        ensures
            final (self).lines == (old(self).lines || no_statistic_selected(old(self))),
            final (self).bytes == (old(self).bytes || no_statistic_selected(old(self))),
            final (self).words == (old(self).words || no_statistic_selected(old(self))),
            final (self).chars == old(self).chars,
            final (self).max_line_length == old(self).max_line_length,
            final (self).blank_lines == old(self).blank_lines,
            final (self).pattern == old(self).pattern,
            final (self).files == old(self).files,
            final (self).files0_from == old(self).files0_from,
            final (self).generate_completion == old(self).generate_completion,
            final (self).json == old(self).json,
            final (self).stats == old(self).stats,
            final (self).unique == old(self).unique,
            final (self).recursive == old(self).recursive,
            final (self).exclude == old(self).exclude,
            final (self).fast == old(self).fast,
            final (self).histogram == old(self).histogram,
            final (self).code == old(self).code,
            final (self).markdown == old(self).markdown,
            final (self).verbose == old(self).verbose,
            final (self).timing == old(self).timing,
            final (self).encoding == old(self).encoding,
            final (self).progress == old(self).progress,
            final (self).total_only == old(self).total_only,
    {
        if !self.lines && !self.bytes && !self.chars && !self.words && !self.max_line_length
            && self.pattern.is_none() && !self.stats && !self.unique && !self.histogram {
            self.lines = true;
            self.bytes = true;
            self.words = true;
        }
    }
}

/// The non-empty NUL-separated fields of `s[i..]`, the current field
/// open since `start`.
pub open spec fn nul_fields_from(s: Seq<u8>, start: int, i: int) -> Seq<Seq<u8>>
    decreases s.len() - i,
    when 0 <= start <= i <= s.len()
{
    if i >= s.len() {
        if start < i {
            seq![s.subrange(start, i)]
        } else {
            Seq::empty()
        }
    } else if s[i] == 0 {
        (if start < i {
            seq![s.subrange(start, i)]
        } else {
            Seq::empty()
        }) + nul_fields_from(s, i + 1, i + 1)
    } else {
        nul_fields_from(s, start, i + 1)
    }
}

/// The non-empty NUL-separated fields of a file-list buffer.
pub open spec fn nul_fields(s: Seq<u8>) -> Seq<Seq<u8>> {
    nul_fields_from(s, 0, 0)
}

/// Splits a NUL-separated file-list buffer into its non-empty fields.
pub fn split_null_terminated(data: &[u8]) -> (r: Vec<Vec<u8>>)
    ensures
        r@.map_values(|v: Vec<u8>| v@) == nul_fields(data@),
{
    let ghost s = data@;
    let mut r: Vec<Vec<u8>> = Vec::new();
    let mut field: Vec<u8> = Vec::new();
    let mut start: usize = 0;
    let mut i: usize = 0;
    proof {
        assert(r@.map_values(|v: Vec<u8>| v@) + nul_fields_from(s, 0, 0) =~= nul_fields(s));
        assert(field@ =~= s.subrange(0, 0));
    }
    while i < data.len()
        invariant
            s == data@,
            0 <= start <= i <= s.len(),
            field@ == s.subrange(start as int, i as int),
            r@.map_values(|v: Vec<u8>| v@) + nul_fields_from(s, start as int, i as int)
                == nul_fields(s),
        decreases s.len() - i,
    {
        let b = data[i];
        if b == 0 {
            if field.len() > 0 {
                proof {
                    assert(r@.push(field).map_values(|v: Vec<u8>| v@) =~= r@.map_values(
                        |v: Vec<u8>| v@,
                    ).push(field@));
                    assert(r@.map_values(|v: Vec<u8>| v@).push(s.subrange(start as int, i as int))
                        + nul_fields_from(s, i + 1, i + 1) =~= r@.map_values(|v: Vec<u8>| v@) + (
                    seq![s.subrange(start as int, i as int)] + nul_fields_from(s, i + 1, i + 1)));
                }
                r.push(field);
                field = Vec::new();
            } else {
                field = Vec::new();
            }
            start = i + 1;
            proof {
                assert(field@ =~= s.subrange(start as int, (i + 1) as int));
            }
        } else {
            field.push(b);
            proof {
                assert(field@ =~= s.subrange(start as int, (i + 1) as int));
            }
        }
        i = i + 1;
    }
    if field.len() > 0 {
        proof {
            assert(r@.push(field).map_values(|v: Vec<u8>| v@) =~= r@.map_values(
                |v: Vec<u8>| v@,
            ).push(field@));
            assert(r@.map_values(|v: Vec<u8>| v@).push(s.subrange(start as int, s.len() as int))
                =~= r@.map_values(|v: Vec<u8>| v@) + seq![s.subrange(start as int, s.len() as int)]);
        }
        r.push(field);
    }
    proof {
        assert(r@.map_values(|v: Vec<u8>| v@) =~= nul_fields(s));
    }
    r
}

} // verus!
