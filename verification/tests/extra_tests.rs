//! Statistics, histograms, blank lines, options handling, and the
//! chunked path of each statistic on large inputs.
use kz::comments::filter_code_comments;
use kz::config::{split_null_terminated, Args};
use kz::count::{
    count_all_words, count_blank_lines, count_chars, count_lines, count_pattern, is_binary,
    max_line_length,
};
use kz::counts::{process_data, Counts};
use kz::filter::filter_markdown_code;
use kz::stats::{calculate_statistics, generate_histogram};
use kz::words::count_unique_words;

fn no_flags() -> Args {
    Args {
        files: Vec::new(),
        lines: false,
        bytes: false,
        chars: false,
        words: false,
        max_line_length: false,
        blank_lines: false,
        pattern: None,
        files0_from: None,
        generate_completion: None,
        json: false,
        stats: false,
        unique: false,
        recursive: false,
        exclude: Vec::new(),
        fast: false,
        histogram: false,
        code: false,
        markdown: false,
        verbose: false,
        timing: false,
        encoding: None,
        progress: false,
        total_only: false,
    }
}

#[test]
fn statistics_exact_values() {
    let st = calculate_statistics(b"a\nbb\nccc\ndddd\n");
    assert_eq!(st.count, 4);
    assert_eq!(st.sum, 10);
    assert_eq!(st.sum_squares, 30);
    assert_eq!(st.min_line_length, 1);
    assert_eq!(st.max_line_length, 4);
    assert_eq!(st.empty_lines, 0);
    let mean = st.sum as f64 / st.count as f64;
    assert!((mean - 2.5).abs() < 1e-12);
    let median = (st.median_low as f64 + st.median_high as f64) / 2.0;
    assert!((median - 2.5).abs() < 1e-12);
    let variance = st.sum_squares as f64 / st.count as f64 - mean * mean;
    assert!((variance - 1.25).abs() < 1e-12);
    assert!((variance.sqrt() - 1.25f64.sqrt()).abs() < 1e-12);
}

#[test]
fn statistics_empty_input() {
    let st = calculate_statistics(b"");
    assert_eq!(st.count, 0);
    assert_eq!(st.sum, 0);
    assert_eq!(st.sum_squares, 0);
    assert_eq!(st.median_low, 0);
    assert_eq!(st.median_high, 0);
    assert_eq!(st.min_line_length, 0);
    assert_eq!(st.max_line_length, 0);
    assert_eq!(st.empty_lines, 0);
}

#[test]
fn statistics_odd_count_and_crlf() {
    let st = calculate_statistics(b"hello\r\nworld wide\r\nx\r\n");
    assert_eq!(st.count, 3);
    assert_eq!(st.sum, 5 + 10 + 1);
    assert_eq!(st.median_low, 5);
    assert_eq!(st.median_high, 5);
    assert_eq!(st.min_line_length, 1);
    assert_eq!(st.max_line_length, 10);
}

#[test]
fn histogram_buckets() {
    let h = generate_histogram(b"hello\n\nthis line is long\n");
    assert_eq!(h.get(&0), Some(&2));
    assert_eq!(h.get(&10), Some(&1));
    assert_eq!(h.get(&20), None);
}

#[test]
fn histogram_empty_input() {
    let h = generate_histogram(b"");
    assert!(h.is_empty());
}

#[test]
fn blank_lines_mixed() {
    assert_eq!(count_blank_lines(b"line1\n\n  \nline2\n\t\n"), 3);
}

#[test]
fn blank_lines_empty_input() {
    assert_eq!(count_blank_lines(b""), 0);
}

#[test]
fn binary_detection() {
    assert!(is_binary(b"abc\0def"));
    assert!(!is_binary(b"plain text"));
    assert!(!is_binary(b""));
}

#[test]
fn pattern_threshold_straddle() {
    let below = vec![b'a'; kz::PARALLEL_THRESHOLD - 1];
    let above = vec![b'a'; kz::PARALLEL_THRESHOLD + 1];
    assert_eq!(count_pattern(&below, b"aaa"), (below.len()) / 3);
    assert_eq!(count_pattern(&above, b"aaa"), (above.len()) / 3);
}

#[test]
fn lines_threshold_straddle() {
    let mut below = b"ab\n".repeat(174_762);
    below.truncate(kz::PARALLEL_THRESHOLD - 1);
    let mut above = b"ab\n".repeat(174_763);
    above.truncate(kz::PARALLEL_THRESHOLD + 1);
    assert_eq!(count_lines(&below), below.iter().filter(|&&b| b == b'\n').count());
    assert_eq!(count_lines(&above), above.iter().filter(|&&b| b == b'\n').count());
}

#[test]
fn large_blank_lines_parallel() {
    let data = b"\n \n".repeat(300_000);
    assert_eq!(count_blank_lines(&data), 600_000);
}

#[test]
fn large_max_line_parallel() {
    let mut data = b"line\n".repeat(200_000);
    data.extend_from_slice(b"a longer line than the rest\n");
    assert_eq!(max_line_length(&data), 27);
}

#[test]
fn large_chars_parallel() {
    let data = "é".repeat(400_000);
    assert_eq!(count_chars(data.as_bytes()), 400_000);
}

#[test]
fn large_statistics_parallel() {
    let mut data = vec![b'a'; 400_000];
    data.push(b'\n');
    data.extend_from_slice(&vec![b'b'; 200_000]);
    data.push(b'\n');
    let st = calculate_statistics(&data);
    assert_eq!(st.count, 2);
    assert_eq!(st.sum, 600_000);
    assert_eq!(st.min_line_length, 200_000);
    assert_eq!(st.max_line_length, 400_000);
    assert_eq!(st.median_low, 200_000);
    assert_eq!(st.median_high, 400_000);
}

#[test]
fn words_threshold_straddle() {
    let below = vec![b'a'; kz::PARALLEL_THRESHOLD - 1];
    let above = vec![b'a'; kz::PARALLEL_THRESHOLD + 1];
    assert_eq!(count_all_words(&below), 1);
    assert_eq!(count_all_words(&above), 1);
}

#[test]
fn chars_threshold_straddle() {
    let below = vec![b'a'; kz::PARALLEL_THRESHOLD - 1];
    let above = vec![b'a'; kz::PARALLEL_THRESHOLD + 1];
    assert_eq!(count_chars(&below), below.len());
    assert_eq!(count_chars(&above), above.len());
}

#[test]
fn statistics_many_records() {
    let data = b"ab\n".repeat(300_000);
    let st = calculate_statistics(&data);
    assert_eq!(st.count, 300_000);
    assert_eq!(st.sum, 600_000);
    assert_eq!(st.median_low, 2);
    assert_eq!(st.median_high, 2);
    assert_eq!(st.min_line_length, 2);
    assert_eq!(st.max_line_length, 2);
}

#[test]
fn large_pattern_parallel() {
    let data = b"foo bar ".repeat(100_000);
    assert_eq!(count_pattern(&data, b"foo"), 100_000);
}

#[test]
fn unique_words_unicode() {
    assert_eq!(count_unique_words("café café thé".as_bytes()), 2);
}

#[test]
fn unique_words_invalid_utf8() {
    assert_eq!(count_unique_words(&[0xff, 0x20, 0x61]), 0);
}

#[test]
fn chars_invalid_utf8_falls_back_to_bytes() {
    assert_eq!(count_chars(&[0xff, 0x61, 0x62]), 3);
}

#[test]
fn filters_pass_invalid_utf8_through() {
    let data = [0xff, 0x20, 0x61];
    assert_eq!(filter_code_comments(&data), data.to_vec());
    assert_eq!(filter_markdown_code(&data), data.to_vec());
}

#[test]
fn filter_code_inline_block_comment() {
    let out = filter_code_comments(b"int x = 1; /* note */ int y = 2;\n");
    assert_eq!(out, b"int x = 1;  int y = 2;\n");
}

#[test]
fn filter_markdown_keeps_line_order() {
    let out = filter_markdown_code(b"first\nsecond\n");
    assert_eq!(out, b"first\nsecond\n");
}

#[test]
fn filter_markdown_crlf_lines() {
    // The carriage return of a CRLF pair is not part of the line; a
    // carriage return at the very end of the buffer is.
    assert_eq!(filter_markdown_code(b"one\r\ntwo\r\n"), b"one\ntwo\n");
    assert_eq!(filter_markdown_code(b"abc\r"), b"abc\r\n");
}

#[test]
fn filter_code_trims_trailing_whitespace() {
    assert_eq!(filter_code_comments(b"x = 1;   \ny = 2;\t\n"), b"x = 1;\ny = 2;\n");
}

#[test]
fn normalize_applies_default_set() {
    let mut a = no_flags();
    a.normalize();
    assert!(a.lines && a.bytes && a.words);
    assert!(!a.chars && !a.stats);
}

#[test]
fn normalize_keeps_explicit_selection() {
    let mut a = no_flags();
    a.chars = true;
    a.normalize();
    assert!(a.chars);
    assert!(!a.lines && !a.bytes && !a.words);
}

#[test]
fn counts_add_and_select() {
    let mut total = Counts::new();
    let mut one = Counts::new();
    one.lines = 3;
    one.words = 7;
    one.bytes = 40;
    one.max_line_length = 9;
    total.add(&one);
    let mut two = Counts::new();
    two.lines = 2;
    two.words = 1;
    two.bytes = 10;
    two.max_line_length = 4;
    total.add(&two);
    assert_eq!(total.lines, 5);
    assert_eq!(total.words, 8);
    assert_eq!(total.bytes, 50);
    assert_eq!(total.max_line_length, 9);

    let mut a = no_flags();
    a.lines = true;
    a.words = true;
    a.bytes = true;
    let v = total.get_values(&a);
    assert_eq!(v, vec![5, 8, 50]);
}

#[test]
fn process_data_default_counts() {
    let mut a = no_flags();
    a.normalize();
    let c = process_data(b"hello world\nfoo bar\n", &a);
    assert_eq!(c.lines, 2);
    assert_eq!(c.words, 4);
    assert_eq!(c.bytes, 20);
    assert!(c.statistics.is_none());
    assert!(c.histogram.is_none());
}

#[test]
fn process_data_code_filter() {
    let mut a = no_flags();
    a.lines = true;
    a.code = true;
    let c = process_data(b"// comment\nlet x = 5;\nlet y = 10;\n", &a);
    assert_eq!(c.lines, 2);
}

#[test]
fn process_data_markdown_filter() {
    let mut a = no_flags();
    a.lines = true;
    a.markdown = true;
    let c = process_data(b"Some text\n```\ncode here\n```\nMore text\n", &a);
    assert_eq!(c.lines, 2);
}

#[test]
fn process_data_pattern() {
    let mut a = no_flags();
    a.pattern = Some(String::from("foo"));
    let c = process_data(b"foo bar foo baz foo\n", &a);
    assert_eq!(c.pattern, 3);
}

#[test]
fn split_null_terminated_fields() {
    let fields = split_null_terminated(b"a.txt\0b.txt\0");
    assert_eq!(fields.len(), 2);
    assert_eq!(fields[0], b"a.txt".to_vec());
    assert_eq!(fields[1], b"b.txt".to_vec());
    let with_empty = split_null_terminated(b"\0x\0\0y");
    assert_eq!(with_empty.len(), 2);
    assert_eq!(with_empty[0], b"x".to_vec());
    assert_eq!(with_empty[1], b"y".to_vec());
}

#[test]
fn words_vertical_tab_separates() {
    // U+000B is whitespace at the character level, so it separates words.
    assert_eq!(count_all_words(b"a\x0bb"), 2);
}
