use wythoff::cache::{append_line, regroup, render, split_tokens};
use wythoff::text::is_whitespace;

fn strings(list: &[&str]) -> Vec<String> {
    list.iter().map(|s| s.to_string()).collect()
}

#[test]
fn whitespace_agrees_with_the_standard_library() {
    for n in 0u32..=0x10FFFF {
        if let Some(c) = char::from_u32(n) {
            assert_eq!(is_whitespace(c), c.is_whitespace(), "U+{:04X}", n);
        }
    }
}

#[test]
fn tokens_are_the_runs_between_white_space() {
    assert_eq!(split_tokens("1 2.5 -3"), strings(&["1", "2.5", "-3"]));
    assert_eq!(split_tokens("  1\t\t2 \n\n 3  \r\n"), strings(&["1", "2", "3"]));
    assert_eq!(split_tokens("one"), strings(&["one"]));
    assert_eq!(split_tokens("a\u{00A0}b\u{2003}c\u{3000}d"), strings(&["a", "b", "c", "d"]));
}

#[test]
fn text_without_words_has_no_tokens() {
    assert_eq!(split_tokens(""), Vec::<String>::new());
    assert_eq!(split_tokens(" \n\t \r\n"), Vec::<String>::new());
}

#[test]
fn tokens_agree_with_split_whitespace() {
    let text = "0.5 -0.25\t1e-3\n\n  NaN inf x\u{2028}7 \u{85}8\u{200B}9 ";
    let expected: Vec<String> = text.split_whitespace().map(|s| s.to_string()).collect();
    assert_eq!(split_tokens(text), expected);
}

#[test]
fn regroup_cuts_runs_of_dim_squared() {
    let values: Vec<i32> = (0..8).collect();
    assert_eq!(regroup(&values, 2), vec![vec![0, 1, 2, 3], vec![4, 5, 6, 7]]);
    let values: Vec<i32> = (0..9).collect();
    assert_eq!(regroup(&values, 3), vec![(0..9).collect::<Vec<i32>>()]);
    assert_eq!(regroup(&values, 1), (0..9).map(|v| vec![v]).collect::<Vec<_>>());
}

#[test]
fn regroup_drops_a_trailing_partial_flag() {
    let values: Vec<i32> = (0..11).collect();
    assert_eq!(regroup(&values, 2), vec![vec![0, 1, 2, 3], vec![4, 5, 6, 7]]);
    let values: Vec<i32> = (0..3).collect();
    assert_eq!(regroup(&values, 2), Vec::<Vec<i32>>::new());
    assert_eq!(regroup(&Vec::<i32>::new(), 4), Vec::<Vec<i32>>::new());
}

#[test]
fn regroup_with_unusable_dimension_yields_nothing() {
    let values: Vec<i32> = (0..10).collect();
    assert_eq!(regroup(&values, 0), Vec::<Vec<i32>>::new());
    assert_eq!(regroup(&values, usize::MAX), Vec::<Vec<i32>>::new());
    assert_eq!(regroup(&values, 1usize << (usize::BITS / 2)), Vec::<Vec<i32>>::new());
}

#[test]
fn line_has_a_space_after_each_number_and_ends_with_a_line_feed() {
    let mut text = String::from("x");
    append_line(&mut text, &strings(&["1", "-0.5", "2"]));
    assert_eq!(text, "x1 -0.5 2 \n");
    append_line(&mut text, &strings(&[]));
    assert_eq!(text, "x1 -0.5 2 \n\n");
}

#[test]
fn render_writes_one_line_per_flag() {
    let flags = vec![strings(&["1", "0", "0", "1"]), strings(&["-1", "0", "0", "1"])];
    assert_eq!(render(&flags), "1 0 0 1 \n-1 0 0 1 \n");
    assert_eq!(render(&Vec::new()), "");
}

#[test]
fn rendered_text_reads_back_as_written() {
    let flags = vec![
        strings(&["1", "0.5", "-0.25", "1e-7"]),
        strings(&["-1", "0", "3.25", "1"]),
        strings(&["7", "8", "9", "10"]),
    ];
    let text = render(&flags);
    let tokens = split_tokens(&text);
    assert_eq!(tokens.len(), 12);
    assert_eq!(regroup(&tokens_as_refs(&tokens), 2), as_refs(&flags));
}

fn tokens_as_refs(tokens: &[String]) -> Vec<&str> {
    tokens.iter().map(|t| t.as_str()).collect()
}

fn as_refs(flags: &[Vec<String>]) -> Vec<Vec<&str>> {
    flags.iter().map(|f| f.iter().map(|t| t.as_str()).collect()).collect()
}

// Numbers written in their shortest decimal form parse back to the same
// value, so a list of flags survives being written and read.
#[test]
fn flags_survive_the_cache() {
    let dim = 3usize;
    let flags: Vec<Vec<f32>> = (0..5)
        .map(|k| (0..9).map(|i| ((k * 9 + i) as f32).sin() / 3.0 - 0.1 * k as f32).collect())
        .collect();
    let written: Vec<Vec<String>> =
        flags.iter().map(|f| f.iter().map(|v| format!("{}", v)).collect()).collect();
    let text = render(&written);
    assert_eq!(text.lines().count(), flags.len());
    let numbers: Vec<f32> =
        split_tokens(&text).iter().flat_map(|t| t.parse::<f32>()).collect();
    let read = regroup(&numbers, dim);
    assert_eq!(read.len(), flags.len());
    assert_eq!(read, flags);
}

#[test]
fn unparseable_words_and_partial_flags_are_dropped_on_reading() {
    let text = "1 2 oops 3 4\n5 6 7";
    let numbers: Vec<f32> =
        split_tokens(text).iter().flat_map(|t| t.parse::<f32>()).collect();
    assert_eq!(numbers, vec![1.0, 2.0, 3.0, 4.0, 5.0, 6.0, 7.0]);
    assert_eq!(regroup(&numbers, 2), vec![vec![1.0, 2.0, 3.0, 4.0]]);
}
