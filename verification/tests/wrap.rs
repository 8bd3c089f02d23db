use field_layout::width::compute_character_width;
use field_layout::wrap::{
    break_words, separate_into_fragments, wrap, wrap_first_fit, wrap_single_line,
    wrap_single_line_slow_path, WhiteSpaceWord,
};
use std::borrow::Cow;

fn lines_of(text: &str, width: u16) -> Vec<String> {
    wrap(text, width).into_iter().map(|line| line.into_owned()).collect()
}

fn owned(lines: &[&str]) -> Vec<String> {
    lines.iter().map(|line| line.to_string()).collect()
}

fn width_of(text: &str) -> u128 {
    text.chars().map(|c| compute_character_width(c) as u128).sum()
}

fn words_of<'a>(frags: &[WhiteSpaceWord<'a>]) -> Vec<&'a str> {
    frags.iter().map(|frag| frag.word).collect()
}

fn check_laws(text: &str, width: u16) {
    let lines = wrap(text, width);
    let joined: String = lines.iter().map(|line| line.as_ref()).collect();
    assert_eq!(joined, text, "round trip of {:?} at width {}", text, width);
    for line in lines.iter() {
        let fits = width_of(line) <= width as u128;
        let single = line.chars().count() == 1;
        assert!(fits || single, "line {:?} of {:?} at width {}", line, text, width);
    }
}

#[test]
fn wrap_of_empty_text_has_no_line() {
    assert_eq!(lines_of("", 10), Vec::<String>::new());
}

#[test]
fn wrap_keeps_a_short_text_whole() {
    assert_eq!(lines_of("hi", 10), owned(&["hi"]));
}

#[test]
fn wrap_splits_after_a_newline() {
    assert_eq!(lines_of("hello\nworld", 10), owned(&["hello\n", "world"]));
}

#[test]
fn wrap_keeps_the_space_with_the_word_before_it() {
    assert_eq!(lines_of("aa bb", 3), owned(&["aa ", "bb"]));
}

#[test]
fn wrap_moves_a_word_and_its_space_together() {
    assert_eq!(lines_of("ab de fg", 5), owned(&["ab ", "de fg"]));
}

#[test]
fn wrap_breaks_a_long_word() {
    assert_eq!(lines_of("abcdefghij", 4), owned(&["abcd", "efgh", "ij"]));
}

#[test]
fn wrap_breaks_a_word_with_its_space() {
    assert_eq!(lines_of("ab cd", 2), owned(&["ab", " ", "cd"]));
}

#[test]
fn wrap_at_width_zero_gives_each_character_a_line() {
    assert_eq!(lines_of("ab", 0), owned(&["a", "b"]));
}

#[test]
fn wrap_counts_wide_characters_double() {
    assert_eq!(lines_of("世界", 2), owned(&["世", "界"]));
    assert_eq!(lines_of("世界", 4), owned(&["世界"]));
    assert_eq!(lines_of("世界 a", 5), owned(&["世界 ", "a"]));
}

#[test]
fn wrap_leaves_a_character_wider_than_the_budget_alone() {
    assert_eq!(lines_of("世界", 1), owned(&["世", "界"]));
    assert_eq!(lines_of("\u{301}世", 1), owned(&["\u{301}", "世"]));
}

#[test]
fn wrap_does_not_count_a_newline_as_a_column() {
    assert_eq!(lines_of("hello\nworld\n", 5), owned(&["hello\n", "world\n"]));
}

#[test]
fn wrap_gives_an_empty_line_a_line_of_its_own() {
    assert_eq!(lines_of("a\n\nb", 10), owned(&["a\n", "\n", "b"]));
}

#[test]
fn wrap_lines_borrow_from_the_text() {
    let text = String::from("one two three");
    let lines = wrap(&text, 7);
    assert_eq!(lines.len(), 3);
    assert!(lines.iter().all(|line| matches!(line, Cow::Borrowed(_))));
    assert_eq!(lines[0], "one ");
    assert_eq!(lines[1], "two ");
    assert_eq!(lines[2], "three");
}

#[test]
fn wrap_lines_are_consecutive_slices_of_the_text() {
    let text = String::from("héllo wörld, 世界!\nsecond line with averyveryverylongword");
    for width in [0u16, 1, 3, 8, 40] {
        let mut at = 0;
        for line in wrap(&text, width).iter() {
            assert!(matches!(line, Cow::Borrowed(_)));
            assert_eq!(line.as_ptr(), text[at..].as_ptr());
            at += line.len();
        }
        assert_eq!(at, text.len());
    }
}

#[test]
fn wrap_round_trip_and_width_bound_hold_on_samples() {
    let texts = [
        "",
        " ",
        "\n",
        "a",
        "hello world",
        "  leading and   inner   spaces  ",
        "line one\nline two\n\nline four",
        "averyveryverylongwordwithoutanyspaces and more",
        "tabs\tand\u{a0}other\u{2003}spaces",
        "世界 こんにちは mixed ascii 和 wide",
        "e\u{301}a\u{308} combining marks",
        "\u{17d8} three columns",
        "trailing newline\n",
    ];
    for text in texts.iter() {
        for width in [0u16, 1, 2, 3, 4, 5, 7, 10, 80, u16::MAX] {
            check_laws(text, width);
        }
    }
}

#[test]
fn fragments_end_after_each_whitespace_character() {
    let frags = separate_into_fragments("aa bb");
    assert_eq!(words_of(&frags), vec!["aa ", "bb"]);
    assert_eq!(frags[0].width, 3);
    assert_eq!(frags[1].width, 2);
    assert!(frags.iter().all(|frag| frag.whitespace.is_empty() && frag.penalty.is_empty()));
}

#[test]
fn fragments_of_runs_of_whitespace_are_single_characters() {
    assert_eq!(words_of(&separate_into_fragments("a  b")), vec!["a ", " ", "b"]);
    assert_eq!(words_of(&separate_into_fragments(" a")), vec![" ", "a"]);
    assert_eq!(words_of(&separate_into_fragments("a\tb\u{2003}c")), vec!["a\t", "b\u{2003}", "c"]);
}

#[test]
fn fragments_keep_a_newline_with_the_word_before_it() {
    let frags = separate_into_fragments("hello\n");
    assert_eq!(words_of(&frags), vec!["hello\n"]);
    assert_eq!(frags[0].width, 5);
}

#[test]
fn fragments_of_an_empty_segment_are_none() {
    assert!(separate_into_fragments("").is_empty());
}

#[test]
fn fragments_make_up_the_segment() {
    for text in ["", "a", "a b  c ", "  x", "wide 世界 text\n"] {
        let joined: String = separate_into_fragments(text).iter().map(|frag| frag.word).collect();
        assert_eq!(joined, text);
    }
}

#[test]
fn fragment_from_text_is_measured() {
    let frag = WhiteSpaceWord::from("世a ");
    assert_eq!(frag.word, "世a ");
    assert_eq!(frag.text(), "世a ");
    assert_eq!(frag.width, 4);
    assert_eq!(frag.whitespace, "");
    assert_eq!(frag.penalty, "");
}

#[test]
fn fragment_is_newline_only_for_a_lone_newline() {
    assert!(WhiteSpaceWord::from("\n").is_newline());
    assert!(!WhiteSpaceWord::from("a\n").is_newline());
    assert!(!WhiteSpaceWord::from("\n\n").is_newline());
    assert!(!WhiteSpaceWord::from("").is_newline());
    assert!(!WhiteSpaceWord::from(" ").is_newline());
}

#[test]
fn fragment_with_whitespace_changes_only_the_whitespace() {
    let frag = WhiteSpaceWord::from("ab").with_whitespace(" ");
    assert_eq!(frag.word, "ab");
    assert_eq!(frag.width, 2);
    assert_eq!(frag.whitespace, " ");
    assert_eq!(frag.penalty, "");
}

#[test]
fn break_apart_cuts_before_the_character_that_overflows() {
    let parts = WhiteSpaceWord::from("abcdef").break_apart(4);
    assert_eq!(words_of(&parts), vec!["abcd", "ef"]);
    assert_eq!(parts[0].width, 4);
    assert_eq!(parts[1].width, 2);
}

#[test]
fn break_apart_never_divides_a_character() {
    let parts = WhiteSpaceWord::from("a世b").break_apart(2);
    assert_eq!(words_of(&parts), vec!["a", "世", "b"]);
    let parts = WhiteSpaceWord::from("世界").break_apart(1);
    assert_eq!(words_of(&parts), vec!["世", "界"]);
    assert_eq!(parts[0].width, 2);
}

#[test]
fn break_apart_keeps_marks_without_width_with_the_piece_before() {
    let parts = WhiteSpaceWord::from("e\u{301}e\u{301}").break_apart(1);
    assert_eq!(words_of(&parts), vec!["e\u{301}", "e\u{301}"]);
}

#[test]
fn break_apart_gives_whitespace_and_penalty_to_the_last_piece() {
    let frag = WhiteSpaceWord { word: "abcde", width: 5, whitespace: " ", penalty: "-" };
    let parts = frag.break_apart(2);
    assert_eq!(words_of(&parts), vec!["ab", "cd", "e"]);
    assert_eq!(parts[0].whitespace, "");
    assert_eq!(parts[0].penalty, "");
    assert_eq!(parts[1].whitespace, "");
    assert_eq!(parts[1].penalty, "");
    assert_eq!(parts[2].whitespace, " ");
    assert_eq!(parts[2].penalty, "-");
}

#[test]
fn break_apart_of_a_fitting_word_is_the_word() {
    let parts = WhiteSpaceWord::from("abc").break_apart(3);
    assert_eq!(words_of(&parts), vec!["abc"]);
    assert!(WhiteSpaceWord::from("").break_apart(3).is_empty());
}

#[test]
fn break_words_breaks_only_the_wide_fragments() {
    let words = separate_into_fragments("ab abcdefg c");
    let broken = break_words(words, 3);
    assert_eq!(words_of(&broken), vec!["ab ", "abc", "def", "g ", "c"]);
    let widths: Vec<u128> = broken.iter().map(|frag| frag.width).collect();
    assert_eq!(widths, vec![3, 3, 3, 2, 1]);
}

#[test]
fn first_fit_fills_each_line_as_far_as_it_goes() {
    let words = separate_into_fragments("aa bb c dddd e");
    let lines = wrap_first_fit(&words, 5);
    assert_eq!(lines, vec![(0, 1), (1, 3), (3, 4), (4, 5)]);
}

#[test]
fn first_fit_takes_a_fragment_that_fills_the_line_exactly() {
    let words = separate_into_fragments("aa bb ");
    assert_eq!(wrap_first_fit(&words, 6), vec![(0, 2)]);
    assert_eq!(wrap_first_fit(&words, 5), vec![(0, 1), (1, 2)]);
}

#[test]
fn first_fit_gives_a_wide_fragment_a_line_of_its_own() {
    let words = separate_into_fragments("a bbbbbbbb c");
    assert_eq!(wrap_first_fit(&words, 3), vec![(0, 1), (1, 2), (2, 3)]);
}

#[test]
fn first_fit_without_fragments_is_one_empty_line() {
    assert_eq!(wrap_first_fit(&[], 5), vec![(0, 0)]);
}

#[test]
fn first_fit_packs_as_the_textwrap_routine_does() {
    let samples: [&[&str]; 6] = [
        &[],
        &["a"],
        &["aa", "bb", "cc"],
        &["abc", "de", "f", "ghij", "k", "lm"],
        &["toolongforanyline", "x", "y"],
        &["世界", "ab", "界", "c"],
    ];
    for sample in samples.iter() {
        for width in [0u16, 1, 2, 3, 4, 5, 6, 8, 20] {
            let ours: Vec<WhiteSpaceWord> =
                sample.iter().map(|word| WhiteSpaceWord::from(*word)).collect();
            let theirs: Vec<textwrap::core::Word> =
                sample.iter().map(|word| textwrap::core::Word::from(*word)).collect();
            let packed = wrap_first_fit(&ours, width);
            let expected = textwrap::wrap_algorithms::wrap_first_fit(&theirs, &[width as f64]);
            let lengths: Vec<usize> = packed.iter().map(|(first, last)| last - first).collect();
            let expected_lengths: Vec<usize> = expected.iter().map(|line| line.len()).collect();
            assert_eq!(lengths, expected_lengths, "{:?} at width {}", sample, width);
        }
    }
}

#[test]
fn single_line_that_fits_is_appended_whole() {
    let mut lines = vec![Cow::Borrowed("before")];
    wrap_single_line("a b c", 5, &mut lines);
    assert_eq!(lines, vec!["before", "a b c"]);
}

#[test]
fn single_line_that_is_too_wide_is_wrapped() {
    let mut lines = Vec::new();
    wrap_single_line("a b c", 4, &mut lines);
    assert_eq!(lines, vec!["a b ", "c"]);
}

#[test]
fn empty_segment_is_one_empty_line() {
    let mut lines = Vec::new();
    wrap_single_line("", 0, &mut lines);
    assert_eq!(lines, vec![""]);
    let mut slow = Vec::new();
    wrap_single_line_slow_path("", 3, &mut slow);
    assert_eq!(slow, vec![""]);
}

#[test]
fn slow_path_agrees_with_the_fast_path_where_the_segment_fits() {
    for text in ["", "a", "a b", "hello world\n", "世界 ab"] {
        let mut fast = Vec::new();
        wrap_single_line(text, 40, &mut fast);
        let mut slow = Vec::new();
        wrap_single_line_slow_path(text, 40, &mut slow);
        assert_eq!(fast, slow);
        assert_eq!(fast, vec![text]);
    }
}

#[test]
fn wrap_handles_a_long_text() {
    let mut text = String::new();
    for i in 0..40000 {
        text.push_str("word ");
        if i % 13 == 0 {
            text.push_str("averyveryverylongwordthatmustbebroken\n");
        }
    }
    for width in [1u16, 8, 40] {
        check_laws(&text, width);
    }
}
