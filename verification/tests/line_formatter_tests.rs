use crep_indexer::line_formatter::positions_fit;
use crep_indexer::line_formatter::gutter;
use crep_indexer::line_formatter::get_highlighted_line;
use crep_indexer::line_formatter::get_first_n_chars;
use crep_indexer::line_formatter::get_last_n_chars;
use crep_indexer::line_formatter::highlight_line_by_positions;
use crep_indexer::line_formatter::truncate_long_line;
use owo_colors::OwoColorize;

#[test]
fn result_viewer_test_highlight_line_position() {
    assert_eq!(
        highlight_line_by_positions("this is a line", &[("is", 5)]),
        format!("this {} a line", "is".to_string().red())
    );
}

#[test]
fn result_viewer_test_get_first_n_chars() {
    assert_eq!(get_first_n_chars("", 3), "");
    assert_eq!(get_first_n_chars("a", 3), "a");
    assert_eq!(get_first_n_chars("ab", 3), "ab");
    assert_eq!(get_first_n_chars("abc", 3), "abc");
    assert_eq!(get_first_n_chars("abcd", 3), "abc");

    assert_eq!(get_first_n_chars("가", 0), "");
    assert_eq!(get_first_n_chars("가나a다", 1), "가");
    assert_eq!(get_first_n_chars("가나a다", 2), "가나");
    assert_eq!(get_first_n_chars("가나a다", 3), "가나a");
    assert_eq!(get_first_n_chars("가나a다", 4), "가나a다");
}

#[test]
fn result_viewer_test_get_last_n_chars() {
    assert_eq!(get_last_n_chars("", 3), "");
    assert_eq!(get_last_n_chars("a", 3), "a");
    assert_eq!(get_last_n_chars("ab", 3), "ab");
    assert_eq!(get_last_n_chars("abc", 3), "abc");
    assert_eq!(get_last_n_chars("abcd", 3), "bcd");

    assert_eq!(get_last_n_chars("가", 1), "가");
    assert_eq!(get_last_n_chars("가a나", 2), "a나");
    assert_eq!(get_last_n_chars("가a나", 3), "가a나");
}

#[test]
fn show_search_result() {}

#[test]
fn line_formatter_test_highlight_line_position() {
    assert_eq!(
        highlight_line_by_positions("this is a line", &[("is", 5)]),
        format!("this {} a line", "is".red())
    );
}

#[test]
fn test_highlight_line_multiple_positions() {
    assert_eq!(
        highlight_line_by_positions(
            //12345678
            "this is a line",
            &[("is", 5), ("a", 8)]
        ),
        format!("this {} {} line", "is".red(), "a".red())
    );
}

#[test]
fn line_formatter_test_get_first_n_chars() {
    assert_eq!(get_first_n_chars("", 3), "");
    assert_eq!(get_first_n_chars("a", 3), "a");
    assert_eq!(get_first_n_chars("ab", 3), "ab");
    assert_eq!(get_first_n_chars("abc", 3), "abc");
    assert_eq!(get_first_n_chars("abcd", 3), "abc");

    assert_eq!(get_first_n_chars("가", 0), "");
    assert_eq!(get_first_n_chars("가나a다", 1), "가");
    assert_eq!(get_first_n_chars("가나a다", 2), "가나");
    assert_eq!(get_first_n_chars("가나a다", 3), "가나a");
    assert_eq!(get_first_n_chars("가나a다", 4), "가나a다");
}

#[test]
fn line_formatter_test_get_last_n_chars() {
    assert_eq!(get_last_n_chars("", 3), "");
    assert_eq!(get_last_n_chars("a", 3), "a");
    assert_eq!(get_last_n_chars("ab", 3), "ab");
    assert_eq!(get_last_n_chars("abc", 3), "abc");
    assert_eq!(get_last_n_chars("abcd", 3), "bcd");

    assert_eq!(get_last_n_chars("가", 1), "가");
    assert_eq!(get_last_n_chars("가a나", 2), "a나");
    assert_eq!(get_last_n_chars("가a나", 3), "가a나");
}

#[test]
fn red_is_between_two_escape_sequences() {
    assert_eq!(
        highlight_line_by_positions("ab", &[("ab", 0)]),
        "\u{1b}[31mab\u{1b}[39m"
    );
}

#[test]
fn long_stretches_are_cut_to_forty_and_forty_characters() {
    let line = "0123456789".repeat(10);
    assert_eq!(
        truncate_long_line(&line),
        format!("{} ... {}", "0123456789".repeat(4), "0123456789".repeat(4))
    );
    let short = "x".repeat(79);
    assert_eq!(truncate_long_line(&short), short);
    let eighty = "y".repeat(80);
    assert_eq!(
        truncate_long_line(&eighty),
        format!("{} ... {}", "y".repeat(40), "y".repeat(40))
    );
    // eighty bytes, but fewer than eighty characters
    let wide = "가".repeat(27);
    assert_eq!(truncate_long_line(&wide), format!("{} ... {}", wide, wide));
}

#[test]
fn last_zero_characters_is_the_last_character() {
    assert_eq!(get_last_n_chars("abc", 0), "c");
}

#[test]
fn a_shown_line_starts_with_its_number() {
    assert_eq!(gutter(0), format!("{:>6}| ", 1.to_string().yellow()));
    assert_eq!(gutter(41), format!("{:>6}| ", 42.to_string().yellow()));
    assert_eq!(gutter(41), "\u{1b}[33m    42\u{1b}[39m| ");
    assert_eq!(gutter(999_998), "\u{1b}[33m999999\u{1b}[39m| ");
    assert_eq!(gutter(999_999), "\u{1b}[33m1000000\u{1b}[39m| ");
    assert_eq!(
        gutter(usize::MAX),
        format!("\u{1b}[33m{}\u{1b}[39m| ", usize::MAX as u128 + 1)
    );
}

#[test]
fn a_line_is_shown_with_its_number_and_its_matches() {
    let positions = vec![("is".to_string(), 5), ("a".to_string(), 8)];
    assert_eq!(
        get_highlighted_line("this is a line", 6, &positions),
        Some(format!(
            "{:>6}| this {} {} line",
            7.to_string().yellow(),
            "is".red(),
            "a".red()
        ))
    );
    assert_eq!(
        get_highlighted_line("plain", 0, &vec![]),
        Some(format!("{:>6}| plain", 1.to_string().yellow()))
    );
    // a long stretch between matches is cut short
    let long = format!("{}x{}", "a".repeat(100), "b".repeat(10));
    assert_eq!(
        get_highlighted_line(&long, 0, &vec![("x".to_string(), 100)]),
        Some(format!(
            "{:>6}| {} ... {}{}{}",
            1.to_string().yellow(),
            "a".repeat(40),
            "a".repeat(40),
            "x".red(),
            "b".repeat(10)
        ))
    );
}

#[test]
fn words_that_cannot_be_marked_are_refused() {
    assert!(positions_fit("this is a line", &[("is", 5), ("a", 8)]));
    assert!(positions_fit("this is a line", &[]));
    assert!(positions_fit("", &[]));
    assert!(positions_fit("ab", &[("ab", 0)]));
    // the second word starts before the first one ends
    assert!(!positions_fit("this is a line", &[("is", 5), ("a", 6)]));
    // behind the end of the line
    assert!(!positions_fit("ab", &[("b", 3)]));
    assert!(positions_fit("ab", &[("", 2)]));
    // inside a character
    assert!(!positions_fit("é!", &[("!", 1)]));
    assert!(positions_fit("é!", &[("!", 2)]));
    // the word ends inside a character
    assert!(!positions_fit("aé", &[("ab", 0)]));
    assert_eq!(get_highlighted_line("é!", 0, &vec![("!".to_string(), 1)]), None);
}
