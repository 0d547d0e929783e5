use grrs::find_matches;
use grrs::WriteError;

#[test]
fn case_matched() -> Result<(), WriteError> {
    let mut result = Vec::new();
    find_matches("lorem ipsum\ndolor sit amet", "lorem", &mut result)?;
    assert_eq!(result, b"lorem ipsum\n");
    Ok(())
}

#[test]
fn case_no_match() -> Result<(), WriteError> {
    let mut result = Vec::new();
    find_matches("lorem ipsum\ndolor sit amet", "test", &mut result)?;
    assert_eq!(result, b"");
    Ok(())
}

#[test]
fn matched_returns_true() {
    let mut result = Vec::new();
    let found = find_matches("lorem ipsum\ndolor sit amet", "lorem", &mut result);
    assert_eq!(found, Ok(true));
    assert_eq!(result, b"lorem ipsum\n");
}

#[test]
fn no_match_returns_false() {
    let mut result = Vec::new();
    let found = find_matches("lorem ipsum\ndolor sit amet", "test", &mut result);
    assert_eq!(found, Ok(false));
    assert_eq!(result, b"");
}

#[test]
fn last_line_without_terminator_is_written_with_one() {
    let mut result = Vec::new();
    let found = find_matches("lorem ipsum\ndolor sit amet", "dolor", &mut result);
    assert_eq!(found, Ok(true));
    assert_eq!(result, b"dolor sit amet\n");
}

#[test]
fn matching_lines_keep_their_order() {
    let mut result = Vec::new();
    let found = find_matches("b1\na\nb2\nc\nb3\n", "b", &mut result);
    assert_eq!(found, Ok(true));
    assert_eq!(result, b"b1\nb2\nb3\n");
}

#[test]
fn a_line_with_several_occurrences_is_written_once() {
    let mut result = Vec::new();
    let found = find_matches("abcabcabc\nxyz\n", "abc", &mut result);
    assert_eq!(found, Ok(true));
    assert_eq!(result, b"abcabcabc\n");
}

#[test]
fn equal_lines_are_each_written() {
    let mut result = Vec::new();
    let found = find_matches("same\nother\nsame\n", "same", &mut result);
    assert_eq!(found, Ok(true));
    assert_eq!(result, b"same\nsame\n");
}

#[test]
fn pattern_at_either_end_of_a_line() {
    let mut result = Vec::new();
    assert_eq!(find_matches("abc\ncab\nbca\nxyz", "ab", &mut result), Ok(true));
    assert_eq!(result, b"abc\ncab\n");
    let mut result = Vec::new();
    assert_eq!(find_matches("abc\ncab\nbca\nxyz", "ca", &mut result), Ok(true));
    assert_eq!(result, b"cab\nbca\n");
}

#[test]
fn pattern_equal_to_a_line() {
    let mut result = Vec::new();
    assert_eq!(find_matches("ab\nabc\na\n", "abc", &mut result), Ok(true));
    assert_eq!(result, b"abc\n");
}

#[test]
fn pattern_longer_than_every_line() {
    let mut result = Vec::new();
    assert_eq!(find_matches("ab\ncd\n", "abcd", &mut result), Ok(false));
    assert_eq!(result, b"");
}

#[test]
fn pattern_does_not_reach_across_lines() {
    let mut result = Vec::new();
    assert_eq!(find_matches("ab\ncd\n", "bc", &mut result), Ok(false));
    assert_eq!(result, b"");
    let mut result = Vec::new();
    assert_eq!(find_matches("ab\ncd\n", "b\nc", &mut result), Ok(false));
    assert_eq!(result, b"");
    let mut result = Vec::new();
    assert_eq!(find_matches("ab\ncd\n", "\n", &mut result), Ok(false));
    assert_eq!(result, b"");
}

#[test]
fn partial_occurrence_then_full_one() {
    let mut result = Vec::new();
    assert_eq!(find_matches("aab\nab\naa\n", "aab", &mut result), Ok(true));
    assert_eq!(result, b"aab\n");
    let mut result = Vec::new();
    assert_eq!(find_matches("aaab\n", "aab", &mut result), Ok(true));
    assert_eq!(result, b"aaab\n");
}

#[test]
fn matching_is_case_sensitive() {
    let mut result = Vec::new();
    assert_eq!(find_matches("Lorem\nlorem\nLOREM\n", "lorem", &mut result), Ok(true));
    assert_eq!(result, b"lorem\n");
}

#[test]
fn output_is_appended_to_what_the_sink_holds() {
    let mut result = b"before\n".to_vec();
    assert_eq!(find_matches("one\ntwo\n", "two", &mut result), Ok(true));
    assert_eq!(result, b"before\ntwo\n");
    assert_eq!(find_matches("one\ntwo\n", "zzz", &mut result), Ok(false));
    assert_eq!(result, b"before\ntwo\n");
}

#[test]
fn text_beyond_ascii() {
    let mut result = Vec::new();
    assert_eq!(find_matches("caf\u{e9}\nna\u{ef}ve\n\u{65e5}\u{672c}\u{8a9e}\n", "\u{e9}", &mut result), Ok(true));
    assert_eq!(result, "caf\u{e9}\n".as_bytes());
    let mut result = Vec::new();
    assert_eq!(find_matches("caf\u{e9}\nna\u{ef}ve\n\u{65e5}\u{672c}\u{8a9e}\n", "\u{672c}", &mut result), Ok(true));
    assert_eq!(result, "\u{65e5}\u{672c}\u{8a9e}\n".as_bytes());
    let mut result = Vec::new();
    assert_eq!(find_matches("\u{1f600}a\n\u{1f601}b\n", "\u{1f601}", &mut result), Ok(true));
    assert_eq!(result, "\u{1f601}b\n".as_bytes());
}

#[test]
fn characters_that_share_bytes_do_not_match() {
    // U+00E9 is C3 A9 and U+00C9 is C3 89: one byte in common, no match.
    let mut result = Vec::new();
    assert_eq!(find_matches("\u{c9}t\u{e9}\n", "\u{e8}", &mut result), Ok(false));
    assert_eq!(result, b"");
    // U+0129 is C4 A9 and U+00E9 is C3 A9: the second byte alone is no match.
    let mut result = Vec::new();
    assert_eq!(find_matches("\u{129}\n", "\u{e9}", &mut result), Ok(false));
    assert_eq!(result, b"");
}
