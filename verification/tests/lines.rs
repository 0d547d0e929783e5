use grrs::find_matches;

/// Every line of `content` as the search sees it: the output for the empty
/// pattern.
fn every_line(content: &str) -> Vec<u8> {
    let mut sink = Vec::new();
    let found = find_matches(content, "", &mut sink);
    assert_eq!(found, Ok(!sink.is_empty()));
    sink
}

#[test]
fn empty_text_has_no_line() {
    assert_eq!(every_line(""), b"");
}

#[test]
fn text_without_terminator_is_one_line() {
    assert_eq!(every_line("abc"), b"abc\n");
}

#[test]
fn final_terminator_opens_no_line() {
    assert_eq!(every_line("abc\n"), b"abc\n");
    assert_eq!(every_line("abc\ndef\n"), b"abc\ndef\n");
}

#[test]
fn lone_line_feed_is_one_empty_line() {
    assert_eq!(every_line("\n"), b"\n");
}

#[test]
fn blank_lines_are_lines() {
    assert_eq!(every_line("a\n\nb"), b"a\n\nb\n");
    assert_eq!(every_line("\n\n"), b"\n\n");
    assert_eq!(every_line("a\n\n"), b"a\n\n");
    assert_eq!(every_line("\na"), b"\na\n");
}

#[test]
fn carriage_return_before_line_feed_is_dropped() {
    assert_eq!(every_line("a\r\nb\r\n"), b"a\nb\n");
    assert_eq!(every_line("\r\n"), b"\n");
    assert_eq!(every_line("a\r\nb"), b"a\nb\n");
}

#[test]
fn only_one_carriage_return_is_dropped() {
    assert_eq!(every_line("a\r\r\n"), b"a\r\n");
}

#[test]
fn carriage_return_inside_a_line_stays() {
    assert_eq!(every_line("a\rb\n"), b"a\rb\n");
    assert_eq!(every_line("\ra\n"), b"\ra\n");
}

#[test]
fn carriage_return_at_the_end_of_an_unterminated_line_stays() {
    assert_eq!(every_line("a\r"), b"a\r\n");
    assert_eq!(every_line("a\nb\r"), b"a\nb\r\n");
    assert_eq!(every_line("\r"), b"\r\n");
}

#[test]
fn dropped_carriage_return_is_not_searched() {
    let mut sink = Vec::new();
    assert_eq!(find_matches("a\r\nb\r\n", "\r", &mut sink), Ok(false));
    assert_eq!(sink, b"");
    let mut sink = Vec::new();
    assert_eq!(find_matches("a\rb\r\nc\r", "\r", &mut sink), Ok(true));
    assert_eq!(sink, b"a\rb\nc\r\n");
}

/// What the standard library's line splitting and substring test give.
fn by_std(content: &str, pattern: &str) -> (Vec<u8>, bool) {
    let mut out = Vec::new();
    let mut found = false;
    for line in content.lines() {
        if line.contains(pattern) {
            out.extend_from_slice(line.as_bytes());
            out.push(b'\n');
            found = true;
        }
    }
    (out, found)
}

/// All strings over `alphabet` of at most `longest` characters.
fn words(alphabet: &[char], longest: usize) -> Vec<String> {
    let mut all = vec![String::new()];
    let mut from = 0;
    for _ in 0..longest {
        let upto = all.len();
        for i in from..upto {
            for c in alphabet {
                let mut next = all[i].clone();
                next.push(*c);
                all.push(next);
            }
        }
        from = upto;
    }
    all
}

#[test]
fn agrees_with_std_on_short_texts() {
    let alphabet = ['a', 'b', '\n', '\r'];
    let contents = words(&alphabet, 6);
    let patterns = words(&alphabet, 2);
    assert_eq!(contents.len(), 5461);
    assert_eq!(patterns.len(), 21);
    for content in &contents {
        for pattern in &patterns {
            let mut sink = Vec::new();
            let found = find_matches(content, pattern, &mut sink);
            let (out, flag) = by_std(content, pattern);
            assert_eq!(found, Ok(flag), "{:?} in {:?}", pattern, content);
            assert_eq!(sink, out, "{:?} in {:?}", pattern, content);
        }
    }
}

#[test]
fn agrees_with_std_beyond_ascii() {
    let alphabet = ['a', '\u{e9}', '\u{c9}', '\u{20ac}', '\u{1f600}', '\n', '\r'];
    let contents = words(&alphabet, 4);
    let patterns = words(&alphabet, 2);
    for content in &contents {
        for pattern in &patterns {
            let mut sink = Vec::new();
            let found = find_matches(content, pattern, &mut sink);
            let (out, flag) = by_std(content, pattern);
            assert_eq!(found, Ok(flag), "{:?} in {:?}", pattern, content);
            assert_eq!(sink, out, "{:?} in {:?}", pattern, content);
        }
    }
}
