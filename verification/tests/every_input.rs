use grrs::find_matches;

const TEXTS: [&str; 10] = [
    "",
    "\n",
    "lorem ipsum\ndolor sit amet",
    "lorem ipsum\ndolor sit amet\n",
    "a\r\nb\r\nab\r\n",
    "one\n\ntwo\n\n\nthree",
    "caf\u{e9}\nna\u{ef}ve\n",
    "no terminator",
    "\r",
    "x\ny\nz\n",
];

const PATTERNS: [&str; 8] = ["", "a", "lorem", "o", "\u{e9}", "\n", "no terminator", "zzz"];

#[test]
fn empty_pattern_writes_every_line() {
    for text in TEXTS {
        let mut sink = Vec::new();
        let found = find_matches(text, "", &mut sink);
        let mut lines = Vec::new();
        for line in text.lines() {
            lines.extend_from_slice(line.as_bytes());
            lines.push(b'\n');
        }
        assert_eq!(sink, lines, "{:?}", text);
        assert_eq!(found, Ok(text.lines().count() > 0), "{:?}", text);
    }
    let mut sink = Vec::new();
    assert_eq!(find_matches("one\n\ntwo\n\n\nthree", "", &mut sink), Ok(true));
    assert_eq!(sink, b"one\n\ntwo\n\n\nthree\n");
}

#[test]
fn empty_content_writes_nothing() {
    for pattern in PATTERNS {
        let mut sink = Vec::new();
        assert_eq!(find_matches("", pattern, &mut sink), Ok(false), "{:?}", pattern);
        assert_eq!(sink, b"", "{:?}", pattern);
    }
    let mut sink = b"kept".to_vec();
    assert_eq!(find_matches("", "anything", &mut sink), Ok(false));
    assert_eq!(sink, b"kept");
}

#[test]
fn flag_tells_whether_a_line_was_written() {
    for text in TEXTS {
        for pattern in PATTERNS {
            let mut sink = Vec::new();
            let found = find_matches(text, pattern, &mut sink);
            let written = sink.iter().filter(|b| **b == b'\n').count();
            assert_eq!(found, Ok(written > 0), "{:?} in {:?}", pattern, text);
            assert_eq!(found, Ok(!sink.is_empty()), "{:?} in {:?}", pattern, text);
        }
    }
}

#[test]
fn only_matching_lines_are_written() {
    for text in TEXTS {
        for pattern in PATTERNS {
            let mut sink = Vec::new();
            assert!(find_matches(text, pattern, &mut sink).is_ok());
            let mut expected = Vec::new();
            for line in text.lines() {
                if line.contains(pattern) {
                    expected.extend_from_slice(line.as_bytes());
                    expected.push(b'\n');
                }
            }
            assert_eq!(sink, expected, "{:?} in {:?}", pattern, text);
        }
    }
}

#[test]
fn searching_twice_gives_the_same_output() {
    for text in TEXTS {
        for pattern in PATTERNS {
            let mut first = Vec::new();
            let mut second = Vec::new();
            let first_found = find_matches(text, pattern, &mut first);
            let second_found = find_matches(text, pattern, &mut second);
            assert_eq!(first_found, second_found, "{:?} in {:?}", pattern, text);
            assert_eq!(first, second, "{:?} in {:?}", pattern, text);
        }
    }
    let mut first = Vec::new();
    let mut second = Vec::new();
    assert_eq!(find_matches("lorem ipsum\ndolor sit amet", "lorem", &mut first), Ok(true));
    assert_eq!(find_matches("lorem ipsum\ndolor sit amet", "lorem", &mut second), Ok(true));
    assert_eq!(first, b"lorem ipsum\n");
    assert_eq!(second, b"lorem ipsum\n");
}

#[test]
fn searching_twice_into_one_sink_appends_twice() {
    let mut sink = Vec::new();
    assert_eq!(find_matches("one\ntwo\n", "o", &mut sink), Ok(true));
    assert_eq!(find_matches("one\ntwo\n", "o", &mut sink), Ok(true));
    assert_eq!(sink, b"one\ntwo\none\ntwo\n");
}
