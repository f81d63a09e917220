use wgroutes::text::{
    char_is_space, find, lines_of, slice, split_chars, to_chars, to_string, trim_chars,
};

fn chars(s: &str) -> Vec<char> {
    s.chars().collect()
}

fn strings(pieces: Vec<Vec<char>>) -> Vec<String> {
    pieces.into_iter().map(|p| p.into_iter().collect()).collect()
}

const SAMPLES: [&str; 16] = [
    "",
    ".",
    "..",
    "a",
    "a.b",
    ".a.b.",
    "a..b",
    "a\nb",
    "a\r\nb\r\n",
    "a\r\nb\r",
    "\n",
    "\r\n\r\n",
    "\n\nx\n",
    "  x y  ",
    "\u{3000}x\u{a0}\t",
    "û.ü:é/ñ ",
];

#[test]
fn chars_and_back() {
    for s in SAMPLES {
        let v = to_chars(s);
        assert_eq!(v, chars(s));
        assert_eq!(to_string(&v, 0, v.len()), s);
    }
    let v = chars("hello");
    assert_eq!(to_string(&v, 1, 3), "el");
    assert_eq!(slice(&v, 1, 3), chars("el"));
    assert_eq!(to_string(&v, 2, 2), "");
}

#[test]
fn split_is_the_split_of_the_standard_library() {
    for s in SAMPLES {
        for sep in ['.', ':', ' ', '\n'] {
            let expected: Vec<String> = s.split(sep).map(|p| p.to_string()).collect();
            assert_eq!(strings(split_chars(&chars(s), sep)), expected, "{s:?} at {sep:?}");
        }
    }
}

#[test]
fn lines_are_the_lines_of_the_standard_library() {
    for s in SAMPLES {
        let expected: Vec<String> = s.lines().map(|p| p.to_string()).collect();
        assert_eq!(strings(lines_of(&chars(s))), expected, "{s:?}");
    }
}

#[test]
fn trim_is_the_trim_of_the_standard_library() {
    for s in SAMPLES {
        let trimmed: String = trim_chars(&chars(s)).into_iter().collect();
        assert_eq!(trimmed, s.trim(), "{s:?}");
    }
}

#[test]
fn white_space_is_what_the_standard_library_calls_so() {
    for code in 0..=0x10ffff_u32 {
        if let Some(c) = char::from_u32(code) {
            assert_eq!(char_is_space(c), c.is_whitespace(), "U+{code:04X}");
        }
    }
}

#[test]
fn find_counts_up_to_the_first_stop() {
    let v = chars("ab:cd:e");
    assert_eq!(find(&v, 0, ':'), 2);
    assert_eq!(find(&v, 2, ':'), 0);
    assert_eq!(find(&v, 3, ':'), 2);
    assert_eq!(find(&v, 6, ':'), 1);
    assert_eq!(find(&v, 7, ':'), 0);
    assert_eq!(find(&v, 0, '/'), 7);
}
