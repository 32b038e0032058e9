use ts_bridge::text::{
    chars_of, copy_range, ends_with, is_whitespace, matches_at, replace, split_lines,
    split_whitespace, starts_with, string_of, trim, trim_matches,
};

fn chars(s: &str) -> Vec<char> {
    s.chars().collect()
}

fn text(v: &Vec<char>) -> String {
    v.iter().collect()
}

fn texts(v: &Vec<Vec<char>>) -> Vec<String> {
    v.iter().map(text).collect()
}

const SAMPLES: [&str; 22] = [
    "",
    " ",
    "\n",
    "\r\n",
    "a",
    "a\n",
    "a\r\n",
    "a\r",
    "a\n\n",
    "\na",
    "a\nb",
    "a\r\nb\r\n",
    "a\r\r\nb",
    "  pub const A: &str = \"x\";  ",
    "\tpub\tconst\t",
    "one two  three   ",
    "\u{a0}wide\u{3000}space\u{2003}",
    "tab\tand\u{b}vertical\u{c}feed\u{85}next",
    "no-space",
    ";;\"quoted\";;",
    "ab | undefined | undefined",
    "éà ü\n ß ",
];

#[test]
fn whitespace_is_the_unicode_white_space_set() {
    let mut code: u32 = 0;
    while code <= 0x10FFFF {
        if let Some(c) = char::from_u32(code) {
            assert_eq!(is_whitespace(c), c.is_whitespace(), "code point {:#x}", code);
        }
        code += 1;
    }
}

#[test]
fn whitespace_named_code_points() {
    for c in [' ', '\t', '\n', '\r', '\u{b}', '\u{c}', '\u{85}', '\u{a0}', '\u{1680}', '\u{2000}',
        '\u{200a}', '\u{2028}', '\u{2029}', '\u{202f}', '\u{205f}', '\u{3000}']
    {
        assert!(is_whitespace(c));
    }
    for c in ['a', ';', '"', '|', '\u{8}', '\u{e}', '\u{200b}', '\u{feff}', '\u{180e}'] {
        assert!(!is_whitespace(c));
    }
}

#[test]
fn chars_and_strings_convert_both_ways() {
    for sample in SAMPLES {
        assert_eq!(chars_of(sample), chars(sample));
        assert_eq!(string_of(&chars(sample)), sample);
    }
    assert_eq!(string_of(&vec!['a', 'b']), "ab");
    assert_eq!(string_of(&Vec::new()), "");
}

#[test]
fn lines_are_split_like_the_standard_library() {
    for sample in SAMPLES {
        let expected: Vec<String> = sample.lines().map(|l| l.to_string()).collect();
        assert_eq!(texts(&split_lines(&chars(sample))), expected, "sample {:?}", sample);
    }
}

#[test]
fn lines_exact_values() {
    assert_eq!(texts(&split_lines(&chars(""))), Vec::<String>::new());
    assert_eq!(texts(&split_lines(&chars("\n"))), vec![""]);
    assert_eq!(texts(&split_lines(&chars("a\r\nb\n\nc"))), vec!["a", "b", "", "c"]);
    assert_eq!(texts(&split_lines(&chars("a\r"))), vec!["a\r"]);
    assert_eq!(texts(&split_lines(&chars("a\r\r\n"))), vec!["a\r"]);
}

#[test]
fn words_are_split_like_the_standard_library() {
    for sample in SAMPLES {
        let expected: Vec<String> = sample.split_whitespace().map(|w| w.to_string()).collect();
        assert_eq!(texts(&split_whitespace(&chars(sample))), expected, "sample {:?}", sample);
    }
}

#[test]
fn words_exact_values() {
    assert_eq!(texts(&split_whitespace(&chars("   "))), Vec::<String>::new());
    assert_eq!(
        texts(&split_whitespace(&chars("  pub  const\tA: &str\n=\"x\";"))),
        vec!["pub", "const", "A:", "&str", "=\"x\";"]
    );
}

#[test]
fn trim_is_like_the_standard_library() {
    for sample in SAMPLES {
        assert_eq!(text(&trim(&chars(sample))), sample.trim(), "sample {:?}", sample);
    }
    assert_eq!(text(&trim(&chars(" \t a b \n"))), "a b");
    assert_eq!(text(&trim(&chars(" \t \n"))), "");
}

#[test]
fn trim_matches_is_like_the_standard_library() {
    for sample in SAMPLES {
        for c in [';', '"', ':', ' ', 'a'] {
            assert_eq!(
                text(&trim_matches(&chars(sample), c)),
                sample.trim_matches(c),
                "sample {:?} char {:?}",
                sample,
                c
            );
        }
    }
    assert_eq!(text(&trim_matches(&chars(";;a;b;;"), ';')), "a;b");
    assert_eq!(text(&trim_matches(&chars(";;;"), ';')), "");
    assert_eq!(text(&trim_matches(&chars("NAME:"), ':')), "NAME");
}

#[test]
fn prefixes_and_suffixes() {
    for sample in SAMPLES {
        for probe in ["", "a", "pub", "  pub const", ";", "  ", "\n", "a\r", "undefined"] {
            assert_eq!(starts_with(&chars(sample), &chars(probe)), sample.starts_with(probe));
            assert_eq!(ends_with(&chars(sample), &chars(probe)), sample.ends_with(probe));
        }
    }
    assert!(starts_with(&chars("pub const A"), &chars("pub const")));
    assert!(!starts_with(&chars("pub cons"), &chars("pub const")));
    assert!(ends_with(&chars("x;"), &chars(";")));
    assert!(!ends_with(&chars("x; "), &chars(";")));
    assert!(!ends_with(&chars(""), &chars(";")));
}

#[test]
fn occurrences_at_an_index() {
    let s = chars("abcabc");
    assert!(matches_at(&s, 0, &chars("abc")));
    assert!(matches_at(&s, 3, &chars("abc")));
    assert!(!matches_at(&s, 1, &chars("abc")));
    assert!(!matches_at(&s, 4, &chars("abc")));
    assert!(matches_at(&s, 6, &chars("")));
    assert!(!matches_at(&s, 7, &chars("")));
    assert!(!matches_at(&s, usize::MAX, &chars("a")));
}

#[test]
fn ranges_are_copied() {
    let s = chars("abcdef");
    assert_eq!(text(&copy_range(&s, 0, 6)), "abcdef");
    assert_eq!(text(&copy_range(&s, 2, 4)), "cd");
    assert_eq!(text(&copy_range(&s, 3, 3)), "");
}

#[test]
fn replace_is_like_the_standard_library() {
    for sample in SAMPLES {
        for (from, to) in [
            (" | undefined", ""),
            ("a", "bb"),
            ("aa", "a"),
            ("", "-"),
            ("", ""),
            ("\n", "\r\n"),
            (" ", ""),
            ("ab", "ab"),
        ] {
            assert_eq!(
                text(&replace(&chars(sample), &chars(from), &chars(to))),
                sample.replace(from, to),
                "sample {:?} from {:?} to {:?}",
                sample,
                from,
                to
            );
        }
    }
}

#[test]
fn replace_exact_values() {
    assert_eq!(text(&replace(&chars("aaa"), &chars("aa"), &chars("b"))), "ba");
    assert_eq!(text(&replace(&chars("abab"), &chars("ab"), &chars("x"))), "xx");
    assert_eq!(text(&replace(&chars("ab"), &chars(""), &chars("X"))), "XaXbX");
    assert_eq!(text(&replace(&chars(""), &chars(""), &chars("X"))), "X");
    assert_eq!(text(&replace(&chars("abc"), &chars("abcd"), &chars("X"))), "abc");
    assert_eq!(
        text(&replace(&chars("string | undefined"), &chars(" | undefined"), &chars(""))),
        "string"
    );
}
