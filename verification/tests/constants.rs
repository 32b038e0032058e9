use ts_bridge::constants::{
    extract_constant, extract_constants, find_all_public_constants, has_constant_name,
    process_constants, write_constants, write_declarations, Constant,
};
use ts_bridge::pattern::{PatternMatcher, ScanError};

fn pairs(constants: &Vec<Constant>) -> Vec<(String, String)> {
    constants.iter().map(|c| (c.name.clone(), c.value.clone())).collect()
}

fn pair(name: &str, value: &str) -> (String, String) {
    (name.to_string(), value.to_string())
}

fn scan(text: &str) -> Vec<(String, String)> {
    let matcher = PatternMatcher::new().unwrap();
    pairs(&extract_constants(&matcher, text))
}

#[test]
fn pattern_matcher_compiles() {
    assert!(PatternMatcher::new().is_ok());
}

#[test]
fn constant_declaration_is_recognised() {
    let matcher = PatternMatcher::new().unwrap();
    assert!(matcher.matches_constant_declaration("pub const NAME_1: &str = \"value\";"));
    assert!(matcher.matches_constant_declaration("pub const NAME: &str =\"v\";"));
    assert!(matcher.matches_constant_declaration("    pub const NAME: &str =     \"v\";"));
    assert!(!matcher.matches_constant_declaration("pub const name: &str = \"value\";"));
    assert!(!matcher.matches_constant_declaration("pub const NAME: &str = \"\";"));
    assert!(!matcher.matches_constant_declaration("pub const NAME: u32 = 3;"));
    assert!(!matcher.matches_constant_declaration("pub const NAME: &str = \"value\""));
    assert!(!matcher.matches_constant_declaration("const NAME: &str = \"value\";"));
    assert!(!matcher.matches_constant_declaration(""));
}

#[test]
fn single_declaration_is_extracted() {
    assert_eq!(scan("pub const GREETING: &str = \"hello\";\n"), vec![pair("GREETING", "hello")]);
    assert_eq!(scan("pub const GREETING: &str = \"hello\";"), vec![pair("GREETING", "hello")]);
}

#[test]
fn constants_round_trip_in_source_order() {
    let declared =
        vec![pair("ALPHA", "one"), pair("BETA_2", "two"), pair("GAMMA", "three;3"), pair("_9", "x")];
    let mut source = String::new();
    for (name, value) in &declared {
        source.push_str(&format!("pub const {}: &str = \"{}\";\n", name, value));
    }
    assert_eq!(scan(&source), declared);
}

#[test]
fn declaration_split_over_lines_is_extracted() {
    let source = "// header\n\
                  pub const ALPHA: &str = \"one\";\n    \
                  pub const BETA_2: &str =\n        \
                  \"two\";\n\
                  fn main() {}\n\
                  pub const GAMMA: &str =\n  \"three\"\n;\n";
    assert_eq!(scan(source), vec![pair("ALPHA", "one"), pair("BETA_2", "two"), pair("GAMMA", "three")]);
}

#[test]
fn line_breaks_add_nothing_to_the_buffer() {
    assert_eq!(scan("pub const A: &str =\n\"v\";\n"), vec![pair("A", "=\"v")]);
}

#[test]
fn carriage_returns_before_line_feeds_are_dropped() {
    let source = "pub const A: &str = \"x\";\r\npub const B: &str =\r\n    \"y\";\r\n";
    assert_eq!(scan(source), vec![pair("A", "x"), pair("B", "y")]);
}

#[test]
fn unterminated_declaration_at_end_of_file_is_dropped() {
    let source = "pub const A: &str = \"x\";\npub const B: &str = \"y\"\n";
    assert_eq!(scan(source), vec![pair("A", "x")]);
    assert_eq!(scan("pub const B: &str = \"y\""), Vec::new());
    assert_eq!(scan("pub const A: &str = \"x\";\npub const B: &str =\n    \"y\"\n\n"), vec![pair("A", "x")]);
}

#[test]
fn unterminated_declaration_does_not_reach_the_next_file() {
    let matcher = PatternMatcher::new().unwrap();
    let files = vec![
        "pub const A: &str = \"x\";\npub const LOST: &str = \"gone\"".to_string(),
        "pub const B: &str = \"y\";\n".to_string(),
        String::new(),
        "pub const C: &str = \"z\";".to_string(),
    ];
    let found = find_all_public_constants(&matcher, &files);
    assert_eq!(pairs(&found), vec![pair("A", "x"), pair("B", "y"), pair("C", "z")]);
}

#[test]
fn unterminated_declaration_takes_up_the_lines_that_follow() {
    let source = "pub const A: &str = \"x\"\npub const B: &str = \"y\";\npub const C: &str = \"z\";\n";
    assert_eq!(scan(source), vec![pair("A", "y"), pair("C", "z")]);
}

#[test]
fn whitespace_after_the_terminator_keeps_the_buffer_open() {
    let source = "pub const A: &str = \"x\"; \npub const B: &str = \"y\";\n";
    assert_eq!(scan(source), vec![pair("A", "y")]);
}

#[test]
fn other_lines_are_skipped() {
    let source = "use std::fmt;\n\nconst PRIVATE: &str = \"p\";\npub const lower: &str = \"l\";\n\
                  pub const NUMBER: u32 = 3;\npub const KEPT: &str = \"k\";\n// pub const C: &str = \"c\";\n";
    assert_eq!(scan(source), vec![pair("KEPT", "k")]);
    assert_eq!(scan(""), Vec::new());
    assert_eq!(scan("\n\n\n"), Vec::new());
}

#[test]
fn value_is_the_last_word_only() {
    assert_eq!(scan("pub const A: &str = \"hello wide world\";\n"), vec![pair("A", "world")]);
}

#[test]
fn constant_function_takes_the_next_declaration_with_it() {
    let source = "pub const fn one() -> u8 {\n    1\n}\npub const A: &str = \"x\";\npub const B: &str = \"y\";\n";
    assert_eq!(scan(source), vec![pair("B", "y")]);
}

#[test]
fn extract_constant_reads_third_and_last_word() {
    let constant = extract_constant("pub const NAME: &str = \"value\";").unwrap();
    assert_eq!(constant.name, "NAME");
    assert_eq!(constant.value, "value");
    let odd = extract_constant("one two ::THREE_3:: ;;\"\"four\"\";;").unwrap();
    assert_eq!(odd.name, "THREE_3");
    assert_eq!(odd.value, "four");
    let short = extract_constant("a b C").unwrap();
    assert_eq!(short.name, "C");
    assert_eq!(short.value, "C");
}

#[test]
fn extract_constant_rejects_a_third_word_that_is_no_name() {
    for buffer in [
        "pub const fn one() -> u8 { 1 } pub const A: &str = \"x\";",
        "pub const lower: &str = \"x\";",
        "pub const Mixed: &str = \"x\";",
        "pub const A-B: &str = \"x\";",
        "pub const : &str = \"x\";",
        "pub const \u{c9}: &str = \"x\";",
    ] {
        assert_eq!(extract_constant(buffer).unwrap_err(), ScanError::MalformedDeclaration);
    }
}

#[test]
fn constant_names_are_upper_case_letters_digits_and_underscores() {
    let chars = |s: &str| s.chars().collect::<Vec<char>>();
    for name in ["A", "Z", "_", "0", "9", "A_B_9", "__", "MAX_2"] {
        assert!(has_constant_name(&chars(name)), "{}", name);
    }
    for name in ["", "a", "z", "fn", "A b", "A-B", "A:", "\u{c9}", "@", "[", "/", ":", "A\n"] {
        assert!(!has_constant_name(&chars(name)), "{:?}", name);
    }
}

#[test]
fn every_extracted_constant_has_a_constant_name() {
    let source = "pub const fn f() {}\npub const A: &str = \"x\";\npub const B_2: &str = \"y\";\n\
                  pub const c: &str = \"z\";\npub const fn g() -> &'static str { \"v\" } pub const D: &str = \"w\";\n";
    let found = scan(source);
    assert_eq!(found, vec![pair("B_2", "y")]);
    for (name, _) in found {
        assert!(!name.is_empty());
        assert!(name.chars().all(|c| c.is_ascii_uppercase() || c.is_ascii_digit() || c == '_'));
    }
}

#[test]
fn written_declarations_are_read_back() {
    let matcher = PatternMatcher::new().unwrap();
    let constants = vec![
        Constant { name: "ALPHA".to_string(), value: "one".to_string() },
        Constant { name: "BETA_2".to_string(), value: "two;2".to_string() },
        Constant { name: "_".to_string(), value: "a\"b".to_string() },
    ];
    let source = write_declarations(&matcher, &constants).unwrap();
    assert_eq!(
        source,
        "pub const ALPHA: &str = \"one\";\npub const BETA_2: &str = \"two;2\";\npub const _: &str = \"a\"b\";\n"
    );
    assert_eq!(scan(&source), vec![pair("ALPHA", "one"), pair("BETA_2", "two;2"), pair("_", "a\"b")]);
    assert_eq!(write_declarations(&matcher, &Vec::new()).unwrap(), "");
}

#[test]
fn declarations_that_cannot_be_read_back_are_not_written() {
    let matcher = PatternMatcher::new().unwrap();
    for (name, value) in [
        ("lower", "x"),
        ("", "x"),
        ("A B", "x"),
        ("A", "two words"),
        ("A", "\"quoted"),
        ("A", "quoted\""),
        ("A", ""),
        ("A", "line\nfeed"),
    ] {
        let constants = vec![
            Constant { name: "FINE".to_string(), value: "v".to_string() },
            Constant { name: name.to_string(), value: value.to_string() },
        ];
        assert!(write_declarations(&matcher, &constants).is_none(), "{:?} {:?}", name, value);
    }
}

#[test]
fn extract_constant_rejects_fewer_than_three_words() {
    assert_eq!(extract_constant("pub const").unwrap_err(), ScanError::MalformedDeclaration);
    assert_eq!(extract_constant("").unwrap_err(), ScanError::MalformedDeclaration);
    assert_eq!(extract_constant("   \t ").unwrap_err(), ScanError::MalformedDeclaration);
}

#[test]
fn constants_are_written_one_per_line() {
    let constants = vec![
        Constant { name: "ALPHA".to_string(), value: "one".to_string() },
        Constant { name: "BETA".to_string(), value: "two words".to_string() },
    ];
    assert_eq!(
        write_constants(&constants),
        "export const ALPHA: string = \"one\";\nexport const BETA: string = \"two words\";\n"
    );
}

#[test]
fn no_constants_give_an_empty_file() {
    assert_eq!(write_constants(&Vec::new()), "");
    let matcher = PatternMatcher::new().unwrap();
    assert_eq!(
        process_constants(&matcher, &vec!["fn main() {}\n".to_string()]),
        (0, String::new())
    );
}

#[test]
fn same_constants_give_the_same_file() {
    let matcher = PatternMatcher::new().unwrap();
    let files = vec!["pub const A: &str = \"x\";\n".to_string(), "pub const B: &str = \"y\";".to_string()];
    let first = process_constants(&matcher, &files);
    let second = process_constants(&matcher, &files);
    assert_eq!(first.0, 2);
    assert_eq!(first.1, "export const A: string = \"x\";\nexport const B: string = \"y\";\n");
    assert_eq!(first, second);
}
