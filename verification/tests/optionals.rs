use ts_bridge::files::SourceFile;
use ts_bridge::optionals::{
    base_type, find_optional_field_occurrences, occurrences_from_captures, process_optionals,
    rewrite_occurrences, rewrite_optionals, rewrite_optionals_settled, OptionalFieldMatch,
};
use ts_bridge::pattern::PatternMatcher;

fn rewrite(text: &str) -> String {
    let matcher = PatternMatcher::new().unwrap();
    rewrite_optionals(&matcher, text)
}

fn triples(found: &Vec<OptionalFieldMatch>) -> Vec<(String, String, String)> {
    found
        .iter()
        .map(|o| (o.full_match.clone(), o.field_name.clone(), o.base_type.clone()))
        .collect()
}

fn triple(full: &str, name: &str, base: &str) -> (String, String, String) {
    (full.to_string(), name.to_string(), base.to_string())
}

fn group(text: &str) -> Option<String> {
    Some(text.to_string())
}

#[test]
fn field_with_undefined_becomes_optional() {
    assert_eq!(rewrite("a: string | undefined"), "a?: string");
    assert_eq!(rewrite("let a: string | undefined;"), "let a?: string;");
}

#[test]
fn field_without_undefined_is_unchanged() {
    assert_eq!(rewrite("a: string"), "a: string");
    assert_eq!(rewrite("a: string | null;"), "a: string | null;");
    assert_eq!(rewrite("a: Array<string> | undefined;"), "a: Array<string> | undefined;");
}

#[test]
fn every_field_of_a_type_is_rewritten() {
    let source = "export type User = {\n  name: string | undefined,\n  age: number,\n  nick: string | undefined,\n};\n";
    let expected = "export type User = {\n  name?: string,\n  age: number,\n  nick?: string,\n};\n";
    assert_eq!(rewrite(source), expected);
}

#[test]
fn occurrences_are_found_in_order() {
    let matcher = PatternMatcher::new().unwrap();
    let found = find_optional_field_occurrences(
        &matcher,
        "{ a: string | undefined, b: number, c9:  Date2\t|\nundefined }",
    );
    assert_eq!(
        triples(&found),
        vec![
            triple("a: string | undefined", "a", "string"),
            triple("c9:  Date2\t|\nundefined", "c9", "Date2"),
        ]
    );
}

#[test]
fn text_without_occurrence_is_unchanged() {
    let matcher = PatternMatcher::new().unwrap();
    for text in ["", "\n", "export interface A { b: string }\r\n", "a : string | undefined", "é: ü"] {
        assert_eq!(find_optional_field_occurrences(&matcher, text).len(), 0);
        assert_eq!(rewrite(text), text);
    }
}

#[test]
fn second_pass_changes_nothing() {
    let source = "export type User = { name: string | undefined, id: number | undefined }\n";
    let once = rewrite(source);
    assert_eq!(once, "export type User = { name?: string, id?: number }\n");
    assert_eq!(rewrite(&once), once);
}

#[test]
fn second_pass_rewrites_what_the_first_uncovered() {
    let once = rewrite("a: b | undefined: x | undefined");
    assert_eq!(once, "a?: b: x | undefined");
    assert_eq!(rewrite(&once), "a?: b?: x");
}

#[test]
fn equal_occurrences_are_all_replaced() {
    assert_eq!(rewrite("a: string | undefined; a: string | undefined;"), "a?: string; a?: string;");
    assert_eq!(rewrite("a: x | undefined, ba: x | undefined"), "a?: x, ba?: x");
}

#[test]
fn undefined_alternative_is_stripped_whatever_the_spacing() {
    assert_eq!(rewrite("a:string|undefined"), "a?: string");
    assert_eq!(rewrite("a: string|undefined"), "a?: string");
    assert_eq!(rewrite("a: string  | undefined"), "a?: string");
    assert_eq!(rewrite("a: string |\tundefined;"), "a?: string;");
    assert_eq!(rewrite("a:\n  string | undefined"), "a?: string");
}

#[test]
fn base_type_is_the_leading_run_of_letters_and_digits() {
    assert_eq!(base_type("string | undefined"), "string");
    assert_eq!(base_type("string|undefined"), "string");
    assert_eq!(base_type("Date2 \t|\n undefined"), "Date2");
    assert_eq!(base_type("Abc09xyz"), "Abc09xyz");
    assert_eq!(base_type("with_underscore | undefined"), "with");
    assert_eq!(base_type(" string"), "");
    assert_eq!(base_type("\u{e9}t\u{e9} | undefined"), "");
    assert_eq!(base_type(""), "");
}

#[test]
fn settled_rewrite_tells_whether_an_occurrence_is_left() {
    let matcher = PatternMatcher::new().unwrap();
    let (once, settled) = rewrite_optionals_settled(&matcher, "{ a: string | undefined }");
    assert_eq!(once, "{ a?: string }");
    assert!(settled);
    assert_eq!(rewrite(&once), once);

    let (once, settled) = rewrite_optionals_settled(&matcher, "a: b | undefined: x | undefined");
    assert_eq!(once, "a?: b: x | undefined");
    assert!(!settled);

    let (same, settled) = rewrite_optionals_settled(&matcher, "nothing to do");
    assert_eq!(same, "nothing to do");
    assert!(settled);
}

#[test]
fn captures_become_occurrences() {
    let captures = vec![
        vec![group("a: T | undefined"), group("a"), group("T | undefined")],
        vec![group("b: U|undefined"), group("b"), group("U|undefined")],
    ];
    assert_eq!(
        triples(&occurrences_from_captures(&captures)),
        vec![triple("a: T | undefined", "a", "T"), triple("b: U|undefined", "b", "U")]
    );
}

#[test]
fn captures_that_lack_a_group_are_no_occurrences() {
    let captures = vec![
        vec![group("x"), group("y")],
        vec![group("x"), None, group("z")],
        vec![None, group("y"), group("z")],
        vec![group("x"), group("y"), None],
        Vec::new(),
        vec![group("f"), group("n"), group("t | undefined | undefined"), None, group("more")],
    ];
    assert_eq!(triples(&occurrences_from_captures(&captures)), vec![triple("f", "n", "t")]);
    assert_eq!(occurrences_from_captures(&Vec::new()).len(), 0);
}

#[test]
fn occurrences_are_rewritten_one_after_the_other() {
    let occurrences = vec![
        OptionalFieldMatch {
            full_match: "a: T | undefined".to_string(),
            field_name: "a".to_string(),
            base_type: "T".to_string(),
        },
        OptionalFieldMatch {
            full_match: "?: T".to_string(),
            field_name: "!".to_string(),
            base_type: "U".to_string(),
        },
    ];
    assert_eq!(rewrite_occurrences("{ a: T | undefined; a: T | undefined }", &occurrences), "{ a!?: U; a!?: U }");
    assert_eq!(rewrite_occurrences("unchanged", &Vec::new()), "unchanged");
}

#[test]
fn empty_match_text_stands_before_every_character() {
    let occurrences = vec![OptionalFieldMatch {
        full_match: String::new(),
        field_name: "n".to_string(),
        base_type: "T".to_string(),
    }];
    assert_eq!(rewrite_occurrences("ab", &occurrences), "ab".replace("", "n?: T"));
    assert_eq!(rewrite_occurrences("ab", &occurrences), "n?: Tan?: Tbn?: T");
}

#[test]
fn every_file_is_written_again() {
    let matcher = PatternMatcher::new().unwrap();
    let files = vec![
        SourceFile { path: "a.ts".to_string(), text: "a: string | undefined".to_string() },
        SourceFile { path: "b.ts".to_string(), text: "b: string".to_string() },
        SourceFile { path: "c.ts".to_string(), text: String::new() },
    ];
    let writes = process_optionals(&matcher, &files);
    let summary: Vec<(String, String)> =
        writes.iter().map(|w| (w.path.clone(), w.text.clone())).collect();
    assert_eq!(
        summary,
        vec![
            ("a.ts".to_string(), "a?: string".to_string()),
            ("b.ts".to_string(), "b: string".to_string()),
            ("c.ts".to_string(), String::new()),
        ]
    );
    assert_eq!(process_optionals(&matcher, &Vec::new()).len(), 0);
}
