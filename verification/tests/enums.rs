use std::collections::BTreeMap;
use ts_bridge::enums::{
    extract_union_type, extract_union_types, find_all_enum_types, process_enums, write_enum,
    write_union_type, EnumType,
};
use ts_bridge::files::SourceFile;
use ts_bridge::pattern::{PatternMatcher, ScanError};

fn file(path: &str, text: &str) -> SourceFile {
    SourceFile { path: path.to_string(), text: text.to_string() }
}

fn strings(values: &[&str]) -> Vec<String> {
    values.iter().map(|v| v.to_string()).collect()
}

#[test]
fn union_type_is_recognised() {
    let matcher = PatternMatcher::new().unwrap();
    assert!(matcher.matches_union_type("export type Color = \"red\" | \"green\" | \"blue\";"));
    assert!(matcher.matches_union_type("export type Color = red | green;"));
    assert!(matcher.matches_union_type("export type Color=\"red\"|\"green\";"));
    assert!(!matcher.matches_union_type("export type Color = \"red\";"));
    assert!(!matcher.matches_union_type("type Color = \"red\" | \"green\";"));
    assert!(!matcher.matches_union_type("export type Color = \"red\" | \"green\""));
    assert!(!matcher.matches_union_type("export type User = { name: string | undefined };"));
    assert!(!matcher.matches_union_type(""));
}

#[test]
fn union_extraction_keeps_order() {
    let (name, values) =
        extract_union_type("export type Color = \"red\" | \"green\" | \"blue\";").unwrap();
    assert_eq!(name, "Color");
    assert_eq!(values, strings(&["red", "green", "blue"]));
}

#[test]
fn union_extraction_ignores_extra_whitespace_around_bars() {
    for line in [
        "export type Color = \"red\"  |  \"green\"   |\t\"blue\";",
        "export type Color =    \"red\" |\t\t\"green\" |      \"blue\"  ;",
        "export   type   Color   =   \"red\"   |   \"green\"   |   \"blue\"   ;",
    ] {
        let (name, values) = extract_union_type(line).unwrap();
        assert_eq!(name, "Color");
        assert_eq!(values, strings(&["red", "green", "blue"]));
    }
}

#[test]
fn union_extraction_keeps_duplicates_and_bare_alternatives() {
    let (name, values) = extract_union_type("export type Mixed = a | \"b\" | a | 7;").unwrap();
    assert_eq!(name, "Mixed");
    assert_eq!(values, strings(&["a", "b", "a", "7"]));
}

#[test]
fn union_extraction_rejects_too_few_words() {
    assert_eq!(extract_union_type("export type").unwrap_err(), ScanError::MalformedDeclaration);
    assert_eq!(extract_union_type("").unwrap_err(), ScanError::MalformedDeclaration);
}

#[test]
fn union_extraction_rejects_a_declaration_without_alternatives() {
    assert_eq!(
        extract_union_type("export type Color=\"red\"|\"green\";").unwrap_err(),
        ScanError::MalformedDeclaration
    );
    assert_eq!(
        extract_union_type("export type Color = | ; \"\" ;;").unwrap_err(),
        ScanError::MalformedDeclaration
    );
    assert_eq!(
        extract_union_type("export type Color =").unwrap_err(),
        ScanError::MalformedDeclaration
    );
}

#[test]
fn union_types_are_found_line_by_line() {
    let matcher = PatternMatcher::new().unwrap();
    let source = file(
        "types/Color.ts",
        "// generated\n   export type Color = \"red\" | \"green\";   \r\nexport type Other = { a: string };\n",
    );
    let found = extract_union_types(&matcher, &source);
    assert_eq!(found.len(), 1);
    assert_eq!(found[0].name, "Color");
    assert_eq!(found[0].path, "types/Color.ts");
    assert_eq!(found[0].values, strings(&["red", "green"]));
}

#[test]
fn union_without_spaces_is_not_emitted() {
    let matcher = PatternMatcher::new().unwrap();
    let source = file("a.ts", "export type Color=\"red\"|\"green\";\n");
    assert!(matcher.matches_union_type("export type Color=\"red\"|\"green\";"));
    assert_eq!(extract_union_types(&matcher, &source).len(), 0);
    let (found, writes) = process_enums(&matcher, &vec![source]);
    assert_eq!(found.len(), 0);
    assert_eq!(writes.len(), 0);
}

#[test]
fn union_types_of_all_files_are_found_in_order() {
    let matcher = PatternMatcher::new().unwrap();
    let files = vec![
        file("a.ts", "export type A = x | y;\n"),
        file("b.ts", "export interface B {}\n"),
        file("c.ts", "export type C = \"p\" | \"q\" | \"r\";\nexport type D = \"s\" | \"t\";\n"),
    ];
    let found = find_all_enum_types(&matcher, &files);
    let summary: Vec<(String, String, usize)> =
        found.iter().map(|e| (e.name.clone(), e.path.clone(), e.values.len())).collect();
    assert_eq!(
        summary,
        vec![
            ("A".to_string(), "a.ts".to_string(), 2),
            ("C".to_string(), "c.ts".to_string(), 3),
            ("D".to_string(), "c.ts".to_string(), 2),
        ]
    );
}

#[test]
fn enum_is_materialised_exactly() {
    let enum_type = EnumType {
        name: "Color".to_string(),
        path: "Color.ts".to_string(),
        values: strings(&["red", "green"]),
    };
    assert_eq!(write_enum(&enum_type), "export enum Color {\n    red = \"red\",\n    green = \"green\",\n}\n");
}

#[test]
fn enum_without_values_has_no_members() {
    let enum_type =
        EnumType { name: "Empty".to_string(), path: "Empty.ts".to_string(), values: Vec::new() };
    assert_eq!(write_enum(&enum_type), "export enum Empty {\n}\n");
}

#[test]
fn enum_members_are_not_checked_as_identifiers() {
    let enum_type = EnumType {
        name: "Odd".to_string(),
        path: "Odd.ts".to_string(),
        values: strings(&["two-words", "7"]),
    };
    assert_eq!(
        write_enum(&enum_type),
        "export enum Odd {\n    two-words = \"two-words\",\n    7 = \"7\",\n}\n"
    );
}

#[test]
fn last_union_type_of_a_file_survives() {
    let matcher = PatternMatcher::new().unwrap();
    let source = "export type First = \"a\" | \"b\";\nexport type Second = \"c\" | \"d\";\n";
    let files = vec![file("both.ts", source), file("none.ts", "export interface None {}\n")];
    let (found, writes) = process_enums(&matcher, &files);
    assert_eq!(found.len(), 2);
    assert_eq!(found[0].name, "First");
    assert_eq!(found[1].name, "Second");
    assert_eq!(writes.len(), 2);
    assert_eq!(writes[0].path, "both.ts");
    assert_eq!(writes[0].text, "export enum First {\n    a = \"a\",\n    b = \"b\",\n}\n");
    assert_eq!(writes[1].path, "both.ts");
    assert_eq!(writes[1].text, "export enum Second {\n    c = \"c\",\n    d = \"d\",\n}\n");

    let mut disk: BTreeMap<String, String> = BTreeMap::new();
    for source in &files {
        disk.insert(source.path.clone(), source.text.clone());
    }
    for write in &writes {
        disk.insert(write.path.clone(), write.text.clone());
    }
    assert_eq!(disk["both.ts"], "export enum Second {\n    c = \"c\",\n    d = \"d\",\n}\n");
    assert_eq!(disk["none.ts"], "export interface None {}\n");
}

#[test]
fn file_without_union_type_is_left_alone() {
    let matcher = PatternMatcher::new().unwrap();
    let files = vec![file("a.ts", "export interface A { b: string }\n"), file("empty.ts", "")];
    let (found, writes) = process_enums(&matcher, &files);
    assert_eq!(found.len(), 0);
    assert_eq!(writes.len(), 0);
    assert_eq!(find_all_enum_types(&matcher, &files).len(), 0);
}

#[test]
fn same_union_types_give_the_same_writes() {
    let matcher = PatternMatcher::new().unwrap();
    let files = vec![file("a.ts", "export type A = x | y;\n")];
    let (_, first) = process_enums(&matcher, &files);
    let (_, second) = process_enums(&matcher, &files);
    assert_eq!(first.len(), 1);
    assert_eq!(first[0].path, second[0].path);
    assert_eq!(first[0].text, second[0].text);
    assert_eq!(first[0].text, "export enum A {\n    x = \"x\",\n    y = \"y\",\n}\n");
}

#[test]
fn written_union_type_is_read_back() {
    let matcher = PatternMatcher::new().unwrap();
    let values = strings(&["red", "green", "blue"]);
    let line = write_union_type(&matcher, "Color", &values).unwrap();
    assert_eq!(line, "export type Color = \"red\" | \"green\" | \"blue\";");
    let (name, found) = extract_union_type(&line).unwrap();
    assert_eq!(name, "Color");
    assert_eq!(found, values);
    let scanned = extract_union_types(&matcher, &file("dir/Color.ts", &format!("  {}  \n", line)));
    assert_eq!(scanned.len(), 1);
    assert_eq!(scanned[0].name, "Color");
    assert_eq!(scanned[0].path, "dir/Color.ts");
    assert_eq!(scanned[0].values, values);
}

#[test]
fn union_type_that_cannot_be_read_back_is_not_written() {
    let matcher = PatternMatcher::new().unwrap();
    assert!(write_union_type(&matcher, "Color", &strings(&["red"])).is_none());
    assert!(write_union_type(&matcher, "Color", &Vec::new()).is_none());
    assert!(write_union_type(&matcher, "", &strings(&["a", "b"])).is_none());
    assert!(write_union_type(&matcher, "Two Words", &strings(&["a", "b"])).is_none());
    assert!(write_union_type(&matcher, "Color", &strings(&["a", "two words"])).is_none());
    assert!(write_union_type(&matcher, "Color", &strings(&["a", ""])).is_none());
    assert!(write_union_type(&matcher, "Color", &strings(&["a", "|"])).is_none());
    assert!(write_union_type(&matcher, "Color", &strings(&["\"a", "b"])).is_none());
    assert!(write_union_type(&matcher, "Color", &strings(&["a", "b\""])).is_none());
    assert!(write_union_type(&matcher, "Color", &strings(&["a-b", "c"])).is_none());
    assert!(write_union_type(&matcher, "Co-lor", &strings(&["a", "b"])).is_none());
}

#[test]
fn bare_and_quoted_alternatives_are_read_alike() {
    let quoted = extract_union_type("export type T = \"a\" | \"b\" | \"c\";").unwrap();
    for line in [
        "export type T = a | b | c;",
        "export type T = \"a\" | b |   \"c\";",
        "export type T = a  |\t\"b\"\t|  c;",
    ] {
        assert_eq!(extract_union_type(line).unwrap(), quoted);
    }
}

#[test]
fn every_found_union_type_has_alternatives() {
    let matcher = PatternMatcher::new().unwrap();
    let files = vec![
        file("a.ts", "export type A = x | \"\" | y;\nexport type B=\"p\"|\"q\";\n"),
        file("b.ts", "export type C = \"p\" | | \"q\" ;\n"),
    ];
    let found = find_all_enum_types(&matcher, &files);
    assert_eq!(found.len(), 2);
    assert_eq!(found[0].values, strings(&["x", "y"]));
    assert_eq!(found[1].values, strings(&["p", "q"]));
    for enum_type in &found {
        assert!(!enum_type.values.is_empty());
        for value in &enum_type.values {
            assert!(!value.is_empty());
            assert_ne!(value, "|");
        }
    }
}
