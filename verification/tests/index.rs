use ts_bridge::index::generate_index;
use ts_bridge::manifest::{
    read_package_version, sync_project_version, write_package_version, ManifestError,
};

#[test]
fn index_exports_constants_and_every_module() {
    let paths = vec![
        "generated-structs/User.ts".to_string(),
        "generated-structs/nested/Item.d.ts".to_string(),
    ];
    assert_eq!(
        generate_index(&paths).unwrap(),
        "// Auto-generated index file\n\n// Export all the constants\nexport * from './const';\n\n\
         export * from './generated-structs/User';\nexport * from './generated-structs/nested/Item.d';\n"
    );
}

#[test]
fn index_without_modules_exports_the_constants() {
    assert_eq!(
        generate_index(&Vec::new()).unwrap(),
        "// Auto-generated index file\n\n// Export all the constants\nexport * from './const';\n\n"
    );
}

#[test]
fn index_strips_the_suffix_once() {
    assert_eq!(
        generate_index(&vec!["a.ts.ts".to_string(), ".ts".to_string()]).unwrap(),
        "// Auto-generated index file\n\n// Export all the constants\nexport * from './const';\n\n\
         export * from './a.ts';\nexport * from './';\n"
    );
}

#[test]
fn index_needs_the_suffix_on_every_path() {
    assert_eq!(generate_index(&vec!["a.ts".to_string(), "b.js".to_string()]), None);
    assert_eq!(generate_index(&vec!["ts".to_string()]), None);
    assert_eq!(generate_index(&vec![String::new(), "a.ts".to_string()]), None);
}

#[test]
fn version_is_copied_into_the_package_descriptor() {
    let cargo_toml = "[package]\nname = \"demo\"\nversion = \"1.2.3\"\n\n[dependencies]\n";
    let package_json = "{\"name\":\"demo\",\"version\":\"0.0.1\",\"private\":true}";
    let synced = sync_project_version(cargo_toml, package_json).unwrap();
    assert_eq!(synced.version, "1.2.3");
    assert_eq!(
        synced.package_json,
        "{\n  \"name\": \"demo\",\n  \"private\": true,\n  \"version\": \"1.2.3\"\n}"
    );
}

#[test]
fn version_is_added_where_the_descriptor_has_none() {
    let synced = sync_project_version("[package]\nversion = \"0.4.0\"\n", "{}").unwrap();
    assert_eq!(synced.version, "0.4.0");
    assert_eq!(synced.package_json, "{\n  \"version\": \"0.4.0\"\n}");
}

#[test]
fn descriptor_that_is_no_object_is_only_written_out_again() {
    let synced = sync_project_version("[package]\nversion = \"0.4.0\"\n", " [1,2] ").unwrap();
    assert_eq!(synced.package_json, "[\n  1,\n  2\n]");
}

#[test]
fn manifest_without_version_is_an_error() {
    for cargo_toml in ["", "[package]\nname = \"demo\"\n", "version = \"1.0.0\"\n", "[package]\nversion = 3\n", "[package"] {
        assert_eq!(
            sync_project_version(cargo_toml, "{}").unwrap_err(),
            ManifestError::VersionNotFound
        );
    }
}

#[test]
fn descriptor_that_is_no_json_is_an_error() {
    for package_json in ["", "{", "{\"version\": }", "not json"] {
        assert_eq!(
            sync_project_version("[package]\nversion = \"1.0.0\"\n", package_json).unwrap_err(),
            ManifestError::InvalidPackageJson
        );
    }
}

#[test]
fn package_version_is_the_string_under_package_and_version() {
    assert_eq!(
        read_package_version("[package]\nversion = \"2.0.1\"\n"),
        Some("2.0.1".to_string())
    );
    assert_eq!(
        read_package_version("package = { version = \"3.1.4\", name = \"x\" }\n"),
        Some("3.1.4".to_string())
    );
    assert_eq!(read_package_version("[package]\nname = \"x\"\n"), None);
    assert_eq!(read_package_version("[workspace]\nversion = \"1.0.0\"\n"), None);
    assert_eq!(read_package_version("package = \"text\"\n"), None);
    assert_eq!(read_package_version("[package]\nversion = 1\n"), None);
    assert_eq!(read_package_version("[package]\nversion = [\"1\"]\n"), None);
    assert_eq!(read_package_version("= broken"), None);
}

#[test]
fn package_descriptor_gets_the_version_only_when_it_is_an_object() {
    assert_eq!(
        write_package_version("{\"b\":1,\"a\":[]}", "9.9.9"),
        Some("{\n  \"a\": [],\n  \"b\": 1,\n  \"version\": \"9.9.9\"\n}".to_string())
    );
    assert_eq!(
        write_package_version("{\"version\":{\"old\":true}}", "1.0.0"),
        Some("{\n  \"version\": \"1.0.0\"\n}".to_string())
    );
    assert_eq!(write_package_version("\"text\"", "1.0.0"), Some("\"text\"".to_string()));
    assert_eq!(write_package_version("null", "1.0.0"), Some("null".to_string()));
    assert_eq!(write_package_version("7", "1.0.0"), Some("7".to_string()));
    assert_eq!(write_package_version("{]", "1.0.0"), None);
}
