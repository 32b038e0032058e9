//! The version sync: copies the version of the source project's manifest
//! into the package descriptor of the generated project.
//!
//! Both documents are read and written by the crates that own their formats,
//! `toml` and `serde_json`. The library decides where to look and what to
//! change; what those crates answer at each step is named here, not defined.

use vstd::prelude::*;

verus! {

/// The table of a manifest that describes the package.
pub const PACKAGE_TABLE: &'static str = "package";

/// The key under which both documents hold the version.
pub const VERSION_KEY: &'static str = "version";

/// A value of a TOML document.
#[verifier::external_type_specification]
#[verifier::external_body]
pub struct ExTomlValue(toml::Value);

/// The error with which the `toml` crate rejects a document.
#[verifier::external_type_specification]
#[verifier::external_body]
pub struct ExTomlError(toml::de::Error);

/// A value of a JSON document.
#[verifier::external_type_specification]
#[verifier::external_body]
pub struct ExJsonValue(serde_json::Value);

/// The error with which `serde_json` rejects a document or fails to write
/// one.
#[verifier::external_type_specification]
#[verifier::external_body]
pub struct ExJsonError(serde_json::Error);

/// The value that `document` holds when read as TOML, as the `FromStr` impl
/// of `toml::Value` returns it, or `None` when that fails.
pub uninterp spec fn toml_parsed(document: Seq<char>) -> Option<toml::Value>;

/// The value under `key` in the table `value`, as `toml::Value::get` returns
/// it for a string index: `None` when `value` is no table or has no such key.
pub uninterp spec fn toml_entry(value: &toml::Value, key: Seq<char>) -> Option<toml::Value>;

/// The text of the string `value`, as `toml::Value::as_str` returns it:
/// `None` when `value` is no string.
pub uninterp spec fn toml_text(value: &toml::Value) -> Option<Seq<char>>;

/// The value that `document` holds when read as JSON, as
/// `serde_json::from_str` returns it, or `None` when that fails.
pub uninterp spec fn json_parsed(document: Seq<char>) -> Option<serde_json::Value>;

/// Whether `value` is an object, as `serde_json::Value::is_object` answers.
pub uninterp spec fn json_is_object(value: &serde_json::Value) -> bool;

/// The object `value` after `Map::insert` put the string `text` under `key`.
pub uninterp spec fn json_with_string(
    value: serde_json::Value,
    key: Seq<char>,
    text: Seq<char>,
) -> serde_json::Value;

/// The text of `value` in the pretty form, as `serde_json::to_string_pretty`
/// returns it, or `None` when that fails.
pub uninterp spec fn json_printed(value: &serde_json::Value) -> Option<Seq<char>>;

/// Why the version could not be copied.
#[derive(Clone, Copy, Debug, PartialEq, Eq, Structural)]
pub enum ManifestError {
    /// The manifest is no TOML document or names no package version.
    VersionNotFound,
    /// The package descriptor is no JSON document or cannot be written.
    InvalidPackageJson,
}

/// The outcome of a sync: the version that was copied and the new text of
/// the package descriptor.
#[derive(Debug)]
pub struct SyncedManifest {
    pub version: String,
    pub package_json: String,
}

/// The version that the manifest `cargo_toml` gives its package: the string
/// under [`VERSION_KEY`] in the table under [`PACKAGE_TABLE`].
pub open spec fn package_version(cargo_toml: Seq<char>) -> Option<Seq<char>> {
    match toml_parsed(cargo_toml) {
        None => None,
        Some(root) => match toml_entry(&root, PACKAGE_TABLE@) {
            None => None,
            Some(package) => match toml_entry(&package, VERSION_KEY@) {
                None => None,
                Some(version) => toml_text(&version),
            },
        },
    }
}

/// The new text of the package descriptor `package_json`: the document
/// written out again, with `version` under [`VERSION_KEY`] when it is an
/// object and as it is when it is not.
pub open spec fn with_version(package_json: Seq<char>, version: Seq<char>) -> Option<Seq<char>> {
    match json_parsed(package_json) {
        None => None,
        Some(document) => if json_is_object(&document) {
            json_printed(&json_with_string(document, VERSION_KEY@, version))
        } else {
            json_printed(&document)
        },
    }
}

/// The `FromStr` impl of `toml::Value` on `document`: the outcome is the one
/// that [`toml_parsed`] names.
#[verifier::external_body]
fn toml_parse(document: &str) -> (r: Result<toml::Value, toml::de::Error>)
    ensures
        match r {
            Ok(value) => toml_parsed(document@) == Some(value),
            Err(_) => toml_parsed(document@) is None,
        },
{
    document.parse::<toml::Value>()
}

/// `toml::Value::get` with the string index `key`: the outcome is the one
/// that [`toml_entry`] names.
#[verifier::external_body]
fn toml_get<'a>(value: &'a toml::Value, key: &str) -> (r: Option<&'a toml::Value>)
    ensures
        match r {
            Some(found) => toml_entry(value, key@) == Some(*found),
            None => toml_entry(value, key@) is None,
        },
{
    value.get(key)
}

/// `toml::Value::as_str`, the text copied into a `String`: the outcome is
/// the one that [`toml_text`] names.
#[verifier::external_body]
fn toml_as_str(value: &toml::Value) -> (r: Option<String>)
    ensures
        r.deep_view() == toml_text(value),
{
    value.as_str().map(|text| text.to_string())
}

/// `serde_json::from_str` on `document`: the outcome is the one that
/// [`json_parsed`] names.
#[verifier::external_body]
fn json_parse(document: &str) -> (r: Result<serde_json::Value, serde_json::Error>)
    ensures
        match r {
            Ok(value) => json_parsed(document@) == Some(value),
            Err(_) => json_parsed(document@) is None,
        },
{
    serde_json::from_str::<serde_json::Value>(document)
}

/// `serde_json::Value::is_object`: the answer is the one that
/// [`json_is_object`] names.
#[verifier::external_body]
fn json_object(value: &serde_json::Value) -> (b: bool)
    ensures
        b == json_is_object(value),
{
    value.is_object()
}

/// `Map::insert` on the object `value`, reached through
/// `Value::as_object_mut`, with `key` and the string `text`: the object
/// becomes the one that [`json_with_string`] names.
#[verifier::external_body]
fn json_insert_string(value: &mut serde_json::Value, key: &str, text: &str)
    requires
        json_is_object(old(value)),
    ensures
        *final(value) == json_with_string(*old(value), key@, text@),
{
    value.as_object_mut().map(
        |object| object.insert(key.to_string(), serde_json::Value::String(text.to_string())),
    );
}

/// `serde_json::to_string_pretty` on `value`: the outcome is the one that
/// [`json_printed`] names.
#[verifier::external_body]
fn json_print(value: &serde_json::Value) -> (r: Result<String, serde_json::Error>)
    ensures
        match r {
            Ok(text) => json_printed(value) == Some(text@),
            Err(_) => json_printed(value) is None,
        },
{
    serde_json::to_string_pretty(value)
}

/// Reads the version that the manifest `cargo_toml` gives its package.
pub fn read_package_version(cargo_toml: &str) -> (version: Option<String>)
    ensures
        version.deep_view() == package_version(cargo_toml@),
{
    let root = match toml_parse(cargo_toml) {
        Ok(root) => root,
        Err(_) => {
            return None;
        },
    };
    let package = match toml_get(&root, PACKAGE_TABLE) {
        Some(package) => package,
        None => {
            return None;
        },
    };
    match toml_get(package, VERSION_KEY) {
        Some(version) => toml_as_str(version),
        None => None,
    }
}

/// Writes the package descriptor `package_json` out again with `version` as
/// its version. A descriptor that is no object is written out as it is.
pub fn write_package_version(package_json: &str, version: &str) -> (text: Option<String>)
    ensures
        text.deep_view() == with_version(package_json@, version@),
{
    let mut document = match json_parse(package_json) {
        Ok(document) => document,
        Err(_) => {
            return None;
        },
    };
    if json_object(&document) {
        json_insert_string(&mut document, VERSION_KEY, version);
    }
    match json_print(&document) {
        Ok(text) => Some(text),
        Err(_) => None,
    }
}

/// Copies the package version of the manifest `cargo_toml` into the package
/// descriptor `package_json` and returns both the version and the new text
/// of the descriptor.
///
/// Fails with [`ManifestError::VersionNotFound`] exactly when the manifest
/// yields no version, and with [`ManifestError::InvalidPackageJson`] exactly
/// when it does and the descriptor cannot be read or written.
pub fn sync_project_version(cargo_toml: &str, package_json: &str) -> (r: Result<
    SyncedManifest,
    ManifestError,
>)
    ensures
        match package_version(cargo_toml@) {
            None => r == Err::<SyncedManifest, ManifestError>(ManifestError::VersionNotFound),
            Some(version) => match with_version(package_json@, version) {
                None => r == Err::<SyncedManifest, ManifestError>(
                    ManifestError::InvalidPackageJson,
                ),
                Some(text) => r matches Ok(synced) && synced.version@ == version
                    && synced.package_json@ == text,
            },
        },
{
    let version = match read_package_version(cargo_toml) {
        Some(version) => version,
        None => {
            return Err(ManifestError::VersionNotFound);
        },
    };
    match write_package_version(package_json, version.as_str()) {
        Some(text) => Ok(SyncedManifest { version, package_json: text }),
        None => Err(ManifestError::InvalidPackageJson),
    }
}

} // verus!
