//! The pattern matcher: three closed-form patterns, each recognised by a
//! regular expression that the `regex` crate compiles and runs.
//!
//! What the engine finds is not defined here. The contracts name it:
//! [`regex_is_match`] and [`regex_captures`] stand for what the engine answers
//! for a pattern and a haystack, and every scanner of this crate is specified
//! over those two names.

use regex::Regex;
use vstd::prelude::*;

verus! {

/// A compiled regular expression of the `regex` crate.
#[verifier::external_type_specification]
#[verifier::external_body]
pub struct ExRegex(Regex);

/// The error with which the `regex` crate rejects a pattern.
#[verifier::external_type_specification]
#[verifier::external_body]
pub struct ExRegexError(regex::Error);

/// Whether `Regex::new` accepts `pattern`: the text is a regular expression
/// of the crate's syntax, and what it compiles to stays within the size limit
/// that `Regex::new` sets.
pub uninterp spec fn regex_accepts(pattern: Seq<char>) -> bool;

/// The pattern text that `engine` was compiled from, as `Regex::as_str`
/// returns it.
pub uninterp spec fn regex_source(engine: &Regex) -> Seq<char>;

/// Whether the regular expression `pattern` matches anywhere in `haystack`,
/// as `Regex::is_match` answers.
pub uninterp spec fn regex_is_match(pattern: Seq<char>, haystack: Seq<char>) -> bool;

/// The successive non-overlapping matches of the regular expression `pattern`
/// in `haystack`, as `Regex::captures_iter` yields them: for each match the
/// text of every capture group, group 0 (the whole match) first, with `None`
/// for a group that took no part in the match.
pub uninterp spec fn regex_captures(pattern: Seq<char>, haystack: Seq<char>) -> Seq<
    Seq<Option<Seq<char>>>,
>;

/// A constant declaration: the keywords, a name in upper case, the string
/// type, and a double-quoted literal that is not empty, closed by a semicolon.
pub const CONSTANT_PATTERN: &'static str = r#"\s*pub const ([A-Z_0-9]+): &str =\s*".+";"#;

/// An exported type alias whose right-hand side joins two or more
/// alternatives with `|`.
pub const UNION_TYPE_PATTERN: &'static str =
    r#"export type \w+\s*=\s*[a-zA-Z"0-9\s]+(\|[a-zA-Z"0-9\s]+)+;"#;

/// A field whose type is an identifier or `undefined`.
pub const OPTIONAL_FIELD_PATTERN: &'static str = r"([A-Za-z0-9]+):\s*([A-Za-z0-9]+\s*\|\s*undefined)";

/// Why a scan could not be set up or a declaration could not be read.
#[derive(Clone, Copy, Debug, PartialEq, Eq, Structural)]
pub enum ScanError {
    /// The regular-expression engine rejected one of the three patterns.
    InvalidPattern,
    /// The text has too few words to be the declaration it was taken for.
    MalformedDeclaration,
}

/// Whether the engine accepts the three patterns of this crate.
pub open spec fn patterns_are_accepted() -> bool {
    &&& regex_accepts(CONSTANT_PATTERN@)
    &&& regex_accepts(UNION_TYPE_PATTERN@)
    &&& regex_accepts(OPTIONAL_FIELD_PATTERN@)
}

/// Whether `line` holds a constant declaration, by [`CONSTANT_PATTERN`].
pub open spec fn is_constant_declaration(line: Seq<char>) -> bool {
    regex_is_match(CONSTANT_PATTERN@, line)
}

/// Whether `line` holds a union type, by [`UNION_TYPE_PATTERN`].
pub open spec fn is_union_type(line: Seq<char>) -> bool {
    regex_is_match(UNION_TYPE_PATTERN@, line)
}

/// The capture groups of every optional field in `text`, by
/// [`OPTIONAL_FIELD_PATTERN`].
pub open spec fn optional_field_captures(text: Seq<char>) -> Seq<Seq<Option<Seq<char>>>> {
    regex_captures(OPTIONAL_FIELD_PATTERN@, text)
}

/// A regular expression that [`compile`] built. Nothing else makes one, so
/// every engine was built by `Regex::new`, with the options that it sets,
/// and what it finds depends on its pattern and the haystack alone.
struct Engine {
    regex: Regex,
}

/// `Regex::new` compiles `pattern`. It succeeds on the patterns that
/// [`regex_accepts`] names, and the expression it then returns reports
/// `pattern` as its source. Which patterns those are is not claimed.
#[verifier::external_body]
fn compile(pattern: &str) -> (r: Result<Engine, regex::Error>)
    ensures
        r is Ok <==> regex_accepts(pattern@),
        r matches Ok(engine) ==> regex_source(&engine.regex) == pattern@,
{
    Regex::new(pattern).map(|regex| Engine { regex })
}

/// `Regex::is_match` on `haystack`: the answer is the one that
/// [`regex_is_match`] names for the source of `engine`.
#[verifier::external_body]
fn engine_is_match(engine: &Engine, haystack: &str) -> (b: bool)
    ensures
        b == regex_is_match(regex_source(&engine.regex), haystack@),
{
    engine.regex.is_match(haystack)
}

/// `Regex::captures_iter` on `haystack`, each match turned into the texts of
/// its groups (`Captures::iter`, `Match::as_str`): the result is the one that
/// [`regex_captures`] names for the source of `engine`.
#[verifier::external_body]
fn engine_captures(engine: &Engine, haystack: &str) -> (r: Vec<Vec<Option<String>>>)
    ensures
        r.deep_view() == regex_captures(regex_source(&engine.regex), haystack@),
{
    engine.regex.captures_iter(haystack).map(
        |found| found.iter().map(|group| group.map(|m| m.as_str().to_string())).collect(),
    ).collect()
}

/// The three compiled patterns.
pub struct PatternMatcher {
    constant: Engine,
    union_type: Engine,
    optional_field: Engine,
}

impl PatternMatcher {
    /// Each engine was compiled from the pattern it is used for.
    #[verifier::type_invariant]
    spec fn well_formed(self) -> bool {
        &&& regex_source(&self.constant.regex) == CONSTANT_PATTERN@
        &&& regex_source(&self.union_type.regex) == UNION_TYPE_PATTERN@
        &&& regex_source(&self.optional_field.regex) == OPTIONAL_FIELD_PATTERN@
    }

    /// Compiles the three patterns. Succeeds exactly when the engine
    /// accepts all three, and fails with [`ScanError::InvalidPattern`]
    /// otherwise.
    pub fn new() -> (r: Result<PatternMatcher, ScanError>)
        ensures
            r is Ok <==> patterns_are_accepted(),
            r matches Err(e) ==> e == ScanError::InvalidPattern,
    {
        let constant = match compile(CONSTANT_PATTERN) {
            Ok(engine) => engine,
            Err(_) => {
                return Err(ScanError::InvalidPattern);
            },
        };
        let union_type = match compile(UNION_TYPE_PATTERN) {
            Ok(engine) => engine,
            Err(_) => {
                return Err(ScanError::InvalidPattern);
            },
        };
        let optional_field = match compile(OPTIONAL_FIELD_PATTERN) {
            Ok(engine) => engine,
            Err(_) => {
                return Err(ScanError::InvalidPattern);
            },
        };
        Ok(PatternMatcher { constant, union_type, optional_field })
    }

    /// Whether `line` holds a constant declaration.
    pub fn matches_constant_declaration(&self, line: &str) -> (b: bool)
        ensures
            b == is_constant_declaration(line@),
    {
        proof {
            use_type_invariant(self);
        }
        engine_is_match(&self.constant, line)
    }

    /// Whether `line` holds a union type.
    pub fn matches_union_type(&self, line: &str) -> (b: bool)
        ensures
            b == is_union_type(line@),
    {
        proof {
            use_type_invariant(self);
        }
        engine_is_match(&self.union_type, line)
    }

    /// The capture groups of every optional field in `text`, in the order
    /// in which they occur.
    pub fn find_optional_field_captures(&self, text: &str) -> (r: Vec<Vec<Option<String>>>)
        ensures
            r.deep_view() == optional_field_captures(text@),
    {
        proof {
            use_type_invariant(self);
        }
        engine_captures(&self.optional_field, text)
    }
}

} // verus!
