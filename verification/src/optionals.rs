//! The optional-field rewriter: turns a field whose type admits `undefined`
//! into an optional field.
//!
//! The pattern matcher finds the occurrences in the whole text. Each one is
//! then replaced wherever its text stands, also where that text stands more
//! than once.

use crate::files::{FileText, SourceFile};
use crate::pattern::{optional_field_captures, PatternMatcher};
use crate::text::{chars_of, copy_range, replace, replaced, string_of};
use vstd::prelude::*;
use vstd::string::StringExecFns;

verus! {

/// One occurrence of an optional field: the text that matched, the name of
/// the field, and its type without the `undefined` alternative.
#[derive(Debug)]
pub struct OptionalFieldMatch {
    pub full_match: String,
    pub field_name: String,
    pub base_type: String,
}

/// An occurrence as a mathematical value.
pub struct OptionalField {
    pub full_match: Seq<char>,
    pub field_name: Seq<char>,
    pub base_type: Seq<char>,
}

impl View for OptionalFieldMatch {
    type V = OptionalField;

    open spec fn view(&self) -> OptionalField {
        OptionalField {
            full_match: self.full_match@,
            field_name: self.field_name@,
            base_type: self.base_type@,
        }
    }
}

impl DeepView for OptionalFieldMatch {
    type V = OptionalField;

    open spec fn deep_view(&self) -> OptionalField {
        self@
    }
}

/// Whether `c` can stand in the name of a type: an ASCII letter or digit.
pub open spec fn is_type_char(c: char) -> bool {
    ||| 'a' <= c <= 'z'
    ||| 'A' <= c <= 'Z'
    ||| '0' <= c <= '9'
}

/// The declared type without the bar, the whitespace round it and
/// `undefined`: its leading run of letters and digits.
pub open spec fn base_type_of(declared: Seq<char>) -> Seq<char>
    decreases declared.len(),
{
    if declared.len() > 0 && is_type_char(declared[0]) {
        seq![declared[0]] + base_type_of(declared.drop_first())
    } else {
        Seq::empty()
    }
}

/// The occurrence that the capture groups of one match stand for: group 0 is
/// the text that matched, group 1 the field's name, and group 2 the declared
/// type, of which the base type is kept. A match that lacks one of the three
/// is no occurrence.
pub open spec fn occurrence_of(groups: Seq<Option<Seq<char>>>) -> Option<OptionalField> {
    if groups.len() >= 3 && groups[0] is Some && groups[1] is Some && groups[2] is Some {
        Some(
            OptionalField {
                full_match: groups[0]->0,
                field_name: groups[1]->0,
                base_type: base_type_of(groups[2]->0),
            },
        )
    } else {
        None
    }
}

/// The occurrences that `captures` stand for, in order.
pub open spec fn occurrences_of(captures: Seq<Seq<Option<Seq<char>>>>) -> Seq<OptionalField>
    decreases captures.len(),
{
    if captures.len() == 0 {
        Seq::empty()
    } else {
        let earlier = occurrences_of(captures.drop_last());
        match occurrence_of(captures.last()) {
            Some(occurrence) => earlier.push(occurrence),
            None => earlier,
        }
    }
}

/// The optional fields in `text`, in the order in which they occur.
pub open spec fn optional_fields_in(text: Seq<char>) -> Seq<OptionalField> {
    occurrences_of(optional_field_captures(text))
}

/// The text that takes the place of an occurrence.
pub open spec fn replacement(occurrence: OptionalField) -> Seq<char> {
    occurrence.field_name + "?: "@ + occurrence.base_type
}

/// `text` after the occurrences were rewritten one after the other, each
/// replaced wherever its matched text stands in the text as rewritten so far.
pub open spec fn rewritten_with(text: Seq<char>, occurrences: Seq<OptionalField>) -> Seq<char>
    decreases occurrences.len(),
{
    if occurrences.len() == 0 {
        text
    } else {
        replaced(
            rewritten_with(text, occurrences.drop_last()),
            occurrences.last().full_match,
            replacement(occurrences.last()),
        )
    }
}

/// `text` with its optional fields rewritten.
pub open spec fn rewritten(text: Seq<char>) -> Seq<char> {
    rewritten_with(text, optional_fields_in(text))
}

/// The file with its optional fields rewritten, at the same path.
pub open spec fn rewritten_file(file: FileText) -> FileText {
    FileText { path: file.path, text: rewritten(file.text) }
}

/// A second pass changes nothing where the first left no occurrence behind.
pub proof fn lemma_second_pass_without_occurrences(text: Seq<char>)
    requires
        optional_fields_in(rewritten(text)).len() == 0,
    ensures
        rewritten(rewritten(text)) == rewritten(text),
{
}

/// The base type is the prefix of the declared type that ends before its
/// first character that is no letter or digit.
pub proof fn lemma_base_type_is_prefix(declared: Seq<char>, count: int)
    requires
        0 <= count <= declared.len(),
        forall|j: int| 0 <= j < count ==> is_type_char(#[trigger] declared[j]),
        count == declared.len() || !is_type_char(declared[count]),
    ensures
        base_type_of(declared) == declared.take(count),
    decreases count,
{
    if count == 0 {
        assert(declared.take(0) =~= Seq::<char>::empty());
    } else {
        let rest = declared.drop_first();
        assert(is_type_char(declared[0]));
        assert forall|j: int| 0 <= j < count - 1 implies is_type_char(#[trigger] rest[j]) by {
            assert(rest[j] == declared[j + 1]);
        }
        lemma_base_type_is_prefix(rest, count - 1);
        assert(seq![declared[0]] + rest.take(count - 1) =~= declared.take(count));
    }
}

/// Tests whether `c` is an ASCII letter or digit.
fn is_type_character(c: char) -> (b: bool)
    ensures
        b == is_type_char(c),
{
    ('a' <= c && c <= 'z') || ('A' <= c && c <= 'Z') || ('0' <= c && c <= '9')
}

/// Reads the base type of a declared type.
pub fn base_type(declared: &str) -> (base: String)
    ensures
        base@ == base_type_of(declared@),
{
    let chars = chars_of(declared);
    let mut count: usize = 0;
    while count < chars.len() && is_type_character(chars[count])
        invariant
            count <= chars.len(),
            forall|j: int| 0 <= j < count ==> is_type_char(#[trigger] chars@[j]),
        decreases chars.len() - count,
    {
        count = count + 1;
    }
    proof {
        lemma_base_type_is_prefix(chars@, count as int);
    }
    let kept = copy_range(&chars, 0, count);
    string_of(&kept)
}

/// Turns the capture groups of each match into an occurrence, leaving out
/// the matches that lack a group.
pub fn occurrences_from_captures(captures: &Vec<Vec<Option<String>>>) -> (occurrences: Vec<
    OptionalFieldMatch,
>)
    ensures
        occurrences.deep_view() == occurrences_of(captures.deep_view()),
{
    let mut occurrences: Vec<OptionalFieldMatch> = Vec::new();
    let mut i: usize = 0;
    assert(captures.deep_view().take(0) =~= Seq::<Seq<Option<Seq<char>>>>::empty());
    while i < captures.len()
        invariant
            i <= captures.len(),
            occurrences.deep_view() == occurrences_of(captures.deep_view().take(i as int)),
        decreases captures.len() - i,
    {
        let ghost before = occurrences.deep_view();
        let groups = &captures[i];
        proof {
            let upto = captures.deep_view().take(i + 1);
            assert(upto.drop_last() =~= captures.deep_view().take(i as int));
            assert(upto.last() == groups.deep_view());
        }
        if groups.len() >= 3 {
            match (&groups[0], &groups[1], &groups[2]) {
                (Some(full_match), Some(field_name), Some(declared)) => {
                    let occurrence = OptionalFieldMatch {
                        full_match: full_match.clone(),
                        field_name: field_name.clone(),
                        base_type: base_type(declared.as_str()),
                    };
                    assert(occurrence_of(groups.deep_view()) == Some(occurrence@));
                    occurrences.push(occurrence);
                    assert(occurrences.deep_view() =~= before.push(occurrence@));
                },
                _ => {},
            }
        }
        i = i + 1;
    }
    assert(captures.deep_view().take(captures.len() as int) =~= captures.deep_view());
    occurrences
}

/// Finds the optional fields in `text`, in the order in which they occur.
pub fn find_optional_field_occurrences(matcher: &PatternMatcher, text: &str) -> (occurrences: Vec<
    OptionalFieldMatch,
>)
    ensures
        occurrences.deep_view() == optional_fields_in(text@),
{
    let captures = matcher.find_optional_field_captures(text);
    occurrences_from_captures(&captures)
}

/// Rewrites `occurrences` in `text` one after the other: each is replaced by
/// its field name, `?: ` and its base type, wherever its matched text stands.
pub fn rewrite_occurrences(text: &str, occurrences: &Vec<OptionalFieldMatch>) -> (out: String)
    ensures
        out@ == rewritten_with(text@, occurrences.deep_view()),
        occurrences.len() == 0 ==> out@ == text@,
{
    let mut current = chars_of(text);
    let mut i: usize = 0;
    assert(occurrences.deep_view().take(0) =~= Seq::<OptionalField>::empty());
    while i < occurrences.len()
        invariant
            i <= occurrences.len(),
            current@ == rewritten_with(text@, occurrences.deep_view().take(i as int)),
        decreases occurrences.len() - i,
    {
        let occurrence = &occurrences[i];
        let mut new_text = String::new();
        new_text.append(occurrence.field_name.as_str());
        new_text.append("?: ");
        new_text.append(occurrence.base_type.as_str());
        assert(new_text@ =~= replacement(occurrence@));
        let from = chars_of(occurrence.full_match.as_str());
        let to = chars_of(new_text.as_str());
        proof {
            let upto = occurrences.deep_view().take(i + 1);
            assert(upto.drop_last() =~= occurrences.deep_view().take(i as int));
            assert(upto.last() == occurrence@);
        }
        current = replace(&current, &from, &to);
        i = i + 1;
    }
    assert(occurrences.deep_view().take(occurrences.len() as int) =~= occurrences.deep_view());
    string_of(&current)
}

/// Rewrites the optional fields of `text`. A text without an occurrence comes
/// back unchanged.
pub fn rewrite_optionals(matcher: &PatternMatcher, text: &str) -> (out: String)
    ensures
        out@ == rewritten(text@),
        optional_fields_in(text@).len() == 0 ==> out@ == text@,
{
    let occurrences = find_optional_field_occurrences(matcher, text);
    rewrite_occurrences(text, &occurrences)
}

/// Rewrites the optional fields of `text` and asks the pattern matcher
/// whether the result still holds one. Where it holds none, the result is
/// settled: rewriting it again changes nothing.
pub fn rewrite_optionals_settled(matcher: &PatternMatcher, text: &str) -> (r: (String, bool))
    ensures
        r.0@ == rewritten(text@),
        r.1 == (optional_fields_in(rewritten(text@)).len() == 0),
        r.1 ==> rewritten(rewritten(text@)) == rewritten(text@),
{
    let out = rewrite_optionals(matcher, text);
    let left = find_optional_field_occurrences(matcher, out.as_str());
    let settled = left.len() == 0;
    proof {
        if settled {
            lemma_second_pass_without_occurrences(text@);
        }
    }
    (out, settled)
}

/// Rewrites the optional fields of every file. Each file is written again at
/// its own path, in the order given, whether or not anything changed.
pub fn process_optionals(matcher: &PatternMatcher, files: &Vec<SourceFile>) -> (writes: Vec<
    SourceFile,
>)
    ensures
        writes.deep_view() == files.deep_view().map_values(|file: FileText| rewritten_file(file)),
{
    let mut writes: Vec<SourceFile> = Vec::new();
    let mut i: usize = 0;
    while i < files.len()
        invariant
            i <= files.len(),
            writes.deep_view() == files.deep_view().take(i as int).map_values(
                |file: FileText| rewritten_file(file),
            ),
        decreases files.len() - i,
    {
        let ghost before = writes.deep_view();
        let file = &files[i];
        let text = rewrite_optionals(matcher, file.text.as_str());
        writes.push(SourceFile { path: file.path.clone(), text });
        assert(writes.deep_view() =~= files.deep_view().take(i + 1).map_values(
            |file: FileText| rewritten_file(file),
        )) by {
            assert(writes.deep_view() =~= before.push(rewritten_file(file@)));
        }
        i = i + 1;
    }
    assert(files.deep_view().take(files.len() as int) =~= files.deep_view());
    writes
}

} // verus!
