//! The enum synthesizer: finds union types declared on one line and renders
//! each as an enum that takes the place of the file it was found in.

use crate::files::{
    after_writes, lemma_after_writes_in_two, lemma_last_write_wins,
    lemma_unwritten_file_unchanged, FileText, SourceFile,
};
use crate::pattern::{is_union_type, PatternMatcher, ScanError};
use crate::text::{
    chars_of, extend, has_no_space, is_blank, is_space, is_whitespace, lemma_chars_deep_view,
    lemma_first_word, lemma_single_word, lemma_stripped_core, lines, push_chars, split_lines,
    split_whitespace, string_of, trim, trim_matches, trimmed, trimmed_of, words, Strip,
};
use vstd::prelude::*;
use vstd::string::StringExecFns;

verus! {

/// A union type found in a file: its name, the path of that file, and the
/// alternatives in the order in which the declaration lists them. Equal
/// alternatives are kept as often as they occur.
pub struct EnumType {
    pub name: String,
    pub path: String,
    pub values: Vec<String>,
}

/// A union type as a mathematical value.
pub struct UnionTypeDecl {
    pub name: Seq<char>,
    pub path: Seq<char>,
    pub values: Seq<Seq<char>>,
}

impl View for EnumType {
    type V = UnionTypeDecl;

    open spec fn view(&self) -> UnionTypeDecl {
        UnionTypeDecl { name: self.name@, path: self.path@, values: self.values.deep_view() }
    }
}

impl DeepView for EnumType {
    type V = UnionTypeDecl;

    open spec fn deep_view(&self) -> UnionTypeDecl {
        self@
    }
}

/// A word of the right-hand side without semicolons and then without double
/// quotes at either end.
pub open spec fn alternative_of(token: Seq<char>) -> Seq<char> {
    trimmed_of(trimmed_of(token, ';'), '"')
}

/// Whether a cleaned word is an alternative: it is neither empty nor the bar
/// that separates alternatives.
pub open spec fn is_alternative(value: Seq<char>) -> bool {
    value.len() > 0 && value != seq!['|']
}

/// The alternatives among `tokens`, in order.
pub open spec fn alternatives(tokens: Seq<Seq<char>>) -> Seq<Seq<char>>
    decreases tokens.len(),
{
    if tokens.len() == 0 {
        Seq::empty()
    } else {
        let earlier = alternatives(tokens.drop_last());
        let value = alternative_of(tokens.last());
        if is_alternative(value) {
            earlier.push(value)
        } else {
            earlier
        }
    }
}

/// The words of a declaration that follow its first four.
pub open spec fn value_tokens(tokens: Seq<Seq<char>>) -> Seq<Seq<char>> {
    if tokens.len() > 4 {
        tokens.skip(4)
    } else {
        Seq::empty()
    }
}

/// The name and the alternatives that `line` declares: the name is its third
/// word, the alternatives are taken from the fifth word on. A line of fewer
/// than three words, or without a single alternative, declares nothing.
pub open spec fn declared_union(line: Seq<char>) -> Option<(Seq<char>, Seq<Seq<char>>)> {
    let tokens = words(line);
    if tokens.len() < 3 {
        None
    } else {
        let values = alternatives(value_tokens(tokens));
        if values.len() == 0 {
            None
        } else {
            Some((tokens[2], values))
        }
    }
}

/// What one line of the file at `path` contributes: the union type that the
/// trimmed line declares, when the pattern matcher takes it for one.
pub open spec fn union_in_line(row: Seq<char>, path: Seq<char>) -> Seq<UnionTypeDecl> {
    let line = trimmed(row);
    if is_union_type(line) {
        match declared_union(line) {
            Some((name, values)) => seq![UnionTypeDecl { name, path, values }],
            None => Seq::empty(),
        }
    } else {
        Seq::empty()
    }
}

/// The union types declared in `rows`, in order.
pub open spec fn unions_in_lines(rows: Seq<Seq<char>>, path: Seq<char>) -> Seq<UnionTypeDecl>
    decreases rows.len(),
{
    if rows.len() == 0 {
        Seq::empty()
    } else {
        unions_in_lines(rows.drop_last(), path) + union_in_line(rows.last(), path)
    }
}

/// The union types declared in one file, in the order of their lines.
pub open spec fn union_types_in(file: FileText) -> Seq<UnionTypeDecl> {
    unions_in_lines(lines(file.text), file.path)
}

/// The union types declared in `files`, file after file.
pub open spec fn union_types_in_files(files: Seq<FileText>) -> Seq<UnionTypeDecl>
    decreases files.len(),
{
    if files.len() == 0 {
        Seq::empty()
    } else {
        union_types_in_files(files.drop_last()) + union_types_in(files.last())
    }
}

/// One member of a generated enum: the value names the member and is its
/// string.
pub open spec fn member_line(value: Seq<char>) -> Seq<char> {
    "    "@ + value + " = \""@ + value + "\",\n"@
}

/// The member lines for `values`, in order.
pub open spec fn member_lines(values: Seq<Seq<char>>) -> Seq<char>
    decreases values.len(),
{
    if values.len() == 0 {
        Seq::empty()
    } else {
        member_lines(values.drop_last()) + member_line(values.last())
    }
}

/// The generated enum for a union type.
pub open spec fn rendered_enum(union: UnionTypeDecl) -> Seq<char> {
    "export enum "@ + union.name + " {\n"@ + member_lines(union.values) + "}\n"@
}

/// The write that puts the generated enum in the place of the file that
/// declared the union type.
pub open spec fn enum_write(union: UnionTypeDecl) -> FileText {
    FileText { path: union.path, text: rendered_enum(union) }
}

/// One write per union type, in order.
pub open spec fn enum_writes(unions: Seq<UnionTypeDecl>) -> Seq<FileText>
    decreases unions.len(),
{
    if unions.len() == 0 {
        Seq::empty()
    } else {
        enum_writes(unions.drop_last()).push(enum_write(unions.last()))
    }
}

/// Whether a union type has its alternatives as extraction leaves them: at
/// least one, none of them empty and none a bar.
pub open spec fn has_alternatives(union: UnionTypeDecl) -> bool {
    &&& union.values.len() > 0
    &&& forall|j: int| 0 <= j < union.values.len() ==> is_alternative(#[trigger] union.values[j])
}

fn is_bar(value: &Vec<char>) -> (b: bool)
    ensures
        b == (value@ == seq!['|']),
{
    if value.len() == 1 && value[0] == '|' {
        assert(value@ =~= seq!['|']);
        true
    } else {
        false
    }
}

fn union_of(line: &Vec<char>) -> (r: Option<(String, Vec<String>)>)
    ensures
        r.deep_view() == declared_union(line@),
{
    let tokens = split_whitespace(line);
    let count: usize = tokens.len();
    if count < 3 {
        return None;
    }
    let mut values: Vec<String> = Vec::new();
    if count > 4 {
        let mut i: usize = 4;
        assert(tokens.deep_view().subrange(4, 4) =~= Seq::<Seq<char>>::empty());
        while i < count
            invariant
                count == tokens.len(),
                4 <= i <= count,
                values.deep_view() == alternatives(tokens.deep_view().subrange(4, i as int)),
            decreases count - i,
        {
            let ghost before = values.deep_view();
            proof {
                lemma_chars_deep_view(tokens[i as int]);
            }
            let unterminated = trim_matches(&tokens[i], ';');
            let value = trim_matches(&unterminated, '"');
            if value.len() > 0 && !is_bar(&value) {
                values.push(string_of(&value));
                assert(values.deep_view() =~= before.push(value@));
            }
            proof {
                let upto = tokens.deep_view().subrange(4, i + 1);
                assert(upto.drop_last() =~= tokens.deep_view().subrange(4, i as int));
                assert(upto.last() == tokens[i as int]@);
            }
            i = i + 1;
        }
        assert(tokens.deep_view().subrange(4, count as int) =~= tokens.deep_view().skip(4));
    }
    proof {
        lemma_chars_deep_view(tokens[2]);
    }
    if values.len() == 0 {
        return None;
    }
    let name = string_of(&tokens[2]);
    Some((name, values))
}

/// Reads the name and the alternatives that `line` declares. The caller has
/// the pattern matcher confirm the declaration first.
///
/// Fails with [`ScanError::MalformedDeclaration`] exactly when `line` has
/// fewer than three words or lists no alternative.
pub fn extract_union_type(line: &str) -> (r: Result<(String, Vec<String>), ScanError>)
    ensures
        match r {
            Ok(found) => declared_union(line@) == Some(found.deep_view()),
            Err(e) => e == ScanError::MalformedDeclaration && declared_union(line@) is None,
        },
{
    let chars = chars_of(line);
    match union_of(&chars) {
        Some(found) => Ok(found),
        None => Err(ScanError::MalformedDeclaration),
    }
}

/// Finds the union types declared in one file. Each has at least one
/// alternative, and none of its alternatives is empty or a bar.
pub fn extract_union_types(matcher: &PatternMatcher, file: &SourceFile) -> (found: Vec<EnumType>)
    ensures
        found.deep_view() == union_types_in(file@),
        forall|i: int| 0 <= i < found.len() ==> has_alternatives(#[trigger] found[i]@),
{
    let chars = chars_of(file.text.as_str());
    let rows = split_lines(&chars);
    let mut found: Vec<EnumType> = Vec::new();
    let mut i: usize = 0;
    assert(rows.deep_view().take(0) =~= Seq::<Seq<char>>::empty());
    while i < rows.len()
        invariant
            i <= rows.len(),
            found.deep_view() == unions_in_lines(rows.deep_view().take(i as int), file.path@),
        decreases rows.len() - i,
    {
        let ghost before = found.deep_view();
        proof {
            lemma_chars_deep_view(rows[i as int]);
            let upto = rows.deep_view().take(i + 1);
            assert(upto.drop_last() =~= rows.deep_view().take(i as int));
            assert(upto.last() == rows[i as int]@);
        }
        let line = trim(&rows[i]);
        let candidate = string_of(&line);
        if matcher.matches_union_type(candidate.as_str()) {
            match union_of(&line) {
                Some((name, values)) => {
                    let entry = EnumType { name, path: file.path.clone(), values };
                    found.push(entry);
                    assert(found.deep_view() =~= before + union_in_line(
                        rows[i as int]@,
                        file.path@,
                    ));
                },
                None => {},
            }
        }
        assert(found.deep_view() =~= before + union_in_line(rows[i as int]@, file.path@));
        i = i + 1;
    }
    assert(rows.deep_view().take(rows.len() as int) =~= rows.deep_view());
    proof {
        lemma_unions_have_alternatives(lines(file.text@), file.path@);
        assert forall|i: int| 0 <= i < found.len() implies has_alternatives(
            #[trigger] found[i]@,
        ) by {
            assert(found.deep_view()[i] == found[i]@);
        }
    }
    found
}

/// Finds the union types declared in `files`, the generated type files in
/// the order in which they were discovered. Each has at least one
/// alternative, and none of its alternatives is empty or a bar.
pub fn find_all_enum_types(matcher: &PatternMatcher, files: &Vec<SourceFile>) -> (enum_types: Vec<
    EnumType,
>)
    ensures
        enum_types.deep_view() == union_types_in_files(files.deep_view()),
        forall|i: int| 0 <= i < enum_types.len() ==> has_alternatives(#[trigger] enum_types[i]@),
{
    let mut enum_types: Vec<EnumType> = Vec::new();
    let mut i: usize = 0;
    assert(files.deep_view().take(0) =~= Seq::<FileText>::empty());
    while i < files.len()
        invariant
            i <= files.len(),
            enum_types.deep_view() == union_types_in_files(files.deep_view().take(i as int)),
        decreases files.len() - i,
    {
        let ghost before = enum_types.deep_view();
        let mut found = extract_union_types(matcher, &files[i]);
        let ghost added = found.deep_view();
        enum_types.append(&mut found);
        proof {
            let upto = files.deep_view().take(i + 1);
            assert(upto.drop_last() =~= files.deep_view().take(i as int));
            assert(upto.last() == files[i as int]@);
            assert(enum_types.deep_view() =~= before + added);
        }
        i = i + 1;
    }
    assert(files.deep_view().take(files.len() as int) =~= files.deep_view());
    proof {
        lemma_union_types_have_alternatives(files.deep_view());
        assert forall|i: int| 0 <= i < enum_types.len() implies has_alternatives(
            #[trigger] enum_types[i]@,
        ) by {
            assert(enum_types.deep_view()[i] == enum_types[i]@);
        }
    }
    enum_types
}

/// Renders the enum that replaces the file of `enum_type`: a header with the
/// name, one member per alternative, and the closing brace. The alternatives
/// are used as they are, whether or not they are identifiers.
pub fn write_enum(enum_type: &EnumType) -> (out: String)
    ensures
        out@ == rendered_enum(enum_type@),
{
    let mut out = String::new();
    out.append("export enum ");
    out.append(enum_type.name.as_str());
    out.append(" {\n");
    let ghost header = out@;
    let mut i: usize = 0;
    assert(enum_type.values.deep_view().take(0) =~= Seq::<Seq<char>>::empty());
    assert(header + member_lines(Seq::empty()) =~= header);
    while i < enum_type.values.len()
        invariant
            i <= enum_type.values.len(),
            out@ == header + member_lines(enum_type.values.deep_view().take(i as int)),
        decreases enum_type.values.len() - i,
    {
        let ghost before = out@;
        let value = &enum_type.values[i];
        out.append("    ");
        out.append(value.as_str());
        out.append(" = \"");
        out.append(value.as_str());
        out.append("\",\n");
        proof {
            let upto = enum_type.values.deep_view().take(i + 1);
            assert(upto.drop_last() =~= enum_type.values.deep_view().take(i as int));
            assert(upto.last() == value@);
            assert(out@ =~= before + member_line(value@));
            assert(out@ =~= header + (member_lines(upto.drop_last()) + member_line(upto.last())));
        }
        i = i + 1;
    }
    assert(enum_type.values.deep_view().take(enum_type.values.len() as int)
        =~= enum_type.values.deep_view());
    out.append("}\n");
    assert(out@ =~= rendered_enum(enum_type@));
    out
}

/// Finds the union types declared in `files` and returns them with the files
/// to write: one per union type, in the order found, each at the path of the
/// file that declared it. A file without a union type gets no write.
pub fn process_enums(matcher: &PatternMatcher, files: &Vec<SourceFile>) -> (r: (
    Vec<EnumType>,
    Vec<SourceFile>,
))
    ensures
        r.0.deep_view() == union_types_in_files(files.deep_view()),
        r.1.deep_view() == enum_writes(union_types_in_files(files.deep_view())),
        forall|i: int| 0 <= i < r.0.len() ==> has_alternatives(#[trigger] r.0[i]@),
{
    let enum_types = find_all_enum_types(matcher, files);
    let mut writes: Vec<SourceFile> = Vec::new();
    let mut i: usize = 0;
    assert(enum_types.deep_view().take(0) =~= Seq::<UnionTypeDecl>::empty());
    while i < enum_types.len()
        invariant
            i <= enum_types.len(),
            writes.deep_view() == enum_writes(enum_types.deep_view().take(i as int)),
        decreases enum_types.len() - i,
    {
        let ghost before = writes.deep_view();
        let enum_type = &enum_types[i];
        let text = write_enum(enum_type);
        writes.push(SourceFile { path: enum_type.path.clone(), text });
        proof {
            let upto = enum_types.deep_view().take(i + 1);
            assert(upto.drop_last() =~= enum_types.deep_view().take(i as int));
            assert(upto.last() == enum_type@);
            assert(writes.deep_view() =~= before.push(enum_write(enum_type@)));
        }
        i = i + 1;
    }
    assert(enum_types.deep_view().take(enum_types.len() as int) =~= enum_types.deep_view());
    (enum_types, writes)
}

/// Every alternative among `tokens` is one: not empty and not a bar.
pub proof fn lemma_alternatives_are_alternatives(tokens: Seq<Seq<char>>)
    ensures
        forall|j: int|
            0 <= j < alternatives(tokens).len() ==> is_alternative(
                #[trigger] alternatives(tokens)[j],
            ),
    decreases tokens.len(),
{
    if tokens.len() > 0 {
        lemma_alternatives_are_alternatives(tokens.drop_last());
        let earlier = alternatives(tokens.drop_last());
        assert forall|j: int| 0 <= j < alternatives(tokens).len() implies is_alternative(
            #[trigger] alternatives(tokens)[j],
        ) by {
            if j < earlier.len() {
                assert(alternatives(tokens)[j] == earlier[j]);
            }
        }
    }
}

/// Every union type found in the rows of a file has its alternatives.
pub proof fn lemma_unions_have_alternatives(rows: Seq<Seq<char>>, path: Seq<char>)
    ensures
        forall|i: int|
            0 <= i < unions_in_lines(rows, path).len() ==> has_alternatives(
                #[trigger] unions_in_lines(rows, path)[i],
            ),
    decreases rows.len(),
{
    if rows.len() > 0 {
        lemma_unions_have_alternatives(rows.drop_last(), path);
        let earlier = unions_in_lines(rows.drop_last(), path);
        let here = union_in_line(rows.last(), path);
        lemma_alternatives_are_alternatives(value_tokens(words(trimmed(rows.last()))));
        assert forall|i: int| 0 <= i < unions_in_lines(rows, path).len() implies has_alternatives(
            #[trigger] unions_in_lines(rows, path)[i],
        ) by {
            if i < earlier.len() {
                assert(unions_in_lines(rows, path)[i] == earlier[i]);
            } else {
                assert(unions_in_lines(rows, path)[i] == here[i - earlier.len()]);
            }
        }
    }
}

/// Every union type found in `files` has at least one alternative, and none
/// of its alternatives is empty or a bar.
pub proof fn lemma_union_types_have_alternatives(files: Seq<FileText>)
    ensures
        forall|i: int|
            0 <= i < union_types_in_files(files).len() ==> has_alternatives(
                #[trigger] union_types_in_files(files)[i],
            ),
    decreases files.len(),
{
    if files.len() > 0 {
        lemma_union_types_have_alternatives(files.drop_last());
        lemma_unions_have_alternatives(lines(files.last().text), files.last().path);
        let earlier = union_types_in_files(files.drop_last());
        let here = union_types_in(files.last());
        assert forall|i: int| 0 <= i < union_types_in_files(files).len() implies has_alternatives(
            #[trigger] union_types_in_files(files)[i],
        ) by {
            if i < earlier.len() {
                assert(union_types_in_files(files)[i] == earlier[i]);
            } else {
                assert(union_types_in_files(files)[i] == here[i - earlier.len()]);
            }
        }
    }
}

/// An alternative as it stands in a declaration: in double quotes, or bare.
pub open spec fn written_alternative(value: Seq<char>, in_quotes: bool) -> Seq<char> {
    if in_quotes {
        seq!['"'] + value + seq!['"']
    } else {
        value
    }
}

/// The right-hand side of a declaration: the alternatives, each in double
/// quotes or bare as `in_quotes` says, between two of them a bar with
/// `before[i]` in front of it and `after[i]` behind it, and the terminator
/// at the end.
pub open spec fn alternatives_text(
    values: Seq<Seq<char>>,
    in_quotes: Seq<bool>,
    before: Seq<Seq<char>>,
    after: Seq<Seq<char>>,
) -> Seq<char>
    decreases values.len(),
{
    if values.len() == 0 {
        Seq::empty()
    } else if values.len() == 1 {
        written_alternative(values[0], in_quotes[0]) + seq![';']
    } else {
        written_alternative(values[0], in_quotes[0]) + before[0] + seq!['|'] + after[0]
            + alternatives_text(
            values.drop_first(),
            in_quotes.drop_first(),
            before.drop_first(),
            after.drop_first(),
        )
    }
}

/// The source text of a union type.
pub open spec fn union_text(
    name: Seq<char>,
    values: Seq<Seq<char>>,
    in_quotes: Seq<bool>,
    before: Seq<Seq<char>>,
    after: Seq<Seq<char>>,
) -> Seq<char> {
    "export type "@ + name + " = "@ + alternatives_text(values, in_quotes, before, after)
}

/// Whether an alternative can be written and read back: it is not empty,
/// holds no whitespace, neither begins nor ends with a double quote, and is
/// not a bar; written bare, it neither begins nor ends with a semicolon.
pub open spec fn is_plain_alternative(value: Seq<char>, in_quotes: bool) -> bool {
    &&& value.len() > 0
    &&& has_no_space(value)
    &&& value[0] != '"'
    &&& value.last() != '"'
    &&& value != seq!['|']
    &&& !in_quotes ==> value[0] != ';' && value.last() != ';'
}

/// Whether each of `values` can be written as `in_quotes` says and read back.
pub open spec fn are_plain_alternatives(values: Seq<Seq<char>>, in_quotes: Seq<bool>) -> bool {
    &&& in_quotes.len() == values.len()
    &&& forall|i: int|
        0 <= i < values.len() ==> is_plain_alternative(#[trigger] values[i], in_quotes[i])
}

/// Whether `gaps` are `count` runs of whitespace, none of them empty.
pub open spec fn are_gaps(gaps: Seq<Seq<char>>, count: int) -> bool {
    &&& gaps.len() == count
    &&& forall|i: int| 0 <= i < gaps.len() ==> (#[trigger] gaps[i]).len() > 0 && is_blank(gaps[i])
}

/// Whether `name`, `values` and the whitespace round the bars make up the
/// text of a union type that can be read back.
pub open spec fn is_union_source(
    name: Seq<char>,
    values: Seq<Seq<char>>,
    in_quotes: Seq<bool>,
    before: Seq<Seq<char>>,
    after: Seq<Seq<char>>,
) -> bool {
    &&& name.len() > 0
    &&& has_no_space(name)
    &&& values.len() > 0
    &&& are_plain_alternatives(values, in_quotes)
    &&& are_gaps(before, values.len() - 1)
    &&& are_gaps(after, values.len() - 1)
}

/// The words of the right-hand side of a declaration.
pub open spec fn alternative_words(values: Seq<Seq<char>>, in_quotes: Seq<bool>) -> Seq<Seq<char>>
    decreases values.len(),
{
    if values.len() == 0 {
        Seq::empty()
    } else if values.len() == 1 {
        seq![written_alternative(values[0], in_quotes[0]) + seq![';']]
    } else {
        seq![written_alternative(values[0], in_quotes[0]), seq!['|']] + alternative_words(
            values.drop_first(),
            in_quotes.drop_first(),
        )
    }
}

/// The alternatives among words put one after the other are those among the
/// first followed by those among the others.
pub proof fn lemma_alternatives_in_two(first: Seq<Seq<char>>, second: Seq<Seq<char>>)
    ensures
        alternatives(first + second) == alternatives(first) + alternatives(second),
    decreases second.len(),
{
    if second.len() == 0 {
        assert(first + second =~= first);
        assert(alternatives(first) + alternatives(second) =~= alternatives(first));
    } else {
        let all = first + second;
        assert(all.drop_last() =~= first + second.drop_last());
        assert(all.last() == second.last());
        lemma_alternatives_in_two(first, second.drop_last());
        let value = alternative_of(second.last());
        if is_alternative(value) {
            assert((alternatives(first) + alternatives(second.drop_last())).push(value)
                =~= alternatives(first) + alternatives(second.drop_last()).push(value));
        }
    }
}

/// A written alternative, with or without the terminator behind it, is read
/// back as the alternative, and a bar is none.
pub proof fn lemma_alternative_of_written(value: Seq<char>, in_quotes: bool)
    requires
        is_plain_alternative(value, in_quotes),
    ensures
        alternative_of(written_alternative(value, in_quotes)) == value,
        alternative_of(written_alternative(value, in_quotes) + seq![';']) == value,
        is_alternative(value),
{
    let quote = seq!['"'];
    let nothing = Seq::<char>::empty();
    let whole = written_alternative(value, in_quotes);
    assert(whole[0] != ';' && whole.last() != ';');
    assert(whole =~= nothing + whole + nothing);
    lemma_stripped_core(nothing, whole, nothing, Strip::Char(';'));
    assert(whole + seq![';'] =~= nothing + whole + seq![';']);
    lemma_stripped_core(nothing, whole, seq![';'], Strip::Char(';'));
    if in_quotes {
        lemma_stripped_core(quote, value, quote, Strip::Char('"'));
    } else {
        assert(value =~= nothing + value + nothing);
        lemma_stripped_core(nothing, value, nothing, Strip::Char('"'));
    }
}

/// A bar is read back as a bar, which is no alternative.
pub proof fn lemma_alternative_of_bar()
    ensures
        alternative_of(seq!['|']) == seq!['|'],
{
    let nothing = Seq::<char>::empty();
    let bar = seq!['|'];
    assert(bar =~= nothing + bar + nothing);
    assert(bar[0] == '|');
    lemma_stripped_core(nothing, bar, nothing, Strip::Char(';'));
    lemma_stripped_core(nothing, bar, nothing, Strip::Char('"'));
}

/// A written alternative, with or without the terminator behind it, holds no
/// whitespace and is not empty.
pub proof fn lemma_written_alternative_is_a_word(value: Seq<char>, in_quotes: bool)
    requires
        is_plain_alternative(value, in_quotes),
    ensures
        written_alternative(value, in_quotes).len() > 0,
        has_no_space(written_alternative(value, in_quotes)),
        has_no_space(written_alternative(value, in_quotes) + seq![';']),
{
    let whole = written_alternative(value, in_quotes);
    assert forall|j: int| 0 <= j < whole.len() implies !is_space(#[trigger] whole[j]) by {
        if in_quotes {
            if 1 <= j <= value.len() {
                assert(whole[j] == value[j - 1]);
            }
        }
    }
    let closed = whole + seq![';'];
    assert forall|j: int| 0 <= j < closed.len() implies !is_space(#[trigger] closed[j]) by {
        if j < whole.len() {
            assert(closed[j] == whole[j]);
        }
    }
}

/// What holds of the alternatives and the whitespace round the bars holds of
/// all but the first.
pub proof fn lemma_rest_of_union_source(
    values: Seq<Seq<char>>,
    in_quotes: Seq<bool>,
    before: Seq<Seq<char>>,
    after: Seq<Seq<char>>,
)
    requires
        values.len() > 1,
        are_plain_alternatives(values, in_quotes),
        are_gaps(before, values.len() - 1),
        are_gaps(after, values.len() - 1),
    ensures
        are_plain_alternatives(values.drop_first(), in_quotes.drop_first()),
        are_gaps(before.drop_first(), values.len() - 2),
        are_gaps(after.drop_first(), values.len() - 2),
        before[0].len() > 0 && is_blank(before[0]),
        after[0].len() > 0 && is_blank(after[0]),
{
    assert forall|i: int| 0 <= i < values.drop_first().len() implies is_plain_alternative(
        #[trigger] values.drop_first()[i],
        in_quotes.drop_first()[i],
    ) by {
        assert(is_plain_alternative(values[i + 1], in_quotes[i + 1]));
    }
    assert forall|i: int| 0 <= i < before.drop_first().len() implies (
    #[trigger] before.drop_first()[i]).len() > 0 && is_blank(before.drop_first()[i]) by {
        assert(before.drop_first()[i] == before[i + 1]);
    }
    assert forall|i: int| 0 <= i < after.drop_first().len() implies (
    #[trigger] after.drop_first()[i]).len() > 0 && is_blank(after.drop_first()[i]) by {
        assert(after.drop_first()[i] == after[i + 1]);
    }
}

/// The alternatives among the words of a right-hand side are the values it
/// was written for.
pub proof fn lemma_alternatives_of_words(values: Seq<Seq<char>>, in_quotes: Seq<bool>)
    requires
        are_plain_alternatives(values, in_quotes),
    ensures
        alternatives(alternative_words(values, in_quotes)) == values,
    decreases values.len(),
{
    let nothing = Seq::<Seq<char>>::empty();
    assert(alternatives(nothing) =~= nothing);
    if values.len() == 0 {
        assert(alternatives(alternative_words(values, in_quotes)) =~= values);
    } else {
        assert(is_plain_alternative(values[0], in_quotes[0]));
        lemma_alternative_of_written(values[0], in_quotes[0]);
        lemma_alternative_of_bar();
        let first = written_alternative(values[0], in_quotes[0]);
        if values.len() == 1 {
            let only = seq![first + seq![';']];
            assert(only.drop_last() =~= nothing);
            assert(only.last() == first + seq![';']);
            assert(alternatives(only) =~= seq![values[0]]);
            assert(seq![values[0]] =~= values);
        } else {
            let rest = values.drop_first();
            assert forall|i: int| 0 <= i < rest.len() implies is_plain_alternative(
                #[trigger] rest[i],
                in_quotes.drop_first()[i],
            ) by {
                assert(is_plain_alternative(values[i + 1], in_quotes[i + 1]));
            }
            lemma_alternatives_of_words(rest, in_quotes.drop_first());
            let pair = seq![first, seq!['|']];
            let single = seq![first];
            assert(pair.drop_last() =~= single);
            assert(single.drop_last() =~= nothing);
            assert(single.last() == first);
            assert(alternatives(single) =~= seq![values[0]]);
            assert(pair.last() == seq!['|']);
            assert(alternatives(pair) =~= seq![values[0]]);
            lemma_alternatives_in_two(pair, alternative_words(rest, in_quotes.drop_first()));
            assert(seq![values[0]] + rest =~= values);
        }
    }
}

/// An alternative, a bar with whitespace round it, and what follows: the
/// alternative and the bar are the first two words.
pub proof fn lemma_words_through_bar(
    first: Seq<char>,
    before: Seq<char>,
    after: Seq<char>,
    tail: Seq<char>,
)
    requires
        first.len() > 0,
        has_no_space(first),
        before.len() > 0,
        is_blank(before),
        after.len() > 0,
        is_blank(after),
    ensures
        words(first + before + seq!['|'] + after + tail) == seq![first, seq!['|']] + words(tail),
{
    let bar = seq!['|'];
    let from_bar = bar + after + tail;
    assert(first + before + bar + after + tail =~= first + before + from_bar);
    lemma_first_word(bar, after, tail);
    lemma_first_word(first, before, from_bar);
    assert(seq![first] + (seq![bar] + words(tail)) =~= seq![first, bar] + words(tail));
}

/// The words of a right-hand side, whatever whitespace stands round its
/// bars.
pub proof fn lemma_words_of_alternatives(
    values: Seq<Seq<char>>,
    in_quotes: Seq<bool>,
    before: Seq<Seq<char>>,
    after: Seq<Seq<char>>,
)
    requires
        values.len() > 0,
        are_plain_alternatives(values, in_quotes),
        are_gaps(before, values.len() - 1),
        are_gaps(after, values.len() - 1),
    ensures
        words(alternatives_text(values, in_quotes, before, after)) == alternative_words(
            values,
            in_quotes,
        ),
    decreases values.len(),
{
    let first = written_alternative(values[0], in_quotes[0]);
    assert(is_plain_alternative(values[0], in_quotes[0]));
    lemma_written_alternative_is_a_word(values[0], in_quotes[0]);
    if values.len() == 1 {
        lemma_single_word(first + seq![';']);
    } else {
        lemma_rest_of_union_source(values, in_quotes, before, after);
        let tail = alternatives_text(
            values.drop_first(),
            in_quotes.drop_first(),
            before.drop_first(),
            after.drop_first(),
        );
        lemma_words_of_alternatives(
            values.drop_first(),
            in_quotes.drop_first(),
            before.drop_first(),
            after.drop_first(),
        );
        lemma_words_through_bar(first, before[0], after[0], tail);
    }
}

/// Extraction keeps the order of the alternatives and does not depend on
/// how much whitespace stands round the bars, nor on which alternatives are
/// in double quotes: the text of a union type declares its name and its
/// alternatives, in order.
pub proof fn lemma_union_text_declares(
    name: Seq<char>,
    values: Seq<Seq<char>>,
    in_quotes: Seq<bool>,
    before: Seq<Seq<char>>,
    after: Seq<Seq<char>>,
)
    requires
        is_union_source(name, values, in_quotes, before, after),
    ensures
        declared_union(union_text(name, values, in_quotes, before, after)) == Some((name, values)),
{
    reveal_strlit("export type ");
    reveal_strlit(" = ");
    let space = seq![' '];
    let w1 = seq!['e', 'x', 'p', 'o', 'r', 't'];
    let w2 = seq!['t', 'y', 'p', 'e'];
    let w4 = seq!['='];
    let right = alternatives_text(values, in_quotes, before, after);
    let r4 = w4 + space + right;
    let r3 = name + space + r4;
    let r2 = w2 + space + r3;
    let text = union_text(name, values, in_quotes, before, after);
    assert(text =~= w1 + space + r2);
    lemma_words_of_alternatives(values, in_quotes, before, after);
    lemma_first_word(w4, space, right);
    lemma_first_word(name, space, r4);
    lemma_first_word(w2, space, r3);
    lemma_first_word(w1, space, r2);
    let tokens = words(text);
    assert(tokens =~= seq![w1, w2, name, w4] + alternative_words(values, in_quotes));
    assert(alternative_words(values, in_quotes).len() > 0);
    assert(tokens[2] == name);
    assert(tokens.skip(4) =~= alternative_words(values, in_quotes));
    lemma_alternatives_of_words(values, in_quotes);
}

/// The same alternatives are found whatever whitespace stands round the
/// bars: two texts of one union type that differ in it alone declare the
/// same.
pub proof fn lemma_whitespace_round_bars_is_ignored(
    name: Seq<char>,
    values: Seq<Seq<char>>,
    in_quotes: Seq<bool>,
    before: Seq<Seq<char>>,
    after: Seq<Seq<char>>,
    other_before: Seq<Seq<char>>,
    other_after: Seq<Seq<char>>,
)
    requires
        is_union_source(name, values, in_quotes, before, after),
        is_union_source(name, values, in_quotes, other_before, other_after),
    ensures
        declared_union(union_text(name, values, in_quotes, before, after)) == declared_union(
            union_text(name, values, in_quotes, other_before, other_after),
        ),
{
    lemma_union_text_declares(name, values, in_quotes, before, after);
    lemma_union_text_declares(name, values, in_quotes, other_before, other_after);
}

/// The right-hand side of a declaration ends with the terminator.
pub proof fn lemma_alternatives_text_ends(
    values: Seq<Seq<char>>,
    in_quotes: Seq<bool>,
    before: Seq<Seq<char>>,
    after: Seq<Seq<char>>,
)
    requires
        values.len() > 0,
    ensures
        alternatives_text(values, in_quotes, before, after).len() > 0,
        alternatives_text(values, in_quotes, before, after).last() == ';',
    decreases values.len(),
{
    if values.len() > 1 {
        lemma_alternatives_text_ends(
            values.drop_first(),
            in_quotes.drop_first(),
            before.drop_first(),
            after.drop_first(),
        );
    }
}

/// A line that holds the text of a union type, with whitespace before and
/// after it or none, contributes that union type when the pattern matcher
/// takes the text for one.
pub proof fn lemma_union_line_is_found(
    name: Seq<char>,
    values: Seq<Seq<char>>,
    in_quotes: Seq<bool>,
    before: Seq<Seq<char>>,
    after: Seq<Seq<char>>,
    indent: Seq<char>,
    trailing: Seq<char>,
    path: Seq<char>,
)
    requires
        is_union_source(name, values, in_quotes, before, after),
        is_blank(indent),
        is_blank(trailing),
        is_union_type(union_text(name, values, in_quotes, before, after)),
    ensures
        union_in_line(indent + union_text(name, values, in_quotes, before, after) + trailing, path)
            == seq![UnionTypeDecl { name, path, values }],
{
    reveal_strlit("export type ");
    reveal_strlit(" = ");
    let text = union_text(name, values, in_quotes, before, after);
    lemma_alternatives_text_ends(values, in_quotes, before, after);
    assert(text[0] == 'e');
    assert(text.last() == alternatives_text(values, in_quotes, before, after).last());
    lemma_stripped_core(indent, text, trailing, Strip::Whitespace);
    lemma_union_text_declares(name, values, in_quotes, before, after);
}

/// `count` single spaces, each a run of its own.
pub open spec fn single_spaces(count: nat) -> Seq<Seq<char>> {
    Seq::new(count, |i: int| seq![' '])
}

/// `count` times "in double quotes".
pub open spec fn all_in_quotes(count: nat) -> Seq<bool> {
    Seq::new(count, |i: int| true)
}

/// The right-hand side with every alternative in double quotes and one
/// space on either side of each bar.
pub open spec fn quoted_alternatives(values: Seq<Seq<char>>) -> Seq<char> {
    alternatives_text(
        values,
        all_in_quotes(values.len()),
        single_spaces((values.len() - 1) as nat),
        single_spaces((values.len() - 1) as nat),
    )
}

/// The declaration of a union type on one line, every alternative in double
/// quotes and one space on either side of each bar.
pub open spec fn union_line(name: Seq<char>, values: Seq<Seq<char>>) -> Seq<char> {
    "export type "@ + name + " = "@ + quoted_alternatives(values)
}

/// Whether a union type can be declared and found again: its name and its
/// alternatives can be written and read back, and the pattern matcher takes
/// its declaration for one.
pub open spec fn can_be_declared(name: Seq<char>, values: Seq<Seq<char>>) -> bool {
    &&& name.len() > 0
    &&& has_no_space(name)
    &&& values.len() > 0
    &&& forall|i: int| 0 <= i < values.len() ==> is_plain_alternative(#[trigger] values[i], true)
    &&& is_union_type(union_line(name, values))
}

/// Tests whether `word` is not empty and holds no whitespace.
fn is_word(word: &Vec<char>) -> (b: bool)
    ensures
        b == (word@.len() > 0 && has_no_space(word@)),
{
    if word.len() == 0 {
        return false;
    }
    let mut i: usize = 0;
    while i < word.len()
        invariant
            i <= word.len(),
            forall|j: int| 0 <= j < i ==> !is_space(#[trigger] word@[j]),
        decreases word.len() - i,
    {
        if is_whitespace(word[i]) {
            return false;
        }
        i = i + 1;
    }
    true
}

/// Tests whether `value` can be written in double quotes and read back.
fn is_quotable(value: &Vec<char>) -> (b: bool)
    ensures
        b == is_plain_alternative(value@, true),
{
    if !is_word(value) {
        return false;
    }
    value[0] != '"' && value[value.len() - 1] != '"' && !is_bar(value)
}

/// Writes the right-hand side for `values`, every alternative in double
/// quotes.
fn write_alternatives(values: &Vec<String>) -> (out: Vec<char>)
    requires
        values.len() > 0,
    ensures
        out@ == quoted_alternatives(values.deep_view()),
{
    let ghost all = values.deep_view();
    let count: usize = values.len();
    let last = chars_of(values[count - 1].as_str());
    let mut out: Vec<char> = Vec::new();
    out.push('"');
    extend(&mut out, &last);
    out.push('"');
    out.push(';');
    let mut i: usize = count - 1;
    proof {
        let one = all.skip(i as int);
        assert(one.len() == 1);
        assert(one[0] == all[i as int]);
        assert(all_in_quotes(1)[0]);
        assert(out@ =~= written_alternative(one[0], true) + seq![';']);
    }
    while i > 0
        invariant
            count == values.len(),
            all == values.deep_view(),
            i < count,
            out@ == quoted_alternatives(all.skip(i as int)),
        decreases i,
    {
        let ghost tail = out@;
        let value = chars_of(values[i - 1].as_str());
        let mut next: Vec<char> = Vec::new();
        next.push('"');
        extend(&mut next, &value);
        next.push('"');
        next.push(' ');
        next.push('|');
        next.push(' ');
        extend(&mut next, &out);
        out = next;
        i = i - 1;
        proof {
            let here = all.skip(i as int);
            let left = (here.len() - 1) as nat;
            assert(here[0] == all[i as int]);
            assert(here.drop_first() =~= all.skip(i + 1));
            assert(all_in_quotes(here.len())[0]);
            assert(all_in_quotes(here.len()).drop_first() =~= all_in_quotes(left));
            assert(single_spaces(left)[0] == seq![' ']);
            assert(single_spaces(left).drop_first() =~= single_spaces((left - 1) as nat));
            assert(out@ =~= written_alternative(here[0], true) + seq![' '] + seq!['|'] + seq![' ']
                + tail);
        }
    }
    assert(all.skip(0) =~= all);
    out
}

/// Writes the declaration of the union type `name` with the alternatives
/// `values` on one line and has the pattern matcher confirm it. The line is
/// returned exactly when the union type can be declared, and the scanner
/// then finds, in whatever file the line stands, the same name and the same
/// alternatives in the same order.
pub fn write_union_type(matcher: &PatternMatcher, name: &str, values: &Vec<String>) -> (line: Option<
    String,
>)
    ensures
        line is Some <==> can_be_declared(name@, values.deep_view()),
        line matches Some(text) ==> {
            &&& text@ == union_line(name@, values.deep_view())
            &&& declared_union(text@) == Some((name@, values.deep_view()))
            &&& forall|path: Seq<char>| #[trigger]
                union_in_line(text@, path) == seq![
                    UnionTypeDecl { name: name@, path, values: values.deep_view() },
                ]
        },
{
    let ghost all = values.deep_view();
    let name_chars = chars_of(name);
    if !is_word(&name_chars) || values.len() == 0 {
        return None;
    }
    let mut i: usize = 0;
    while i < values.len()
        invariant
            i <= values.len(),
            all == values.deep_view(),
            forall|k: int| 0 <= k < i ==> is_plain_alternative(#[trigger] all[k], true),
        decreases values.len() - i,
    {
        let value = chars_of(values[i].as_str());
        assert(all[i as int] == value@);
        if !is_quotable(&value) {
            return None;
        }
        i = i + 1;
    }
    let right = write_alternatives(values);
    let mut text = String::new();
    text.append("export type ");
    text.append(name);
    text.append(" = ");
    push_chars(&mut text, &right);
    assert(text@ =~= union_line(name@, all));
    if !matcher.matches_union_type(text.as_str()) {
        return None;
    }
    proof {
        let in_quotes = all_in_quotes(all.len());
        let gaps = single_spaces((all.len() - 1) as nat);
        let nothing = Seq::<char>::empty();
        assert(is_blank(seq![' ']));
        assert(is_union_source(name@, all, in_quotes, gaps, gaps));
        assert(text@ == union_text(name@, all, in_quotes, gaps, gaps));
        lemma_union_text_declares(name@, all, in_quotes, gaps, gaps);
        assert(nothing + text@ + nothing =~= text@);
        assert forall|path: Seq<char>| #[trigger]
            union_in_line(text@, path) == seq![UnionTypeDecl { name: name@, path, values: all }] by {
            lemma_union_line_is_found(name@, all, in_quotes, gaps, gaps, nothing, nothing, path);
        }
    }
    Some(text)
}

/// Every union type found in a file carries the path of that file.
pub proof fn lemma_unions_carry_path(rows: Seq<Seq<char>>, path: Seq<char>)
    ensures
        forall|i: int|
            0 <= i < unions_in_lines(rows, path).len() ==> (#[trigger] unions_in_lines(
                rows,
                path,
            )[i]).path == path,
    decreases rows.len(),
{
    if rows.len() > 0 {
        lemma_unions_carry_path(rows.drop_last(), path);
        let earlier = unions_in_lines(rows.drop_last(), path);
        let here = union_in_line(rows.last(), path);
        assert forall|i: int| 0 <= i < unions_in_lines(rows, path).len() implies (
        #[trigger] unions_in_lines(rows, path)[i]).path == path by {
            if i < earlier.len() {
                assert(unions_in_lines(rows, path)[i] == earlier[i]);
            } else {
                assert(unions_in_lines(rows, path)[i] == here[i - earlier.len()]);
            }
        }
    }
}

/// No union type found in `files` carries a path that none of the files has.
pub proof fn lemma_unions_stay_in_files(files: Seq<FileText>, path: Seq<char>)
    requires
        forall|j: int| 0 <= j < files.len() ==> (#[trigger] files[j]).path != path,
    ensures
        forall|i: int|
            0 <= i < union_types_in_files(files).len() ==> (#[trigger] union_types_in_files(
                files,
            )[i]).path != path,
    decreases files.len(),
{
    if files.len() > 0 {
        let earlier = files.drop_last();
        assert forall|j: int| 0 <= j < earlier.len() implies (#[trigger] earlier[j]).path
            != path by {
            assert(earlier[j] == files[j]);
        }
        lemma_unions_stay_in_files(earlier, path);
        assert(files.last() == files[files.len() - 1]);
        lemma_unions_carry_path(lines(files.last().text), files.last().path);
        let found_earlier = union_types_in_files(earlier);
        let here = union_types_in(files.last());
        assert forall|i: int| 0 <= i < union_types_in_files(files).len() implies (
        #[trigger] union_types_in_files(files)[i]).path != path by {
            if i < found_earlier.len() {
                assert(union_types_in_files(files)[i] == found_earlier[i]);
            } else {
                assert(union_types_in_files(files)[i] == here[i - found_earlier.len()]);
            }
        }
    }
}

/// The union types of files put one after the other are those of the first
/// files followed by those of the others.
pub proof fn lemma_union_types_in_two(first: Seq<FileText>, second: Seq<FileText>)
    ensures
        union_types_in_files(first + second) == union_types_in_files(first) + union_types_in_files(
            second,
        ),
    decreases second.len(),
{
    if second.len() == 0 {
        assert(first + second =~= first);
        assert(union_types_in_files(first) + union_types_in_files(second) =~= union_types_in_files(
            first,
        ));
    } else {
        let all = first + second;
        assert(all.drop_last() =~= first + second.drop_last());
        assert(all.last() == second.last());
        lemma_union_types_in_two(first, second.drop_last());
        assert(union_types_in_files(first) + (union_types_in_files(second.drop_last())
            + union_types_in(second.last())) =~= (union_types_in_files(first)
            + union_types_in_files(second.drop_last())) + union_types_in(second.last()));
    }
}

/// There is one write for each union type, in the same order.
pub proof fn lemma_enum_writes_pointwise(unions: Seq<UnionTypeDecl>)
    ensures
        enum_writes(unions).len() == unions.len(),
        forall|i: int|
            0 <= i < unions.len() ==> #[trigger] enum_writes(unions)[i] == enum_write(unions[i]),
    decreases unions.len(),
{
    if unions.len() > 0 {
        lemma_enum_writes_pointwise(unions.drop_last());
        assert forall|i: int| 0 <= i < unions.len() implies #[trigger] enum_writes(unions)[i]
            == enum_write(unions[i]) by {
            if i < unions.len() - 1 {
                assert(unions.drop_last()[i] == unions[i]);
            }
        }
    }
}

/// The writes for union types put one after the other are the writes for the
/// first followed by the writes for the others.
pub proof fn lemma_enum_writes_in_two(first: Seq<UnionTypeDecl>, second: Seq<UnionTypeDecl>)
    ensures
        enum_writes(first + second) == enum_writes(first) + enum_writes(second),
{
    lemma_enum_writes_pointwise(first);
    lemma_enum_writes_pointwise(second);
    lemma_enum_writes_pointwise(first + second);
    assert(enum_writes(first + second) =~= enum_writes(first) + enum_writes(second));
}

/// What one file holds after the union types of `files` were materialised on
/// `disk`: the enum of the last union type that the file declares, or, if it
/// declares none, what it held before.
pub open spec fn materialised(disk: Map<Seq<char>, Seq<char>>, file: FileText) -> Seq<char> {
    let unions = union_types_in(file);
    if unions.len() > 0 {
        rendered_enum(unions.last())
    } else {
        disk[file.path]
    }
}

/// Each union type overwrites the whole file that declared it, so of several
/// in one file only the last is left, and a file that declares none is left
/// as it was.
pub proof fn lemma_last_union_type_survives(
    disk: Map<Seq<char>, Seq<char>>,
    files: Seq<FileText>,
    k: int,
)
    requires
        0 <= k < files.len(),
        forall|i: int, j: int|
            0 <= i < j < files.len() ==> (#[trigger] files[i]).path != (#[trigger] files[j]).path,
    ensures
        after_writes(disk, enum_writes(union_types_in_files(files)))[files[k].path] == materialised(
            disk,
            files[k],
        ),
{
    let path = files[k].path;
    let before = files.take(k);
    let after = files.skip(k + 1);
    let upto = files.take(k + 1);
    let found_before = union_types_in_files(before);
    let found_here = union_types_in(files[k]);
    let found_after = union_types_in_files(after);
    assert(files =~= upto + after);
    assert(upto.drop_last() =~= before);
    assert(upto.last() == files[k]);
    lemma_union_types_in_two(upto, after);
    assert(union_types_in_files(files) == (found_before + found_here) + found_after);
    lemma_enum_writes_in_two(found_before + found_here, found_after);
    lemma_enum_writes_in_two(found_before, found_here);
    let first = after_writes(disk, enum_writes(found_before));
    let second = after_writes(first, enum_writes(found_here));
    lemma_after_writes_in_two(
        disk,
        enum_writes(found_before) + enum_writes(found_here),
        enum_writes(found_after),
    );
    lemma_after_writes_in_two(disk, enum_writes(found_before), enum_writes(found_here));
    assert forall|j: int| 0 <= j < after.len() implies (#[trigger] after[j]).path != path by {
        assert(after[j] == files[k + 1 + j]);
    }
    lemma_unions_stay_in_files(after, path);
    lemma_enum_writes_pointwise(found_after);
    lemma_unwritten_file_unchanged(second, enum_writes(found_after), path);
    lemma_enum_writes_pointwise(found_here);
    lemma_unions_carry_path(lines(files[k].text), path);
    if found_here.len() > 0 {
        lemma_last_write_wins(first, enum_writes(found_here), found_here.len() - 1);
    } else {
        assert forall|j: int| 0 <= j < before.len() implies (#[trigger] before[j]).path
            != path by {
            assert(before[j] == files[j]);
        }
        lemma_unions_stay_in_files(before, path);
        lemma_enum_writes_pointwise(found_before);
        lemma_unwritten_file_unchanged(disk, enum_writes(found_before), path);
    }
}

} // verus!
