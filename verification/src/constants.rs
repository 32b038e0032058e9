//! The constant extractor: finds string constants declared in source text and
//! renders them as exported constants of the target language.
//!
//! A declaration may span several lines. The extractor appends line after line
//! to a buffer until the buffer ends with a semicolon, and only then asks the
//! pattern matcher whether the buffer holds a declaration.

use crate::pattern::{is_constant_declaration, PatternMatcher, ScanError};
use crate::text::{
    chars_of, concat, ends_with, extend, has_no_space, has_prefix, has_suffix, is_blank, is_row,
    is_space, is_whitespace, joined_lines, lemma_chars_deep_view, lemma_first_word,
    lemma_joined_lines_push, lemma_lines_of_joined,
    lemma_prefix_of_longer, lemma_single_word, lemma_stripped_core, lemma_trimmed_keeps_prefix,
    lines, split_lines, split_whitespace, starts_with, string_of, trim, trim_matches, trimmed,
    trimmed_of, words, Strip,
};
use vstd::prelude::*;
use vstd::string::StringExecFns;

verus! {

/// The keywords that open a constant declaration.
pub const DECLARATION_KEYWORD: &'static str = "pub const";

/// The text that closes a statement.
pub const TERMINATOR: &'static str = ";";

/// A string constant: its name and the text of its literal.
#[derive(Debug)]
pub struct Constant {
    pub name: String,
    pub value: String,
}

/// A string constant as a mathematical value.
pub struct ConstantDecl {
    pub name: Seq<char>,
    pub value: Seq<char>,
}

impl View for Constant {
    type V = ConstantDecl;

    open spec fn view(&self) -> ConstantDecl {
        ConstantDecl { name: self.name@, value: self.value@ }
    }
}

impl DeepView for Constant {
    type V = ConstantDecl;

    open spec fn deep_view(&self) -> ConstantDecl {
        self@
    }
}

/// Whether `c` can stand in the name of a constant: an upper-case ASCII
/// letter, an ASCII digit or an underscore.
pub open spec fn is_name_char(c: char) -> bool {
    ||| 'A' <= c <= 'Z'
    ||| '0' <= c <= '9'
    ||| c == '_'
}

/// Whether `name` can name a constant: it is not empty and made of
/// upper-case letters, digits and underscores.
pub open spec fn is_constant_name(name: Seq<char>) -> bool {
    &&& name.len() > 0
    &&& forall|j: int| 0 <= j < name.len() ==> is_name_char(#[trigger] name[j])
}

/// The constant that `buffer` declares: the name is its third word without
/// colons at either end, the value its last word without semicolons and then
/// without double quotes at either end. A buffer of fewer than three words,
/// or one whose third word is no constant's name, declares nothing.
pub open spec fn declared_constant(buffer: Seq<char>) -> Option<ConstantDecl> {
    let tokens = words(buffer);
    if tokens.len() < 3 {
        None
    } else {
        let name = trimmed_of(tokens[2], ':');
        if is_constant_name(name) {
            Some(ConstantDecl { name, value: trimmed_of(trimmed_of(tokens.last(), ';'), '"') })
        } else {
            None
        }
    }
}

/// What a completed buffer contributes: the constant it declares, when the
/// pattern matcher takes it for a declaration.
pub open spec fn emitted(buffer: Seq<char>) -> Seq<ConstantDecl> {
    if is_constant_declaration(buffer) {
        match declared_constant(buffer) {
            Some(constant) => seq![constant],
            None => Seq::empty(),
        }
    } else {
        Seq::empty()
    }
}

/// The constants that the extractor finds in `rows` when it starts with
/// `buffer` carried over from earlier lines.
///
/// Each line is appended to the buffer. A buffer that, once trimmed, does not
/// begin with the declaration keywords is discarded. One that does but lacks
/// the closing semicolon is carried on to the next line. One that has both is
/// trimmed, contributes what [`emitted`] says, and is discarded.
pub open spec fn scan_lines(rows: Seq<Seq<char>>, buffer: Seq<char>) -> Seq<ConstantDecl>
    decreases rows.len(),
{
    if rows.len() == 0 {
        Seq::empty()
    } else {
        let joined = buffer + rows[0];
        let rest = rows.drop_first();
        if !has_prefix(trimmed(joined), DECLARATION_KEYWORD@) {
            scan_lines(rest, Seq::empty())
        } else if !has_suffix(joined, TERMINATOR@) {
            scan_lines(rest, joined)
        } else {
            emitted(trimmed(joined)) + scan_lines(rest, Seq::empty())
        }
    }
}

/// The constants declared in one file, in the order of their declarations.
pub open spec fn constants_in(text: Seq<char>) -> Seq<ConstantDecl> {
    scan_lines(lines(text), Seq::empty())
}

/// The constants declared in `files`, file after file. No buffer is carried
/// from one file into the next.
pub open spec fn constants_in_files(files: Seq<Seq<char>>) -> Seq<ConstantDecl>
    decreases files.len(),
{
    if files.len() == 0 {
        Seq::empty()
    } else {
        constants_in_files(files.drop_last()) + constants_in(files.last())
    }
}

/// The line that mirrors one constant.
pub open spec fn constant_line(constant: ConstantDecl) -> Seq<char> {
    "export const "@ + constant.name + ": string = \""@ + constant.value + "\";\n"@
}

/// The generated text for `constants`: one line each, in order.
pub open spec fn rendered_constants(constants: Seq<ConstantDecl>) -> Seq<char>
    decreases constants.len(),
{
    if constants.len() == 0 {
        Seq::empty()
    } else {
        rendered_constants(constants.drop_last()) + constant_line(constants.last())
    }
}

/// Tests whether `name` can name a constant.
pub fn has_constant_name(name: &Vec<char>) -> (b: bool)
    ensures
        b == is_constant_name(name@),
{
    if name.len() == 0 {
        return false;
    }
    let mut i: usize = 0;
    while i < name.len()
        invariant
            i <= name.len(),
            forall|j: int| 0 <= j < i ==> is_name_char(#[trigger] name@[j]),
        decreases name.len() - i,
    {
        let c = name[i];
        if !(('A' <= c && c <= 'Z') || ('0' <= c && c <= '9') || c == '_') {
            return false;
        }
        i = i + 1;
    }
    true
}

fn constant_of(buffer: &Vec<char>) -> (r: Option<Constant>)
    ensures
        r.deep_view() == declared_constant(buffer@),
{
    let tokens = split_whitespace(buffer);
    let count: usize = tokens.len();
    if count < 3 {
        return None;
    }
    proof {
        lemma_chars_deep_view(tokens[2]);
        lemma_chars_deep_view(tokens[count - 1]);
        assert(tokens.deep_view()[2] == tokens[2].deep_view());
        assert(tokens.deep_view().last() == tokens[count - 1].deep_view());
    }
    let name = trim_matches(&tokens[2], ':');
    if !has_constant_name(&name) {
        return None;
    }
    let literal = trim_matches(&tokens[count - 1], ';');
    let value = trim_matches(&literal, '"');
    Some(Constant { name: string_of(&name), value: string_of(&value) })
}

/// Reads the constant that `buffer` declares. The caller has the pattern
/// matcher confirm the declaration first; on other text the result follows
/// the same rule and means little.
///
/// Fails with [`ScanError::MalformedDeclaration`] exactly when `buffer` has
/// fewer than three words or its third word is no constant's name.
pub fn extract_constant(buffer: &str) -> (r: Result<Constant, ScanError>)
    ensures
        match r {
            Ok(constant) => declared_constant(buffer@) == Some(constant@),
            Err(e) => e == ScanError::MalformedDeclaration && declared_constant(buffer@) is None,
        },
{
    let chars = chars_of(buffer);
    match constant_of(&chars) {
        Some(constant) => Ok(constant),
        None => Err(ScanError::MalformedDeclaration),
    }
}

/// Finds the constants declared in one file. Each has a constant's name.
pub fn extract_constants(matcher: &PatternMatcher, text: &str) -> (found: Vec<Constant>)
    ensures
        found.deep_view() == constants_in(text@),
        forall|i: int| 0 <= i < found.len() ==> is_constant_name(#[trigger] found[i].name@),
{
    proof {
        lemma_scanned_names(lines(text@), Seq::empty());
    }
    let chars = chars_of(text);
    let rows = split_lines(&chars);
    let keyword = chars_of(DECLARATION_KEYWORD);
    let terminator = chars_of(TERMINATOR);
    let mut found: Vec<Constant> = Vec::new();
    let mut buffer: Vec<char> = Vec::new();
    let mut i: usize = 0;
    assert(rows.deep_view().skip(0) =~= rows.deep_view());
    assert(found.deep_view() + constants_in(text@) =~= constants_in(text@));
    let ghost all = constants_in(text@);
    while i < rows.len()
        invariant
            i <= rows.len(),
            rows.deep_view() == lines(text@),
            keyword@ == DECLARATION_KEYWORD@,
            terminator@ == TERMINATOR@,
            constants_in(text@) == found.deep_view() + scan_lines(
                rows.deep_view().skip(i as int),
                buffer@,
            ),
        decreases rows.len() - i,
    {
        let ghost rest = rows.deep_view().skip(i as int);
        let ghost before = found.deep_view();
        let ghost carried = buffer@;
        proof {
            lemma_chars_deep_view(rows[i as int]);
            assert(rest[0] == rows[i as int]@);
            assert(rest.drop_first() =~= rows.deep_view().skip(i + 1));
        }
        extend(&mut buffer, &rows[i]);
        let candidate = trim(&buffer);
        if !starts_with(&candidate, &keyword) {
            buffer.clear();
        } else if ends_with(&buffer, &terminator) {
            let line = string_of(&candidate);
            let mut emitted_here: Ghost<Seq<ConstantDecl>> = Ghost(Seq::empty());
            if matcher.matches_constant_declaration(line.as_str()) {
                match constant_of(&candidate) {
                    Some(constant) => {
                        proof {
                            emitted_here@ = seq![constant@];
                        }
                        found.push(constant);
                    },
                    None => {},
                }
            }
            buffer.clear();
            assert(emitted_here@ == emitted(candidate@));
            assert(found.deep_view() =~= before + emitted(candidate@));
            assert(found.deep_view() + scan_lines(rows.deep_view().skip(i + 1), buffer@) =~= before
                + (emitted(candidate@) + scan_lines(rest.drop_first(), Seq::empty())));
        }
        i = i + 1;
    }
    proof {
        assert(rows.deep_view().skip(rows.len() as int) =~= Seq::<Seq<char>>::empty());
        assert(found.deep_view() =~= all);
        assert forall|i: int| 0 <= i < found.len() implies is_constant_name(
            #[trigger] found[i].name@,
        ) by {
            assert(found.deep_view()[i] == found[i]@);
        }
    }
    found
}

/// Finds the constants declared in `files`, the texts of the source files in
/// the order in which they were discovered. Each has a constant's name.
pub fn find_all_public_constants(matcher: &PatternMatcher, files: &Vec<String>) -> (constants: Vec<
    Constant,
>)
    ensures
        constants.deep_view() == constants_in_files(files.deep_view()),
        forall|i: int| 0 <= i < constants.len() ==> is_constant_name(#[trigger] constants[i].name@),
{
    let mut constants: Vec<Constant> = Vec::new();
    let mut i: usize = 0;
    assert(files.deep_view().take(0) =~= Seq::<Seq<char>>::empty());
    while i < files.len()
        invariant
            i <= files.len(),
            constants.deep_view() == constants_in_files(files.deep_view().take(i as int)),
            forall|k: int|
                0 <= k < constants.len() ==> is_constant_name(#[trigger] constants[k].name@),
        decreases files.len() - i,
    {
        let ghost before = constants.deep_view();
        let ghost held = constants@;
        let mut found = extract_constants(matcher, files[i].as_str());
        let ghost added = found.deep_view();
        let ghost fresh = found@;
        constants.append(&mut found);
        proof {
            assert forall|k: int| 0 <= k < constants.len() implies is_constant_name(
                #[trigger] constants[k].name@,
            ) by {
                if k < held.len() {
                    assert(constants[k] == held[k]);
                } else {
                    assert(constants[k] == fresh[k - held.len()]);
                }
            }
            let upto = files.deep_view().take(i + 1);
            assert(upto.drop_last() =~= files.deep_view().take(i as int));
            assert(upto.last() == files[i as int]@);
            assert(constants.deep_view() =~= before + added);
        }
        i = i + 1;
    }
    assert(files.deep_view().take(files.len() as int) =~= files.deep_view());
    constants
}

/// Renders `constants` as the text of the generated constants file: one
/// exported declaration per line, the value in double quotes.
pub fn write_constants(constants: &Vec<Constant>) -> (out: String)
    ensures
        out@ == rendered_constants(constants.deep_view()),
{
    let mut out = String::new();
    let mut i: usize = 0;
    assert(constants.deep_view().take(0) =~= Seq::<ConstantDecl>::empty());
    while i < constants.len()
        invariant
            i <= constants.len(),
            out@ == rendered_constants(constants.deep_view().take(i as int)),
        decreases constants.len() - i,
    {
        let ghost before = out@;
        let constant = &constants[i];
        out.append("export const ");
        out.append(constant.name.as_str());
        out.append(": string = \"");
        out.append(constant.value.as_str());
        out.append("\";\n");
        proof {
            let upto = constants.deep_view().take(i + 1);
            assert(upto.drop_last() =~= constants.deep_view().take(i as int));
            assert(upto.last() == constant@);
            assert(out@ =~= before + constant_line(constant@));
        }
        i = i + 1;
    }
    assert(constants.deep_view().take(constants.len() as int) =~= constants.deep_view());
    out
}

/// Finds the constants declared in `files` and renders the generated
/// constants file. Returns how many constants were found, and the text.
pub fn process_constants(matcher: &PatternMatcher, files: &Vec<String>) -> (r: (usize, String))
    ensures
        r.0 == constants_in_files(files.deep_view()).len(),
        r.1@ == rendered_constants(constants_in_files(files.deep_view())),
{
    let constants = find_all_public_constants(matcher, files);
    (constants.len(), write_constants(&constants))
}

/// Every constant that the extractor yields has a constant's name.
pub proof fn lemma_scanned_names(rows: Seq<Seq<char>>, buffer: Seq<char>)
    ensures
        forall|i: int|
            0 <= i < scan_lines(rows, buffer).len() ==> is_constant_name(
                (#[trigger] scan_lines(rows, buffer)[i]).name,
            ),
    decreases rows.len(),
{
    if rows.len() == 0 {
        assert(scan_lines(rows, buffer).len() == 0);
    } else {
        let joined = buffer + rows[0];
        let rest = rows.drop_first();
        if !has_prefix(trimmed(joined), DECLARATION_KEYWORD@) {
            lemma_scanned_names(rest, Seq::empty());
            assert(scan_lines(rows, buffer) == scan_lines(rest, Seq::empty()));
        } else if !has_suffix(joined, TERMINATOR@) {
            lemma_scanned_names(rest, joined);
            assert(scan_lines(rows, buffer) == scan_lines(rest, joined));
        } else {
            lemma_scanned_names(rest, Seq::empty());
            let first = emitted(trimmed(joined));
            assert(scan_lines(rows, buffer) == first + scan_lines(rest, Seq::empty()));
            let others = scan_lines(rest, Seq::empty());
            assert forall|i: int| 0 <= i < scan_lines(rows, buffer).len() implies is_constant_name(
                (#[trigger] scan_lines(rows, buffer)[i]).name,
            ) by {
                if i < first.len() {
                    assert(scan_lines(rows, buffer)[i] == first[i]);
                } else {
                    assert(scan_lines(rows, buffer)[i] == others[i - first.len()]);
                }
            }
        }
    }
}

/// Every constant found in a file has a constant's name: upper-case letters,
/// digits and underscores, and at least one of them.
pub proof fn lemma_constants_have_names(text: Seq<char>)
    ensures
        forall|i: int|
            0 <= i < constants_in(text).len() ==> is_constant_name(
                (#[trigger] constants_in(text)[i]).name,
            ),
{
    lemma_scanned_names(lines(text), Seq::empty());
}

/// The buffer that the extractor carries on after `rows`, when it started
/// with `buffer`.
pub open spec fn carried_buffer(rows: Seq<Seq<char>>, buffer: Seq<char>) -> Seq<char>
    decreases rows.len(),
{
    if rows.len() == 0 {
        buffer
    } else {
        let joined = buffer + rows[0];
        let rest = rows.drop_first();
        if has_prefix(trimmed(joined), DECLARATION_KEYWORD@) && !has_suffix(joined, TERMINATOR@) {
            carried_buffer(rest, joined)
        } else {
            carried_buffer(rest, Seq::empty())
        }
    }
}

/// Scanning rows and then more rows is scanning the first, and then the
/// others with the buffer that the first left.
pub proof fn lemma_scan_in_two(head: Seq<Seq<char>>, tail: Seq<Seq<char>>, buffer: Seq<char>)
    ensures
        scan_lines(head + tail, buffer) == scan_lines(head, buffer) + scan_lines(
            tail,
            carried_buffer(head, buffer),
        ),
    decreases head.len(),
{
    if head.len() == 0 {
        assert(head + tail =~= tail);
        assert(scan_lines(head, buffer) + scan_lines(tail, buffer) =~= scan_lines(tail, buffer));
    } else {
        let all = head + tail;
        let joined = buffer + head[0];
        assert(all[0] == head[0]);
        assert(all.drop_first() =~= head.drop_first() + tail);
        if !has_prefix(trimmed(joined), DECLARATION_KEYWORD@) {
            lemma_scan_in_two(head.drop_first(), tail, Seq::empty());
        } else if !has_suffix(joined, TERMINATOR@) {
            lemma_scan_in_two(head.drop_first(), tail, joined);
        } else {
            lemma_scan_in_two(head.drop_first(), tail, Seq::empty());
            let first = emitted(trimmed(joined));
            let second = scan_lines(head.drop_first(), Seq::empty());
            let third = scan_lines(tail, carried_buffer(head.drop_first(), Seq::empty()));
            assert(first + (second + third) =~= (first + second) + third);
        }
    }
}

/// The buffer that is carried on never ends with the terminator.
pub proof fn lemma_carried_buffer_is_open(rows: Seq<Seq<char>>, buffer: Seq<char>)
    requires
        !has_suffix(buffer, TERMINATOR@),
    ensures
        !has_suffix(carried_buffer(rows, buffer), TERMINATOR@),
    decreases rows.len(),
{
    if rows.len() > 0 {
        let joined = buffer + rows[0];
        if has_prefix(trimmed(joined), DECLARATION_KEYWORD@) && !has_suffix(joined, TERMINATOR@) {
            lemma_carried_buffer_is_open(rows.drop_first(), joined);
        } else {
            reveal_strlit(";");
            lemma_carried_buffer_is_open(rows.drop_first(), Seq::empty());
        }
    }
}

/// Rows of which none ends with the terminator, appended to a buffer that
/// does not end with it either, yield no constant.
pub proof fn lemma_open_rows_yield_nothing(rows: Seq<Seq<char>>, buffer: Seq<char>)
    requires
        !has_suffix(buffer, TERMINATOR@),
        forall|i: int| 0 <= i < rows.len() ==> !has_suffix(#[trigger] rows[i], TERMINATOR@),
    ensures
        scan_lines(rows, buffer) == Seq::<ConstantDecl>::empty(),
    decreases rows.len(),
{
    if rows.len() > 0 {
        reveal_strlit(";");
        let joined = buffer + rows[0];
        let rest = rows.drop_first();
        assert forall|i: int| 0 <= i < rest.len() implies !has_suffix(
            #[trigger] rest[i],
            TERMINATOR@,
        ) by {
            assert(rest[i] == rows[i + 1]);
        }
        assert(!has_suffix(joined, TERMINATOR@)) by {
            assert(!has_suffix(rows[0], TERMINATOR@));
            if rows[0].len() == 0 {
                assert(joined =~= buffer);
            } else if has_suffix(joined, TERMINATOR@) {
                assert(joined.skip(joined.len() - 1)[0] == rows[0].skip(rows[0].len() - 1)[0]);
                assert(rows[0].skip(rows[0].len() - 1) =~= TERMINATOR@);
            }
        }
        if !has_prefix(trimmed(joined), DECLARATION_KEYWORD@) {
            lemma_open_rows_yield_nothing(rest, Seq::empty());
        } else {
            lemma_open_rows_yield_nothing(rest, joined);
        }
    }
}

/// A declaration that is not closed before the file ends is dropped: rows
/// that follow the others and of which none ends with the terminator add
/// nothing to what the others yield.
pub proof fn lemma_unterminated_tail_is_dropped(head: Seq<Seq<char>>, tail: Seq<Seq<char>>)
    requires
        forall|i: int| 0 <= i < tail.len() ==> !has_suffix(#[trigger] tail[i], TERMINATOR@),
    ensures
        scan_lines(head + tail, Seq::empty()) == scan_lines(head, Seq::empty()),
{
    reveal_strlit(";");
    lemma_scan_in_two(head, tail, Seq::empty());
    lemma_carried_buffer_is_open(head, Seq::empty());
    lemma_open_rows_yield_nothing(tail, carried_buffer(head, Seq::empty()));
    assert(scan_lines(head, Seq::empty()) + Seq::<ConstantDecl>::empty() =~= scan_lines(
        head,
        Seq::empty(),
    ));
}

/// The same for the text of a file: lines written after the others, none of
/// them ending with the terminator, add nothing to what the file yields.
pub proof fn lemma_unterminated_tail_of_text_is_dropped(
    head: Seq<Seq<char>>,
    tail: Seq<Seq<char>>,
)
    requires
        forall|i: int| 0 <= i < head.len() ==> is_row(#[trigger] head[i]),
        forall|i: int| 0 <= i < tail.len() ==> is_row(#[trigger] tail[i]),
        forall|i: int| 0 <= i < tail.len() ==> !has_suffix(#[trigger] tail[i], TERMINATOR@),
    ensures
        constants_in(joined_lines(head + tail)) == constants_in(joined_lines(head)),
{
    let all = head + tail;
    assert forall|i: int| 0 <= i < all.len() implies is_row(#[trigger] all[i]) by {
        if i < head.len() {
            assert(all[i] == head[i]);
        } else {
            assert(all[i] == tail[i - head.len()]);
        }
    }
    lemma_lines_of_joined(all);
    lemma_lines_of_joined(head);
    lemma_unterminated_tail_is_dropped(head, tail);
}

/// The source text of a declaration: the keywords, the name, the string
/// type, `gap` between the equals sign and the literal, and the value in
/// double quotes, closed by the terminator.
pub open spec fn declaration_text(name: Seq<char>, gap: Seq<char>, value: Seq<char>) -> Seq<char> {
    DECLARATION_KEYWORD@ + seq![' '] + name + ": &str ="@ + gap + seq!['"'] + value + seq!['"']
        + TERMINATOR@
}

/// Whether a constant can be written as a declaration and read back: it has
/// a constant's name, and its value holds no whitespace and neither begins
/// nor ends with a double quote.
pub open spec fn mirrors_cleanly(constant: ConstantDecl) -> bool {
    &&& is_constant_name(constant.name)
    &&& has_no_space(constant.value)
    &&& constant.value.len() > 0 ==> constant.value[0] != '"' && constant.value.last() != '"'
}

/// The text of a declaration needs no trimming and declares the constant
/// that it was written for.
pub proof fn lemma_declaration_text_declares(constant: ConstantDecl, gap: Seq<char>)
    requires
        mirrors_cleanly(constant),
        gap.len() > 0,
        is_blank(gap),
    ensures
        declared_constant(declaration_text(constant.name, gap, constant.value)) == Some(constant),
{
    reveal_strlit("pub const");
    reveal_strlit(": &str =");
    reveal_strlit(";");
    let name = constant.name;
    let value = constant.value;
    let space = seq![' '];
    let quote = seq!['"'];
    let colon = seq![':'];
    let semicolon = seq![';'];
    let w1 = seq!['p', 'u', 'b'];
    let w2 = seq!['c', 'o', 'n', 's', 't'];
    let w3 = name + colon;
    let w4 = seq!['&', 's', 't', 'r'];
    let w5 = seq!['='];
    let w6 = quote + value + quote + semicolon;
    let text = declaration_text(name, gap, value);
    let r5 = w5 + gap + w6;
    let r4 = w4 + space + r5;
    let r3 = w3 + space + r4;
    let r2 = w2 + space + r3;
    assert(text =~= w1 + space + r2);
    assert(is_name_char(name[0]) && is_name_char(name.last()));
    assert(has_no_space(w3)) by {
        assert forall|j: int| 0 <= j < w3.len() implies !is_space(#[trigger] w3[j]) by {
            if j < name.len() {
                assert(w3[j] == name[j]);
                assert(is_name_char(name[j]));
            }
        }
    }
    assert(has_no_space(w6)) by {
        assert forall|j: int| 0 <= j < w6.len() implies !is_space(#[trigger] w6[j]) by {
            if 1 <= j <= value.len() {
                assert(w6[j] == value[j - 1]);
            }
        }
    }
    lemma_single_word(w6);
    lemma_first_word(w5, gap, w6);
    lemma_first_word(w4, space, r5);
    lemma_first_word(w3, space, r4);
    lemma_first_word(w2, space, r3);
    lemma_first_word(w1, space, r2);
    let tokens = words(text);
    assert(tokens =~= seq![w1, w2, w3, w4, w5, w6]);
    assert(tokens[2] == w3);
    assert(tokens.last() == w6);
    assert(w3 =~= Seq::<char>::empty() + name + colon);
    lemma_stripped_core(Seq::empty(), name, colon, Strip::Char(':'));
    let quoted = quote + value + quote;
    assert(w6 =~= Seq::<char>::empty() + quoted + semicolon);
    assert(quoted[0] == '"');
    assert(quoted.last() == '"');
    lemma_stripped_core(Seq::empty(), quoted, semicolon, Strip::Char(';'));
    lemma_stripped_core(quote, value, quote, Strip::Char('"'));
}

/// The concatenation of the first `count` rows begins as the first row does.
pub proof fn lemma_concat_keeps_prefix(rows: Seq<Seq<char>>, count: int, prefix: Seq<char>)
    requires
        1 <= count <= rows.len(),
        has_prefix(rows[0], prefix),
    ensures
        has_prefix(concat(rows.take(count)), prefix),
    decreases count,
{
    let upto = rows.take(count);
    assert(upto.last() == rows[count - 1]);
    assert(upto.drop_last() =~= rows.take(count - 1));
    if count == 1 {
        assert(concat(rows.take(0)) =~= Seq::<char>::empty());
        assert(concat(upto) =~= rows[0]);
    } else {
        lemma_concat_keeps_prefix(rows, count - 1, prefix);
        lemma_prefix_of_longer(concat(rows.take(count - 1)), rows[count - 1], prefix);
    }
}

/// Whether `rows` hold one declaration as the extractor expects it: the
/// first row begins with `indent` and the keywords, and the rows end with the
/// terminator once all of them are joined, and not before.
pub open spec fn is_one_declaration(rows: Seq<Seq<char>>, indent: Seq<char>) -> bool {
    &&& rows.len() > 0
    &&& is_blank(indent)
    &&& has_prefix(rows[0], indent + DECLARATION_KEYWORD@)
    &&& forall|count: int|
        0 < count < rows.len() ==> !has_suffix(#[trigger] concat(rows.take(count)), TERMINATOR@)
    &&& has_suffix(concat(rows), TERMINATOR@)
}

/// The rows of one declaration are joined and judged as a whole, and the
/// scan goes on after them with an empty buffer.
pub proof fn lemma_scan_declaration(
    rows: Seq<Seq<char>>,
    indent: Seq<char>,
    rest: Seq<Seq<char>>,
    done: int,
)
    requires
        is_one_declaration(rows, indent),
        0 <= done < rows.len(),
    ensures
        scan_lines(rows.skip(done) + rest, concat(rows.take(done))) == emitted(
            trimmed(concat(rows)),
        ) + scan_lines(rest, Seq::empty()),
    decreases rows.len() - done,
{
    reveal_strlit("pub const");
    let all = rows.skip(done) + rest;
    let upto = rows.take(done + 1);
    let joined = concat(rows.take(done)) + rows[done];
    assert(all[0] == rows[done]);
    assert(all.drop_first() =~= rows.skip(done + 1) + rest);
    assert(upto.last() == rows[done]);
    assert(upto.drop_last() =~= rows.take(done));
    assert(joined == concat(upto));
    lemma_concat_keeps_prefix(rows, done + 1, indent + DECLARATION_KEYWORD@);
    lemma_trimmed_keeps_prefix(joined, indent, DECLARATION_KEYWORD@);
    if done + 1 < rows.len() {
        lemma_scan_declaration(rows, indent, rest, done + 1);
    } else {
        assert(upto =~= rows);
        assert(rows.skip(done + 1) + rest =~= rest);
    }
}

/// A declaration as it stands in a source file.
pub struct WrittenDeclaration {
    /// The constant that is declared.
    pub constant: ConstantDecl,
    /// The whitespace before the keywords.
    pub indent: Seq<char>,
    /// The whitespace between the equals sign and the literal.
    pub gap: Seq<char>,
    /// The lines over which the declaration is spread. Line breaks add
    /// nothing: the lines joined without them are the declaration.
    pub rows: Seq<Seq<char>>,
}

/// Whether a written declaration is well formed: its constant can be read
/// back, its rows hold the declaration's text after the indent and nothing
/// else, and the pattern matcher takes that text for a declaration.
pub open spec fn is_well_written(written: WrittenDeclaration) -> bool {
    let text = declaration_text(written.constant.name, written.gap, written.constant.value);
    &&& mirrors_cleanly(written.constant)
    &&& written.gap.len() > 0
    &&& is_blank(written.gap)
    &&& concat(written.rows) == written.indent + text
    &&& is_one_declaration(written.rows, written.indent)
    &&& is_constant_declaration(text)
}

/// The rows of a file that holds `file`, one declaration after the other.
pub open spec fn written_rows(file: Seq<WrittenDeclaration>) -> Seq<Seq<char>>
    decreases file.len(),
{
    if file.len() == 0 {
        Seq::empty()
    } else {
        file[0].rows + written_rows(file.drop_first())
    }
}

/// The constants that `file` declares, in order.
pub open spec fn written_constants(file: Seq<WrittenDeclaration>) -> Seq<ConstantDecl> {
    file.map_values(|written: WrittenDeclaration| written.constant)
}

/// Extraction recovers what was written: from the rows of well-formed
/// declarations, each on one line or spread over several, the extractor
/// yields exactly the declared constants, in the order of the declarations.
pub proof fn lemma_round_trip(file: Seq<WrittenDeclaration>)
    requires
        forall|i: int| 0 <= i < file.len() ==> is_well_written(#[trigger] file[i]),
    ensures
        scan_lines(written_rows(file), Seq::empty()) == written_constants(file),
    decreases file.len(),
{
    if file.len() == 0 {
        assert(written_constants(file) =~= Seq::<ConstantDecl>::empty());
    } else {
        let first = file[0];
        let others = file.drop_first();
        let text = declaration_text(first.constant.name, first.gap, first.constant.value);
        assert(is_well_written(first));
        assert forall|i: int| 0 <= i < others.len() implies is_well_written(
            #[trigger] others[i],
        ) by {
            assert(others[i] == file[i + 1]);
        }
        lemma_round_trip(others);
        lemma_scan_declaration(first.rows, first.indent, written_rows(others), 0);
        assert(first.rows.skip(0) =~= first.rows);
        assert(concat(first.rows.take(0)) =~= Seq::<char>::empty());
        lemma_declaration_text_declares(first.constant, first.gap);
        assert(trimmed(first.indent + text) == text) by {
            reveal_strlit("pub const");
            reveal_strlit(";");
            assert(text[0] == 'p');
            assert(text.last() == ';');
            assert(first.indent + text =~= first.indent + text + Seq::<char>::empty());
            lemma_stripped_core(first.indent, text, Seq::empty(), Strip::Whitespace);
        }
        assert(written_constants(file) =~= seq![first.constant] + written_constants(others));
    }
}

/// The same for the text of a file: declarations written one row per line
/// are read back from the text.
pub proof fn lemma_round_trip_text(file: Seq<WrittenDeclaration>)
    requires
        forall|i: int| 0 <= i < file.len() ==> is_well_written(#[trigger] file[i]),
        forall|i: int|
            0 <= i < written_rows(file).len() ==> is_row(#[trigger] written_rows(file)[i]),
    ensures
        constants_in(joined_lines(written_rows(file))) == written_constants(file),
{
    lemma_lines_of_joined(written_rows(file));
    lemma_round_trip(file);
}

/// The declaration of a constant on one line, with one space before the
/// literal.
pub open spec fn declaration_line(constant: ConstantDecl) -> Seq<char> {
    declaration_text(constant.name, seq![' '], constant.value)
}

/// Whether a constant can be declared and found again: it can be written and
/// read back, and the pattern matcher takes its declaration for one.
pub open spec fn can_be_declared(constant: ConstantDecl) -> bool {
    mirrors_cleanly(constant) && is_constant_declaration(declaration_line(constant))
}

/// The declarations of `constants`, one line each.
pub open spec fn declaration_lines(constants: Seq<ConstantDecl>) -> Seq<Seq<char>> {
    constants.map_values(|constant: ConstantDecl| declaration_line(constant))
}

/// A constant as it stands in a file when its declaration takes one line.
pub open spec fn on_one_line(constant: ConstantDecl) -> WrittenDeclaration {
    WrittenDeclaration {
        constant,
        indent: Seq::empty(),
        gap: seq![' '],
        rows: seq![declaration_line(constant)],
    }
}

/// A declaration on one line is well written, and the line can be read back
/// as a line.
pub proof fn lemma_one_line_is_well_written(constant: ConstantDecl)
    requires
        can_be_declared(constant),
    ensures
        is_well_written(on_one_line(constant)),
        is_row(declaration_line(constant)),
{
    reveal_strlit("pub const");
    reveal_strlit(": &str =");
    reveal_strlit(";");
    let line = declaration_line(constant);
    let rows = seq![line];
    let nothing = Seq::<char>::empty();
    let head = DECLARATION_KEYWORD@ + seq![' '] + constant.name + ": &str ="@ + seq![' '] + seq![
        '"',
    ];
    assert(line =~= head + constant.value + seq!['"', ';']);
    assert(rows.drop_last() =~= Seq::<Seq<char>>::empty());
    assert(concat(rows.drop_last()) =~= nothing);
    assert(concat(rows) =~= nothing + line);
    assert(line.take(DECLARATION_KEYWORD@.len() as int) =~= nothing + DECLARATION_KEYWORD@);
    assert((nothing + line).skip((nothing + line).len() - 1) =~= TERMINATOR@);
    assert forall|j: int| 0 <= j < line.len() implies #[trigger] line[j] != '\n' by {
        if j < 10 {
        } else if j < 10 + constant.name.len() {
            assert(line[j] == constant.name[j - 10]);
            assert(is_name_char(constant.name[j - 10]));
        } else if j < head.len() {
        } else if j < head.len() + constant.value.len() {
            assert(line[j] == constant.value[j - head.len()]);
            assert(!is_space(constant.value[j - head.len()]));
        } else {
        }
    }
    assert(line.last() == ';');
}

/// The rows of declarations that take one line each are their lines.
pub proof fn lemma_rows_on_one_line(constants: Seq<ConstantDecl>)
    ensures
        written_rows(constants.map_values(|constant: ConstantDecl| on_one_line(constant)))
            == declaration_lines(constants),
    decreases constants.len(),
{
    let file = constants.map_values(|constant: ConstantDecl| on_one_line(constant));
    if constants.len() == 0 {
        assert(written_rows(file) =~= declaration_lines(constants));
    } else {
        let rest = constants.drop_first();
        lemma_rows_on_one_line(rest);
        assert(file.drop_first() =~= rest.map_values(
            |constant: ConstantDecl| on_one_line(constant),
        ));
        assert(file[0].rows + declaration_lines(rest) =~= declaration_lines(constants));
    }
}

/// Tests whether `value` can stand in a declaration: it holds no whitespace
/// and neither begins nor ends with a double quote.
fn is_plain_value(value: &Vec<char>) -> (b: bool)
    ensures
        b == (has_no_space(value@) && (value@.len() > 0 ==> value@[0] != '"' && value@.last()
            != '"')),
{
    let count: usize = value.len();
    if count > 0 && (value[0] == '"' || value[count - 1] == '"') {
        return false;
    }
    let mut i: usize = 0;
    while i < count
        invariant
            count == value.len(),
            i <= count,
            forall|j: int| 0 <= j < i ==> !is_space(#[trigger] value@[j]),
        decreases count - i,
    {
        if is_whitespace(value[i]) {
            return false;
        }
        i = i + 1;
    }
    true
}

/// Writes the source text that declares `constants`, one declaration per
/// line, and has the pattern matcher confirm each line. The text is returned
/// exactly when every constant can be declared, and extraction then finds
/// the same constants in it, in the same order.
pub fn write_declarations(matcher: &PatternMatcher, constants: &Vec<Constant>) -> (source: Option<
    String,
>)
    ensures
        source is Some <==> forall|i: int|
            0 <= i < constants.len() ==> can_be_declared(#[trigger] constants.deep_view()[i]),
        source matches Some(text) ==> {
            &&& text@ == joined_lines(declaration_lines(constants.deep_view()))
            &&& constants_in(text@) == constants.deep_view()
        },
{
    let mut out = String::new();
    let mut i: usize = 0;
    assert(constants.deep_view().take(0) =~= Seq::<ConstantDecl>::empty());
    assert(declaration_lines(Seq::<ConstantDecl>::empty()) =~= Seq::<Seq<char>>::empty());
    while i < constants.len()
        invariant
            i <= constants.len(),
            out@ == joined_lines(declaration_lines(constants.deep_view().take(i as int))),
            forall|k: int| 0 <= k < i ==> can_be_declared(#[trigger] constants.deep_view()[k]),
        decreases constants.len() - i,
    {
        let ghost before = out@;
        let ghost done = constants.deep_view().take(i as int);
        let constant = &constants[i];
        assert(constants.deep_view()[i as int] == constant@);
        let name = chars_of(constant.name.as_str());
        let value = chars_of(constant.value.as_str());
        if !has_constant_name(&name) || !is_plain_value(&value) {
            return None;
        }
        let mut line = String::new();
        line.append(DECLARATION_KEYWORD);
        line.append(" ");
        line.append(constant.name.as_str());
        line.append(": &str =");
        line.append(" ");
        line.append("\"");
        line.append(constant.value.as_str());
        line.append("\"");
        line.append(TERMINATOR);
        proof {
            reveal_strlit(" ");
            reveal_strlit("\"");
            assert(" "@ =~= seq![' ']);
            assert("\""@ =~= seq!['"']);
            assert(line@ =~= declaration_line(constant@));
        }
        if !matcher.matches_constant_declaration(line.as_str()) {
            return None;
        }
        out.append(line.as_str());
        out.append("\n");
        proof {
            reveal_strlit("\n");
            assert("\n"@ =~= seq!['\n']);
            let upto = constants.deep_view().take(i + 1);
            assert(declaration_lines(upto) =~= declaration_lines(done).push(
                declaration_line(constant@),
            ));
            lemma_joined_lines_push(declaration_lines(done), declaration_line(constant@));
            assert(out@ =~= before + declaration_line(constant@) + seq!['\n']);
        }
        i = i + 1;
    }
    proof {
        let all = constants.deep_view();
        assert(all.take(constants.len() as int) =~= all);
        let file = all.map_values(|constant: ConstantDecl| on_one_line(constant));
        lemma_rows_on_one_line(all);
        assert forall|k: int| 0 <= k < file.len() implies is_well_written(#[trigger] file[k]) by {
            assert(can_be_declared(all[k]));
            lemma_one_line_is_well_written(all[k]);
        }
        assert forall|k: int| 0 <= k < written_rows(file).len() implies is_row(
            #[trigger] written_rows(file)[k],
        ) by {
            assert(can_be_declared(all[k]));
            lemma_one_line_is_well_written(all[k]);
        }
        lemma_round_trip_text(file);
        assert(written_constants(file) =~= all);
    }
    Some(out)
}

} // verus!
