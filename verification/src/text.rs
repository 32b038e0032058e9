//! Character-level text primitives.
//!
//! Every scanner of this crate works on sequences of `char`. The functions
//! here split such a sequence into lines and whitespace-delimited words,
//! strip characters from both ends, test prefixes and suffixes, and replace
//! substrings. Each one is specified by a spec function over `Seq<char>`.

use vstd::prelude::*;
use vstd::std_specs::iter::IteratorSpec;

verus! {

/// Whether `c` is one of the code points with the Unicode `White_Space`
/// property.
pub open spec fn is_space(c: char) -> bool {
    let n = c as u32;
    ||| 0x09 <= n <= 0x0D
    ||| n == 0x20
    ||| n == 0x85
    ||| n == 0xA0
    ||| n == 0x1680
    ||| 0x2000 <= n <= 0x200A
    ||| n == 0x2028
    ||| n == 0x2029
    ||| n == 0x202F
    ||| n == 0x205F
    ||| n == 0x3000
}

/// Tests `c` for the Unicode `White_Space` property.
pub fn is_whitespace(c: char) -> (b: bool)
    ensures
        b == is_space(c),
{
    let n: u32 = c as u32;
    (0x09 <= n && n <= 0x0D) || n == 0x20 || n == 0x85 || n == 0xA0 || n == 0x1680 || (0x2000 <= n
        && n <= 0x200A) || n == 0x2028 || n == 0x2029 || n == 0x202F || n == 0x205F || n == 0x3000
}

/// The set of characters that a strip removes from the ends of a text.
#[derive(Clone, Copy, Debug)]
pub enum Strip {
    /// Every whitespace character.
    Whitespace,
    /// One given character.
    Char(char),
}

impl Strip {
    /// Whether `c` belongs to the set.
    pub open spec fn covers(self, c: char) -> bool {
        match self {
            Strip::Whitespace => is_space(c),
            Strip::Char(m) => c == m,
        }
    }

    /// Tests whether `c` belongs to the set.
    pub fn test(&self, c: char) -> (b: bool)
        ensures
            b == self.covers(c),
    {
        match self {
            Strip::Whitespace => is_whitespace(c),
            Strip::Char(m) => c == *m,
        }
    }
}

/// `s` without its longest prefix of characters in `what`.
pub open spec fn strip_start(s: Seq<char>, what: Strip) -> Seq<char>
    decreases s.len(),
{
    if s.len() > 0 && what.covers(s[0]) {
        strip_start(s.drop_first(), what)
    } else {
        s
    }
}

/// `s` without its longest suffix of characters in `what`.
pub open spec fn strip_end(s: Seq<char>, what: Strip) -> Seq<char>
    decreases s.len(),
{
    if s.len() > 0 && what.covers(s.last()) {
        strip_end(s.drop_last(), what)
    } else {
        s
    }
}

/// `s` with the characters in `what` removed from both ends.
pub open spec fn stripped(s: Seq<char>, what: Strip) -> Seq<char> {
    strip_end(strip_start(s, what), what)
}

/// `s` without leading and trailing whitespace.
pub open spec fn trimmed(s: Seq<char>) -> Seq<char> {
    stripped(s, Strip::Whitespace)
}

/// `s` without leading and trailing occurrences of `c`.
pub open spec fn trimmed_of(s: Seq<char>, c: char) -> Seq<char> {
    stripped(s, Strip::Char(c))
}

/// Whether `s` begins with `prefix`.
pub open spec fn has_prefix(s: Seq<char>, prefix: Seq<char>) -> bool {
    prefix.len() <= s.len() && s.take(prefix.len() as int) == prefix
}

/// Whether `s` ends with `suffix`.
pub open spec fn has_suffix(s: Seq<char>, suffix: Seq<char>) -> bool {
    suffix.len() <= s.len() && s.skip(s.len() - suffix.len()) == suffix
}

/// Whether `pattern` occurs in `s` at index `at`.
pub open spec fn occurs_at(s: Seq<char>, at: int, pattern: Seq<char>) -> bool {
    0 <= at && at + pattern.len() <= s.len() && s.subrange(at, at + pattern.len()) == pattern
}

/// A pending piece as a sequence of pieces: nothing when it is empty.
pub open spec fn flush(current: Seq<char>) -> Seq<Seq<char>> {
    if current.len() > 0 {
        seq![current]
    } else {
        Seq::empty()
    }
}

/// The words of `current + s`, where `current` holds no whitespace: the
/// maximal runs of characters that are not whitespace, from left to right.
pub open spec fn words_from(s: Seq<char>, current: Seq<char>) -> Seq<Seq<char>>
    decreases s.len(),
{
    if s.len() == 0 {
        flush(current)
    } else if is_space(s[0]) {
        flush(current) + words_from(s.drop_first(), Seq::empty())
    } else {
        words_from(s.drop_first(), current.push(s[0]))
    }
}

/// The whitespace-delimited words of `s`, from left to right. No word is
/// empty.
pub open spec fn words(s: Seq<char>) -> Seq<Seq<char>> {
    words_from(s, Seq::empty())
}

/// A line without the carriage return that may end it.
pub open spec fn without_carriage_return(line: Seq<char>) -> Seq<char> {
    if line.len() > 0 && line.last() == '\r' {
        line.drop_last()
    } else {
        line
    }
}

/// The lines of `current + s`, where `current` holds no line feed.
pub open spec fn lines_from(s: Seq<char>, current: Seq<char>) -> Seq<Seq<char>>
    decreases s.len(),
{
    if s.len() == 0 {
        flush(current)
    } else if s[0] == '\n' {
        seq![without_carriage_return(current)] + lines_from(s.drop_first(), Seq::empty())
    } else {
        lines_from(s.drop_first(), current.push(s[0]))
    }
}

/// The lines of `s`. A line ends at a line feed, which is not part of it,
/// nor is a carriage return directly before that line feed. Text after the
/// last line feed is a line of its own when it is not empty.
pub open spec fn lines(s: Seq<char>) -> Seq<Seq<char>> {
    lines_from(s, Seq::empty())
}

/// `to`, then each character of `s` followed by `to`.
pub open spec fn interleaved(s: Seq<char>, to: Seq<char>) -> Seq<char>
    decreases s.len(),
{
    if s.len() == 0 {
        to
    } else {
        to + seq![s[0]] + interleaved(s.drop_first(), to)
    }
}

/// `s` with every occurrence of the non-empty `from` replaced by `to`,
/// scanning from the left; occurrences do not overlap.
pub open spec fn replaced_from(s: Seq<char>, from: Seq<char>, to: Seq<char>) -> Seq<char>
    decreases s.len(),
{
    if from.len() == 0 || s.len() < from.len() {
        s
    } else if s.take(from.len() as int) == from {
        to + replaced_from(s.skip(from.len() as int), from, to)
    } else {
        seq![s[0]] + replaced_from(s.drop_first(), from, to)
    }
}

/// `s` with every occurrence of `from` replaced by `to`. An empty `from`
/// occurs before every character and at the end.
pub open spec fn replaced(s: Seq<char>, from: Seq<char>, to: Seq<char>) -> Seq<char> {
    if from.len() == 0 {
        interleaved(s, to)
    } else {
        replaced_from(s, from, to)
    }
}

/// The concatenation of `parts`.
pub open spec fn concat(parts: Seq<Seq<char>>) -> Seq<char>
    decreases parts.len(),
{
    if parts.len() == 0 {
        Seq::empty()
    } else {
        concat(parts.drop_last()) + parts.last()
    }
}

/// The longest prefix in `what` has length `k`.
pub proof fn lemma_strip_start(s: Seq<char>, what: Strip, k: int)
    requires
        0 <= k <= s.len(),
        forall|j: int| 0 <= j < k ==> what.covers(#[trigger] s[j]),
        k == s.len() || !what.covers(s[k]),
    ensures
        strip_start(s, what) == s.skip(k),
    decreases k,
{
    if k == 0 {
        assert(s.skip(0) =~= s);
    } else {
        assert(what.covers(s[0]));
        let rest = s.drop_first();
        assert forall|j: int| 0 <= j < k - 1 implies what.covers(#[trigger] rest[j]) by {
            assert(rest[j] == s[j + 1]);
        }
        lemma_strip_start(rest, what, k - 1);
        assert(rest.skip(k - 1) =~= s.skip(k));
    }
}

/// The longest suffix in `what` begins at index `k`.
pub proof fn lemma_strip_end(s: Seq<char>, what: Strip, k: int)
    requires
        0 <= k <= s.len(),
        forall|j: int| k <= j < s.len() ==> what.covers(#[trigger] s[j]),
        k == 0 || !what.covers(s[k - 1]),
    ensures
        strip_end(s, what) == s.take(k),
    decreases s.len() - k,
{
    if k == s.len() {
        assert(s.take(k) =~= s);
    } else {
        assert(what.covers(s.last()));
        let rest = s.drop_last();
        assert forall|j: int| k <= j < rest.len() implies what.covers(#[trigger] rest[j]) by {
            assert(rest[j] == s[j]);
        }
        lemma_strip_end(rest, what, k);
        assert(rest.take(k) =~= s.take(k));
    }
}

/// Stripping the end of `s` removes nothing at or before a character that
/// is not in `what`, and leaves a prefix of `s`.
pub proof fn lemma_strip_end_keeps(s: Seq<char>, what: Strip, j: int)
    requires
        0 <= j < s.len(),
        !what.covers(s[j]),
    ensures
        j < strip_end(s, what).len() <= s.len(),
        strip_end(s, what) == s.take(strip_end(s, what).len() as int),
    decreases s.len(),
{
    if what.covers(s.last()) {
        let rest = s.drop_last();
        assert(rest[j] == s[j]);
        lemma_strip_end_keeps(rest, what, j);
        assert(rest.take(strip_end(rest, what).len() as int) =~= s.take(
            strip_end(rest, what).len() as int,
        ));
    } else {
        assert(s.take(s.len() as int) =~= s);
    }
}

/// Whether no character of `s` is whitespace.
pub open spec fn has_no_space(s: Seq<char>) -> bool {
    forall|j: int| 0 <= j < s.len() ==> !is_space(#[trigger] s[j])
}

/// Whether every character of `s` is whitespace.
pub open spec fn is_blank(s: Seq<char>) -> bool {
    forall|j: int| 0 <= j < s.len() ==> is_space(#[trigger] s[j])
}

/// A text that begins with whitespace and then `prefix`, where `prefix`
/// neither begins nor ends with whitespace, begins with `prefix` once it is
/// trimmed.
pub proof fn lemma_trimmed_keeps_prefix(s: Seq<char>, indent: Seq<char>, prefix: Seq<char>)
    requires
        is_blank(indent),
        has_prefix(s, indent + prefix),
        prefix.len() > 0,
        !is_space(prefix[0]),
        !is_space(prefix.last()),
    ensures
        has_prefix(trimmed(s), prefix),
{
    let m = indent.len() as int;
    let n = prefix.len() as int;
    let head = s.take(m + n);
    assert(head == indent + prefix);
    assert forall|j: int| 0 <= j < m implies Strip::Whitespace.covers(#[trigger] s[j]) by {
        assert(s[j] == head[j]);
        assert(head[j] == indent[j]);
    }
    assert(s[m] == head[m]);
    assert(head[m] == prefix[0]);
    lemma_strip_start(s, Strip::Whitespace, m);
    let rest = s.skip(m);
    assert(rest[n - 1] == head[m + n - 1]);
    assert(head[m + n - 1] == prefix[n - 1]);
    lemma_strip_end_keeps(rest, Strip::Whitespace, n - 1);
    assert(trimmed(s).take(n) =~= prefix) by {
        assert forall|j: int| 0 <= j < n implies trimmed(s).take(n)[j] == prefix[j] by {
            assert(rest[j] == head[m + j]);
            assert(head[m + j] == prefix[j]);
        }
    }
}

/// Appending to a text keeps its prefixes.
pub proof fn lemma_prefix_of_longer(s: Seq<char>, more: Seq<char>, prefix: Seq<char>)
    requires
        has_prefix(s, prefix),
    ensures
        has_prefix(s + more, prefix),
{
    assert((s + more).take(prefix.len() as int) =~= s.take(prefix.len() as int));
}

/// What remains when `what` is stripped from a text made of characters in
/// `what`, a core that neither begins nor ends with one, and more characters
/// in `what`, is the core.
pub proof fn lemma_stripped_core(before: Seq<char>, core: Seq<char>, after: Seq<char>, what: Strip)
    requires
        forall|j: int| 0 <= j < before.len() ==> what.covers(#[trigger] before[j]),
        forall|j: int| 0 <= j < after.len() ==> what.covers(#[trigger] after[j]),
        core.len() > 0 ==> !what.covers(core[0]) && !what.covers(core.last()),
    ensures
        stripped(before + core + after, what) == core,
{
    let s = before + core + after;
    if core.len() > 0 {
        assert(s[before.len() as int] == core[0]);
        lemma_strip_start(s, what, before.len() as int);
        let rest = s.skip(before.len() as int);
        assert(rest =~= core + after);
        assert(rest[core.len() - 1] == core.last());
        lemma_strip_end(rest, what, core.len() as int);
        assert(rest.take(core.len() as int) =~= core);
    } else {
        lemma_strip_start(s, what, s.len() as int);
        assert(s.skip(s.len() as int) =~= Seq::<char>::empty());
        assert(core =~= Seq::<char>::empty());
    }
}

/// A run of characters that are not whitespace joins the pending word.
pub proof fn lemma_words_through_word(word: Seq<char>, rest: Seq<char>, current: Seq<char>)
    requires
        forall|j: int| 0 <= j < word.len() ==> !is_space(#[trigger] word[j]),
    ensures
        words_from(word + rest, current) == words_from(rest, current + word),
    decreases word.len(),
{
    if word.len() == 0 {
        assert(word + rest =~= rest);
        assert(current + word =~= current);
    } else {
        let s = word + rest;
        assert(s[0] == word[0]);
        assert(s.drop_first() =~= word.drop_first() + rest);
        assert forall|j: int| 0 <= j < word.drop_first().len() implies !is_space(
            #[trigger] word.drop_first()[j],
        ) by {
            assert(word.drop_first()[j] == word[j + 1]);
        }
        lemma_words_through_word(word.drop_first(), rest, current.push(word[0]));
        assert(current.push(word[0]) + word.drop_first() =~= current + word);
    }
}

/// A run of whitespace ends the pending word and starts none.
pub proof fn lemma_words_through_gap(gap: Seq<char>, rest: Seq<char>, current: Seq<char>)
    requires
        gap.len() > 0,
        forall|j: int| 0 <= j < gap.len() ==> is_space(#[trigger] gap[j]),
    ensures
        words_from(gap + rest, current) == flush(current) + words_from(rest, Seq::empty()),
    decreases gap.len(),
{
    let s = gap + rest;
    assert(s[0] == gap[0]);
    if gap.len() == 1 {
        assert(s.drop_first() =~= rest);
    } else {
        assert(s.drop_first() =~= gap.drop_first() + rest);
        assert forall|j: int| 0 <= j < gap.drop_first().len() implies is_space(
            #[trigger] gap.drop_first()[j],
        ) by {
            assert(gap.drop_first()[j] == gap[j + 1]);
        }
        lemma_words_through_gap(gap.drop_first(), rest, Seq::empty());
        assert(flush(current) + (flush(Seq::<char>::empty()) + words_from(rest, Seq::empty()))
            =~= flush(current) + words_from(rest, Seq::empty()));
    }
}

/// A word followed by whitespace is the first word of the text.
pub proof fn lemma_first_word(word: Seq<char>, gap: Seq<char>, rest: Seq<char>)
    requires
        word.len() > 0,
        forall|j: int| 0 <= j < word.len() ==> !is_space(#[trigger] word[j]),
        gap.len() > 0,
        forall|j: int| 0 <= j < gap.len() ==> is_space(#[trigger] gap[j]),
    ensures
        words(word + gap + rest) == seq![word] + words(rest),
{
    assert(word + gap + rest =~= word + (gap + rest));
    lemma_words_through_word(word, gap + rest, Seq::empty());
    assert(Seq::<char>::empty() + word =~= word);
    lemma_words_through_gap(gap, rest, word);
}

/// A text without whitespace that is not empty is its own single word.
pub proof fn lemma_single_word(word: Seq<char>)
    requires
        word.len() > 0,
        forall|j: int| 0 <= j < word.len() ==> !is_space(#[trigger] word[j]),
    ensures
        words(word) == seq![word],
{
    assert(word + Seq::<char>::empty() =~= word);
    lemma_words_through_word(word, Seq::empty(), Seq::empty());
    assert(Seq::<char>::empty() + word =~= word);
}

/// A row without a line feed, followed by a line feed, is a line of its own.
pub proof fn lemma_lines_through_row(row: Seq<char>, rest: Seq<char>, current: Seq<char>)
    requires
        forall|j: int| 0 <= j < row.len() ==> #[trigger] row[j] != '\n',
    ensures
        lines_from(row + seq!['\n'] + rest, current) == seq![
            without_carriage_return(current + row),
        ] + lines(rest),
    decreases row.len(),
{
    let s = row + seq!['\n'] + rest;
    if row.len() == 0 {
        assert(s[0] == '\n');
        assert(s.drop_first() =~= rest);
        assert(current + row =~= current);
    } else {
        assert(s[0] == row[0]);
        assert(s.drop_first() =~= row.drop_first() + seq!['\n'] + rest);
        assert forall|j: int| 0 <= j < row.drop_first().len() implies #[trigger] row.drop_first()[j]
            != '\n' by {
            assert(row.drop_first()[j] == row[j + 1]);
        }
        lemma_lines_through_row(row.drop_first(), rest, current.push(row[0]));
        assert(current.push(row[0]) + row.drop_first() =~= current + row);
    }
}

/// `rows`, each followed by a line feed.
pub open spec fn joined_lines(rows: Seq<Seq<char>>) -> Seq<char>
    decreases rows.len(),
{
    if rows.len() == 0 {
        Seq::empty()
    } else {
        rows[0] + seq!['\n'] + joined_lines(rows.drop_first())
    }
}

/// Whether `row` can be written as one line and read back: it holds no line
/// feed and does not end with a carriage return.
pub open spec fn is_row(row: Seq<char>) -> bool {
    &&& forall|j: int| 0 <= j < row.len() ==> #[trigger] row[j] != '\n'
    &&& without_carriage_return(row) == row
}

/// Writing one more row appends it and a line feed.
pub proof fn lemma_joined_lines_push(rows: Seq<Seq<char>>, row: Seq<char>)
    ensures
        joined_lines(rows.push(row)) == joined_lines(rows) + row + seq!['\n'],
    decreases rows.len(),
{
    let all = rows.push(row);
    if rows.len() == 0 {
        assert(all.drop_first() =~= Seq::<Seq<char>>::empty());
        assert(joined_lines(all.drop_first()) =~= Seq::<char>::empty());
        assert(joined_lines(all) =~= joined_lines(rows) + row + seq!['\n']);
    } else {
        assert(all[0] == rows[0]);
        assert(all.drop_first() =~= rows.drop_first().push(row));
        lemma_joined_lines_push(rows.drop_first(), row);
        assert(joined_lines(all) =~= joined_lines(rows) + row + seq!['\n']);
    }
}

/// Rows written one per line are read back as the same rows.
pub proof fn lemma_lines_of_joined(rows: Seq<Seq<char>>)
    requires
        forall|i: int| 0 <= i < rows.len() ==> is_row(#[trigger] rows[i]),
    ensures
        lines(joined_lines(rows)) == rows,
    decreases rows.len(),
{
    if rows.len() > 0 {
        let rest = rows.drop_first();
        assert(is_row(rows[0]));
        assert forall|i: int| 0 <= i < rest.len() implies is_row(#[trigger] rest[i]) by {
            assert(rest[i] == rows[i + 1]);
        }
        lemma_lines_of_joined(rest);
        lemma_lines_through_row(rows[0], joined_lines(rest), Seq::empty());
        assert(Seq::<char>::empty() + rows[0] =~= rows[0]);
        assert(seq![rows[0]] + rest =~= rows);
    }
}

/// The deep view of a vector of characters is its view.
pub proof fn lemma_chars_deep_view(v: Vec<char>)
    ensures
        v.deep_view() == v@,
{
    assert(v.deep_view() =~= v@);
}

/// `String::push` of the standard library appends the character to the end
/// of the string and changes nothing else.
pub assume_specification[ String::push ](s: &mut String, c: char)
    ensures
        final(s)@ == old(s)@.push(c),
;

/// The characters of `s`, in order.
pub fn chars_of(s: &str) -> (v: Vec<char>)
    ensures
        v@ == s@,
{
    let mut v: Vec<char> = Vec::new();
    let mut it = s.chars();
    proof {
        broadcast use vstd::string::group_string_axioms;

    }
    loop
        invariant
            v@ + it.remaining() == s@,
            it.decrease() is Some,
        ensures
            v@ == s@,
        decreases it.decrease()->0,
    {
        proof {
            broadcast use vstd::string::group_string_axioms;

        }
        match it.next() {
            Some(c) => {
                v.push(c);
            },
            None => {
                break ;
            },
        }
    }
    v
}

/// Appends the characters of `v` to `out`.
pub fn push_chars(out: &mut String, v: &Vec<char>)
    ensures
        final(out)@ == old(out)@ + v@,
{
    let mut i: usize = 0;
    while i < v.len()
        invariant
            i <= v.len(),
            out@ == old(out)@ + v@.take(i as int),
        decreases v.len() - i,
    {
        out.push(v[i]);
        i = i + 1;
        assert(v@.take(i as int) =~= v@.take(i - 1).push(v@[i - 1]));
    }
    assert(v@.take(v.len() as int) =~= v@);
}

/// The string made of the characters of `v`.
pub fn string_of(v: &Vec<char>) -> (s: String)
    ensures
        s@ == v@,
{
    let mut s = String::new();
    push_chars(&mut s, v);
    assert(Seq::<char>::empty() + v@ =~= v@);
    s
}

/// The characters of `s` from index `from` up to `to`.
pub fn copy_range(s: &Vec<char>, from: usize, to: usize) -> (r: Vec<char>)
    requires
        from <= to <= s.len(),
    ensures
        r@ == s@.subrange(from as int, to as int),
{
    let mut r: Vec<char> = Vec::new();
    let mut i: usize = from;
    while i < to
        invariant
            from <= i <= to <= s.len(),
            r@ == s@.subrange(from as int, i as int),
        decreases to - i,
    {
        r.push(s[i]);
        i = i + 1;
        assert(s@.subrange(from as int, i as int) =~= s@.subrange(from as int, i - 1).push(
            s@[i - 1],
        ));
    }
    r
}

/// Whether `pattern` occurs in `s` at index `at`.
pub fn matches_at(s: &Vec<char>, at: usize, pattern: &Vec<char>) -> (b: bool)
    ensures
        b == occurs_at(s@, at as int, pattern@),
{
    let n: usize = pattern.len();
    if n > s.len() || at > s.len() - n {
        return false;
    }
    let mut i: usize = 0;
    while i < n
        invariant
            n == pattern.len(),
            at + n <= s.len(),
            i <= n,
            forall|j: int| 0 <= j < i ==> s@[at + j] == pattern@[j],
        decreases n - i,
    {
        if s[at + i] != pattern[i] {
            proof {
                let window = s@.subrange(at as int, at + n);
                assert(window[i as int] == s@[at + i]);
            }
            return false;
        }
        i = i + 1;
    }
    assert(s@.subrange(at as int, at + n) =~= pattern@);
    true
}

/// Whether `s` begins with `prefix`.
pub fn starts_with(s: &Vec<char>, prefix: &Vec<char>) -> (b: bool)
    ensures
        b == has_prefix(s@, prefix@),
{
    matches_at(s, 0, prefix)
}

/// Whether `s` ends with `suffix`.
pub fn ends_with(s: &Vec<char>, suffix: &Vec<char>) -> (b: bool)
    ensures
        b == has_suffix(s@, suffix@),
{
    if suffix.len() > s.len() {
        return false;
    }
    let at: usize = s.len() - suffix.len();
    assert(s@.skip(at as int) =~= s@.subrange(at as int, at + suffix.len()));
    matches_at(s, at, suffix)
}

/// Removes the characters in `what` from both ends of `s`.
pub fn strip(s: &Vec<char>, what: Strip) -> (r: Vec<char>)
    ensures
        r@ == stripped(s@, what),
{
    let n: usize = s.len();
    let mut start: usize = 0;
    while start < n && what.test(s[start])
        invariant
            n == s.len(),
            start <= n,
            forall|j: int| 0 <= j < start ==> what.covers(#[trigger] s@[j]),
        decreases n - start,
    {
        start = start + 1;
    }
    let mut end: usize = n;
    while end > start && what.test(s[end - 1])
        invariant
            n == s.len(),
            start <= end <= n,
            forall|j: int| end <= j < n ==> what.covers(#[trigger] s@[j]),
        decreases end,
    {
        end = end - 1;
    }
    proof {
        lemma_strip_start(s@, what, start as int);
        let rest = s@.skip(start as int);
        assert forall|j: int| end - start <= j < rest.len() implies what.covers(
            #[trigger] rest[j],
        ) by {
            assert(rest[j] == s@[start + j]);
        }
        if end > start {
            assert(rest[end - start - 1] == s@[end - 1]);
        }
        lemma_strip_end(rest, what, end - start);
        assert(rest.take(end - start) =~= s@.subrange(start as int, end as int));
    }
    copy_range(s, start, end)
}

/// Removes leading and trailing whitespace.
pub fn trim(s: &Vec<char>) -> (r: Vec<char>)
    ensures
        r@ == trimmed(s@),
{
    strip(s, Strip::Whitespace)
}

/// Removes leading and trailing occurrences of `c`.
pub fn trim_matches(s: &Vec<char>, c: char) -> (r: Vec<char>)
    ensures
        r@ == trimmed_of(s@, c),
{
    strip(s, Strip::Char(c))
}

/// Splits `s` into its whitespace-delimited words.
pub fn split_whitespace(s: &Vec<char>) -> (out: Vec<Vec<char>>)
    ensures
        out.deep_view() == words(s@),
{
    let mut out: Vec<Vec<char>> = Vec::new();
    let mut current: Vec<char> = Vec::new();
    let mut i: usize = 0;
    assert(s@.skip(0) =~= s@);
    assert(out.deep_view() + words(s@) =~= words(s@));
    while i < s.len()
        invariant
            i <= s.len(),
            words(s@) == out.deep_view() + words_from(s@.skip(i as int), current@),
        decreases s.len() - i,
    {
        let c = s[i];
        let ghost rest = s@.skip(i as int);
        let ghost before = out.deep_view();
        let ghost pending = current@;
        assert(rest[0] == c);
        assert(rest.drop_first() =~= s@.skip(i + 1));
        if is_whitespace(c) {
            if current.len() > 0 {
                proof {
                    lemma_chars_deep_view(current);
                }
                out.push(current);
                current = Vec::new();
                assert(out.deep_view() =~= before + seq![pending]);
            } else {
                assert(current@ =~= Seq::<char>::empty());
            }
            assert(out.deep_view() =~= before + flush(pending));
            assert(out.deep_view() + words_from(s@.skip(i + 1), current@) =~= before + (flush(
                pending,
            ) + words_from(rest.drop_first(), Seq::empty())));
        } else {
            current.push(c);
        }
        i = i + 1;
    }
    proof {
        assert(s@.skip(s.len() as int) =~= Seq::<char>::empty());
    }
    let ghost before = out.deep_view();
    let ghost pending = current@;
    if current.len() > 0 {
        proof {
            lemma_chars_deep_view(current);
        }
        out.push(current);
        assert(out.deep_view() =~= before + seq![pending]);
    } else {
        assert(out.deep_view() =~= before + flush(pending));
    }
    out
}

/// Splits `s` into its lines.
pub fn split_lines(s: &Vec<char>) -> (out: Vec<Vec<char>>)
    ensures
        out.deep_view() == lines(s@),
{
    let mut out: Vec<Vec<char>> = Vec::new();
    let mut current: Vec<char> = Vec::new();
    let mut i: usize = 0;
    assert(s@.skip(0) =~= s@);
    assert(out.deep_view() + lines(s@) =~= lines(s@));
    while i < s.len()
        invariant
            i <= s.len(),
            lines(s@) == out.deep_view() + lines_from(s@.skip(i as int), current@),
        decreases s.len() - i,
    {
        let c = s[i];
        let ghost rest = s@.skip(i as int);
        let ghost before = out.deep_view();
        let ghost pending = current@;
        assert(rest[0] == c);
        assert(rest.drop_first() =~= s@.skip(i + 1));
        if c == '\n' {
            let n: usize = current.len();
            if n > 0 && current[n - 1] == '\r' {
                current.pop();
                assert(current@ =~= pending.drop_last());
            }
            proof {
                lemma_chars_deep_view(current);
            }
            out.push(current);
            current = Vec::new();
            assert(out.deep_view() =~= before + seq![without_carriage_return(pending)]);
            assert(out.deep_view() + lines_from(s@.skip(i + 1), current@) =~= before + (
            seq![without_carriage_return(pending)] + lines_from(rest.drop_first(), Seq::empty())));
        } else {
            current.push(c);
        }
        i = i + 1;
    }
    proof {
        assert(s@.skip(s.len() as int) =~= Seq::<char>::empty());
    }
    let ghost before = out.deep_view();
    let ghost pending = current@;
    if current.len() > 0 {
        proof {
            lemma_chars_deep_view(current);
        }
        out.push(current);
        assert(out.deep_view() =~= before + seq![pending]);
    } else {
        assert(out.deep_view() =~= before + flush(pending));
    }
    out
}

/// Appends a copy of `part` to `out`.
pub fn extend(out: &mut Vec<char>, part: &Vec<char>)
    ensures
        final(out)@ == old(out)@ + part@,
{
    let mut i: usize = 0;
    while i < part.len()
        invariant
            i <= part.len(),
            out@ == old(out)@ + part@.take(i as int),
        decreases part.len() - i,
    {
        out.push(part[i]);
        i = i + 1;
        assert(part@.take(i as int) =~= part@.take(i - 1).push(part@[i - 1]));
    }
    assert(part@.take(part.len() as int) =~= part@);
}

/// Replaces every occurrence of `from` in `s` by `to`.
pub fn replace(s: &Vec<char>, from: &Vec<char>, to: &Vec<char>) -> (out: Vec<char>)
    ensures
        out@ == replaced(s@, from@, to@),
{
    let mut out: Vec<char> = Vec::new();
    let mut i: usize = 0;
    assert(s@.skip(0) =~= s@);
    if from.len() == 0 {
        assert(out@ + interleaved(s@, to@) =~= interleaved(s@, to@));
        while i < s.len()
            invariant
                i <= s.len(),
                interleaved(s@, to@) == out@ + interleaved(s@.skip(i as int), to@),
            decreases s.len() - i,
        {
            let ghost rest = s@.skip(i as int);
            let ghost before = out@;
            assert(rest[0] == s@[i as int]);
            assert(rest.drop_first() =~= s@.skip(i + 1));
            extend(&mut out, to);
            out.push(s[i]);
            i = i + 1;
            assert(out@ + interleaved(s@.skip(i as int), to@) =~= before + (to@ + seq![rest[0]]
                + interleaved(rest.drop_first(), to@)));
        }
        assert(s@.skip(s.len() as int) =~= Seq::<char>::empty());
        extend(&mut out, to);
        return out;
    }
    while i < s.len()
        invariant
            i <= s.len(),
            from.len() > 0,
            replaced_from(s@, from@, to@) == out@ + replaced_from(s@.skip(i as int), from@, to@),
        decreases s.len() - i,
    {
        let ghost rest = s@.skip(i as int);
        let ghost before = out@;
        assert(rest[0] == s@[i as int]);
        assert(rest.drop_first() =~= s@.skip(i + 1));
        if matches_at(s, i, from) {
            assert(rest.take(from.len() as int) =~= s@.subrange(i as int, i + from.len()));
            assert(rest.skip(from.len() as int) =~= s@.skip(i + from.len()));
            extend(&mut out, to);
            i = i + from.len();
            assert(out@ + replaced_from(s@.skip(i as int), from@, to@) =~= before + (to@
                + replaced_from(rest.skip(from.len() as int), from@, to@)));
        } else {
            proof {
                if rest.len() >= from.len() {
                    assert(rest.take(from.len() as int) =~= s@.subrange(
                        i as int,
                        i + from.len(),
                    ));
                }
            }
            out.push(s[i]);
            i = i + 1;
            assert(out@ + replaced_from(s@.skip(i as int), from@, to@) =~= before + (seq![rest[0]]
                + replaced_from(rest.drop_first(), from@, to@)));
        }
    }
    proof {
        assert(s@.skip(s.len() as int) =~= Seq::<char>::empty());
    }
    out
}

} // verus!
