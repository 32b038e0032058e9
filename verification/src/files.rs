//! Files as plain values, and what a sequence of overwrites leaves behind.
//!
//! The crate never touches a file system. It takes the path and the text of
//! each file, and hands back the files to write. A caller writes them in the
//! order given, each write replacing the whole file.

use vstd::prelude::*;

verus! {

/// A file: its path and its whole text.
#[derive(Debug)]
pub struct SourceFile {
    pub path: String,
    pub text: String,
}

/// A file as a mathematical value.
pub struct FileText {
    pub path: Seq<char>,
    pub text: Seq<char>,
}

impl View for SourceFile {
    type V = FileText;

    open spec fn view(&self) -> FileText {
        FileText { path: self.path@, text: self.text@ }
    }
}

impl DeepView for SourceFile {
    type V = FileText;

    open spec fn deep_view(&self) -> FileText {
        self@
    }
}

/// The contents of every file after `writes` were carried out in order on
/// `disk`, each one replacing the whole text at its path.
pub open spec fn after_writes(disk: Map<Seq<char>, Seq<char>>, writes: Seq<FileText>) -> Map<
    Seq<char>,
    Seq<char>,
>
    decreases writes.len(),
{
    if writes.len() == 0 {
        disk
    } else {
        after_writes(disk, writes.drop_last()).insert(writes.last().path, writes.last().text)
    }
}

/// The last write to a path decides what the file holds: whatever was written
/// there before is gone.
pub proof fn lemma_last_write_wins(disk: Map<Seq<char>, Seq<char>>, writes: Seq<FileText>, i: int)
    requires
        0 <= i < writes.len(),
        forall|j: int| i < j < writes.len() ==> (#[trigger] writes[j]).path != writes[i].path,
    ensures
        after_writes(disk, writes).contains_key(writes[i].path),
        after_writes(disk, writes)[writes[i].path] == writes[i].text,
    decreases writes.len(),
{
    if i < writes.len() - 1 {
        let earlier = writes.drop_last();
        assert(earlier[i] == writes[i]);
        assert forall|j: int| i < j < earlier.len() implies (#[trigger] earlier[j]).path
            != earlier[i].path by {
            assert(earlier[j] == writes[j]);
        }
        lemma_last_write_wins(disk, earlier, i);
        assert(writes.last() == writes[writes.len() - 1]);
    }
}

/// A file that no write names keeps its contents, and a path that no write
/// names stays absent.
pub proof fn lemma_unwritten_file_unchanged(
    disk: Map<Seq<char>, Seq<char>>,
    writes: Seq<FileText>,
    path: Seq<char>,
)
    requires
        forall|j: int| 0 <= j < writes.len() ==> (#[trigger] writes[j]).path != path,
    ensures
        after_writes(disk, writes).contains_key(path) == disk.contains_key(path),
        after_writes(disk, writes)[path] == disk[path],
    decreases writes.len(),
{
    if writes.len() > 0 {
        let earlier = writes.drop_last();
        assert forall|j: int| 0 <= j < earlier.len() implies (#[trigger] earlier[j]).path
            != path by {
            assert(earlier[j] == writes[j]);
        }
        lemma_unwritten_file_unchanged(disk, earlier, path);
        assert(writes.last() == writes[writes.len() - 1]);
    }
}

/// Writes carried out in two runs leave what they leave in one.
pub proof fn lemma_after_writes_in_two(
    disk: Map<Seq<char>, Seq<char>>,
    first: Seq<FileText>,
    second: Seq<FileText>,
)
    ensures
        after_writes(disk, first + second) == after_writes(after_writes(disk, first), second),
    decreases second.len(),
{
    if second.len() == 0 {
        assert(first + second =~= first);
    } else {
        let all = first + second;
        assert(all.drop_last() =~= first + second.drop_last());
        assert(all.last() == second.last());
        lemma_after_writes_in_two(disk, first, second.drop_last());
    }
}

} // verus!
