//! The index file: one entry point that exports the generated constants and
//! every generated type module again.

use crate::text::{chars_of, copy_range, ends_with, has_suffix, push_chars};
use vstd::prelude::*;
use vstd::string::StringExecFns;

verus! {

/// The extension of a generated type file.
pub const MODULE_SUFFIX: &'static str = ".ts";

/// The lines that open every index file: a note, and the export of the
/// generated constants.
pub const INDEX_HEADER: &'static str =
    "// Auto-generated index file\n\n// Export all the constants\nexport * from './const';\n\n";

/// The module that the file at `path` holds: the path without
/// [`MODULE_SUFFIX`]. A path that does not end with it names no module.
pub open spec fn module_of(path: Seq<char>) -> Option<Seq<char>> {
    if has_suffix(path, MODULE_SUFFIX@) {
        Some(path.take(path.len() - MODULE_SUFFIX@.len()))
    } else {
        None
    }
}

/// The line that exports one module again.
pub open spec fn export_line(module: Seq<char>) -> Seq<char> {
    "export * from './"@ + module + "';\n"@
}

/// The export lines for `paths`, in order, or `None` when one of the paths
/// names no module.
pub open spec fn module_exports(paths: Seq<Seq<char>>) -> Option<Seq<char>>
    decreases paths.len(),
{
    if paths.len() == 0 {
        Some(Seq::empty())
    } else {
        match (module_exports(paths.drop_last()), module_of(paths.last())) {
            (Some(earlier), Some(module)) => Some(earlier + export_line(module)),
            _ => None,
        }
    }
}

/// The text of the index file for `paths`.
pub open spec fn index_text(paths: Seq<Seq<char>>) -> Option<Seq<char>> {
    match module_exports(paths) {
        Some(exports) => Some(INDEX_HEADER@ + exports),
        None => None,
    }
}

/// Renders the index file for the generated type files at `paths`, given
/// relative to the directory of the index file and in the order in which the
/// exports are to appear.
///
/// Returns `None` exactly when one of the paths does not end with
/// [`MODULE_SUFFIX`].
pub fn generate_index(paths: &Vec<String>) -> (out: Option<String>)
    ensures
        out.deep_view() == index_text(paths.deep_view()),
{
    let suffix = chars_of(MODULE_SUFFIX);
    let mut out = String::new();
    out.append(INDEX_HEADER);
    let mut i: usize = 0;
    assert(paths.deep_view().take(0) =~= Seq::<Seq<char>>::empty());
    assert(out@ =~= INDEX_HEADER@ + Seq::<char>::empty());
    while i < paths.len()
        invariant
            i <= paths.len(),
            suffix@ == MODULE_SUFFIX@,
            module_exports(paths.deep_view().take(i as int)) is Some,
            out@ == INDEX_HEADER@ + module_exports(paths.deep_view().take(i as int))->0,
        decreases paths.len() - i,
    {
        let ghost before = out@;
        let path = chars_of(paths[i].as_str());
        proof {
            let upto = paths.deep_view().take(i + 1);
            assert(upto.drop_last() =~= paths.deep_view().take(i as int));
            assert(upto.last() == path@);
        }
        if !ends_with(&path, &suffix) {
            proof {
                lemma_missing_module(paths.deep_view(), i as int);
            }
            return None;
        }
        let module = copy_range(&path, 0, path.len() - suffix.len());
        out.append("export * from './");
        push_chars(&mut out, &module);
        out.append("';\n");
        assert(out@ =~= before + export_line(module@));
        i = i + 1;
    }
    assert(paths.deep_view().take(paths.len() as int) =~= paths.deep_view());
    Some(out)
}

/// Once a path names no module, no longer list of paths has an index.
pub proof fn lemma_missing_module(paths: Seq<Seq<char>>, i: int)
    requires
        0 <= i < paths.len(),
        module_of(paths[i]) is None,
    ensures
        module_exports(paths) is None,
    decreases paths.len(),
{
    if i < paths.len() - 1 {
        assert(paths.drop_last()[i] == paths[i]);
        lemma_missing_module(paths.drop_last(), i);
    }
}

} // verus!
