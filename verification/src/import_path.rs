//! Resolving the path written in an import statement to a file.

use crate::file_parent_path::FileParentPath;
use crate::segment::{join_text, render_segments, SegmentPath, SegmentView};
use crate::text::{chars_of, ends_with, has_suffix};
use vstd::prelude::*;
use vstd::string::*;

verus! {

/// The ending of a source file's name.
pub open spec fn source_suffix() -> Seq<char> {
    seq!['.', 't', 's']
}

/// The ending of a declaration file's name.
pub open spec fn declaration_suffix() -> Seq<char> {
    seq!['.', 'd', '.', 't', 's']
}

/// The ending that names the index file of a directory.
pub open spec fn index_suffix() -> Seq<char> {
    seq!['/', 'i', 'n', 'd', 'e', 'x', '.', 't', 's']
}

/// The paths an import of `literal` may stand for, in the order in which
/// they are tried. A literal that already names a source file stands for
/// itself alone. Any other stands for the source file of that name, then the
/// declaration file of that name, then the index file of the directory of
/// that name, then itself.
pub open spec fn resolution_candidates(literal: Seq<char>) -> Seq<Seq<char>> {
    if has_suffix(literal, source_suffix()) {
        seq![literal]
    } else {
        seq![
            literal + source_suffix(),
            literal + declaration_suffix(),
            literal + index_suffix(),
            literal,
        ]
    }
}

/// The first index below `limit` at which `resolved` holds a path, if any.
pub open spec fn first_resolved(resolved: Seq<Option<SegmentPath>>, limit: int) -> Option<int>
    decreases limit,
{
    if limit <= 0 || limit > resolved.len() {
        None
    } else {
        match first_resolved(resolved, limit - 1) {
            Some(i) => Some(i),
            None => if resolved[limit - 1] is Some {
                Some(limit - 1)
            } else {
                None
            },
        }
    }
}

/// The smaller of two lengths.
pub open spec fn min_len(a: nat, b: nat) -> int {
    if a <= b {
        a as int
    } else {
        b as int
    }
}

/// Why an import could not be resolved.
#[derive(Debug)]
pub enum ImportPathFromImportStringError {
    /// No candidate names a file; the payload is the import, printed as a
    /// path under the importing file's directory.
    CannotFindFile(String),
}

/// The canonical, absolute path of the file an import statement refers to.
#[derive(Debug)]
pub struct ImportPath(SegmentPath);

impl View for ImportPath {
    type V = Seq<SegmentView>;

    closed spec fn view(&self) -> Seq<SegmentView> {
        self.0@
    }
}

impl Clone for ImportPath {
    fn clone(&self) -> (r: Self)
        ensures
            r@ == self@,
    {
        ImportPath(self.0.clone())
    }
}

impl ImportPath {
    /// The import target at the canonical path `canonical`.
    pub fn new(canonical: SegmentPath) -> (r: ImportPath)
        ensures
            r@ == canonical@,
    {
        ImportPath(canonical)
    }

    /// The paths an import of `import_path` may stand for, relative to the
    /// importing file's directory, in the order in which they are tried.
    pub fn candidates(import_path: &str) -> (r: Vec<String>)
        ensures
            r@.len() == resolution_candidates(import_path@).len(),
            forall|i: int| 0 <= i < r@.len() ==> r@[i]@ == resolution_candidates(import_path@)[i],
    {
        proof {
            reveal_strlit(".ts");
            reveal_strlit(".d.ts");
            reveal_strlit("/index.ts");
            assert(".ts"@ =~= source_suffix());
            assert(".d.ts"@ =~= declaration_suffix());
            assert("/index.ts"@ =~= index_suffix());
        }
        let mut out: Vec<String> = Vec::new();
        if ends_with(import_path, ".ts") {
            out.push(String::from_str(import_path));
        } else {
            out.push(String::from_str(import_path).concat(".ts"));
            out.push(String::from_str(import_path).concat(".d.ts"));
            out.push(String::from_str(import_path).concat("/index.ts"));
            out.push(String::from_str(import_path));
        }
        out
    }

    /// Resolves the import of `import_path` made by a file in the directory
    /// `cwd`.
    ///
    /// `resolved` says, for each candidate of [`ImportPath::candidates`] in
    /// order, what the file system made of it: the canonical path of the
    /// file it names, or nothing where it names none. The first candidate
    /// that names a file is the target. Where none does, the import is
    /// refused, and the error carries it as a path under `cwd`.
    pub fn from_import_string(
        import_path: &str,
        cwd: &FileParentPath,
        resolved: &Vec<Option<SegmentPath>>,
    ) -> (r: Result<ImportPath, ImportPathFromImportStringError>)
        ensures
            match first_resolved(
                resolved@,
                min_len(resolution_candidates(import_path@).len(), resolved@.len()),
            ) {
                Some(i) => r matches Ok(target) && target@ == resolved@[i]->0@,
                None => r matches Err(ImportPathFromImportStringError::CannotFindFile(p)) && p@
                    == join_text(render_segments(cwd@), import_path@),
            },
    {
        proof {
            reveal_strlit(".ts");
            assert(".ts"@ =~= source_suffix());
        }
        let count: usize = if ends_with(import_path, ".ts") {
            1
        } else {
            4
        };
        let limit: usize = if count <= resolved.len() {
            count
        } else {
            resolved.len()
        };
        let mut i: usize = 0;
        while i < limit
            invariant
                i <= limit <= resolved@.len(),
                limit == min_len(resolution_candidates(import_path@).len(), resolved@.len()),
                first_resolved(resolved@, i as int) is None,
            decreases limit - i,
        {
            match &resolved[i] {
                Some(path) => {
                    proof {
                        lemma_first_resolved_found(resolved@, i as int, limit as int);
                    }
                    return Ok(ImportPath(path.clone()));
                },
                None => {},
            }
            i += 1;
        }
        Err(
            ImportPathFromImportStringError::CannotFindFile(
                join_rendered(cwd.as_path(), import_path),
            ),
        )
    }

    /// The path of the target.
    pub fn as_path(&self) -> (p: &SegmentPath)
        ensures
            p@ == self@,
    {
        &self.0
    }

    /// The path of the target.
    pub fn into_path(self) -> (p: SegmentPath)
        ensures
            p@ == self@,
    {
        self.0
    }
}

/// The first path found stays the first when more candidates are looked at.
pub proof fn lemma_first_resolved_found(resolved: Seq<Option<SegmentPath>>, i: int, limit: int)
    requires
        0 <= i < limit <= resolved.len(),
        first_resolved(resolved, i) is None,
        resolved[i] is Some,
    ensures
        first_resolved(resolved, limit) == Some(i),
    decreases limit - i,
{
    if limit > i + 1 {
        lemma_first_resolved_found(resolved, i, limit - 1);
    }
}

/// The text `rel` printed as a path under the directory `base`.
pub fn join_rendered(base: &SegmentPath, rel: &str) -> (s: String)
    ensures
        s@ == join_text(render_segments(base@), rel@),
{
    let rc = chars_of(rel);
    if rc.len() > 0 && rc[0] == '/' {
        return String::from_str(rel);
    }
    let mut out = base.render();
    let oc = chars_of(out.as_str());
    if oc.len() > 0 && oc[oc.len() - 1] != '/' {
        proof {
            reveal_strlit("/");
        }
        let ghost before = out@;
        out.append("/");
        assert(out@ =~= before + seq!['/']);
    }
    out.append(rel);
    out
}

} // verus!
