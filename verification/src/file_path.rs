//! Source files of the analysed tree.

use crate::segment::{render_segments, SegmentPath, SegmentView};
use crate::text::chars_of;
use vstd::prelude::*;

verus! {

/// The extension that marks a source file.
pub open spec fn source_extension() -> Seq<char> {
    seq!['t', 's']
}

/// The index of the last occurrence of `c` in `s`, if any.
pub open spec fn last_index_of_char(s: Seq<char>, c: char) -> Option<int>
    decreases s.len(),
{
    if s.len() == 0 {
        None
    } else if s.last() == c {
        Some(s.len() - 1)
    } else {
        last_index_of_char(s.drop_last(), c)
    }
}

/// The extension of a file name: what follows its last dot. A name without a
/// dot has none, nor has a name whose only dot is its first character.
pub open spec fn extension_of(name: Seq<char>) -> Option<Seq<char>> {
    match last_index_of_char(name, '.') {
        Some(i) => if i == 0 {
            None
        } else {
            Some(name.subrange(i + 1, name.len() as int))
        },
        None => None,
    }
}

/// The file name of a path: its last segment, where that is a plain name.
pub open spec fn file_name_of(path: Seq<SegmentView>) -> Option<Seq<char>> {
    if path.len() == 0 {
        None
    } else {
        match path.last() {
            SegmentView::Normal(name) => Some(name),
            _ => None,
        }
    }
}

/// The path ends in a file name with the source extension.
pub open spec fn has_source_extension(path: Seq<SegmentView>) -> bool {
    match file_name_of(path) {
        Some(name) => extension_of(name) == Some(source_extension()),
        None => false,
    }
}

/// The index of the last occurrence of `c` in `s`, if any.
pub fn find_last_char(s: &Vec<char>, c: char) -> (r: Option<usize>)
    ensures
        match r {
            Some(i) => last_index_of_char(s@, c) == Some(i as int) && i < s.len(),
            None => last_index_of_char(s@, c) is None,
        },
{
    let mut i: usize = s.len();
    assert(s@.subrange(0, i as int) =~= s@);
    while i > 0
        invariant
            i <= s.len(),
            last_index_of_char(s@, c) == last_index_of_char(s@.subrange(0, i as int), c),
        decreases i,
    {
        proof {
            let t = s@.subrange(0, i as int);
            assert(t.last() == s@[i - 1]);
            assert(t.drop_last() =~= s@.subrange(0, i - 1));
        }
        if s[i - 1] == c {
            return Some(i - 1);
        }
        i -= 1;
    }
    None
}

/// Whether `path` ends in a file name with the source extension.
pub fn is_source_path(path: &SegmentPath) -> (r: bool)
    ensures
        r == has_source_extension(path@),
{
    let n = path.segments.len();
    if n == 0 {
        return false;
    }
    match &path.segments[n - 1] {
        crate::segment::PathSegment::Normal(name) => {
            let chars = chars_of(name.as_str());
            match find_last_char(&chars, '.') {
                Some(i) => {
                    if i == 0 {
                        false
                    } else {
                        let r = chars.len() - i == 3 && chars[i + 1] == 't' && chars[i + 2] == 's';
                        proof {
                            let ext = chars@.subrange(i + 1, chars@.len() as int);
                            if r {
                                assert(ext =~= source_extension());
                            } else if ext == source_extension() {
                                assert(ext.len() == 2);
                                assert(ext[0] == 't');
                                assert(ext[1] == 's');
                            }
                        }
                        r
                    }
                },
                None => false,
            }
        },
        _ => false,
    }
}

/// Why the contents of a file could not be had.
#[derive(Debug)]
pub enum FilePathContentsError {
    /// Reading failed: the cause, then the printed path of the file.
    Io(String, String),
}

/// Why a path is not a source file.
#[derive(Debug)]
pub enum FilePathFromPathBufError {
    /// The path is no regular file or lacks the source extension; the
    /// payload is the printed path.
    NotAValidFile(String),
    /// The path could not be made canonical: the cause, then the printed path.
    Io(String, String),
}

/// Why a directory entry is not a source file.
#[derive(Debug)]
pub enum FilePathFromEntryError {
    IncorrectPath(FilePathFromPathBufError),
}

/// The canonical, absolute path of one source file.
#[derive(Debug)]
pub struct FilePath(SegmentPath);

impl View for FilePath {
    type V = Seq<SegmentView>;

    closed spec fn view(&self) -> Seq<SegmentView> {
        self.0@
    }
}

impl Clone for FilePath {
    fn clone(&self) -> (r: Self)
        ensures
            r@ == self@,
    {
        FilePath(self.0.clone())
    }
}

impl FilePath {
    /// The source file found at `path`, given what the file system says of
    /// it: whether it is a regular file, and what making it canonical came
    /// to (the canonical path, or the cause of the failure).
    ///
    /// A path that is no regular file, or that does not end in the source
    /// extension, is refused before its canonical form is looked at.
    pub fn try_from(path: SegmentPath, is_file: bool, canonical: Result<SegmentPath, String>) -> (r:
        Result<FilePath, FilePathFromPathBufError>)
        ensures
            if !is_file || !has_source_extension(path@) {
                r matches Err(FilePathFromPathBufError::NotAValidFile(p)) && p@ == render_segments(
                    path@,
                )
            } else {
                match canonical {
                    Ok(c) => r matches Ok(f) && f@ == c@,
                    Err(cause) => r matches Err(FilePathFromPathBufError::Io(e, p)) && e@ == cause@
                        && p@ == render_segments(path@),
                }
            },
    {
        if !is_file || !is_source_path(&path) {
            return Err(FilePathFromPathBufError::NotAValidFile(path.render()));
        }
        match canonical {
            Ok(c) => Ok(FilePath(c)),
            Err(cause) => Err(FilePathFromPathBufError::Io(cause, path.render())),
        }
    }

    /// As [`FilePath::try_from`], for a path that came from walking a
    /// directory.
    pub fn try_from_entry(
        path: SegmentPath,
        is_file: bool,
        canonical: Result<SegmentPath, String>,
    ) -> (r: Result<FilePath, FilePathFromEntryError>)
        ensures
            if !is_file || !has_source_extension(path@) {
                r matches Err(
                    FilePathFromEntryError::IncorrectPath(
                        FilePathFromPathBufError::NotAValidFile(p),
                    ),
                ) && p@ == render_segments(path@)
            } else {
                match canonical {
                    Ok(c) => r matches Ok(f) && f@ == c@,
                    Err(cause) => r matches Err(
                        FilePathFromEntryError::IncorrectPath(FilePathFromPathBufError::Io(e, p)),
                    ) && e@ == cause@ && p@ == render_segments(path@),
                }
            },
    {
        match FilePath::try_from(path, is_file, canonical) {
            Ok(f) => Ok(f),
            Err(e) => Err(FilePathFromEntryError::IncorrectPath(e)),
        }
    }

    /// The path of the file.
    pub fn as_path(&self) -> (p: &SegmentPath)
        ensures
            p@ == self@,
    {
        &self.0
    }

    /// The error to report when the contents of this file cannot be read.
    pub fn contents_error(&self, cause: String) -> (e: FilePathContentsError)
        ensures
            e matches FilePathContentsError::Io(c, p) && c@ == cause@ && p@ == render_segments(
                self@,
            ),
    {
        FilePathContentsError::Io(cause, self.0.render())
    }
}

} // verus!
