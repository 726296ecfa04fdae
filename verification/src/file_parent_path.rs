//! The directory a source file lies in.

use crate::file_path::FilePath;
use crate::segment::{PathSegment, SegmentPath, SegmentView};
use vstd::prelude::*;

verus! {

/// The parent of a path: the path without its last segment. A path that is
/// empty, or that ends in a root or a prefix, has the empty path for parent.
pub open spec fn parent_of(path: Seq<SegmentView>) -> Seq<SegmentView> {
    if path.len() == 0 {
        Seq::empty()
    } else {
        match path.last() {
            SegmentView::Normal(_) | SegmentView::CurDir | SegmentView::ParentDir => {
                path.drop_last()
            },
            _ => Seq::empty(),
        }
    }
}

/// The directory a source file lies in; imports of that file are resolved
/// against it.
#[derive(Debug)]
pub struct FileParentPath(SegmentPath);

impl View for FileParentPath {
    type V = Seq<SegmentView>;

    closed spec fn view(&self) -> Seq<SegmentView> {
        self.0@
    }
}

impl FileParentPath {
    /// The directory that holds `value`.
    pub fn from_file_path(value: &FilePath) -> (r: FileParentPath)
        ensures
            r@ == parent_of(value@),
    {
        let path = value.as_path();
        let n = path.len();
        if n == 0 {
            return FileParentPath(SegmentPath::new());
        }
        match &path.segments[n - 1] {
            PathSegment::Normal(_) | PathSegment::CurDir | PathSegment::ParentDir => {
                let parent = path.range(0, n - 1);
                assert(path@.subrange(0, n - 1) =~= path@.drop_last());
                FileParentPath(parent)
            },
            _ => FileParentPath(SegmentPath::new()),
        }
    }

    /// The path of the directory.
    pub fn as_path(&self) -> (p: &SegmentPath)
        ensures
            p@ == self@,
    {
        &self.0
    }
}

} // verus!
