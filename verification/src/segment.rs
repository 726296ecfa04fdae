//! Paths as sequences of segments.
//!
//! The analysis never inspects the file system. A path reaches it already
//! split into its segments, and everything it decides about a path (whether
//! one lies under another, which file name it ends in, how it is printed) is
//! decided on that sequence.

use crate::text::chars_of;
use vstd::prelude::*;
use vstd::string::*;

verus! {

/// One segment of a path.
#[derive(Debug)]
pub enum PathSegment {
    /// A volume or drive marker in front of the root.
    Prefix(String),
    /// The root directory.
    RootDir,
    /// The current directory, `.`.
    CurDir,
    /// The parent directory, `..`.
    ParentDir,
    /// A plain file or directory name.
    Normal(String),
}

/// The mathematical value of a [`PathSegment`].
pub enum SegmentView {
    Prefix(Seq<char>),
    RootDir,
    CurDir,
    ParentDir,
    Normal(Seq<char>),
}

impl View for PathSegment {
    type V = SegmentView;

    open spec fn view(&self) -> SegmentView {
        match self {
            PathSegment::Prefix(p) => SegmentView::Prefix(p@),
            PathSegment::RootDir => SegmentView::RootDir,
            PathSegment::CurDir => SegmentView::CurDir,
            PathSegment::ParentDir => SegmentView::ParentDir,
            PathSegment::Normal(n) => SegmentView::Normal(n@),
        }
    }
}

/// The text a segment is printed as.
pub open spec fn segment_text(s: SegmentView) -> Seq<char> {
    match s {
        SegmentView::Prefix(p) => p,
        SegmentView::RootDir => seq!['/'],
        SegmentView::CurDir => seq!['.'],
        SegmentView::ParentDir => seq!['.', '.'],
        SegmentView::Normal(n) => n,
    }
}

/// `rel` appended to the printed path `base`: an absolute `rel` replaces
/// `base`; otherwise a separator is put between the two unless `base` is
/// empty or already ends in one.
pub open spec fn join_text(base: Seq<char>, rel: Seq<char>) -> Seq<char> {
    if rel.len() > 0 && rel[0] == '/' {
        rel
    } else if base.len() == 0 || base.last() == '/' {
        base + rel
    } else {
        base + seq!['/'] + rel
    }
}

/// The printed form of a sequence of segments.
pub open spec fn render_segments(segs: Seq<SegmentView>) -> Seq<char>
    decreases segs.len(),
{
    if segs.len() == 0 {
        Seq::empty()
    } else {
        join_text(render_segments(segs.drop_last()), segment_text(segs.last()))
    }
}

/// `base` is an initial stretch of `path`.
pub open spec fn is_prefix_of(base: Seq<SegmentView>, path: Seq<SegmentView>) -> bool {
    base.len() <= path.len() && path.subrange(0, base.len() as int) =~= base
}

/// A segment is a plain name that can stand between separators: it is not
/// empty and holds no separator.
pub open spec fn is_plain_name(s: SegmentView) -> bool {
    match s {
        SegmentView::Normal(n) => n.len() > 0 && !n.contains('/'),
        _ => false,
    }
}

/// Every segment is a plain name.
pub open spec fn all_plain_names(segs: Seq<SegmentView>) -> bool {
    forall|i: int| 0 <= i < segs.len() ==> is_plain_name(#[trigger] segs[i])
}

/// How a path of plain names is printed: the names, with a separator between
/// each two. What is printed is not empty and does not end in a separator.
pub proof fn lemma_render_plain_names(segs: Seq<SegmentView>)
    requires
        all_plain_names(segs),
        segs.len() > 0,
    ensures
        render_segments(segs).len() > 0,
        render_segments(segs).last() != '/',
        render_segments(segs) == if segs.len() == 1 {
            segment_text(segs[0])
        } else {
            render_segments(segs.drop_last()) + seq!['/'] + segment_text(segs.last())
        },
    decreases segs.len(),
{
    let name = segment_text(segs.last());
    assert(is_plain_name(segs[segs.len() - 1]));
    assert(name.len() > 0);
    assert(name[0] != '/') by {
        if name[0] == '/' {
            assert(name.contains('/'));
        }
    }
    assert(name.last() != '/') by {
        if name.last() == '/' {
            assert(name[name.len() - 1] == '/');
            assert(name.contains('/'));
        }
    }
    let init = segs.drop_last();
    if segs.len() == 1 {
        assert(init.len() == 0);
        assert(render_segments(init) =~= Seq::<char>::empty());
        assert(Seq::<char>::empty() + name =~= name);
    } else {
        assert forall|i: int| 0 <= i < init.len() implies is_plain_name(#[trigger] init[i]) by {
            assert(init[i] == segs[i]);
        }
        lemma_render_plain_names(init);
    }
}

/// A path followed by plain names is printed as the path, joined with what
/// the names are printed as.
pub proof fn lemma_render_joined(base: Seq<SegmentView>, rest: Seq<SegmentView>)
    requires
        all_plain_names(rest),
        rest.len() > 0,
    ensures
        render_segments(base + rest) == join_text(render_segments(base), render_segments(rest)),
    decreases rest.len(),
{
    let all = base + rest;
    let name = segment_text(rest.last());
    let text = render_segments(base);
    assert(all.drop_last() =~= base + rest.drop_last());
    assert(all.last() == rest.last());
    lemma_render_plain_names(rest);
    assert(is_plain_name(rest[rest.len() - 1]));
    assert(name.len() > 0);
    assert(name[0] != '/') by {
        if name[0] == '/' {
            assert(name.contains('/'));
        }
    }
    if rest.len() == 1 {
        assert(base + rest.drop_last() =~= base);
    } else {
        let init = rest.drop_last();
        assert forall|i: int| 0 <= i < init.len() implies is_plain_name(#[trigger] init[i]) by {
            assert(init[i] == rest[i]);
        }
        lemma_render_joined(base, init);
        lemma_render_plain_names(init);
        let mid = render_segments(init);
        assert(is_plain_name(init[0]));
        assert(mid[0] != '/') by {
            lemma_first_character(init);
        }
        let joined = join_text(text, mid);
        assert(joined.len() > 0);
        assert(joined.last() == mid.last());
        if text.len() == 0 || text.last() == '/' {
            assert(text + mid + seq!['/'] + name =~= text + (mid + seq!['/'] + name));
        } else {
            assert(text + seq!['/'] + mid + seq!['/'] + name =~= text + seq!['/'] + (mid + seq![
                '/',
            ] + name));
        }
    }
}

/// What a path of plain names is printed as begins with a character of its
/// first name, which is no separator.
pub proof fn lemma_first_character(segs: Seq<SegmentView>)
    requires
        all_plain_names(segs),
        segs.len() > 0,
    ensures
        render_segments(segs).len() > 0,
        render_segments(segs)[0] != '/',
    decreases segs.len(),
{
    lemma_render_plain_names(segs);
    assert(is_plain_name(segs[0]));
    let first = segment_text(segs[0]);
    assert(first[0] != '/') by {
        if first[0] == '/' {
            assert(first.contains('/'));
        }
    }
    if segs.len() > 1 {
        let init = segs.drop_last();
        assert forall|i: int| 0 <= i < init.len() implies is_plain_name(#[trigger] init[i]) by {
            assert(init[i] == segs[i]);
        }
        lemma_first_character(init);
        assert(init[0] == segs[0]);
    }
}

/// Two paths of plain names that are printed alike are the same path.
pub proof fn lemma_render_injective(a: Seq<SegmentView>, b: Seq<SegmentView>)
    requires
        all_plain_names(a),
        all_plain_names(b),
        render_segments(a) == render_segments(b),
    ensures
        a == b,
    decreases a.len(),
{
    if a.len() == 0 || b.len() == 0 {
        if a.len() > 0 {
            lemma_render_plain_names(a);
        }
        if b.len() > 0 {
            lemma_render_plain_names(b);
        }
        assert(a =~= b);
    } else {
        lemma_render_plain_names(a);
        lemma_render_plain_names(b);
        let text = render_segments(a);
        let na = segment_text(a.last());
        let nb = segment_text(b.last());
        let ia = a.drop_last();
        let ib = b.drop_last();
        assert(is_plain_name(a[a.len() - 1]));
        assert(is_plain_name(b[b.len() - 1]));
        let pa = text.len() - na.len();
        let pb = text.len() - nb.len();
        assert(text.subrange(pa, text.len() as int) =~= na);
        assert(text.subrange(pb, text.len() as int) =~= nb);
        if na.len() < nb.len() {
            assert(a.len() > 1);
            assert(text[pa - 1] == '/');
            assert(nb[pa - 1 - pb] == text[pa - 1]);
            assert(nb.contains('/'));
        }
        if nb.len() < na.len() {
            assert(b.len() > 1);
            assert(text[pb - 1] == '/');
            assert(na[pb - 1 - pa] == text[pb - 1]);
            assert(na.contains('/'));
        }
        assert(na == nb);
        assert(a.last() == b.last());
        if a.len() == 1 {
            if b.len() > 1 {
                assert forall|i: int| 0 <= i < ib.len() implies is_plain_name(#[trigger] ib[i]) by {
                    assert(ib[i] == b[i]);
                }
                lemma_render_plain_names(ib);
            }
            assert(a =~= b);
        } else {
            if b.len() == 1 {
                assert forall|i: int| 0 <= i < ia.len() implies is_plain_name(#[trigger] ia[i]) by {
                    assert(ia[i] == a[i]);
                }
                lemma_render_plain_names(ia);
            }
            assert forall|i: int| 0 <= i < ia.len() implies is_plain_name(#[trigger] ia[i]) by {
                assert(ia[i] == a[i]);
            }
            assert forall|i: int| 0 <= i < ib.len() implies is_plain_name(#[trigger] ib[i]) by {
                assert(ib[i] == b[i]);
            }
            assert(render_segments(ia) =~= text.subrange(0, pa - 1));
            assert(render_segments(ib) =~= text.subrange(0, pb - 1));
            lemma_render_injective(ia, ib);
            assert(a =~= ia.push(a.last()));
            assert(b =~= ib.push(b.last()));
        }
    }
}

impl Clone for PathSegment {
    fn clone(&self) -> (r: Self)
        ensures
            r@ == self@,
    {
        match self {
            PathSegment::Prefix(p) => PathSegment::Prefix(p.clone()),
            PathSegment::RootDir => PathSegment::RootDir,
            PathSegment::CurDir => PathSegment::CurDir,
            PathSegment::ParentDir => PathSegment::ParentDir,
            PathSegment::Normal(n) => PathSegment::Normal(n.clone()),
        }
    }
}

impl PathSegment {
    /// The text this segment is printed as.
    pub fn text(&self) -> (s: String)
        ensures
            s@ == segment_text(self@),
    {
        match self {
            PathSegment::Prefix(p) => p.clone(),
            PathSegment::RootDir => {
                proof {
                    reveal_strlit("/");
                }
                let s = String::from_str("/");
                assert(s@ =~= seq!['/']);
                s
            },
            PathSegment::CurDir => {
                proof {
                    reveal_strlit(".");
                }
                let s = String::from_str(".");
                assert(s@ =~= seq!['.']);
                s
            },
            PathSegment::ParentDir => {
                proof {
                    reveal_strlit("..");
                }
                let s = String::from_str("..");
                assert(s@ =~= seq!['.', '.']);
                s
            },
            PathSegment::Normal(n) => n.clone(),
        }
    }

    /// Whether two segments are the same segment.
    pub fn same(&self, other: &PathSegment) -> (r: bool)
        ensures
            r == (self@ == other@),
    {
        match (self, other) {
            (PathSegment::Prefix(a), PathSegment::Prefix(b)) => {
                let r = *a == *b;
                r
            },
            (PathSegment::RootDir, PathSegment::RootDir) => true,
            (PathSegment::CurDir, PathSegment::CurDir) => true,
            (PathSegment::ParentDir, PathSegment::ParentDir) => true,
            (PathSegment::Normal(a), PathSegment::Normal(b)) => {
                let r = *a == *b;
                r
            },
            _ => false,
        }
    }
}

/// A path, held as the sequence of its segments.
#[derive(Debug)]
pub struct SegmentPath {
    pub segments: Vec<PathSegment>,
}

impl View for SegmentPath {
    type V = Seq<SegmentView>;

    open spec fn view(&self) -> Seq<SegmentView> {
        Seq::new(self.segments@.len(), |i: int| self.segments@[i]@)
    }
}

impl Clone for SegmentPath {
    fn clone(&self) -> (r: Self)
        ensures
            r@ == self@,
    {
        let r = self.range(0, self.segments.len());
        assert(r@ =~= self@);
        r
    }
}

impl SegmentPath {
    /// The empty path.
    pub fn new() -> (r: SegmentPath)
        ensures
            r@ == Seq::<SegmentView>::empty(),
    {
        let r = SegmentPath { segments: Vec::new() };
        assert(r@ =~= Seq::<SegmentView>::empty());
        r
    }

    /// The path made of the given segments.
    pub fn from_segments(segments: Vec<PathSegment>) -> (r: SegmentPath)
        ensures
            r.segments == segments,
    {
        SegmentPath { segments }
    }

    /// The number of segments.
    pub fn len(&self) -> (n: usize)
        ensures
            n == self@.len(),
    {
        self.segments.len()
    }

    /// The segments from index `lo` up to, not including, index `hi`.
    pub(crate) fn range(&self, lo: usize, hi: usize) -> (r: SegmentPath)
        requires
            lo <= hi <= self@.len(),
        ensures
            r@ == self@.subrange(lo as int, hi as int),
    {
        let mut out: Vec<PathSegment> = Vec::new();
        let mut i: usize = lo;
        while i < hi
            invariant
                lo <= i <= hi <= self.segments@.len(),
                out@.len() == i - lo,
                forall|k: int| 0 <= k < out@.len() ==> out@[k]@ == self.segments@[lo + k]@,
            decreases hi - i,
        {
            out.push(self.segments[i].clone());
            i += 1;
        }
        let r = SegmentPath { segments: out };
        assert(r@ =~= self@.subrange(lo as int, hi as int));
        r
    }

    /// This path followed by the segments of `rest`.
    pub fn join(&self, rest: &SegmentPath) -> (r: SegmentPath)
        ensures
            r@ == self@ + rest@,
    {
        let mut out: Vec<PathSegment> = Vec::new();
        let mut i: usize = 0;
        while i < self.segments.len()
            invariant
                i <= self.segments@.len(),
                out@.len() == i,
                forall|k: int| 0 <= k < i ==> out@[k]@ == self.segments@[k]@,
            decreases self.segments@.len() - i,
        {
            out.push(self.segments[i].clone());
            i += 1;
        }
        let mut j: usize = 0;
        while j < rest.segments.len()
            invariant
                j <= rest.segments@.len(),
                out@.len() == self.segments@.len() + j,
                forall|k: int|
                    0 <= k < self.segments@.len() ==> out@[k]@ == self.segments@[k]@,
                forall|k: int|
                    0 <= k < j ==> out@[self.segments@.len() + k]@ == rest.segments@[k]@,
            decreases rest.segments@.len() - j,
        {
            out.push(rest.segments[j].clone());
            j += 1;
        }
        let r = SegmentPath { segments: out };
        assert(r@ =~= self@ + rest@);
        r
    }

    /// Whether `base` is an initial stretch of this path.
    pub fn starts_with(&self, base: &SegmentPath) -> (r: bool)
        ensures
            r == is_prefix_of(base@, self@),
    {
        if base.segments.len() > self.segments.len() {
            return false;
        }
        let mut i: usize = 0;
        while i < base.segments.len()
            invariant
                i <= base.segments@.len() <= self.segments@.len(),
                forall|k: int| 0 <= k < i ==> self.segments@[k]@ == base.segments@[k]@,
            decreases base.segments@.len() - i,
        {
            if !self.segments[i].same(&base.segments[i]) {
                proof {
                    let sub = self@.subrange(0, base@.len() as int);
                    assert(sub[i as int] == self.segments@[i as int]@);
                    assert(base@[i as int] == base.segments@[i as int]@);
                }
                return false;
            }
            i += 1;
        }
        assert(self@.subrange(0, base@.len() as int) =~= base@);
        true
    }

    /// The printed form of this path.
    pub fn render(&self) -> (s: String)
        ensures
            s@ == render_segments(self@),
    {
        let mut out = String::new();
        let mut last: Option<char> = None;
        let mut i: usize = 0;
        assert(self@.subrange(0, 0) =~= Seq::<SegmentView>::empty());
        while i < self.segments.len()
            invariant
                i <= self.segments@.len(),
                out@ == render_segments(self@.subrange(0, i as int)),
                match last {
                    Some(c) => out@.len() > 0 && out@.last() == c,
                    None => out@.len() == 0,
                },
            decreases self.segments@.len() - i,
        {
            let t = self.segments[i].text();
            let tc = chars_of(t.as_str());
            proof {
                let upto = self@.subrange(0, i + 1);
                assert(upto.drop_last() =~= self@.subrange(0, i as int));
                assert(upto.last() == self.segments@[i as int]@);
            }
            if tc.len() > 0 && tc[0] == '/' {
                out = t;
            } else {
                let separate = match last {
                    Some(c) => c != '/',
                    None => false,
                };
                if separate {
                    proof {
                        reveal_strlit("/");
                    }
                    let ghost before = out@;
                    out.append("/");
                    assert(out@ =~= before + seq!['/']);
                    last = Some('/');
                }
                out.append(t.as_str());
            }
            if tc.len() > 0 {
                last = Some(tc[tc.len() - 1]);
            }
            i += 1;
        }
        assert(self@.subrange(0, i as int) =~= self@);
        out
    }
}

} // verus!
