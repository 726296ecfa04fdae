//! Rendering to canonical text.
//!
//! Endpoints of a dependency are compared, grouped and printed by the text
//! they render to, never by their internal structure.

use vstd::prelude::*;

verus! {

/// A value that renders to a canonical text.
pub trait Render {
    /// The text this value renders to.
    spec fn rendered(&self) -> Seq<char>;

    /// Renders this value.
    fn render(&self) -> (s: String)
        ensures
            s@ == self.rendered(),
    ;
}

impl<'a, T: Render> Render for &'a T {
    open spec fn rendered(&self) -> Seq<char> {
        (**self).rendered()
    }

    fn render(&self) -> (s: String) {
        (**self).render()
    }
}

impl Render for String {
    open spec fn rendered(&self) -> Seq<char> {
        self@
    }

    fn render(&self) -> (s: String) {
        self.clone()
    }
}

} // verus!
