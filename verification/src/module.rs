//! Modules: the top-level directory a file belongs to.

use crate::render::Render;
use crate::segment::{segment_text, PathSegment, SegmentView};
use vstd::prelude::*;
use vstd::std_specs::cmp::PartialEqSpecImpl;
use vstd::std_specs::convert::FromSpecImpl;

verus! {

/// Why a path segment does not name a module.
#[derive(Debug)]
pub enum ModuleFromComponentError {
    /// The segment is not a plain name; the payload is its text.
    InvalidComponent(String),
}

/// The text of a path segment.
pub fn component_to_string(component: &PathSegment) -> (s: String)
    ensures
        s@ == segment_text(component@),
{
    component.text()
}

/// The name of a module.
#[derive(Debug)]
pub struct Module(String);

impl View for Module {
    type V = Seq<char>;

    closed spec fn view(&self) -> Seq<char> {
        self.0@
    }
}

impl Clone for Module {
    fn clone(&self) -> (r: Self)
        ensures
            r@ == self@,
    {
        Module(self.0.clone())
    }
}

impl PartialEq for Module {
    fn eq(&self, other: &Module) -> (r: bool) {
        self.0 == other.0
    }
}

impl Eq for Module {

}

impl PartialEqSpecImpl for Module {
    open spec fn obeys_eq_spec() -> bool {
        true
    }

    open spec fn eq_spec(&self, other: &Module) -> bool {
        self@ == other@
    }
}

impl From<String> for Module {
    fn from(value: String) -> (r: Module) {
        Module(value)
    }
}

impl FromSpecImpl<String> for Module {
    open spec fn obeys_from_spec() -> bool {
        true
    }

    open spec fn from_spec(value: String) -> Module {
        Module::named(value)
    }
}

impl Render for Module {
    open spec fn rendered(&self) -> Seq<char> {
        self@
    }

    fn render(&self) -> (s: String) {
        self.0.clone()
    }
}

impl Module {
    /// The module whose name is `name`.
    pub closed spec fn named(name: String) -> Module {
        Module(name)
    }

    /// The module named by a path segment. Only a plain name names a module;
    /// any other segment is refused with its text.
    pub fn try_from(value: PathSegment) -> (r: Result<Module, ModuleFromComponentError>)
        ensures
            match value@ {
                SegmentView::Normal(n) => r matches Ok(m) && m@ == n,
                other => r matches Err(ModuleFromComponentError::InvalidComponent(s)) && s@
                    == segment_text(other),
            },
    {
        match value {
            PathSegment::Normal(name) => Ok(Module(name)),
            other => Err(ModuleFromComponentError::InvalidComponent(component_to_string(&other))),
        }
    }

    /// The module's name.
    pub fn as_str(&self) -> (s: &str)
        ensures
            s@ == self@,
    {
        self.0.as_str()
    }
}

/// A module made from a name carries that name.
pub proof fn lemma_named_view(name: String)
    ensures
        Module::named(name)@ == name@,
{
}

} // verus!
