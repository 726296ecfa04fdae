//! Dependencies: ordered pairs of endpoints, compared by the text they
//! render to.

pub mod chain;
pub mod cycle;
pub mod list;
mod search;
pub mod trace;
pub mod tree;

use crate::module::Module;
use crate::render::Render;
use crate::repository::child::{module_name_of, RepositoryChildPath};
use crate::text::str_eq;
use vstd::prelude::*;
use vstd::std_specs::cmp::PartialEqSpecImpl;
use vstd::string::*;

verus! {

/// The text between the two endpoints of a printed dependency.
pub open spec fn arrow() -> Seq<char> {
    seq![' ', '>', ' ']
}

/// The printed form of a dependency between two rendered endpoints.
pub open spec fn dependency_text(from: Seq<char>, to: Seq<char>) -> Seq<char> {
    from + arrow() + to
}

/// The line that draws a dependency between two rendered endpoints in a
/// graph description: two spaces, the source in double quotes, an arrow, the
/// target in double quotes, and a semicolon.
pub open spec fn dot_line(from: Seq<char>, to: Seq<char>) -> Seq<char> {
    seq![' ', ' ', '"'] + from + seq!['"', ' ', '-', '>', ' ', '"'] + to + seq!['"', ';']
}

/// A dependency of `from` on `to`.
#[derive(Debug)]
pub struct Dependency<TFrom: Render, TTo: Render> {
    pub from: TFrom,
    pub to: TTo,
}

impl<TFrom: Render, TTo: Render> PartialEq for Dependency<TFrom, TTo> {
    fn eq(&self, other: &Self) -> (r: bool) {
        self.from.render() == other.from.render() && self.to.render() == other.to.render()
    }
}

impl<TFrom: Render, TTo: Render> Eq for Dependency<TFrom, TTo> {

}

impl<TFrom: Render, TTo: Render> PartialEqSpecImpl for Dependency<TFrom, TTo> {
    open spec fn obeys_eq_spec() -> bool {
        true
    }

    open spec fn eq_spec(&self, other: &Self) -> bool {
        self.key() == other.key()
    }
}

impl<TFrom: Render, TTo: Render> Render for Dependency<TFrom, TTo> {
    open spec fn rendered(&self) -> Seq<char> {
        dependency_text(self.from.rendered(), self.to.rendered())
    }

    fn render(&self) -> (s: String) {
        proof {
            reveal_strlit(" > ");
            assert(" > "@ =~= arrow());
        }
        let mut out = self.from.render();
        out.append(" > ");
        out.append(self.to.render().as_str());
        out
    }
}

impl<TFrom: Render, TTo: Render> Dependency<TFrom, TTo> {
    /// The pair of texts this dependency is identified by: what its source
    /// and its target render to.
    pub open spec fn key(&self) -> (Seq<char>, Seq<char>) {
        (self.from.rendered(), self.to.rendered())
    }

    /// The dependency of `from` on `to`.
    pub fn create(from: TFrom, to: TTo) -> (d: Dependency<TFrom, TTo>)
        ensures
            d.from == from,
            d.to == to,
    {
        Dependency { from, to }
    }

    /// The line that draws this dependency in a graph description.
    pub fn to_dot_format(&self) -> (s: String)
        ensures
            s@ == dot_line(self.from.rendered(), self.to.rendered()),
    {
        proof {
            reveal_strlit("  \"");
            reveal_strlit("\" -> \"");
            reveal_strlit("\";");
            assert("  \""@ =~= seq![' ', ' ', '"']);
            assert("\" -> \""@ =~= seq!['"', ' ', '-', '>', ' ', '"']);
            assert("\";"@ =~= seq!['"', ';']);
        }
        let mut out = String::from_str("  \"");
        out.append(self.from.render().as_str());
        out.append("\" -> \"");
        out.append(self.to.render().as_str());
        out.append("\";");
        out
    }
}

impl Dependency<Module, Module> {
    /// Whether both endpoints are the same module.
    pub fn is_internal(&self) -> (r: bool)
        ensures
            r == (self.from.rendered() == self.to.rendered()),
    {
        self.from.render() == self.to.render()
    }
}

impl<'a> Dependency<&'a Module, &'a Module> {
    /// Whether both endpoints are the same module.
    pub fn is_internal(&self) -> (r: bool)
        ensures
            r == (self.from.rendered() == self.to.rendered()),
    {
        self.from.render() == self.to.render()
    }
}

impl Clone for Dependency<Module, Module> {
    fn clone(&self) -> (r: Self)
        ensures
            r.from@ == self.from@,
            r.to@ == self.to@,
    {
        Dependency { from: self.from.clone(), to: self.to.clone() }
    }
}

impl Clone for Dependency<RepositoryChildPath, RepositoryChildPath> {
    fn clone(&self) -> (r: Self)
        ensures
            r.from@ == self.from@,
            r.to@ == self.to@,
    {
        Dependency { from: self.from.clone(), to: self.to.clone() }
    }
}

impl<TTo: Render> Dependency<RepositoryChildPath, TTo> {
    /// Whether the source lies in the module named `module_name`.
    pub fn is_from_module(&self, module_name: &str) -> (r: bool)
        ensures
            r == (module_name_of(self.from@) == Some(module_name@)),
    {
        match self.from.module() {
            Ok(m) => str_eq(m.as_str(), module_name),
            Err(_) => false,
        }
    }
}

impl Dependency<RepositoryChildPath, RepositoryChildPath> {
    /// Both endpoints belong to a module.
    pub open spec fn has_modules(&self) -> bool {
        module_name_of(self.from@) is Some && module_name_of(self.to@) is Some
    }

    /// Both endpoints belong to the same module.
    pub open spec fn internal(&self) -> bool {
        module_name_of(self.from@) == module_name_of(self.to@)
    }

    /// Whether both endpoints belong to the same module.
    pub fn is_internal(&self) -> (r: bool)
        requires
            self.has_modules(),
        ensures
            r == self.internal(),
    {
        match (self.from.module(), self.to.module()) {
            (Ok(a), Ok(b)) => a == b,
            _ => false,
        }
    }
}

} // verus!
