//! The rules a tree is held to.
//!
//! No module may depend on itself through other modules, no file on itself
//! through other files; a file may reach into another module only through a
//! barrel file; and a barrel file may not import another barrel file.

use crate::dependency::chain::{chain_text, normal_form, DependencyChain};
use crate::dependency::cycle::{
    acyclic, chains_of, has_edge, is_cycle, is_simple_cycle, on_chain, shares_edge, shares_edge_at,
    CycleDetector, Graph,
};
use crate::dependency::{dependency_text, Dependency};
use crate::dependency::list::{grouped, keys_of, DependencyList};
use crate::dependency::trace::reported_cycles;
use crate::dependency::tree::{path_pairs, PathPair};
use crate::module::Module;
use crate::render::Render;
use crate::repository::child::{is_barrel_path, module_name_of, RepositoryChildPath};
use crate::segment::render_segments;
use vstd::prelude::*;
use vstd::string::*;

verus! {

/// What a printed circular dependency begins with.
pub open spec fn circular_prefix() -> Seq<char> {
    seq![
        'C', 'i', 'r', 'c', 'u', 'l', 'a', 'r', ' ', 'd', 'e', 'p', 'e', 'n', 'd', 'e', 'n', 'c',
        'y', ':', ' ',
    ]
}

/// What a printed import that goes round a barrel file begins with.
pub open spec fn external_prefix() -> Seq<char> {
    seq![
        'E', 'x', 't', 'e', 'r', 'n', 'a', 'l', ' ', 'i', 'm', 'p', 'o', 'r', 't', ' ', 'd', 'o',
        'e', 's', ' ', 'n', 'o', 't', ' ', 'u', 's', 'e', ' ', 'a', ' ', 'b', 'a', 'r', 'r', 'e',
        'l', ' ', 'f', 'i', 'l', 'e', ':', ' ',
    ]
}

/// What a printed import of a barrel file by a barrel file begins with.
pub open spec fn barrel_prefix() -> Seq<char> {
    seq![
        'B', 'a', 'r', 'r', 'e', 'l', ' ', 'f', 'i', 'l', 'e', ' ', 'i', 'm', 'p', 'o', 'r', 't',
        's', ' ', 'a', 'n', 'o', 't', 'h', 'e', 'r', ' ', 'b', 'a', 'r', 'r', 'e', 'l', ' ', 'f',
        'i', 'l', 'e', ':', ' ',
    ]
}

/// One breach of a rule.
#[derive(Debug)]
pub enum ValidationFailure {
    /// A cycle of dependencies.
    CircularDependency(DependencyChain),
    /// A dependency on a file of another module that is no barrel file.
    ExternalBarrelImport(Dependency<RepositoryChildPath, RepositoryChildPath>),
    /// A dependency of a barrel file on a barrel file.
    BarrelImportsBarrel(Dependency<RepositoryChildPath, RepositoryChildPath>),
}

impl Render for ValidationFailure {
    open spec fn rendered(&self) -> Seq<char> {
        match self {
            ValidationFailure::CircularDependency(chain) => circular_prefix() + chain_text(chain@),
            ValidationFailure::ExternalBarrelImport(dependency) => external_prefix()
                + dependency_text(
                render_segments(dependency.from@),
                render_segments(dependency.to@),
            ),
            ValidationFailure::BarrelImportsBarrel(dependency) => barrel_prefix() + dependency_text(
                render_segments(dependency.from@),
                render_segments(dependency.to@),
            ),
        }
    }

    fn render(&self) -> (s: String) {
        proof {
            reveal_strlit("Circular dependency: ");
            reveal_strlit("External import does not use a barrel file: ");
            reveal_strlit("Barrel file imports another barrel file: ");
            assert("Circular dependency: "@ =~= circular_prefix());
            assert("External import does not use a barrel file: "@ =~= external_prefix());
            assert("Barrel file imports another barrel file: "@ =~= barrel_prefix());
        }
        match self {
            ValidationFailure::CircularDependency(chain) => {
                let mut out = String::from_str("Circular dependency: ");
                out.append(chain.render().as_str());
                out
            },
            ValidationFailure::ExternalBarrelImport(dependency) => {
                let mut out = String::from_str("External import does not use a barrel file: ");
                out.append(dependency.render().as_str());
                out
            },
            ValidationFailure::BarrelImportsBarrel(dependency) => {
                let mut out = String::from_str("Barrel file imports another barrel file: ");
                out.append(dependency.render().as_str());
                out
            },
        }
    }
}

/// The chain of a breach, where the breach is a cycle.
pub open spec fn cycle_of(failure: ValidationFailure) -> Option<Seq<Seq<char>>> {
    match failure {
        ValidationFailure::CircularDependency(chain) => Some(chain@),
        _ => None,
    }
}

/// The cycle `chain` is one of `failures`.
pub open spec fn names_cycle(failures: Seq<ValidationFailure>, chain: Seq<Seq<char>>) -> bool {
    exists|i: int| 0 <= i < failures.len() && cycle_of(#[trigger] failures[i]) == Some(chain)
}

/// The breach is a cycle of the graph that meets no node twice, in the form
/// in which chains are compared.
pub open spec fn is_cycle_breach(graph: Graph, failure: ValidationFailure) -> bool {
    match failure {
        ValidationFailure::CircularDependency(chain) => is_simple_cycle(graph, chain@)
            && normal_form(chain@) == chain@,
        _ => false,
    }
}

/// The breach is a cycle that runs along the edge from `u` to `w`.
pub open spec fn breach_on_edge(failure: ValidationFailure, u: Seq<char>, w: Seq<char>) -> bool {
    match failure {
        ValidationFailure::CircularDependency(chain) => on_chain(chain@, u, w),
        _ => false,
    }
}

/// One of `failures` is a cycle that runs along the edge from index `k` of
/// `p` to the next.
pub open spec fn breach_at(failures: Seq<ValidationFailure>, p: Seq<Seq<char>>, k: int) -> bool {
    0 <= k < p.len() - 1 && exists|i: int|
        0 <= i < failures.len() && breach_on_edge(#[trigger] failures[i], p[k], p[k + 1])
}

/// One of `failures` is a cycle that runs along an edge of `p`.
pub open spec fn breach_along(failures: Seq<ValidationFailure>, p: Seq<Seq<char>>) -> bool {
    exists|k: int| #[trigger] breach_at(failures, p, k)
}

/// The chain of each of `failures` that is a cycle.
pub open spec fn cycles_in(failures: Seq<ValidationFailure>) -> Seq<Option<Seq<Seq<char>>>> {
    Seq::new(failures.len(), |i: int| cycle_of(failures[i]))
}

/// Each of `chains` as the chain of a breach.
pub open spec fn as_cycles(chains: Seq<Seq<Seq<char>>>) -> Seq<Option<Seq<Seq<char>>>> {
    Seq::new(chains.len(), |i: int| Some(chains[i]))
}

/// `failures` are the cycles that a depth-first search of the graph reports,
/// in the order in which it comes upon them.
///
/// They are cycles of the graph, none given twice; every cycle of the graph
/// shares an edge with one of them, so that there is one exactly if the graph
/// has a cycle; and every edge from a node to itself is one.
pub open spec fn reports_cycles(graph: Graph, failures: Seq<ValidationFailure>) -> bool {
    &&& cycles_in(failures) == as_cycles(reported_cycles(graph))
    &&& forall|i: int| 0 <= i < failures.len() ==> is_cycle_breach(graph, #[trigger] failures[i])
    &&& forall|p: Seq<Seq<char>>| #[trigger] is_cycle(graph, p) ==> breach_along(failures, p)
    &&& forall|i: int, j: int|
        0 <= i < failures.len() && 0 <= j < failures.len() && i != j ==> cycle_of(
            #[trigger] failures[i],
        ) != cycle_of(#[trigger] failures[j])
    &&& failures.len() == 0 <==> acyclic(graph)
    &&& forall|a: Seq<char>| #[trigger]
        has_edge(graph, a, a) ==> names_cycle(failures, seq![a, a])
}

/// The endpoints of the dependencies that go round a barrel file.
pub open spec fn external_imports(failures: Seq<ValidationFailure>) -> Seq<Option<PathPair>> {
    Seq::new(
        failures.len(),
        |i: int|
            match failures[i] {
                ValidationFailure::ExternalBarrelImport(d) => Some((d.from@, d.to@)),
                _ => None,
            },
    )
}

/// The endpoints of the dependencies of a barrel file on a barrel file.
pub open spec fn barrel_imports(failures: Seq<ValidationFailure>) -> Seq<Option<PathPair>> {
    Seq::new(
        failures.len(),
        |i: int|
            match failures[i] {
                ValidationFailure::BarrelImportsBarrel(d) => Some((d.from@, d.to@)),
                _ => None,
            },
    )
}

/// The dependency leaves the module of its source for a file that is no
/// barrel file.
pub open spec fn goes_round_barrel(pair: PathPair) -> bool {
    module_name_of(pair.0) != module_name_of(pair.1) && !is_barrel_path(pair.1)
}

/// Both endpoints of the dependency are barrel files.
pub open spec fn links_barrels(pair: PathPair) -> bool {
    is_barrel_path(pair.0) && is_barrel_path(pair.1)
}

/// Those of the first `n` of `pairs` that leave the module of their source
/// for a file that is no barrel file, in order.
pub open spec fn external_breaches(pairs: Seq<PathPair>, n: int) -> Seq<Option<PathPair>>
    decreases n,
{
    if n <= 0 {
        Seq::empty()
    } else if goes_round_barrel(pairs[n - 1]) {
        external_breaches(pairs, n - 1).push(Some(pairs[n - 1]))
    } else {
        external_breaches(pairs, n - 1)
    }
}

/// Those of the first `n` of `pairs` that link two barrel files, in order.
pub open spec fn barrel_breaches(pairs: Seq<PathPair>, n: int) -> Seq<Option<PathPair>>
    decreases n,
{
    if n <= 0 {
        Seq::empty()
    } else if links_barrels(pairs[n - 1]) {
        barrel_breaches(pairs, n - 1).push(Some(pairs[n - 1]))
    } else {
        barrel_breaches(pairs, n - 1)
    }
}

/// The cycles of a set of dependencies, each as a breach.
///
/// The graph searched has an edge for each dependency, from what its source
/// renders to to what its target renders to. Every breach is a cycle of that
/// graph that meets no node twice, in the form in which chains are compared,
/// and none is given twice. There is a breach exactly if the graph has a
/// cycle, and every dependency of a node on itself is one.
pub fn circular_dependencies<TFrom: Render, TTo: Render>(
    dependencies: &DependencyList<TFrom, TTo>,
) -> (failures: Vec<ValidationFailure>)
    ensures
        reports_cycles(grouped(keys_of(dependencies@)), failures@),
{
    let grouped_by_from = dependencies.group_by_from();
    let ghost graph = grouped(keys_of(dependencies@));
    let detector = CycleDetector::new(grouped_by_from);
    let cycles = detector.find_cycles();
    let ghost found = cycles@;
    let mut failures: Vec<ValidationFailure> = Vec::new();
    for chain in it: cycles
        invariant
            it.seq() == found,
            failures@.len() == it.index(),
            forall|i: int|
                0 <= i < failures@.len() ==> cycle_of(#[trigger] failures@[i]) == Some(found[i]@),
    {
        failures.push(ValidationFailure::CircularDependency(chain));
    }
    proof {
        assert(cycles_in(failures@) =~= as_cycles(chains_of(found)));
        assert forall|p: Seq<Seq<char>>| #[trigger] is_cycle(graph, p) implies breach_along(
            failures@,
            p,
        ) by {
            assert(shares_edge(found, p));
            let k = choose|k: int| #[trigger] shares_edge_at(found, p, k);
            let i = choose|i: int|
                0 <= i < found.len() && on_chain((#[trigger] found[i])@, p[k], p[k + 1]);
            assert(breach_on_edge(failures@[i], p[k], p[k + 1]));
            assert(breach_at(failures@, p, k));
        }
        assert forall|a: Seq<char>| #[trigger] has_edge(graph, a, a) implies names_cycle(
            failures@,
            seq![a, a],
        ) by {
            let i = choose|i: int| 0 <= i < found.len() && (#[trigger] found[i])@ == seq![a, a];
            assert(cycle_of(failures@[i]) == Some(seq![a, a]));
        }
    }
    failures
}

/// The cycles among the modules of a tree.
pub fn validate_circular_modules(dependencies: &DependencyList<Module, Module>) -> (failures: Vec<
    ValidationFailure,
>)
    ensures
        reports_cycles(grouped(keys_of(dependencies@)), failures@),
{
    circular_dependencies(dependencies)
}

/// The cycles among the files of a tree.
pub fn validate_circular_files(
    dependencies: &DependencyList<RepositoryChildPath, RepositoryChildPath>,
) -> (failures: Vec<ValidationFailure>)
    ensures
        reports_cycles(grouped(keys_of(dependencies@)), failures@),
{
    circular_dependencies(dependencies)
}

/// The dependencies that leave the module of their source for a file that is
/// no barrel file, in the order of the set, each as a breach.
pub fn validate_external_barrel_imports(
    dependencies: &DependencyList<RepositoryChildPath, RepositoryChildPath>,
) -> (failures: Vec<ValidationFailure>)
    requires
        forall|i: int| 0 <= i < dependencies@.len() ==> (#[trigger] dependencies@[i]).has_modules(),
    ensures
        external_imports(failures@) == external_breaches(
            path_pairs(dependencies@),
            dependencies@.len() as int,
        ),
{
    let edges = dependencies.as_ref();
    let ghost pairs = path_pairs(dependencies@);
    let mut failures: Vec<ValidationFailure> = Vec::new();
    let mut i: usize = 0;
    assert(external_imports(failures@) =~= external_breaches(pairs, 0));
    while i < edges.len()
        invariant
            i <= edges@.len(),
            edges@ == dependencies@,
            pairs == path_pairs(dependencies@),
            forall|k: int| 0 <= k < edges@.len() ==> (#[trigger] edges@[k]).has_modules(),
            external_imports(failures@) == external_breaches(pairs, i as int),
        decreases edges@.len() - i,
    {
        let dependency = &edges[i];
        assert(dependency.has_modules());
        assert(pairs[i as int] == (dependency.from@, dependency.to@));
        if !dependency.is_internal() && !dependency.to.is_barrel() {
            let ghost before = external_imports(failures@);
            let copy = dependency.clone();
            failures.push(ValidationFailure::ExternalBarrelImport(copy));
            assert(external_imports(failures@) =~= before.push(Some(pairs[i as int])));
        }
        i += 1;
    }
    failures
}

/// The dependencies of a barrel file on a barrel file, in the order of the
/// set, each as a breach.
pub fn validate_barrel_imports_barrel(
    dependencies: &DependencyList<RepositoryChildPath, RepositoryChildPath>,
) -> (failures: Vec<ValidationFailure>)
    ensures
        barrel_imports(failures@) == barrel_breaches(
            path_pairs(dependencies@),
            dependencies@.len() as int,
        ),
{
    let edges = dependencies.as_ref();
    let ghost pairs = path_pairs(dependencies@);
    let mut failures: Vec<ValidationFailure> = Vec::new();
    let mut i: usize = 0;
    assert(barrel_imports(failures@) =~= barrel_breaches(pairs, 0));
    while i < edges.len()
        invariant
            i <= edges@.len(),
            edges@ == dependencies@,
            pairs == path_pairs(dependencies@),
            barrel_imports(failures@) == barrel_breaches(pairs, i as int),
        decreases edges@.len() - i,
    {
        let dependency = &edges[i];
        assert(pairs[i as int] == (dependency.from@, dependency.to@));
        if dependency.from.is_barrel() && dependency.to.is_barrel() {
            let ghost before = barrel_imports(failures@);
            let copy = dependency.clone();
            failures.push(ValidationFailure::BarrelImportsBarrel(copy));
            assert(barrel_imports(failures@) =~= before.push(Some(pairs[i as int])));
        }
        i += 1;
    }
    failures
}

} // verus!
