//! What a depth-first search of a graph comes upon, stated without the
//! search: which nodes it enters in which order, and which cycles it closes.
//!
//! The search enters a node, looks at its successors in the order in which
//! the graph lists them, and leaves the node. A successor that it has entered
//! and not left closes a cycle; a successor that it has left is passed over;
//! any other is entered in turn.

use crate::dependency::chain::normal_form;
use crate::dependency::cycle::Graph;
use crate::unique::distinct;
use vstd::prelude::*;

verus! {

/// The nodes that the graph lists as successors of `u`, in order: those of
/// each entry for `u`, the entries taken in order.
pub open spec fn successors(graph: Graph, u: Seq<char>) -> Seq<Seq<char>>
    decreases graph.len(),
{
    if graph.len() == 0 {
        Seq::empty()
    } else if graph.last().0 == u {
        successors(graph.drop_last(), u) + graph.last().1
    } else {
        successors(graph.drop_last(), u)
    }
}

/// Every node as often as the graph names it: for each entry in order, its
/// node and then the successors listed with it.
pub open spec fn mentions(graph: Graph) -> Seq<Seq<char>>
    decreases graph.len(),
{
    if graph.len() == 0 {
        Seq::empty()
    } else {
        mentions(graph.drop_last()).push(graph.last().0) + graph.last().1
    }
}

/// The nodes of the graph, in the order in which the graph first names them.
pub open spec fn nodes(graph: Graph) -> Seq<Seq<char>> {
    distinct(mentions(graph))
}

/// How far a search has come.
pub struct Trace {
    /// The nodes entered and not left, in the order in which they were
    /// entered.
    pub path: Seq<Seq<char>>,
    /// The nodes left, in the order in which they were left.
    pub done: Seq<Seq<char>>,
    /// The cycles closed, in the order in which they were closed.
    pub found: Seq<Seq<Seq<char>>>,
}

/// A search that has not started.
pub open spec fn start() -> Trace {
    Trace { path: Seq::empty(), done: Seq::empty(), found: Seq::empty() }
}

/// The cycle that an edge from the end of `path` to the node `w` on `path`
/// closes: the path from `w` on, and `w` again.
pub open spec fn closing(path: Seq<Seq<char>>, w: Seq<char>) -> Seq<Seq<char>> {
    path.skip(path.index_of(w)).push(w)
}

/// The search after it has entered the node `v` and left it again.
///
/// `fuel` bounds how many nodes may be entered one inside the other; a search
/// of a graph never needs more than the graph has nodes.
pub open spec fn explore(graph: Graph, trace: Trace, v: Seq<char>, fuel: nat) -> Trace
    decreases fuel, 0nat, 0nat,
{
    if fuel == 0 {
        trace
    } else {
        let entered = Trace { path: trace.path.push(v), done: trace.done, found: trace.found };
        let inner = scan(graph, entered, successors(graph, v), 0, (fuel - 1) as nat);
        Trace { path: trace.path, done: inner.done.push(v), found: inner.found }
    }
}

/// The search after it has looked at the successors `succs` of the node at
/// the end of its path from index `j` on.
pub open spec fn scan(
    graph: Graph,
    trace: Trace,
    succs: Seq<Seq<char>>,
    j: int,
    fuel: nat,
) -> Trace
    decreases fuel, 1nat, succs.len() - j,
{
    if j < 0 || j >= succs.len() {
        trace
    } else {
        let w = succs[j];
        let next = if trace.path.contains(w) {
            Trace {
                path: trace.path,
                done: trace.done,
                found: trace.found.push(closing(trace.path, w)),
            }
        } else if trace.done.contains(w) {
            trace
        } else {
            explore(graph, trace, w, fuel)
        };
        scan(graph, next, succs, j + 1, fuel)
    }
}

/// The search after it has started from each of the first `n` of `starts`
/// that it had not left before.
pub open spec fn searched(graph: Graph, starts: Seq<Seq<char>>, n: int, fuel: nat) -> Trace
    decreases n,
{
    if n <= 0 {
        start()
    } else {
        let trace = searched(graph, starts, n - 1, fuel);
        if trace.done.contains(starts[n - 1]) {
            trace
        } else {
            explore(graph, trace, starts[n - 1], fuel)
        }
    }
}

/// The cycles that a search of the whole graph closes, in the order in which
/// it closes them. The search starts from each node in the order in which the
/// graph first names the nodes.
pub open spec fn back_cycles(graph: Graph) -> Seq<Seq<Seq<char>>> {
    searched(graph, nodes(graph), nodes(graph).len() as int, nodes(graph).len()).found
}

/// Each of `chains` in the form in which chains are compared.
pub open spec fn normalized(chains: Seq<Seq<Seq<char>>>) -> Seq<Seq<Seq<char>>> {
    Seq::new(chains.len(), |i: int| normal_form(chains[i]))
}

/// The cycles that a search of the graph reports: each cycle it closes, in
/// the form in which chains are compared, kept where it first occurs.
pub open spec fn reported_cycles(graph: Graph) -> Seq<Seq<Seq<char>>> {
    distinct(normalized(back_cycles(graph)))
}

/// A node that the graph does not name has no successors.
pub proof fn lemma_unnamed_has_no_successors(graph: Graph, u: Seq<char>)
    requires
        !mentions(graph).contains(u),
    ensures
        successors(graph, u) == Seq::<Seq<char>>::empty(),
    decreases graph.len(),
{
    if graph.len() > 0 {
        let init = graph.drop_last();
        let m = mentions(init).push(graph.last().0);
        assert(mentions(graph) == m + graph.last().1);
        if graph.last().0 == u {
            assert(m[m.len() - 1] == u);
            assert(mentions(graph)[m.len() - 1] == u);
        }
        if mentions(init).contains(u) {
            let i = mentions(init).index_of(u);
            assert(mentions(init)[i] == u);
            assert(mentions(graph)[i] == u);
        }
        lemma_unnamed_has_no_successors(init, u);
    }
}

} // verus!
