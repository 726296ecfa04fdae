//! Cycles in a graph given by the successors of each node.

use crate::dependency::chain::{
    chain_text, close, is_closed, lemma_min_index, lemma_min_index_is, min_index, names_of,
    normal_form, rotate, DependencyChain,
};
use crate::dependency::search::{
    all_below, arc, arc_found, arcs_in_range, called, done_with, extends, is_round_trip,
    is_route, leg, lemma_called_contains, on_cycle, settled, step, NodeState, Search,
};
use crate::dependency::trace::{
    back_cycles, lemma_unnamed_has_no_successors, mentions, nodes, normalized, reported_cycles,
    searched, start, successors,
};
use crate::index::{hash_of, hash_str, hashes_of, HashIndex};
use crate::render::Render;
use crate::text::lex_lt;
use crate::unique::{distinct, lemma_distinct};
use vstd::prelude::*;

verus! {

/// A graph: for some nodes, the nodes each depends on.
pub type Graph = Seq<(Seq<char>, Seq<Seq<char>>)>;

/// The graph described by a list of nodes with their successors.
pub open spec fn adjacency_of(v: Seq<(String, Vec<String>)>) -> Graph {
    Seq::new(v.len(), |i: int| (v[i].0@, names_of(v[i].1@)))
}

/// Entry `i` of the graph names `u`, and its successor `j` is `w`.
pub open spec fn edge_at(graph: Graph, i: int, j: int, u: Seq<char>, w: Seq<char>) -> bool {
    &&& 0 <= i < graph.len()
    &&& 0 <= j < graph[i].1.len()
    &&& graph[i].0 == u
    &&& graph[i].1[j] == w
}

/// The graph has an edge from `u` to `w`.
pub open spec fn has_edge(graph: Graph, u: Seq<char>, w: Seq<char>) -> bool {
    exists|i: int, j: int| #[trigger] edge_at(graph, i, j, u, w)
}

/// The graph has an edge from the node at index `k` of `p` to the next.
pub open spec fn hop(graph: Graph, p: Seq<Seq<char>>, k: int) -> bool {
    has_edge(graph, p[k], p[k + 1])
}

/// `p` follows edges of the graph from each of its nodes to the next.
pub open spec fn is_walk(graph: Graph, p: Seq<Seq<char>>) -> bool {
    forall|k: int| 0 <= k < p.len() - 1 ==> #[trigger] hop(graph, p, k)
}

/// `p` is a cycle of the graph: a walk of at least one edge that ends at the
/// node it starts at.
pub open spec fn is_cycle(graph: Graph, p: Seq<Seq<char>>) -> bool {
    &&& p.len() >= 2
    &&& p.first() == p.last()
    &&& is_walk(graph, p)
}

/// `p` is a cycle of the graph that meets no node twice but the one it starts
/// and ends at.
pub open spec fn is_simple_cycle(graph: Graph, p: Seq<Seq<char>>) -> bool {
    is_cycle(graph, p) && p.drop_last().no_duplicates()
}

/// The graph has no cycle.
pub open spec fn acyclic(graph: Graph) -> bool {
    forall|p: Seq<Seq<char>>| !is_cycle(graph, p)
}

/// The nodes of each of `chains`.
pub open spec fn chains_of(chains: Seq<DependencyChain>) -> Seq<Seq<Seq<char>>> {
    Seq::new(chains.len(), |i: int| chains[i]@)
}

/// The chain is one of `chains`.
pub open spec fn reported(chains: Seq<DependencyChain>, chain: Seq<Seq<char>>) -> bool {
    exists|i: int| 0 <= i < chains.len() && (#[trigger] chains[i])@ == chain
}

/// The edge from `u` to `w` is the one from index `k` of `c` to the next.
pub open spec fn link(c: Seq<Seq<char>>, k: int, u: Seq<char>, w: Seq<char>) -> bool {
    0 <= k < c.len() - 1 && c[k] == u && c[k + 1] == w
}

/// The chain `c` runs along the edge from `u` to `w`.
pub open spec fn on_chain(c: Seq<Seq<char>>, u: Seq<char>, w: Seq<char>) -> bool {
    exists|k: int| #[trigger] link(c, k, u, w)
}

/// One of `chains` runs along the edge from `u` to `w`.
pub open spec fn edge_reported(chains: Seq<DependencyChain>, u: Seq<char>, w: Seq<char>) -> bool {
    exists|i: int| 0 <= i < chains.len() && on_chain((#[trigger] chains[i])@, u, w)
}

/// One of `chains` runs along the edge from index `k` of `p` to the next.
pub open spec fn shares_edge_at(chains: Seq<DependencyChain>, p: Seq<Seq<char>>, k: int) -> bool {
    0 <= k < p.len() - 1 && edge_reported(chains, p[k], p[k + 1])
}

/// One of `chains` runs along an edge of `p`.
pub open spec fn shares_edge(chains: Seq<DependencyChain>, p: Seq<Seq<char>>) -> bool {
    exists|k: int| #[trigger] shares_edge_at(chains, p, k)
}

/// The names of the nodes numbered by `ids`.
spec fn named(names: Seq<String>, ids: Seq<usize>) -> Seq<Seq<char>> {
    Seq::new(ids.len(), |k: int| names[ids[k] as int]@)
}

/// No two numbers stand for the same name.
spec fn distinct_names(names: Seq<String>) -> bool {
    forall|a: int, b: int|
        0 <= a < names.len() && 0 <= b < names.len() && a != b ==> (#[trigger] names[a])@ != (
        #[trigger] names[b])@
}

/// Every arc of the numbered graph is an edge of the graph of names.
spec fn arcs_are_edges(names: Seq<String>, succ: Seq<Vec<usize>>, graph: Graph) -> bool {
    forall|u: int, k: int|
        0 <= u < succ.len() && 0 <= k < succ[u]@.len() ==> has_edge(
            graph,
            names[u]@,
            names[(#[trigger] succ[u]@[k]) as int]@,
        )
}

/// Successor `j` of entry `i` of the graph of names is an arc of the numbered
/// graph.
spec fn covered(
    names: Seq<String>,
    succ: Seq<Vec<usize>>,
    graph: Graph,
    i: int,
    j: int,
) -> bool {
    exists|u: usize, w: usize|
        u < names.len() && w < names.len() && names[u as int]@ == graph[i].0 && names[w as int]@
            == graph[i].1[j] && #[trigger] arc(succ, u, w)
}

/// Every successor before entry `i`, and the first `j` successors of entry
/// `i`, are arcs of the numbered graph.
spec fn covered_up_to(
    names: Seq<String>,
    succ: Seq<Vec<usize>>,
    graph: Graph,
    i: int,
    j: int,
) -> bool {
    forall|a: int, b: int|
        0 <= a < graph.len() && 0 <= b < graph[a].1.len() && (a < i || (a == i && b < j))
            ==> #[trigger] covered(names, succ, graph, a, b)
}

/// The numbered graph stands for the graph of names.
spec fn numbered(names: Seq<String>, succ: Seq<Vec<usize>>, graph: Graph) -> bool {
    &&& succ.len() == names.len()
    &&& distinct_names(names)
    &&& arcs_in_range(succ)
    &&& arcs_are_edges(names, succ, graph)
}

/// The numbered graph `(names2, succ2)` holds all of `(names1, succ1)`.
spec fn grown(
    names1: Seq<String>,
    succ1: Seq<Vec<usize>>,
    names2: Seq<String>,
    succ2: Seq<Vec<usize>>,
) -> bool {
    &&& names1.len() <= names2.len()
    &&& succ1.len() <= succ2.len()
    &&& forall|u: int| 0 <= u < names1.len() ==> (#[trigger] names2[u])@ == names1[u]@
    &&& forall|u: int| 0 <= u < succ1.len() ==> extends(succ1[u]@, (#[trigger] succ2[u])@)
}

/// An arc stays an arc, and a covered successor stays covered, when the
/// numbered graph grows.
proof fn lemma_grown_keeps_covered(
    names1: Seq<String>,
    succ1: Seq<Vec<usize>>,
    names2: Seq<String>,
    succ2: Seq<Vec<usize>>,
    graph: Graph,
    i: int,
    j: int,
)
    requires
        grown(names1, succ1, names2, succ2),
        succ1.len() == names1.len(),
        covered_up_to(names1, succ1, graph, i, j),
    ensures
        covered_up_to(names2, succ2, graph, i, j),
{
    assert forall|a: int, b: int|
        0 <= a < graph.len() && 0 <= b < graph[a].1.len() && (a < i || (a == i && b < j))
            implies #[trigger] covered(names2, succ2, graph, a, b) by {
        assert(covered(names1, succ1, graph, a, b));
        let (u, w) = choose|u: usize, w: usize|
            u < names1.len() && w < names1.len() && names1[u as int]@ == graph[a].0
                && names1[w as int]@ == graph[a].1[b] && #[trigger] arc(succ1, u, w);
        let k = succ1[u as int]@.index_of(w);
        assert(succ1[u as int]@[k] == w);
        assert(extends(succ1[u as int]@, succ2[u as int]@));
        assert(succ2[u as int]@[k] == w);
        assert(names2[u as int]@ == names1[u as int]@);
        assert(names2[w as int]@ == names1[w as int]@);
        assert(arc(succ2, u, w));
    }
}

/// A round trip of the numbered graph is, by the names of its nodes, a simple
/// cycle of the graph of names.
proof fn lemma_round_trip_is_cycle(
    names: Seq<String>,
    succ: Seq<Vec<usize>>,
    graph: Graph,
    c: Seq<usize>,
)
    requires
        numbered(names, succ, graph),
        is_round_trip(succ, c),
    ensures
        is_simple_cycle(graph, named(names, c)),
{
    let s = named(names, c);
    assert forall|k: int| 0 <= k < s.len() - 1 implies #[trigger] hop(graph, s, k) by {
        assert(step(succ, c, k));
        let u = c[k];
        let w = c[k + 1];
        let x = succ[u as int]@.index_of(w);
        assert(succ[u as int]@[x] == w);
    }
    let body = s.drop_last();
    assert forall|a: int, b: int|
        0 <= a < body.len() && 0 <= b < body.len() && a != b implies body[a] != body[b] by {
        assert(c.drop_last()[a] != c.drop_last()[b]);
        assert(c[a] < names.len());
        assert(c[b] < names.len());
    }
}

/// Turning a cycle that meets no node twice so that it starts at another of
/// its nodes gives such a cycle again.
pub proof fn lemma_rotated_cycle(graph: Graph, s: Seq<Seq<char>>, m: int)
    requires
        is_simple_cycle(graph, s),
        0 <= m < s.len() - 1,
    ensures
        is_simple_cycle(graph, close(rotate(s.drop_last(), m))),
{
    let b = s.drop_last();
    let n = b.len() as int;
    let r = rotate(b, m);
    let c = close(r);
    assert(r.len() == n);
    assert forall|i: int| 0 <= i < n implies r[i] == if i < n - m {
        b[m + i]
    } else {
        b[i - (n - m)]
    } by {}
    assert forall|k: int| 0 <= k < c.len() - 1 implies #[trigger] hop(graph, c, k) by {
        if k < n - 1 {
            if k + 1 < n - m {
                assert(hop(graph, s, m + k));
            } else if k + 1 == n - m {
                assert(hop(graph, s, n - 1));
            } else {
                assert(hop(graph, s, k - (n - m)));
            }
        } else {
            if m == 0 {
                assert(hop(graph, s, n - 1));
            } else {
                assert(hop(graph, s, m - 1));
            }
        }
    }
    assert(c.drop_last() =~= r);
    assert forall|i: int, j: int| 0 <= i < n && 0 <= j < n && i != j implies r[i] != r[j] by {
        let x = if i < n - m {
            m + i
        } else {
            i - (n - m)
        };
        let y = if j < n - m {
            m + j
        } else {
            j - (n - m)
        };
        assert(b[x] != b[y]);
    }
}

/// The form in which a cycle is compared is its own form of comparison.
pub proof fn lemma_normal_form_of_closed(s: Seq<Seq<char>>)
    requires
        is_closed(s),
    ensures
        is_closed(normal_form(s)),
        normal_form(normal_form(s)) == normal_form(s),
        0 <= min_index(s.drop_last()) < s.len() - 1,
{
    let b = s.drop_last();
    let n = b.len() as int;
    lemma_min_index(b);
    let m = min_index(b);
    let r = rotate(b, m);
    let c = close(r);
    assert(r.len() == n);
    assert(c.drop_last() =~= r);
    assert forall|i: int| 0 <= i < r.len() implies !lex_lt(#[trigger] r[i], r[0]) by {
        let x = if i < n - m {
            m + i
        } else {
            i - (n - m)
        };
        assert(r[i] == b[x]);
        assert(r[0] == b[m]);
    }
    lemma_min_index_is(r, 0);
    assert(rotate(r, 0) =~= r);
}

/// A cycle runs along the same edges whichever of its nodes it starts at.
pub proof fn lemma_rotation_keeps_edges(s: Seq<Seq<char>>, m: int, u: Seq<char>, w: Seq<char>)
    requires
        is_closed(s),
        0 <= m < s.len() - 1,
        on_chain(s, u, w),
    ensures
        on_chain(close(rotate(s.drop_last(), m)), u, w),
{
    let b = s.drop_last();
    let n = b.len() as int;
    let r = rotate(b, m);
    let c = close(r);
    let k = choose|k: int| #[trigger] link(s, k, u, w);
    assert(r.len() == n);
    assert forall|i: int| 0 <= i < n implies r[i] == if i < n - m {
        b[m + i]
    } else {
        b[i - (n - m)]
    } by {}
    let x = if k >= m {
        k - m
    } else {
        n - m + k
    };
    assert(c[x] == b[k]);
    assert(s[k] == b[k]);
    if k + 1 < n {
        assert(s[k + 1] == b[k + 1]);
    } else {
        assert(s[k + 1] == b[0]);
    }
    if x + 1 < n {
        assert(c[x + 1] == r[x + 1]);
    } else {
        assert(c[x + 1] == r[0]);
    }
    assert(link(c, x, u, w));
}

/// A cycle that meets no node twice and runs along an edge from a node to
/// itself is that edge alone.
pub proof fn lemma_self_edge_alone(c: Seq<Seq<char>>, a: Seq<char>)
    requires
        is_closed(c),
        c.drop_last().no_duplicates(),
        on_chain(c, a, a),
    ensures
        c == seq![a, a],
{
    let k = choose|k: int| #[trigger] link(c, k, a, a);
    let b = c.drop_last();
    let n = b.len() as int;
    if k + 1 < n {
        assert(b[k] == b[k + 1]);
    } else {
        assert(c[k + 1] == c[0]);
        if k != 0 {
            assert(b[0] == b[k]);
        }
        assert(c =~= seq![a, a]);
    }
}

/// Where the search is done with every node, a walk along arcs that lie on no
/// cycle found does not come back to a node that it has left.
proof fn lemma_walk_descends(s: Search, q: Seq<usize>, k: int)
    requires
        s.inv(),
        forall|u: int| 0 <= u < s.states@.len() ==> s.states@[u] == NodeState::Visited,
        is_route(s.succ@, q),
        forall|x: int| 0 <= x < q.len() - 1 ==> !#[trigger] off_route(s.found@, q, x),
        0 <= k < q.len(),
    ensures
        s.finished@.contains(q[k]),
        s.finished@.contains(q[0]),
        s.finished@.index_of(q[k]) + k <= s.finished@.index_of(q[0]),
    decreases k,
{
    let fin = s.finished@;
    assert(q[k] < s.succ@.len());
    assert(q[0] < s.succ@.len());
    assert(s.states@[q[k] as int] == NodeState::Visited);
    assert(s.states@[q[0] as int] == NodeState::Visited);
    if k > 0 {
        lemma_walk_descends(s, q, k - 1);
        let u = q[k - 1];
        let w = q[k];
        let i = fin.index_of(u);
        assert(fin[i] == u);
        assert(step(s.succ@, q, k - 1));
        let x = s.succ@[u as int]@.index_of(w);
        assert(s.succ@[u as int]@[x] == w);
        assert(settled(s.succ@, fin, s.found@, i));
        assert(done_with(s.succ@, fin, s.found@, i, x));
        assert(!off_route(s.found@, q, k - 1));
        assert(fin.take(i).contains(w));
        let y = fin.take(i).index_of(w);
        assert(fin.take(i)[y] == w);
        assert(fin[y] == w);
        let z = fin.index_of(w);
        assert(fin[z] == w);
        assert(z == y);
    }
}

/// A cycle found runs along the arc from index `k` of `q` to the next.
spec fn off_route(found: Seq<Vec<usize>>, q: Seq<usize>, k: int) -> bool {
    arc_found(found, q[k], q[k + 1])
}

/// The numbers at indices `k` and `k + 1` of `q` stand for the names at those
/// indices of `p`, and the numbered graph has an arc from the one to the other.
spec fn linked(
    names: Seq<String>,
    succ: Seq<Vec<usize>>,
    p: Seq<Seq<char>>,
    q: Seq<usize>,
    k: int,
) -> bool {
    &&& q[k] < names.len()
    &&& q[k + 1] < names.len()
    &&& names[q[k] as int]@ == p[k]
    &&& names[q[k + 1] as int]@ == p[k + 1]
    &&& arc(succ, q[k], q[k + 1])
}

/// Every cycle found is, by the names of its nodes and in the form in which
/// chains are compared, one of `chains`.
spec fn all_reported(names: Seq<String>, found: Seq<Vec<usize>>, chains: Seq<DependencyChain>) -> bool {
    forall|k: int|
        0 <= k < found.len() ==> reported(
            chains,
            normal_form(named(names, (#[trigger] found[k])@)),
        )
}

/// Where the search is done with every node, every cycle of the graph of
/// names shares an edge with a cycle found.
proof fn lemma_cycle_shares_edge(
    names: Seq<String>,
    s: Search,
    graph: Graph,
    chains: Seq<DependencyChain>,
    p: Seq<Seq<char>>,
)
    requires
        numbered(names, s.succ@, graph),
        covered_up_to(names, s.succ@, graph, graph.len() as int, 0),
        s.inv(),
        forall|u: int| 0 <= u < s.states@.len() ==> s.states@[u] == NodeState::Visited,
        all_reported(names, s.found@, chains),
        is_cycle(graph, p),
    ensures
        shares_edge(chains, p),
{
    let number = |x: Seq<char>| choose|u: usize| u < names.len() && names[u as int]@ == x;
    let q = Seq::new(p.len(), |k: int| number(p[k]));
    assert forall|k: int| 0 <= k < p.len() - 1 implies #[trigger] linked(
        names,
        s.succ@,
        p,
        q,
        k,
    ) by {
        assert(hop(graph, p, k));
        let here = p[k];
        let next = p[k + 1];
        let (i, j) = choose|i: int, j: int| #[trigger] edge_at(graph, i, j, here, next);
        assert(covered(names, s.succ@, graph, i, j));
        let (u, w) = choose|u: usize, w: usize|
            u < names.len() && w < names.len() && names[u as int]@ == graph[i].0
                && names[w as int]@ == graph[i].1[j] && #[trigger] arc(s.succ@, u, w);
        assert(names[u as int]@ == p[k]);
        assert(names[w as int]@ == p[k + 1]);
        let a = number(p[k]);
        let b = number(p[k + 1]);
        assert(a < names.len() && names[a as int]@ == p[k]);
        assert(b < names.len() && names[b as int]@ == p[k + 1]);
        assert(a == u);
        assert(b == w);
    }
    assert forall|k: int| 0 <= k < q.len() implies (#[trigger] q[k]) < s.succ@.len() by {
        if k < p.len() - 1 {
            assert(linked(names, s.succ@, p, q, k));
        } else {
            assert(linked(names, s.succ@, p, q, k - 1));
        }
    }
    assert forall|k: int| 0 <= k < q.len() - 1 implies #[trigger] step(s.succ@, q, k) by {
        assert(linked(names, s.succ@, p, q, k));
    }
    if !shares_edge(chains, p) {
        assert forall|x: int| 0 <= x < q.len() - 1 implies !#[trigger] off_route(
            s.found@,
            q,
            x,
        ) by {
            if off_route(s.found@, q, x) {
                assert(linked(names, s.succ@, p, q, x));
                let i = choose|i: int|
                    0 <= i < s.found@.len() && on_cycle((#[trigger] s.found@[i])@, q[x], q[x + 1]);
                let c = s.found@[i]@;
                let y = choose|y: int| #[trigger] leg(c, y, q[x], q[x + 1]);
                let chain = named(names, c);
                assert(is_round_trip(s.succ@, c));
                assert(link(chain, y, p[x], p[x + 1]));
                lemma_normal_form_of_closed(chain);
                lemma_rotation_keeps_edges(chain, min_index(chain.drop_last()), p[x], p[x + 1]);
                assert(reported(chains, normal_form(chain)));
                let z = choose|z: int|
                    0 <= z < chains.len() && (#[trigger] chains[z])@ == normal_form(chain);
                assert(on_chain(chains[z]@, p[x], p[x + 1]));
                assert(shares_edge_at(chains, p, x));
            }
        }
        let last = p.len() - 1;
        assert(q[last] == q[0]);
        lemma_walk_descends(s, q, last);
    }
}

/// Every node as often as the graph names it in its first `i` entries, in the
/// node of entry `i` and in the first `j` successors of entry `i`; with a
/// negative `j`, in the first `i` entries alone.
spec fn mentions_to(graph: Graph, i: int, j: int) -> Seq<Seq<char>> {
    if j < 0 {
        mentions(graph.take(i))
    } else {
        mentions(graph.take(i)).push(graph[i].0) + graph[i].1.take(j)
    }
}

/// The successors of `x` that the first `i` entries of the graph list, and
/// the first `j` successors of entry `i` where that entry is for `x`.
spec fn successors_to(graph: Graph, i: int, j: int, x: Seq<char>) -> Seq<Seq<char>> {
    if j > 0 && graph[i].0 == x {
        successors(graph.take(i), x) + graph[i].1.take(j)
    } else {
        successors(graph.take(i), x)
    }
}

/// The arcs of each node lead, in order, to the successors that the graph
/// lists for its name up to successor `j` of entry `i`.
spec fn rows_to(names: Seq<String>, succ: Seq<Vec<usize>>, graph: Graph, i: int, j: int) -> bool {
    forall|u: int|
        0 <= u < succ.len() ==> called(names_of(names), (#[trigger] succ[u])@) == successors_to(
            graph,
            i,
            j,
            names[u]@,
        )
}

/// Numbering one more name keeps the names in the order in which the graph
/// first names them, and keeps the arcs of each node.
proof fn lemma_interned(
    names0: Seq<String>,
    succ0: Seq<Vec<usize>>,
    names1: Seq<String>,
    succ1: Seq<Vec<usize>>,
    graph: Graph,
    i: int,
    j: int,
    name: Seq<char>,
)
    requires
        0 <= i < graph.len(),
        j <= graph[i].1.len(),
        succ0.len() == names0.len(),
        succ1.len() == names1.len(),
        arcs_in_range(succ0),
        names_of(names0) == distinct(mentions_to(graph, i, j)),
        rows_to(names0, succ0, graph, i, if j < 0 {
            0
        } else {
            j
        }),
        names_of(names1) == if names_of(names0).contains(name) {
            names_of(names0)
        } else {
            names_of(names0).push(name)
        },
        forall|x: int| 0 <= x < succ0.len() ==> succ1[x] == succ0[x],
        succ1.len() > succ0.len() ==> succ1[succ0.len() as int]@.len() == 0,
        name == if j < 0 {
            graph[i].0
        } else {
            graph[i].1[j]
        },
        j < graph[i].1.len(),
    ensures
        names_of(names1) == distinct(mentions_to(graph, i, j).push(name)),
        rows_to(names1, succ1, graph, i, if j < 0 {
            0
        } else {
            j
        }),
{
    let m = mentions_to(graph, i, j);
    let jj = if j < 0 {
        0
    } else {
        j
    };
    assert(m.push(name).drop_last() =~= m);
    lemma_distinct(m);
    assert forall|u: int| 0 <= u < succ1.len() implies called(
        names_of(names1),
        (#[trigger] succ1[u])@,
    ) == successors_to(graph, i, jj, names1[u]@) by {
        if u < succ0.len() {
            assert(names_of(names1)[u] == names_of(names0)[u]);
            assert(called(names_of(names0), succ0[u]@) == successors_to(
                graph,
                i,
                jj,
                names0[u]@,
            ));
            assert(called(names_of(names1), succ1[u]@) =~= called(names_of(names0), succ0[u]@)) by {
                assert forall|k: int| 0 <= k < succ0[u]@.len() implies names_of(
                    names1,
                )[succ0[u]@[k] as int] == names_of(names0)[succ0[u]@[k] as int] by {
                    assert(succ0[u]@[k] < succ0.len());
                }
            }
        } else {
            assert(names_of(names0).len() == names0.len());
            assert(names_of(names1).len() == names1.len());
            assert(!names_of(names0).contains(name));
            assert(u == succ0.len());
            assert(names_of(names1)[u] == name);
            assert(names1[u]@ == name);
            assert(succ1[u]@.len() == 0);
            assert(!m.contains(name));
            let first = mentions(graph.take(i));
            if first.contains(name) {
                let k = first.index_of(name);
                assert(first[k] == name);
                if j >= 0 {
                    assert(m[k] == name);
                }
            }
            lemma_unnamed_has_no_successors(graph.take(i), name);
            if j >= 0 {
                assert(m[first.len() as int] == graph[i].0);
                assert(graph[i].0 != name);
            }
            assert(called(names_of(names1), succ1[u]@) =~= Seq::<Seq<char>>::empty());
        }
    }
}

/// An arc added to the node of entry `i` for successor `j` of that entry
/// brings the arcs of each node up to successor `j + 1`.
proof fn lemma_row_extended(
    names: Seq<String>,
    succ0: Seq<Vec<usize>>,
    succ1: Seq<Vec<usize>>,
    graph: Graph,
    i: int,
    j: int,
    u: usize,
    w: usize,
)
    requires
        0 <= i < graph.len(),
        0 <= j < graph[i].1.len(),
        succ0.len() == names.len(),
        succ1.len() == succ0.len(),
        distinct_names(names),
        u < names.len(),
        w < names.len(),
        names[u as int]@ == graph[i].0,
        names[w as int]@ == graph[i].1[j],
        rows_to(names, succ0, graph, i, j),
        succ1[u as int]@ == succ0[u as int]@.push(w),
        forall|x: int| 0 <= x < succ0.len() && x != u ==> succ1[x] == succ0[x],
    ensures
        rows_to(names, succ1, graph, i, j + 1),
{
    assert forall|x: int| 0 <= x < succ1.len() implies called(
        names_of(names),
        (#[trigger] succ1[x])@,
    ) == successors_to(graph, i, j + 1, names[x]@) by {
        assert(called(names_of(names), succ0[x]@) == successors_to(graph, i, j, names[x]@));
        if x == u {
            assert(graph[i].1.take(j + 1) =~= graph[i].1.take(j).push(graph[i].1[j]));
            assert(called(names_of(names), succ1[x]@) =~= called(
                names_of(names),
                succ0[x]@,
            ).push(names[w as int]@));
            if j == 0 {
                assert(graph[i].1.take(0) =~= Seq::<Seq<char>>::empty());
                assert(successors(graph.take(i), graph[i].0) + graph[i].1.take(1)
                    =~= successors(graph.take(i), graph[i].0).push(graph[i].1[0]));
            } else {
                assert(successors(graph.take(i), graph[i].0) + graph[i].1.take(j + 1) =~= (
                successors(graph.take(i), graph[i].0) + graph[i].1.take(j)).push(graph[i].1[j]));
            }
        } else {
            assert(names[x]@ != names[u as int]@);
        }
    }
}

/// What the graph names up to the end of an entry is what it names in the
/// entries up to and with that entry.
proof fn lemma_entry_done(graph: Graph, i: int, x: Seq<char>)
    requires
        0 <= i < graph.len(),
    ensures
        mentions_to(graph, i, graph[i].1.len() as int) == mentions_to(graph, i + 1, -1),
        successors_to(graph, i, graph[i].1.len() as int, x) == successors_to(graph, i + 1, 0, x),
{
    let next = graph.take(i + 1);
    assert(next.drop_last() =~= graph.take(i));
    assert(next.last() == graph[i]);
    assert(graph[i].1.take(graph[i].1.len() as int) =~= graph[i].1);
    if graph[i].1.len() == 0 {
        assert(successors(graph.take(i), x) + graph[i].1 =~= successors(graph.take(i), x));
    }
}

/// Finds the cycles of a graph.
#[derive(Debug)]
pub struct CycleDetector {
    grouped_dependencies: Vec<(String, Vec<String>)>,
}

impl View for CycleDetector {
    type V = Graph;

    closed spec fn view(&self) -> Graph {
        adjacency_of(self.grouped_dependencies@)
    }
}

/// The number `name` stands under, if it has one.
fn lookup(names: &Vec<String>, index: &HashIndex, name: &String) -> (r: Option<usize>)
    requires
        index.of(hashes_of(names_of(names@))),
    ensures
        match r {
            Some(u) => u < names@.len() && names@[u as int]@ == name@,
            None => forall|u: int| 0 <= u < names@.len() ==> names@[u]@ != name@,
        },
{
    let n = names.len();
    let ghost hashes = hashes_of(names_of(names@));
    match index.places(hash_str(name.as_str()), Ghost(hashes)) {
        Some(places) => {
            let mut k: usize = 0;
            while k < places.len()
                invariant
                    k <= places@.len(),
                    n == names@.len(),
                    forall|x: int|
                        0 <= x < places@.len() ==> (#[trigger] places@[x]) < names@.len(),
                    forall|x: int| 0 <= x < k ==> names@[(#[trigger] places@[x]) as int]@ != name@,
                decreases places@.len() - k,
            {
                let p = places[k];
                if names[p] == *name {
                    return Some(p);
                }
                k += 1;
            }
            proof {
                assert forall|u: int| 0 <= u < names@.len() implies names@[u]@ != name@ by {
                    if names@[u]@ == name@ {
                        assert(hashes[u] == hash_of(name@));
                        assert(places@.contains(u as usize));
                        let x = places@.index_of(u as usize);
                        assert(places@[x] == u);
                    }
                }
            }
            None
        },
        None => {
            proof {
                assert forall|u: int| 0 <= u < names@.len() implies names@[u]@ != name@ by {
                    if names@[u]@ == name@ {
                        assert(hashes[u] == hash_of(name@));
                    }
                }
            }
            None
        },
    }
}

/// The number of `name`, which is given one if it has none.
fn intern(
    names: &mut Vec<String>,
    succ: &mut Vec<Vec<usize>>,
    index: &mut HashIndex,
    name: &String,
    Ghost(graph): Ghost<Graph>,
) -> (u: usize)
    requires
        numbered(old(names)@, old(succ)@, graph),
        old(index).of(hashes_of(names_of(old(names)@))),
    ensures
        numbered(final(names)@, final(succ)@, graph),
        final(index).of(hashes_of(names_of(final(names)@))),
        grown(old(names)@, old(succ)@, final(names)@, final(succ)@),
        u < final(names)@.len(),
        final(names)@[u as int]@ == name@,
        forall|x: int| 0 <= x < old(succ)@.len() ==> final(succ)@[x] == old(succ)@[x],
        names_of(final(names)@) == if names_of(old(names)@).contains(name@) {
            names_of(old(names)@)
        } else {
            names_of(old(names)@).push(name@)
        },
        final(succ)@.len() > old(succ)@.len() ==> final(succ)@[old(succ)@.len() as int]@.len() == 0,
{
    match lookup(names, index, name) {
        Some(u) => {
            assert(names_of(names@)[u as int] == name@);
            u
        },
        None => {
            let u = names.len();
            index.insert(hash_str(name.as_str()), u, Ghost(hashes_of(names_of(names@))));
            names.push(name.clone());
            succ.push(Vec::new());
            proof {
                assert(names_of(names@) =~= names_of(old(names)@).push(name@));
                assert(hashes_of(names_of(names@)) =~= hashes_of(names_of(old(names)@)).push(
                    hash_of(name@),
                ));
                if names_of(old(names)@).contains(name@) {
                    let k = names_of(old(names)@).index_of(name@);
                    assert(old(names)@[k]@ == name@);
                }
                assert forall|x: int, k: int|
                    0 <= x < succ@.len() && 0 <= k < succ@[x]@.len() implies has_edge(
                    graph,
                    names@[x]@,
                    names@[(#[trigger] succ@[x]@[k]) as int]@,
                ) by {
                    assert(succ@[x] == old(succ)@[x]);
                    let w = old(succ)@[x]@[k];
                    assert(w < old(succ)@.len());
                    assert(names@[x] == old(names)@[x]);
                    assert(names@[w as int] == old(names)@[w as int]);
                }
                assert forall|x: int, k: int|
                    0 <= x < succ@.len() && 0 <= k < succ@[x]@.len() implies (
                #[trigger] succ@[x]@[k]) < succ@.len() by {
                    assert(succ@[x] == old(succ)@[x]);
                    assert(old(succ)@[x]@[k] < old(succ)@.len());
                }
            }
            u
        },
    }
}

/// The names of the nodes numbered by `ids`.
fn names_for(names: &Vec<String>, ids: &Vec<usize>) -> (r: Vec<String>)
    requires
        forall|k: int| 0 <= k < ids@.len() ==> (#[trigger] ids@[k]) < names@.len(),
    ensures
        names_of(r@) == named(names@, ids@),
{
    let mut out: Vec<String> = Vec::new();
    let mut k: usize = 0;
    while k < ids.len()
        invariant
            k <= ids@.len(),
            out@.len() == k,
            forall|x: int| 0 <= x < ids@.len() ==> (#[trigger] ids@[x]) < names@.len(),
            forall|x: int| 0 <= x < k ==> out@[x]@ == names@[ids@[x] as int]@,
        decreases ids@.len() - k,
    {
        out.push(names[ids[k]].clone());
        k += 1;
    }
    assert(names_of(out@) =~= named(names@, ids@));
    out
}

/// The hash of the printed form of each of `chains`.
spec fn chain_hashes(chains: Seq<DependencyChain>) -> Seq<u64> {
    Seq::new(chains.len(), |i: int| hash_of(chain_text(chains[i]@)))
}

/// Whether `chain` is one of `chains`.
fn is_reported(chains: &Vec<DependencyChain>, index: &HashIndex, chain: &DependencyChain, hash: u64) -> (r:
    bool)
    requires
        index.of(chain_hashes(chains@)),
        hash == hash_of(chain_text(chain@)),
    ensures
        r == reported(chains@, chain@),
{
    let n = chains.len();
    let ghost hashes = chain_hashes(chains@);
    match index.places(hash, Ghost(hashes)) {
        Some(places) => {
            let mut k: usize = 0;
            while k < places.len()
                invariant
                    k <= places@.len(),
                    n == chains@.len(),
                    forall|x: int|
                        0 <= x < places@.len() ==> (#[trigger] places@[x]) < chains@.len(),
                    forall|x: int| 0 <= x < k ==> chains@[(#[trigger] places@[x]) as int]@ != chain@,
                decreases places@.len() - k,
            {
                let p = places[k];
                if chains[p].has_same_nodes(chain) {
                    return true;
                }
                k += 1;
            }
            proof {
                if reported(chains@, chain@) {
                    let i = choose|i: int| 0 <= i < chains@.len() && (#[trigger] chains@[i])@ == chain@;
                    assert(hashes[i] == hash);
                    assert(places@.contains(i as usize));
                    let x = places@.index_of(i as usize);
                    assert(places@[x] == i);
                }
            }
            false
        },
        None => {
            proof {
                if reported(chains@, chain@) {
                    let i = choose|i: int| 0 <= i < chains@.len() && (#[trigger] chains@[i])@ == chain@;
                    assert(hashes[i] == hash);
                }
            }
            false
        },
    }
}

impl CycleDetector {
    /// A detector for the graph in which each node of `grouped_dependencies`
    /// has an edge to each of the nodes listed with it.
    pub fn new(grouped_dependencies: Vec<(String, Vec<String>)>) -> (r: CycleDetector)
        ensures
            r@ == adjacency_of(grouped_dependencies@),
    {
        CycleDetector { grouped_dependencies }
    }

    /// Numbers the nodes of the graph.
    fn number(&self) -> (r: (Vec<String>, Vec<Vec<usize>>))
        ensures
            numbered(r.0@, r.1@, self@),
            covered_up_to(r.0@, r.1@, self@, self@.len() as int, 0),
            names_of(r.0@) == nodes(self@),
            forall|u: int|
                0 <= u < r.1@.len() ==> called(names_of(r.0@), (#[trigger] r.1@[u])@)
                    == successors(self@, r.0@[u]@),
    {
        let ghost graph = self@;
        let mut names: Vec<String> = Vec::new();
        let mut succ: Vec<Vec<usize>> = Vec::new();
        let mut index = HashIndex::new();
        let mut i: usize = 0;
        proof {
            assert(hashes_of(names_of(names@)) =~= Seq::<u64>::empty());
            assert(graph.take(0) =~= Seq::<(Seq<char>, Seq<Seq<char>>)>::empty());
            assert(names_of(names@) =~= distinct(mentions_to(graph, 0, -1)));
        }
        while i < self.grouped_dependencies.len()
            invariant
                i <= self.grouped_dependencies@.len(),
                graph == self@,
                graph == adjacency_of(self.grouped_dependencies@),
                numbered(names@, succ@, graph),
                covered_up_to(names@, succ@, graph, i as int, 0),
                names_of(names@) == distinct(mentions_to(graph, i as int, -1)),
                rows_to(names@, succ@, graph, i as int, 0),
                index.of(hashes_of(names_of(names@))),
            decreases self.grouped_dependencies@.len() - i,
        {
            let entry = &self.grouped_dependencies[i];
            let ghost names0 = names@;
            let ghost succ0 = succ@;
            let u = intern(&mut names, &mut succ, &mut index, &entry.0, Ghost(graph));
            proof {
                lemma_grown_keeps_covered(names0, succ0, names@, succ@, graph, i as int, 0);
                assert(graph[i as int].0 == entry.0@);
                assert(graph[i as int].1 == names_of(entry.1@));
                lemma_interned(names0, succ0, names@, succ@, graph, i as int, -1, entry.0@);
                assert(mentions_to(graph, i as int, -1).push(entry.0@) =~= mentions_to(
                    graph,
                    i as int,
                    0,
                ));
            }
            let mut j: usize = 0;
            while j < entry.1.len()
                invariant
                    j <= entry.1@.len(),
                    i < self.grouped_dependencies@.len(),
                    entry == &self.grouped_dependencies@[i as int],
                    graph == adjacency_of(self.grouped_dependencies@),
                    numbered(names@, succ@, graph),
                    covered_up_to(names@, succ@, graph, i as int, j as int),
                    u < names@.len(),
                    names@[u as int]@ == entry.0@,
                    names_of(names@) == distinct(mentions_to(graph, i as int, j as int)),
                    rows_to(names@, succ@, graph, i as int, j as int),
                    index.of(hashes_of(names_of(names@))),
                decreases entry.1@.len() - j,
            {
                let ghost names1 = names@;
                let ghost succ1 = succ@;
                let w = intern(&mut names, &mut succ, &mut index, &entry.1[j], Ghost(graph));
                let ghost names2 = names@;
                let ghost succ2 = succ@;
                succ[u].push(w);
                proof {
                    assert(graph[i as int].0 == entry.0@);
                    assert(graph[i as int].1 == names_of(entry.1@));
                    lemma_interned(
                        names1,
                        succ1,
                        names2,
                        succ2,
                        graph,
                        i as int,
                        j as int,
                        entry.1@[j as int]@,
                    );
                    assert(mentions_to(graph, i as int, j as int).push(entry.1@[j as int]@)
                        =~= mentions_to(graph, i as int, j + 1));
                    lemma_row_extended(names2, succ2, succ@, graph, i as int, j as int, u, w);
                    assert(graph[i as int].0 == entry.0@);
                    assert(graph[i as int].1[j as int] == entry.1@[j as int]@);
                    assert(edge_at(graph, i as int, j as int, entry.0@, entry.1@[j as int]@));
                    assert(names@[u as int]@ == names1[u as int]@);
                    assert forall|x: int| 0 <= x < succ2.len() implies extends(
                        succ2[x]@,
                        (#[trigger] succ@[x])@,
                    ) by {
                        if x == u {
                            assert(succ@[x]@ == succ2[x]@.push(w));
                        }
                    }
                    assert(grown(names2, succ2, names@, succ@));
                    assert forall|x: int| 0 <= x < succ1.len() implies extends(
                        succ1[x]@,
                        (#[trigger] succ@[x])@,
                    ) by {
                        assert(extends(succ1[x]@, succ2[x]@));
                        assert(extends(succ2[x]@, succ@[x]@));
                    }
                    assert(grown(names1, succ1, names@, succ@));
                    lemma_grown_keeps_covered(
                        names1,
                        succ1,
                        names@,
                        succ@,
                        graph,
                        i as int,
                        j as int,
                    );
                    assert(succ@[u as int]@[succ@[u as int]@.len() - 1] == w);
                    assert(arc(succ@, u, w));
                    assert(covered(names@, succ@, graph, i as int, j as int));
                    assert forall|x: int, k: int|
                        0 <= x < succ@.len() && 0 <= k < succ@[x]@.len() implies has_edge(
                        graph,
                        names@[x]@,
                        names@[(#[trigger] succ@[x]@[k]) as int]@,
                    ) by {
                        if x == u && k == succ2[x]@.len() {
                        } else {
                            assert(succ@[x]@[k] == succ2[x]@[k]);
                        }
                    }
                    assert forall|x: int, k: int|
                        0 <= x < succ@.len() && 0 <= k < succ@[x]@.len() implies (
                    #[trigger] succ@[x]@[k]) < succ@.len() by {
                        if x == u && k == succ2[x]@.len() {
                        } else {
                            assert(succ@[x]@[k] == succ2[x]@[k]);
                        }
                    }
                }
                j += 1;
            }
            proof {
                lemma_entry_done(graph, i as int, Seq::empty());
                assert forall|x: int| 0 <= x < succ@.len() implies called(
                    names_of(names@),
                    (#[trigger] succ@[x])@,
                ) == successors_to(graph, i + 1, 0, names@[x]@) by {
                    lemma_entry_done(graph, i as int, names@[x]@);
                }
            }
            i += 1;
        }
        proof {
            assert(graph.take(graph.len() as int) =~= graph);
        }
        (names, succ)
    }

    /// Searches the whole graph, starting from each node in the order in which
    /// the graph first names the nodes.
    fn search(&self) -> (r: (Vec<String>, Search))
        ensures
            numbered(r.0@, r.1.succ@, self@),
            covered_up_to(r.0@, r.1.succ@, self@, self@.len() as int, 0),
            r.1.inv(),
            r.1.names@ == names_of(r.0@),
            forall|u: int| 0 <= u < r.1.states@.len() ==> r.1.states@[u] == NodeState::Visited,
            r.1.trace().found == back_cycles(self@),
    {
        let ghost graph = self@;
        let (names, succ) = self.number();
        let n = succ.len();
        let mut search = Search::new(succ, Ghost(names_of(names@)), Ghost(graph));
        let mut v: usize = 0;
        proof {
            assert forall|a: int, b: int|
                0 <= a < names@.len() && 0 <= b < names@.len() && a != b implies names_of(
                names@,
            )[a] != names_of(names@)[b] by {
                assert(names@[a]@ != names@[b]@);
            }
            assert(search.trace().path =~= start().path);
            assert(search.trace().done =~= start().done);
            assert(search.trace().found =~= start().found);
        }
        while v < n
            invariant
                v <= n,
                n == search.succ@.len(),
                search.inv(),
                search.labelled(),
                search.names@ == names_of(names@),
                search.names@ == nodes(graph),
                search.graph@ == graph,
                search.trace() == searched(graph, nodes(graph), v as int, n as nat),
                search.path@.len() == 0,
                numbered(names@, search.succ@, graph),
                covered_up_to(names@, search.succ@, graph, graph.len() as int, 0),
                forall|u: int| 0 <= u < v ==> search.states@[u] == NodeState::Visited,
                forall|u: usize|
                    u < n ==> search.states@[u as int] != NodeState::Visiting,
            decreases n - v,
        {
            proof {
                assert(all_below(search.finished@, search.names@.len()));
                lemma_called_contains(
                    search.names@,
                    search.finished@,
                    v,
                );
            }
            if search.states[v] == NodeState::Unvisited {
                search.dfs(v);
                proof {
                    assert forall|u: usize| u < n implies search.states@[u as int]
                        != NodeState::Visiting by {
                        assert(!search.path@.contains(u));
                    }
                }
            }
            v += 1;
        }
        (names, search)
    }

    /// The cycles that the search has found, each once, by the names of its
    /// nodes and in the form in which chains are compared.
    fn report(names: &Vec<String>, search: &Search, Ghost(graph): Ghost<Graph>) -> (cycles: Vec<
        DependencyChain,
    >)
        requires
            numbered(names@, search.succ@, graph),
            search.inv(),
            search.names@ == names_of(names@),
        ensures
            forall|k: int|
                0 <= k < cycles@.len() ==> is_simple_cycle(graph, (#[trigger] cycles@[k])@)
                    && normal_form(cycles@[k]@) == cycles@[k]@,
            forall|a: int, b: int|
                0 <= a < cycles@.len() && 0 <= b < cycles@.len() && a != b ==> (
                #[trigger] cycles@[a])@ != (#[trigger] cycles@[b])@,
            all_reported(names@, search.found@, cycles@),
            search.found@.len() > 0 ==> cycles@.len() > 0,
            search.found@.len() == 0 ==> cycles@.len() == 0,
            chains_of(cycles@) == distinct(normalized(search.trace().found)),
    {
        let ghost closed = search.trace().found;
        proof {
            assert(normalized(closed).take(0) =~= Seq::<Seq<Seq<char>>>::empty());
        }
        let mut cycles: Vec<DependencyChain> = Vec::new();
        let mut index = HashIndex::new();
        let mut i: usize = 0;
        assert(chain_hashes(cycles@) =~= Seq::<u64>::empty());
        while i < search.found.len()
            invariant
                i <= search.found@.len(),
                index.of(chain_hashes(cycles@)),
                search.inv(),
                numbered(names@, search.succ@, graph),
                forall|k: int|
                    0 <= k < cycles@.len() ==> is_simple_cycle(graph, (#[trigger] cycles@[k])@)
                        && normal_form(cycles@[k]@) == cycles@[k]@,
                forall|a: int, b: int|
                    0 <= a < cycles@.len() && 0 <= b < cycles@.len() && a != b ==> (
                    #[trigger] cycles@[a])@ != (#[trigger] cycles@[b])@,
                forall|k: int|
                    0 <= k < i ==> reported(
                        cycles@,
                        normal_form(named(names@, (#[trigger] search.found@[k])@)),
                    ),
                i > 0 ==> cycles@.len() > 0,
                cycles@.len() <= i,
                search.names@ == names_of(names@),
                closed == search.trace().found,
                chains_of(cycles@) == distinct(normalized(closed).take(i as int)),
            decreases search.found@.len() - i,
        {
            let ids = &search.found[i];
            proof {
                assert(closed[i as int] =~= named(names@, ids@));
                let upto = normalized(closed).take(i + 1);
                assert(upto.drop_last() =~= normalized(closed).take(i as int));
                assert(upto.last() == normal_form(closed[i as int]));
                assert(is_round_trip(search.succ@, ids@));
                lemma_round_trip_is_cycle(names@, search.succ@, graph, ids@);
                let s = named(names@, ids@);
                lemma_normal_form_of_closed(s);
                lemma_rotated_cycle(graph, s, min_index(s.drop_last()));
            }
            let chain = DependencyChain::new(names_for(&names, ids));
            let normal = DependencyChain::new(chain.normalize());
            let ghost earlier = cycles@;
            proof {
                if reported(earlier, normal@) {
                    let x = choose|x: int|
                        0 <= x < earlier.len() && (#[trigger] earlier[x])@ == normal@;
                    assert(chains_of(earlier)[x] == normal@);
                }
                if chains_of(earlier).contains(normal@) {
                    let x = chains_of(earlier).index_of(normal@);
                    assert(earlier[x]@ == normal@);
                }
            }
            let hash = hash_str(normal.render().as_str());
            if !is_reported(&cycles, &index, &normal, hash) {
                index.insert(hash, cycles.len(), Ghost(chain_hashes(earlier)));
                cycles.push(normal);
                assert(chains_of(cycles@) =~= chains_of(earlier).push(normal@));
                assert(chain_hashes(cycles@) =~= chain_hashes(earlier).push(hash));
            }
            proof {
                assert forall|k: int| 0 <= k < i + 1 implies reported(
                    cycles@,
                    normal_form(named(names@, (#[trigger] search.found@[k])@)),
                ) by {
                    let target = normal_form(named(names@, search.found@[k]@));
                    if k < i {
                        assert(reported(earlier, target));
                        let x = choose|x: int|
                            0 <= x < earlier.len() && (#[trigger] earlier[x])@ == target;
                        assert(cycles@[x]@ == target);
                    } else if reported(earlier, target) {
                        let x = choose|x: int|
                            0 <= x < earlier.len() && (#[trigger] earlier[x])@ == target;
                        assert(cycles@[x]@ == target);
                    } else {
                        assert(cycles@[cycles@.len() - 1]@ == target);
                    }
                }
            }
            i += 1;
        }
        assert(normalized(closed).take(closed.len() as int) =~= normalized(closed));
        cycles
    }

    /// The cycles of the graph that a depth-first search comes upon: each time
    /// the search, looking at the successors of a node, meets a node that it
    /// has entered and not left, the nodes from that node to the one it is
    /// looking at form a cycle. The search starts from each node in the order
    /// in which the graph first names the nodes.
    ///
    /// Each cycle is reported once, in the form in which chains are compared
    /// and in the order in which the search closes the cycles. Every cycle
    /// reported is a cycle of the graph that meets no node twice; every cycle
    /// of the graph shares an edge with one that is reported, so that the
    /// graph has a cycle exactly if one is reported; and every edge from a
    /// node to itself is reported.
    pub fn find_cycles(self) -> (cycles: Vec<DependencyChain>)
        ensures
            forall|i: int|
                0 <= i < cycles@.len() ==> is_simple_cycle(self@, (#[trigger] cycles@[i])@)
                    && normal_form(cycles@[i]@) == cycles@[i]@,
            forall|i: int, j: int|
                0 <= i < cycles@.len() && 0 <= j < cycles@.len() && i != j ==> (
                #[trigger] cycles@[i])@ != (#[trigger] cycles@[j])@,
            forall|p: Seq<Seq<char>>| #[trigger] is_cycle(self@, p) ==> shares_edge(cycles@, p),
            cycles@.len() == 0 <==> acyclic(self@),
            forall|a: Seq<char>| #[trigger]
                has_edge(self@, a, a) ==> reported(cycles@, seq![a, a]),
            chains_of(cycles@) == reported_cycles(self@),
    {
        let ghost graph = self@;
        let (names, search) = self.search();
        let cycles = CycleDetector::report(&names, &search, Ghost(graph));
        proof {
            assert(all_reported(names@, search.found@, cycles@));
            assert forall|p: Seq<Seq<char>>| #[trigger] is_cycle(graph, p) implies shares_edge(
                cycles@,
                p,
            ) by {
                lemma_cycle_shares_edge(names@, search, graph, cycles@, p);
            }
            if cycles@.len() == 0 {
                assert forall|p: Seq<Seq<char>>| !is_cycle(graph, p) by {
                    if is_cycle(graph, p) {
                        assert(shares_edge(cycles@, p));
                        let k = choose|k: int| #[trigger] shares_edge_at(cycles@, p, k);
                    }
                }
            } else {
                assert(is_cycle(graph, cycles@[0]@));
                assert(!acyclic(graph));
            }
            assert forall|a: Seq<char>| #[trigger] has_edge(graph, a, a) implies reported(
                cycles@,
                seq![a, a],
            ) by {
                let p = seq![a, a];
                assert(hop(graph, p, 0));
                assert(is_cycle(graph, p));
                assert(shares_edge(cycles@, p));
                let k = choose|k: int| #[trigger] shares_edge_at(cycles@, p, k);
                assert(k == 0);
                let i = choose|i: int|
                    0 <= i < cycles@.len() && on_chain((#[trigger] cycles@[i])@, a, a);
                assert(is_simple_cycle(graph, cycles@[i]@));
                lemma_self_edge_alone(cycles@[i]@, a);
            }
        }
        cycles
    }
}

} // verus!
