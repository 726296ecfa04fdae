//! Depth-first search for cycles in a graph whose nodes are numbered.
//!
//! Every node is unvisited, visiting (on the path from the node the search
//! started at to the node it is looking at) or visited (done with). An arc
//! that leads to a visiting node closes a cycle; the cycle is the stretch of
//! the path from that node on.

use crate::dependency::cycle::Graph;
use crate::dependency::trace::{closing, explore, scan, successors, Trace};
use vstd::prelude::*;

verus! {

/// How far the search has come with a node.
#[derive(Clone, Copy, PartialEq, Eq, Structural, Debug)]
pub(crate) enum NodeState {
    Unvisited,
    Visiting,
    Visited,
}

/// The graph has an arc from `u` to `w`.
pub(crate) open spec fn arc(succ: Seq<Vec<usize>>, u: usize, w: usize) -> bool {
    u < succ.len() && succ[u as int]@.contains(w)
}

/// Every arc leads to a node of the graph.
pub(crate) open spec fn arcs_in_range(succ: Seq<Vec<usize>>) -> bool {
    forall|u: int, j: int|
        0 <= u < succ.len() && 0 <= j < succ[u]@.len() ==> (#[trigger] succ[u]@[j]) < succ.len()
}

/// The graph has an arc from the node at index `k` of `p` to the next.
pub(crate) open spec fn step(succ: Seq<Vec<usize>>, p: Seq<usize>, k: int) -> bool {
    arc(succ, p[k], p[k + 1])
}

/// `p` is a route: it runs through nodes of the graph along arcs.
pub(crate) open spec fn is_route(succ: Seq<Vec<usize>>, p: Seq<usize>) -> bool {
    &&& forall|k: int| 0 <= k < p.len() ==> (#[trigger] p[k]) < succ.len()
    &&& forall|k: int| 0 <= k < p.len() - 1 ==> #[trigger] step(succ, p, k)
}

/// `c` is a route that ends at the node it starts at and meets no other node
/// twice.
pub(crate) open spec fn is_round_trip(succ: Seq<Vec<usize>>, c: Seq<usize>) -> bool {
    &&& c.len() >= 2
    &&& c.first() == c.last()
    &&& is_route(succ, c)
    &&& c.drop_last().no_duplicates()
}

/// The number of unvisited nodes.
pub(crate) open spec fn unvisited(states: Seq<NodeState>) -> nat
    decreases states.len(),
{
    if states.len() == 0 {
        0
    } else {
        unvisited(states.drop_last()) + if states.last() == NodeState::Unvisited {
            1nat
        } else {
            0nat
        }
    }
}

/// No node has gone back to unvisited from `a` to `b`.
pub(crate) open spec fn advanced(a: Seq<NodeState>, b: Seq<NodeState>) -> bool {
    &&& a.len() == b.len()
    &&& forall|u: int|
        0 <= u < a.len() && a[u] != NodeState::Unvisited ==> #[trigger] b[u] == a[u]
}

/// `a` is an initial stretch of `b`.
pub(crate) open spec fn extends<T>(a: Seq<T>, b: Seq<T>) -> bool {
    a.len() <= b.len() && forall|i: int| 0 <= i < a.len() ==> #[trigger] b[i] == a[i]
}

/// The arc from `u` to `w` is the one from index `k` of `c` to the next.
pub(crate) open spec fn leg(c: Seq<usize>, k: int, u: usize, w: usize) -> bool {
    0 <= k < c.len() - 1 && c[k] == u && c[k + 1] == w
}

/// The cycle `c` runs along the arc from `u` to `w`.
pub(crate) open spec fn on_cycle(c: Seq<usize>, u: usize, w: usize) -> bool {
    exists|k: int| #[trigger] leg(c, k, u, w)
}

/// One of the cycles found runs along the arc from `u` to `w`.
pub(crate) open spec fn arc_found(found: Seq<Vec<usize>>, u: usize, w: usize) -> bool {
    exists|i: int| 0 <= i < found.len() && on_cycle((#[trigger] found[i])@, u, w)
}

/// The node that arc `j` of the node at index `i` of `finished` leads to
/// stands before that node in `finished`, or a cycle found runs along the arc.
pub(crate) open spec fn done_with(
    succ: Seq<Vec<usize>>,
    finished: Seq<usize>,
    found: Seq<Vec<usize>>,
    i: int,
    j: int,
) -> bool {
    let u = finished[i];
    let w = succ[u as int]@[j];
    finished.take(i).contains(w) || arc_found(found, u, w)
}

/// Every arc of the node at index `i` of `finished` leads to a node that
/// stands before it in `finished`, or lies on a cycle found.
pub(crate) open spec fn settled(
    succ: Seq<Vec<usize>>,
    finished: Seq<usize>,
    found: Seq<Vec<usize>>,
    i: int,
) -> bool {
    forall|j: int|
        0 <= j < succ[finished[i] as int]@.len() ==> #[trigger] done_with(
            succ,
            finished,
            found,
            i,
            j,
        )
}

/// The node that arc `k` of `v` leads to is visited, or a cycle found runs
/// along the arc.
pub(crate) open spec fn handled(
    succ: Seq<Vec<usize>>,
    states: Seq<NodeState>,
    found: Seq<Vec<usize>>,
    v: usize,
    k: int,
) -> bool {
    let w = succ[v as int]@[k];
    states[w as int] == NodeState::Visited || arc_found(found, v, w)
}

/// An arc on a cycle found stays on a cycle found when more are found.
pub(crate) proof fn lemma_arc_found_stays(
    found1: Seq<Vec<usize>>,
    found2: Seq<Vec<usize>>,
    u: usize,
    w: usize,
)
    requires
        extends(found1, found2),
        arc_found(found1, u, w),
    ensures
        arc_found(found2, u, w),
{
    let i = choose|i: int| 0 <= i < found1.len() && on_cycle((#[trigger] found1[i])@, u, w);
    assert(found2[i] == found1[i]);
}

/// A node that is settled stays settled when more nodes are finished and more
/// cycles found.
pub(crate) proof fn lemma_settled_stays(
    succ: Seq<Vec<usize>>,
    finished1: Seq<usize>,
    found1: Seq<Vec<usize>>,
    finished2: Seq<usize>,
    found2: Seq<Vec<usize>>,
    i: int,
)
    requires
        extends(finished1, finished2),
        extends(found1, found2),
        0 <= i < finished1.len(),
        settled(succ, finished1, found1, i),
    ensures
        settled(succ, finished2, found2, i),
{
    assert(finished2[i] == finished1[i]);
    assert(finished2.take(i) =~= finished1.take(i)) by {
        assert forall|k: int| 0 <= k < i implies finished2.take(i)[k] == finished1.take(i)[k] by {
            assert(finished2[k] == finished1[k]);
        }
    }
    assert forall|j: int| 0 <= j < succ[finished2[i] as int]@.len() implies #[trigger] done_with(
        succ,
        finished2,
        found2,
        i,
        j,
    ) by {
        assert(done_with(succ, finished1, found1, i, j));
        let u = finished1[i];
        let w = succ[u as int]@[j];
        if arc_found(found1, u, w) {
            lemma_arc_found_stays(found1, found2, u, w);
        }
    }
}

pub(crate) proof fn lemma_unvisited_advanced(a: Seq<NodeState>, b: Seq<NodeState>)
    requires
        advanced(a, b),
    ensures
        unvisited(b) <= unvisited(a),
    decreases a.len(),
{
    if a.len() > 0 {
        assert(b[a.len() - 1] == b.last());
        assert forall|u: int|
            0 <= u < a.drop_last().len() && a.drop_last()[u]
                != NodeState::Unvisited implies #[trigger] b.drop_last()[u] == a.drop_last()[u] by {
            assert(b[u] == a[u]);
        }
        lemma_unvisited_advanced(a.drop_last(), b.drop_last());
    }
}

pub(crate) proof fn lemma_unvisited_strictly_advanced(a: Seq<NodeState>, b: Seq<NodeState>, v: int)
    requires
        advanced(a, b),
        0 <= v < a.len(),
        a[v] == NodeState::Unvisited,
        b[v] != NodeState::Unvisited,
    ensures
        unvisited(b) < unvisited(a),
    decreases a.len(),
{
    assert(b[a.len() - 1] == b.last());
    assert forall|u: int|
        0 <= u < a.drop_last().len() && a.drop_last()[u]
            != NodeState::Unvisited implies #[trigger] b.drop_last()[u] == a.drop_last()[u] by {
        assert(b[u] == a[u]);
    }
    if v == a.len() - 1 {
        lemma_unvisited_advanced(a.drop_last(), b.drop_last());
    } else {
        lemma_unvisited_strictly_advanced(a.drop_last(), b.drop_last(), v);
    }
}

/// The names of the nodes numbered by `ids`.
pub(crate) open spec fn called(names: Seq<Seq<char>>, ids: Seq<usize>) -> Seq<Seq<char>> {
    Seq::new(ids.len(), |k: int| names[ids[k] as int])
}

/// Every one of `ids` is the number of a node.
pub(crate) open spec fn all_below(ids: Seq<usize>, n: nat) -> bool {
    forall|k: int| 0 <= k < ids.len() ==> (#[trigger] ids[k]) < n
}

/// Numbers that are all different and all below `n` are at most `n`.
pub(crate) proof fn lemma_at_most(ids: Seq<usize>, n: nat)
    requires
        ids.no_duplicates(),
        all_below(ids, n),
    ensures
        ids.len() <= n,
    decreases n,
{
    if n == 0 {
        if ids.len() > 0 {
            assert(ids[0] < n);
        }
    } else {
        let top = (n - 1) as usize;
        if ids.contains(top) {
            let k = ids.index_of(top);
            let rest = ids.remove(k);
            assert forall|i: int, j: int|
                0 <= i < rest.len() && 0 <= j < rest.len() && i != j implies rest[i] != rest[j] by {
                let x = if i < k {
                    i
                } else {
                    i + 1
                };
                let y = if j < k {
                    j
                } else {
                    j + 1
                };
                assert(rest[i] == ids[x]);
                assert(rest[j] == ids[y]);
            }
            assert forall|i: int| 0 <= i < rest.len() implies (#[trigger] rest[i]) < n - 1 by {
                let x = if i < k {
                    i
                } else {
                    i + 1
                };
                assert(rest[i] == ids[x]);
                assert(ids[x] != ids[k]);
            }
            lemma_at_most(rest, (n - 1) as nat);
        } else {
            assert forall|i: int| 0 <= i < ids.len() implies (#[trigger] ids[i]) < n - 1 by {
                assert(ids[i] < n);
                if ids[i] == top {
                    assert(ids.contains(top));
                }
            }
            lemma_at_most(ids, (n - 1) as nat);
        }
    }
}

/// A node is among `ids` exactly if its name is among their names.
pub(crate) proof fn lemma_called_contains(names: Seq<Seq<char>>, ids: Seq<usize>, w: usize)
    requires
        names.no_duplicates(),
        all_below(ids, names.len()),
        w < names.len(),
    ensures
        ids.contains(w) <==> called(names, ids).contains(names[w as int]),
{
    let c = called(names, ids);
    if ids.contains(w) {
        let k = ids.index_of(w);
        assert(c[k] == names[w as int]);
    }
    if c.contains(names[w as int]) {
        let k = c.index_of(names[w as int]);
        assert(c[k] == names[ids[k] as int]);
        assert(ids[k] < names.len());
        assert(ids[k] == w);
    }
}

/// The names of the cycle that an arc back to the node `w` on `path` closes
/// are the cycle that the edge back to the name of `w` closes on the names of
/// `path`.
pub(crate) proof fn lemma_called_closing(names: Seq<Seq<char>>, path: Seq<usize>, w: usize)
    requires
        names.no_duplicates(),
        all_below(path, names.len()),
        path.no_duplicates(),
        w < names.len(),
        path.contains(w),
    ensures
        called(names, path.skip(path.index_of(w)).push(w)) == closing(
            called(names, path),
            names[w as int],
        ),
{
    let i = path.index_of(w);
    let c = called(names, path);
    assert(c[i] == names[w as int]);
    let j = c.index_of(names[w as int]);
    assert(c[j] == names[w as int]);
    assert(c[j] == names[path[j] as int]);
    assert(path[j] < names.len());
    assert(path[j] == w);
    assert(i == j);
    assert(called(names, path.skip(i).push(w)) =~= c.skip(i).push(names[w as int]));
}

/// The state of a search.
pub(crate) struct Search {
    /// The nodes each node has an arc to.
    pub(crate) succ: Vec<Vec<usize>>,
    /// How far the search has come with each node.
    pub(crate) states: Vec<NodeState>,
    /// The nodes from the start of the search to the node being looked at.
    pub(crate) path: Vec<usize>,
    /// The cycles found so far.
    pub(crate) found: Vec<Vec<usize>>,
    /// The visited nodes, in the order in which the search was done with them.
    pub(crate) finished: Ghost<Seq<usize>>,
    /// The name of each node.
    pub(crate) names: Ghost<Seq<Seq<char>>>,
    /// The graph of names that the numbered graph stands for.
    pub(crate) graph: Ghost<Graph>,
}

impl Search {
    /// What holds between any two steps of the search.
    pub(crate) open spec fn inv(&self) -> bool {
        &&& arcs_in_range(self.succ@)
        &&& self.states@.len() == self.succ@.len()
        &&& is_route(self.succ@, self.path@)
        &&& self.path@.no_duplicates()
        &&& forall|u: usize|
            u < self.succ@.len() ==> (#[trigger] self.states@[u as int] == NodeState::Visiting
                <==> self.path@.contains(u))
        &&& forall|i: int|
            0 <= i < self.found@.len() ==> is_round_trip(self.succ@, (#[trigger] self.found@[i])@)
        &&& self.finished@.no_duplicates()
        &&& forall|i: int|
            0 <= i < self.finished@.len() ==> (#[trigger] self.finished@[i]) < self.succ@.len()
        &&& forall|u: usize|
            u < self.succ@.len() ==> (#[trigger] self.states@[u as int] == NodeState::Visited
                <==> self.finished@.contains(u))
        &&& forall|i: int|
            0 <= i < self.finished@.len() ==> #[trigger] settled(
                self.succ@,
                self.finished@,
                self.found@,
                i,
            )
    }

    /// Every node has its name, and its arcs lead to the nodes that the graph
    /// lists as the successors of that name, in order.
    pub(crate) open spec fn labelled(&self) -> bool {
        &&& self.names@.len() == self.succ@.len()
        &&& self.names@.no_duplicates()
        &&& forall|u: int|
            0 <= u < self.succ@.len() ==> called(self.names@, (#[trigger] self.succ@[u])@)
                == successors(self.graph@, self.names@[u])
    }

    /// How far the search has come, by the names of the nodes.
    pub(crate) open spec fn trace(&self) -> Trace {
        Trace {
            path: called(self.names@, self.path@),
            done: called(self.names@, self.finished@),
            found: Seq::new(self.found@.len(), |i: int| called(self.names@, self.found@[i]@)),
        }
    }

    /// How many nodes the search may still enter one inside the other.
    pub(crate) open spec fn fuel(&self) -> nat {
        (self.succ@.len() - self.path@.len()) as nat
    }

    /// A search of the graph `succ` that has not started.
    pub(crate) fn new(
        succ: Vec<Vec<usize>>,
        Ghost(names): Ghost<Seq<Seq<char>>>,
        Ghost(graph): Ghost<Graph>,
    ) -> (r: Search)
        requires
            arcs_in_range(succ@),
        ensures
            r.inv(),
            r.succ == succ,
            r.names@ == names,
            r.graph@ == graph,
            r.path@.len() == 0,
            r.found@.len() == 0,
            r.finished@.len() == 0,
            forall|u: int| 0 <= u < succ@.len() ==> r.states@[u] == NodeState::Unvisited,
    {
        let mut states: Vec<NodeState> = Vec::new();
        let mut i: usize = 0;
        while i < succ.len()
            invariant
                i <= succ@.len(),
                states@.len() == i,
                forall|u: int| 0 <= u < i ==> states@[u] == NodeState::Unvisited,
            decreases succ@.len() - i,
        {
            states.push(NodeState::Unvisited);
            i += 1;
        }
        Search {
            succ,
            states,
            path: Vec::new(),
            found: Vec::new(),
            finished: Ghost(Seq::empty()),
            names: Ghost(names),
            graph: Ghost(graph),
        }
    }

    /// The index at which `w` stands on the path.
    fn position(&self, w: usize) -> (r: usize)
        requires
            self.path@.contains(w),
        ensures
            r < self.path@.len(),
            self.path@[r as int] == w,
    {
        let mut i: usize = 0;
        while i < self.path.len()
            invariant
                i <= self.path@.len(),
                self.path@.contains(w),
                forall|k: int| 0 <= k < i ==> self.path@[k] != w,
            decreases self.path@.len() - i,
        {
            if self.path[i] == w {
                return i;
            }
            i += 1;
        }
        proof {
            let k = self.path@.index_of(w);
            assert(self.path@[k] == w);
        }
        0
    }

    /// The cycle closed by an arc from the end of the path to the node `w`
    /// on the path: the path from `w` on, and `w` again.
    fn cycle_back_to(&self, w: usize) -> (c: Vec<usize>)
        requires
            self.inv(),
            self.path@.len() > 0,
            self.path@.contains(w),
            arc(self.succ@, self.path@.last(), w),
        ensures
            is_round_trip(self.succ@, c@),
            on_cycle(c@, self.path@.last(), w),
            c@ == self.path@.skip(self.path@.index_of(w)).push(w),
    {
        let start = self.position(w);
        let mut c: Vec<usize> = Vec::new();
        let mut k: usize = start;
        while k < self.path.len()
            invariant
                start <= k <= self.path@.len(),
                c@ == self.path@.subrange(start as int, k as int),
            decreases self.path@.len() - k,
        {
            c.push(self.path[k]);
            assert(c@ =~= self.path@.subrange(start as int, k + 1));
            k += 1;
        }
        c.push(w);
        proof {
            let tail = self.path@.subrange(start as int, self.path@.len() as int);
            assert(c@ =~= tail.push(w));
            assert(c@.drop_last() =~= tail);
            assert(c@.first() == w);
            assert forall|a: int| 0 <= a < c@.len() implies (#[trigger] c@[a]) < self.succ@.len() by {
                if a < tail.len() {
                    assert(c@[a] == self.path@[start + a]);
                }
            }
            assert forall|a: int| 0 <= a < c@.len() - 1 implies #[trigger] step(
                self.succ@,
                c@,
                a,
            ) by {
                if a < tail.len() - 1 {
                    assert(step(self.succ@, self.path@, start + a));
                    assert(c@[a] == self.path@[start + a]);
                    assert(c@[a + 1] == self.path@[start + a + 1]);
                } else {
                    assert(c@[a] == self.path@.last());
                }
            }
            assert(leg(c@, c@.len() - 2, self.path@.last(), w));
            let i = self.path@.index_of(w);
            assert(self.path@[i] == w);
            assert(i == start);
            assert(tail =~= self.path@.skip(i));
        }
        c
    }

    /// Searches from the unvisited node `current_node`, which the end of the
    /// path has an arc to. On return the search is done with the node and
    /// with every node that was unvisited and can be reached from it.
    pub(crate) fn dfs(&mut self, current_node: usize)
        requires
            old(self).inv(),
            current_node < old(self).succ@.len(),
            old(self).states@[current_node as int] == NodeState::Unvisited,
            old(self).path@.len() > 0 ==> arc(
                old(self).succ@,
                old(self).path@.last(),
                current_node,
            ),
            old(self).labelled(),
        ensures
            final(self).inv(),
            final(self).labelled(),
            final(self).names == old(self).names,
            final(self).graph == old(self).graph,
            final(self).trace() == explore(
                old(self).graph@,
                old(self).trace(),
                old(self).names@[current_node as int],
                old(self).fuel(),
            ),
            final(self).succ == old(self).succ,
            final(self).path@ == old(self).path@,
            final(self).states@[current_node as int] == NodeState::Visited,
            advanced(old(self).states@, final(self).states@),
            extends(old(self).found@, final(self).found@),
            extends(old(self).finished@, final(self).finished@),
        decreases unvisited(old(self).states@),
    {
        let v = current_node;
        self.states[v] = NodeState::Visiting;
        self.path.push(v);
        proof {
            let p0 = old(self).path@;
            let p = self.path@;
            assert(!p0.contains(v));
            assert forall|k: int| 0 <= k < p.len() - 1 implies #[trigger] step(
                self.succ@,
                p,
                k,
            ) by {
                if k < p0.len() - 1 {
                    assert(step(old(self).succ@, p0, k));
                }
            }
            assert forall|u: usize| u < self.succ@.len() implies (
            #[trigger] self.states@[u as int] == NodeState::Visiting <==> p.contains(u)) by {
                if u == v {
                    assert(p[p.len() - 1] == v);
                } else {
                    if p0.contains(u) {
                        let k = p0.index_of(u);
                        assert(p[k] == u);
                    }
                    if p.contains(u) {
                        let k = p.index_of(u);
                        assert(p0[k] == u);
                    }
                }
            }
            assert forall|u: usize| u < self.succ@.len() implies (
            #[trigger] self.states@[u as int] == NodeState::Visited <==> self.finished@.contains(
                u,
            )) by {
                assert(old(self).states@[u as int] == NodeState::Visited <==> old(
                    self,
                ).finished@.contains(u));
            }
            lemma_unvisited_strictly_advanced(old(self).states@, self.states@, v as int);
            assert(all_below(p, self.succ@.len()));
            lemma_at_most(p, self.succ@.len());
        }
        let ghost names = self.names@;
        let ghost graph = self.graph@;
        let ghost fuel = (old(self).fuel() - 1) as nat;
        let ghost succs = successors(graph, names[v as int]);
        let ghost entered = Trace {
            path: old(self).trace().path.push(names[v as int]),
            done: old(self).trace().done,
            found: old(self).trace().found,
        };
        proof {
            assert(self.trace().path =~= entered.path);
            assert(self.trace().found =~= entered.found);
            assert(self.trace() == entered);
        }
        let m = self.succ[v].len();
        let mut j: usize = 0;
        while j < m
            invariant
                j <= m,
                m == self.succ@[v as int]@.len(),
                v < self.succ@.len(),
                self.inv(),
                self.succ == old(self).succ,
                self.path@ == old(self).path@.push(v),
                self.states@[v as int] == NodeState::Visiting,
                forall|u: int|
                    0 <= u < self.states@.len() && u != v && old(self).states@[u]
                        != NodeState::Unvisited ==> #[trigger] self.states@[u] == old(
                        self,
                    ).states@[u],
                old(self).states@.len() == self.states@.len(),
                extends(old(self).found@, self.found@),
                extends(old(self).finished@, self.finished@),
                unvisited(self.states@) < unvisited(old(self).states@),
                forall|k: int|
                    0 <= k < j ==> #[trigger] handled(self.succ@, self.states@, self.found@, v, k),
                self.labelled(),
                self.names@ == names,
                self.graph@ == graph,
                names == old(self).names@,
                graph == old(self).graph@,
                fuel + 1 == old(self).fuel(),
                self.path@.len() <= self.succ@.len(),
                succs == successors(graph, names[v as int]),
                scan(graph, self.trace(), succs, j as int, fuel) == scan(
                    graph,
                    entered,
                    succs,
                    0,
                    fuel,
                ),
            decreases m - j,
        {
            let w = self.succ[v][j];
            let ghost before = *self;
            assert(arc(self.succ@, v, w));
            assert(self.path@.last() == v);
            proof {
                assert(called(names, self.succ@[v as int]@)[j as int] == names[w as int]);
                assert(succs[j as int] == names[w as int]);
                assert(all_below(self.path@, names.len()));
                assert(all_below(self.finished@, names.len()));
                lemma_called_contains(names, self.path@, w);
                lemma_called_contains(names, self.finished@, w);
            }
            match self.states[w] {
                NodeState::Visiting => {
                    let cycle = self.cycle_back_to(w);
                    self.found.push(cycle);
                    proof {
                        lemma_called_closing(names, before.path@, w);
                        assert(self.trace().found =~= before.trace().found.push(
                            closing(before.trace().path, names[w as int]),
                        ));
                        assert(self.found@[self.found@.len() - 1]@ == cycle@);
                        assert(arc_found(self.found@, v, w));
                        assert forall|i: int| 0 <= i < self.finished@.len() implies #[trigger] settled(
                            self.succ@,
                            self.finished@,
                            self.found@,
                            i,
                        ) by {
                            lemma_settled_stays(
                                self.succ@,
                                before.finished@,
                                before.found@,
                                self.finished@,
                                self.found@,
                                i,
                            );
                        }
                    }
                },
                NodeState::Visited => {},
                NodeState::Unvisited => {
                    self.dfs(w);
                    proof {
                        lemma_unvisited_advanced(before.states@, self.states@);
                        assert(before.fuel() == fuel);
                    }
                },
            }
            proof {
                assert forall|k: int| 0 <= k < j + 1 implies #[trigger] handled(
                    self.succ@,
                    self.states@,
                    self.found@,
                    v,
                    k,
                ) by {
                    if k < j {
                        assert(handled(before.succ@, before.states@, before.found@, v, k));
                        let x = self.succ@[v as int]@[k];
                        if arc_found(before.found@, v, x) {
                            lemma_arc_found_stays(before.found@, self.found@, v, x);
                        } else {
                            assert(x < self.succ@.len());
                            assert(before.states@[x as int] == NodeState::Visited);
                            assert(self.states@[x as int] == NodeState::Visited);
                        }
                    }
                }
            }
            j += 1;
        }
        let ghost at_exit = *self;
        self.path.pop();
        self.states[v] = NodeState::Visited;
        proof {
            let ghost_before = self.finished@;
            self.finished@ = self.finished@.push(v);
            assert(self.trace().path =~= old(self).trace().path);
            assert(self.trace().done =~= at_exit.trace().done.push(names[v as int]));
            assert(self.trace().found =~= at_exit.trace().found);
            assert(at_exit.trace() == scan(graph, entered, succs, 0, fuel));
            let p0 = old(self).path@;
            let fin = self.finished@;
            assert(self.path@ =~= p0);
            assert(!ghost_before.contains(v));
            assert(fin.take(ghost_before.len() as int) =~= ghost_before);
            assert forall|u: usize| u < self.succ@.len() implies (
            #[trigger] self.states@[u as int] == NodeState::Visiting <==> p0.contains(u)) by {
                let p = p0.push(v);
                if u != v {
                    if p0.contains(u) {
                        let k = p0.index_of(u);
                        assert(p[k] == u);
                    }
                    if p.contains(u) {
                        let k = p.index_of(u);
                        assert(p0[k] == u);
                    }
                } else {
                    assert(!p0.contains(v));
                }
            }
            assert forall|u: usize| u < self.succ@.len() implies (
            #[trigger] self.states@[u as int] == NodeState::Visited <==> fin.contains(u)) by {
                if u == v {
                    assert(fin[fin.len() - 1] == v);
                } else {
                    if ghost_before.contains(u) {
                        let k = ghost_before.index_of(u);
                        assert(fin[k] == u);
                    }
                    if fin.contains(u) {
                        let k = fin.index_of(u);
                        assert(ghost_before[k] == u);
                    }
                }
            }
            assert forall|i: int| 0 <= i < fin.len() implies #[trigger] settled(
                self.succ@,
                fin,
                self.found@,
                i,
            ) by {
                if i < ghost_before.len() {
                    assert(extends(ghost_before, fin));
                    assert(extends(self.found@, self.found@));
                    lemma_settled_stays(
                        self.succ@,
                        ghost_before,
                        self.found@,
                        fin,
                        self.found@,
                        i,
                    );
                } else {
                    assert forall|k: int|
                        0 <= k < self.succ@[v as int]@.len() implies #[trigger] done_with(
                        self.succ@,
                        fin,
                        self.found@,
                        i,
                        k,
                    ) by {
                        let w = self.succ@[v as int]@[k];
                        assert(w < self.succ@.len());
                        assert(handled(at_exit.succ@, at_exit.states@, at_exit.found@, v, k));
                        if !arc_found(self.found@, v, w) {
                            assert(at_exit.states@[w as int] == NodeState::Visited);
                            assert(w != v);
                            assert(ghost_before.contains(w));
                        }
                    }
                }
            }
            assert forall|u: int|
                0 <= u < old(self).states@.len() && old(self).states@[u]
                    != NodeState::Unvisited implies #[trigger] self.states@[u] == old(
                self,
            ).states@[u] by {}
            assert forall|k: int| 0 <= k < p0.len() - 1 implies #[trigger] step(
                self.succ@,
                p0,
                k,
            ) by {
                assert(step(self.succ@, p0.push(v), k));
            }
        }
    }
}

} // verus!
