//! Sets of dependencies.

use crate::dependency::chain::names_of;
use crate::dependency::cycle::{adjacency_of, edge_at, has_edge, Graph};
use crate::dependency::Dependency;
use crate::index::{hash_of, hash_pair, hash_str, hashes_of, pair_hash, HashIndex};
use crate::render::Render;
use vstd::prelude::*;

verus! {

/// A dependency by the texts its endpoints render to.
pub type EdgeKey = (Seq<char>, Seq<char>);

/// The keys of a sequence of dependencies.
pub open spec fn keys_of<F: Render, T: Render>(edges: Seq<Dependency<F, T>>) -> Seq<EdgeKey> {
    Seq::new(edges.len(), |i: int| edges[i].key())
}

/// One of `edges` has the key `key`.
pub open spec fn has_key<F: Render, T: Render>(edges: Seq<Dependency<F, T>>, key: EdgeKey) -> bool {
    exists|i: int| 0 <= i < edges.len() && (#[trigger] edges[i]).key() == key
}

/// `edges` without the dependencies whose key an earlier one has.
pub open spec fn first_of_each<F: Render, T: Render>(edges: Seq<Dependency<F, T>>) -> Seq<
    Dependency<F, T>,
>
    decreases edges.len(),
{
    if edges.len() == 0 {
        Seq::empty()
    } else {
        let kept = first_of_each(edges.drop_last());
        if has_key(kept, edges.last().key()) {
            kept
        } else {
            kept.push(edges.last())
        }
    }
}

/// The index of the first entry of `groups` for the node `from`, if any.
pub open spec fn group_index(groups: Graph, from: Seq<char>) -> Option<int>
    decreases groups.len(),
{
    if groups.len() == 0 {
        None
    } else {
        match group_index(groups.drop_last(), from) {
            Some(i) => Some(i),
            None => if groups.last().0 == from {
                Some(groups.len() - 1)
            } else {
                None
            },
        }
    }
}

/// The graph of a sequence of dependencies: one entry for each source, in the
/// order in which the sources first occur, each with its targets in the order
/// in which they occur.
pub open spec fn grouped(keys: Seq<EdgeKey>) -> Graph
    decreases keys.len(),
{
    if keys.len() == 0 {
        Seq::empty()
    } else {
        let groups = grouped(keys.drop_last());
        let from = keys.last().0;
        let to = keys.last().1;
        match group_index(groups, from) {
            Some(i) => groups.update(i, (from, groups[i].1.push(to))),
            None => groups.push((from, seq![to])),
        }
    }
}

/// `group_index` finds an entry for `from` exactly if there is one.
pub proof fn lemma_group_index(groups: Graph, from: Seq<char>)
    ensures
        match group_index(groups, from) {
            Some(i) => 0 <= i < groups.len() && groups[i].0 == from,
            None => forall|i: int| 0 <= i < groups.len() ==> (#[trigger] groups[i]).0 != from,
        },
    decreases groups.len(),
{
    if groups.len() > 0 {
        lemma_group_index(groups.drop_last(), from);
        match group_index(groups.drop_last(), from) {
            Some(_) => {},
            None => {
                assert forall|i: int| 0 <= i < groups.len() - 1 implies (#[trigger] groups[i]).0
                    != from by {
                    assert(groups.drop_last()[i] == groups[i]);
                }
            },
        }
    }
}

/// The graph of a sequence of dependencies has an edge from one node to
/// another exactly if the sequence holds that dependency.
pub proof fn lemma_grouped_edges(keys: Seq<EdgeKey>, u: Seq<char>, w: Seq<char>)
    ensures
        has_edge(grouped(keys), u, w) <==> keys.contains((u, w)),
    decreases keys.len(),
{
    if keys.len() == 0 {
        if has_edge(grouped(keys), u, w) {
            let (i, j) = choose|i: int, j: int| #[trigger] edge_at(grouped(keys), i, j, u, w);
        }
    } else {
        let init = keys.drop_last();
        let groups = grouped(init);
        let g = grouped(keys);
        let from = keys.last().0;
        let to = keys.last().1;
        lemma_grouped_edges(init, u, w);
        lemma_group_index(groups, from);
        if keys.contains((u, w)) {
            let x = keys.index_of((u, w));
            assert(keys[x] == (u, w));
            if x < keys.len() - 1 {
                assert(init[x] == (u, w));
                assert(init.contains((u, w)));
                let (i, j) = choose|i: int, j: int| #[trigger] edge_at(groups, i, j, u, w);
                assert(edge_at(g, i, j, u, w));
            } else {
                match group_index(groups, from) {
                    Some(i) => {
                        assert(edge_at(g, i, groups[i].1.len() as int, u, w));
                    },
                    None => {
                        assert(edge_at(g, groups.len() as int, 0, u, w));
                    },
                }
            }
        }
        if has_edge(g, u, w) {
            let (i, j) = choose|i: int, j: int| #[trigger] edge_at(g, i, j, u, w);
            match group_index(groups, from) {
                Some(x) => {
                    if i == x && j == groups[x].1.len() {
                        assert(keys[keys.len() - 1] == (u, w));
                    } else {
                        assert(edge_at(groups, i, j, u, w));
                        let y = init.index_of((u, w));
                        assert(init[y] == (u, w));
                        assert(keys[y] == (u, w));
                    }
                },
                None => {
                    if i == groups.len() {
                        assert(keys[keys.len() - 1] == (u, w));
                    } else {
                        assert(edge_at(groups, i, j, u, w));
                        let y = init.index_of((u, w));
                        assert(init[y] == (u, w));
                        assert(keys[y] == (u, w));
                    }
                },
            }
        }
    }
}

/// No key of `first_of_each` occurs twice, and its keys are those of `edges`.
pub proof fn lemma_first_of_each<F: Render, T: Render>(edges: Seq<Dependency<F, T>>)
    ensures
        keys_of(first_of_each(edges)).no_duplicates(),
        forall|key: EdgeKey| #[trigger]
            has_key(first_of_each(edges), key) <==> has_key(edges, key),
    decreases edges.len(),
{
    if edges.len() > 0 {
        let init = edges.drop_last();
        let kept = first_of_each(init);
        let all = first_of_each(edges);
        lemma_first_of_each(init);
        assert forall|key: EdgeKey| #[trigger] has_key(all, key) <==> has_key(edges, key) by {
            if has_key(all, key) {
                let i = choose|i: int| 0 <= i < all.len() && (#[trigger] all[i]).key() == key;
                if i < kept.len() {
                    assert(kept[i].key() == key);
                    assert(has_key(kept, key));
                    assert(has_key(init, key));
                    let x = choose|x: int| 0 <= x < init.len() && (#[trigger] init[x]).key() == key;
                    assert(edges[x].key() == key);
                } else {
                    assert(edges[edges.len() - 1].key() == key);
                }
            }
            if has_key(edges, key) {
                let x = choose|x: int| 0 <= x < edges.len() && (#[trigger] edges[x]).key() == key;
                if x < edges.len() - 1 {
                    assert(init[x].key() == key);
                    assert(has_key(init, key));
                    assert(has_key(kept, key));
                    let i = choose|i: int| 0 <= i < kept.len() && (#[trigger] kept[i]).key() == key;
                    assert(all[i].key() == key);
                } else if has_key(kept, key) {
                } else {
                    assert(all[all.len() - 1].key() == key);
                }
            }
        }
        let k = keys_of(all);
        assert forall|a: int, b: int| 0 <= a < k.len() && 0 <= b < k.len() && a != b implies k[a]
            != k[b] by {
            if a < kept.len() && b < kept.len() {
                assert(keys_of(kept)[a] != keys_of(kept)[b]);
            } else if a < kept.len() {
                assert(kept[a].key() == all[a].key());
            } else if b < kept.len() {
                assert(kept[b].key() == all[b].key());
            }
        }
    }
}

/// The hash of each of `keys`.
spec fn pair_hashes(keys: Seq<EdgeKey>) -> Seq<u64> {
    Seq::new(keys.len(), |i: int| pair_hash(keys[i].0, keys[i].1))
}

/// The texts of each of `keys`.
spec fn key_texts(keys: Seq<(String, String)>) -> Seq<EdgeKey> {
    Seq::new(keys.len(), |i: int| (keys[i].0@, keys[i].1@))
}

/// The node of each of `groups`.
spec fn group_nodes(groups: Graph) -> Seq<Seq<char>> {
    Seq::new(groups.len(), |i: int| groups[i].0)
}

/// No two entries of the graph of a sequence of dependencies are for the same
/// node.
pub proof fn lemma_grouped_once(keys: Seq<EdgeKey>)
    ensures
        forall|a: int, b: int|
            0 <= a < grouped(keys).len() && 0 <= b < grouped(keys).len() && a != b ==> (
            #[trigger] grouped(keys)[a]).0 != (#[trigger] grouped(keys)[b]).0,
    decreases keys.len(),
{
    if keys.len() > 0 {
        let groups = grouped(keys.drop_last());
        lemma_grouped_once(keys.drop_last());
        lemma_group_index(groups, keys.last().0);
    }
}

/// A set of dependencies: no two have the same key.
#[derive(Debug)]
pub struct DependencyList<TFrom: Render, TTo: Render> {
    edges: Vec<Dependency<TFrom, TTo>>,
    keys: Vec<(String, String)>,
    index: HashIndex,
}

impl<TFrom: Render, TTo: Render> View for DependencyList<TFrom, TTo> {
    type V = Seq<Dependency<TFrom, TTo>>;

    closed spec fn view(&self) -> Seq<Dependency<TFrom, TTo>> {
        self.edges@
    }
}

/// The index of the entry of `groups` for the node `from`, if any.
fn find_group(groups: &Vec<(String, Vec<String>)>, index: &HashIndex, from: &String) -> (r: Option<
    usize,
>)
    requires
        index.of(hashes_of(group_nodes(adjacency_of(groups@)))),
        forall|a: int, b: int|
            0 <= a < groups@.len() && 0 <= b < groups@.len() && a != b ==> (#[trigger] groups@[a]).0@
                != (#[trigger] groups@[b]).0@,
    ensures
        match r {
            Some(i) => group_index(adjacency_of(groups@), from@) == Some(i as int) && i
                < groups@.len(),
            None => group_index(adjacency_of(groups@), from@) is None,
        },
{
    let ghost all = adjacency_of(groups@);
    let ghost hashes = hashes_of(group_nodes(all));
    let n = groups.len();
    proof {
        lemma_group_index(all, from@);
    }
    match index.places(hash_str(from.as_str()), Ghost(hashes)) {
        Some(places) => {
            let mut k: usize = 0;
            while k < places.len()
                invariant
                    k <= places@.len(),
                    n == groups@.len(),
                    all == adjacency_of(groups@),
                    hashes == hashes_of(group_nodes(all)),
                    forall|x: int|
                        0 <= x < places@.len() ==> (#[trigger] places@[x]) < hashes.len(),
                    forall|x: int|
                        0 <= x < k ==> groups@[(#[trigger] places@[x]) as int].0@ != from@,
                    forall|a: int, b: int|
                        0 <= a < groups@.len() && 0 <= b < groups@.len() && a != b ==> (
                        #[trigger] groups@[a]).0@ != (#[trigger] groups@[b]).0@,
                    match group_index(all, from@) {
                        Some(i) => 0 <= i < all.len() && all[i].0 == from@,
                        None => forall|i: int| 0 <= i < all.len() ==> (#[trigger] all[i]).0 != from@,
                    },
                decreases places@.len() - k,
            {
                let p = places[k];
                if groups[p].0 == *from {
                    proof {
                        let i = group_index(all, from@)->0;
                        assert(all[p as int].0 == from@);
                        assert(groups@[i].0@ == groups@[p as int].0@);
                    }
                    return Some(p);
                }
                k += 1;
            }
            proof {
                if group_index(all, from@) is Some {
                    let i = group_index(all, from@)->0;
                    assert(hashes[i] == hash_of(from@));
                    assert(places@.contains(i as usize));
                    let x = places@.index_of(i as usize);
                    assert(places@[x] == i);
                }
            }
            None
        },
        None => {
            proof {
                if group_index(all, from@) is Some {
                    let i = group_index(all, from@)->0;
                    assert(hashes[i] == hash_of(from@));
                }
            }
            None
        },
    }
}

impl<TFrom: Render, TTo: Render> DependencyList<TFrom, TTo> {
    #[verifier::type_invariant]
    spec fn each_key_once(self) -> bool {
        &&& keys_of(self.edges@).no_duplicates()
        &&& key_texts(self.keys@) == keys_of(self.edges@)
        &&& self.index.of(pair_hashes(keys_of(self.edges@)))
    }

    /// The empty set.
    pub fn new() -> (r: Self)
        ensures
            r@ == Seq::<Dependency<TFrom, TTo>>::empty(),
    {
        let edges: Vec<Dependency<TFrom, TTo>> = Vec::new();
        let keys: Vec<(String, String)> = Vec::new();
        let index = HashIndex::new();
        proof {
            assert(key_texts(keys@) =~= keys_of(edges@));
            assert(pair_hashes(keys_of(edges@)) =~= Seq::<u64>::empty());
        }
        DependencyList { edges, keys, index }
    }

    /// The dependencies of the set.
    pub fn as_ref(&self) -> (r: &Vec<Dependency<TFrom, TTo>>)
        ensures
            r@ == self@,
            keys_of(r@).no_duplicates(),
    {
        proof {
            use_type_invariant(self);
        }
        &self.edges
    }

    /// The dependencies of the set.
    pub fn into_edges(self) -> (r: Vec<Dependency<TFrom, TTo>>)
        ensures
            r@ == self@,
            keys_of(r@).no_duplicates(),
    {
        proof {
            use_type_invariant(&self);
        }
        self.edges
    }

    /// The number of dependencies in the set.
    pub fn len(&self) -> (n: usize)
        ensures
            n == self@.len(),
    {
        self.edges.len()
    }

    /// Whether the set holds a dependency whose source renders to `from` and
    /// whose target renders to `to`; `hash` is the hash of the two.
    fn holds(&self, from: &String, to: &String, hash: u64) -> (r: bool)
        requires
            hash == pair_hash(from@, to@),
        ensures
            r == keys_of(self@).contains((from@, to@)),
    {
        proof {
            use_type_invariant(self);
        }
        let n = self.keys.len();
        let ghost key = (from@, to@);
        let ghost keys = key_texts(self.keys@);
        let ghost hashes = pair_hashes(keys);
        match self.index.places(hash, Ghost(hashes)) {
            Some(places) => {
                let mut k: usize = 0;
                while k < places.len()
                    invariant
                        k <= places@.len(),
                        n == self.keys@.len(),
                        key == (from@, to@),
                        keys == key_texts(self.keys@),
                        keys == keys_of(self@),
                        forall|x: int|
                            0 <= x < places@.len() ==> (#[trigger] places@[x]) < keys.len(),
                        forall|x: int| 0 <= x < k ==> keys[(#[trigger] places@[x]) as int] != key,
                    decreases places@.len() - k,
                {
                    let p = places[k];
                    if self.keys[p].0 == *from && self.keys[p].1 == *to {
                        assert(keys[p as int] == key);
                        return true;
                    }
                    assert(keys[p as int] != key);
                    k += 1;
                }
                proof {
                    if keys.contains(key) {
                        let i = keys.index_of(key);
                        assert(keys[i] == key);
                        assert(hashes[i] == hash);
                        assert(places@.contains(i as usize));
                        let x = places@.index_of(i as usize);
                        assert(places@[x] == i);
                    }
                }
                false
            },
            None => {
                proof {
                    if keys.contains(key) {
                        let i = keys.index_of(key);
                        assert(keys[i] == key);
                        assert(hashes[i] == hash);
                    }
                }
                false
            },
        }
    }

    /// Whether the set holds a dependency with the key of `edge`.
    pub fn contains(&self, edge: &Dependency<TFrom, TTo>) -> (r: bool)
        ensures
            r == has_key(self@, edge.key()),
    {
        let from = edge.from.render();
        let to = edge.to.render();
        let hash = hash_pair(from.as_str(), to.as_str());
        let r = self.holds(&from, &to, hash);
        proof {
            lemma_has_key(self@, edge.key());
        }
        r
    }

    /// This set with `edge` added, unless the set holds a dependency with its
    /// key.
    pub fn with(self, edge: Dependency<TFrom, TTo>) -> (r: Self)
        ensures
            r@ == if has_key(self@, edge.key()) {
                self@
            } else {
                self@.push(edge)
            },
    {
        proof {
            use_type_invariant(&self);
            lemma_has_key(self@, edge.key());
        }
        let from = edge.from.render();
        let to = edge.to.render();
        let hash = hash_pair(from.as_str(), to.as_str());
        if self.holds(&from, &to, hash) {
            self
        } else {
            let DependencyList { mut edges, mut keys, mut index } = self;
            let ghost before = edges@;
            index.insert(hash, edges.len(), Ghost(pair_hashes(keys_of(before))));
            edges.push(edge);
            keys.push((from, to));
            proof {
                let k = keys_of(edges@);
                assert(k =~= keys_of(before).push(edge.key()));
                assert(key_texts(keys@) =~= k);
                assert(pair_hashes(k) =~= pair_hashes(keys_of(before)).push(hash));
                assert forall|a: int, b: int|
                    0 <= a < k.len() && 0 <= b < k.len() && a != b implies k[a] != k[b] by {
                    if a < before.len() && b < before.len() {
                        assert(keys_of(before)[a] != keys_of(before)[b]);
                    } else if a < before.len() {
                        assert(keys_of(before)[a] == k[a]);
                    } else if b < before.len() {
                        assert(keys_of(before)[b] == k[b]);
                    }
                }
            }
            DependencyList { edges, keys, index }
        }
    }

    /// The set of the given dependencies: of those with the same key, the
    /// first is kept.
    pub fn from_edges(edges: Vec<Dependency<TFrom, TTo>>) -> (r: Self)
        ensures
            r@ == first_of_each(edges@),
    {
        let mut out = DependencyList::new();
        let ghost all = edges@;
        assert(all.take(0) =~= Seq::<Dependency<TFrom, TTo>>::empty());
        for edge in it: edges
            invariant
                it.seq() == all,
                out@ == first_of_each(all.take(it.index() as int)),
        {
            proof {
                let upto = all.take(it.index() + 1);
                assert(upto.drop_last() =~= all.take(it.index() as int));
                assert(upto.last() == edge);
            }
            out = out.with(edge);
        }
        assert(all.take(all.len() as int) =~= all);
        out
    }

    /// The graph of the set: for each source, by the text it renders to, the
    /// texts its targets render to.
    pub fn group_by_from(&self) -> (r: Vec<(String, Vec<String>)>)
        ensures
            adjacency_of(r@) == grouped(keys_of(self@)),
    {
        proof {
            use_type_invariant(self);
        }
        let mut out: Vec<(String, Vec<String>)> = Vec::new();
        let mut index = HashIndex::new();
        let ghost keys = keys_of(self@);
        let mut i: usize = 0;
        proof {
            assert(keys.subrange(0, 0) =~= Seq::<EdgeKey>::empty());
            assert(adjacency_of(out@) =~= grouped(keys.subrange(0, 0)));
            assert(hashes_of(group_nodes(adjacency_of(out@))) =~= Seq::<u64>::empty());
        }
        while i < self.edges.len()
            invariant
                i <= self.edges@.len(),
                keys == keys_of(self@),
                key_texts(self.keys@) == keys,
                adjacency_of(out@) == grouped(keys.subrange(0, i as int)),
                index.of(hashes_of(group_nodes(adjacency_of(out@)))),
            decreases self.edges@.len() - i,
        {
            let from = self.keys[i].0.clone();
            let to = self.keys[i].1.clone();
            let ghost before = adjacency_of(out@);
            proof {
                assert(key_texts(self.keys@)[i as int] == keys[i as int]);
                let upto = keys.subrange(0, i + 1);
                assert(upto.drop_last() =~= keys.subrange(0, i as int));
                assert(upto.last() == (from@, to@));
                lemma_grouped_once(keys.subrange(0, i as int));
                assert forall|a: int, b: int|
                    0 <= a < out@.len() && 0 <= b < out@.len() && a != b implies (
                #[trigger] out@[a]).0@ != (#[trigger] out@[b]).0@ by {
                    assert(before[a].0 != before[b].0);
                }
            }
            match find_group(&out, &index, &from) {
                Some(x) => {
                    out[x].1.push(to);
                    proof {
                        lemma_group_index(before, from@);
                        assert(names_of(out@[x as int].1@) =~= before[x as int].1.push(to@));
                        assert(adjacency_of(out@) =~= before.update(
                            x as int,
                            (from@, before[x as int].1.push(to@)),
                        ));
                        assert(group_nodes(adjacency_of(out@)) =~= group_nodes(before));
                    }
                },
                None => {
                    let mut targets: Vec<String> = Vec::new();
                    targets.push(to);
                    index.insert(
                        hash_str(from.as_str()),
                        out.len(),
                        Ghost(hashes_of(group_nodes(before))),
                    );
                    out.push((from, targets));
                    proof {
                        assert(names_of(targets@) =~= seq![to@]);
                        assert(adjacency_of(out@) =~= before.push((from@, seq![to@])));
                        assert(hashes_of(group_nodes(adjacency_of(out@))) =~= hashes_of(
                            group_nodes(before),
                        ).push(hash_of(from@)));
                    }
                },
            }
            i += 1;
        }
        assert(keys.subrange(0, i as int) =~= keys);
        out
    }
}

/// A sequence of dependencies has one with a key exactly if the key is among
/// its keys.
pub proof fn lemma_has_key<F: Render, T: Render>(edges: Seq<Dependency<F, T>>, key: EdgeKey)
    ensures
        has_key(edges, key) <==> keys_of(edges).contains(key),
{
    if has_key(edges, key) {
        let i = choose|i: int| 0 <= i < edges.len() && (#[trigger] edges[i]).key() == key;
        assert(keys_of(edges)[i] == key);
    }
    if keys_of(edges).contains(key) {
        let i = keys_of(edges).index_of(key);
        assert(edges[i].key() == key);
    }
}

} // verus!
