//! Chains of nodes, compared up to the node they start at.

use crate::render::Render;
use crate::text::{
    lemma_lex_lt_irreflexive, lemma_lex_lt_total, lemma_lex_lt_transitive, lex_lt, str_lt,
};
use vstd::prelude::*;
use vstd::std_specs::cmp::PartialEqSpecImpl;
use vstd::string::*;

verus! {

/// The names held by a sequence of strings.
pub open spec fn names_of(v: Seq<String>) -> Seq<Seq<char>> {
    Seq::new(v.len(), |i: int| v[i]@)
}

/// The index of the smallest name of `s` in lexicographic order, the first
/// such index where the smallest name occurs more than once; 0 where `s` is
/// empty.
pub open spec fn min_index(s: Seq<Seq<char>>) -> int
    decreases s.len(),
{
    if s.len() <= 1 {
        0
    } else {
        let m = min_index(s.drop_last());
        if lex_lt(s.last(), s[m]) {
            s.len() - 1
        } else {
            m
        }
    }
}

/// `s` rotated to the left by `k` places.
pub open spec fn rotate(s: Seq<Seq<char>>, k: int) -> Seq<Seq<char>> {
    s.skip(k) + s.take(k)
}

/// The chain ends at the node it starts at.
pub open spec fn is_closed(s: Seq<Seq<char>>) -> bool {
    s.len() >= 2 && s.first() == s.last()
}

/// The cycle that runs through the nodes of `body` in turn and back to the
/// first.
pub open spec fn close(body: Seq<Seq<char>>) -> Seq<Seq<char>>
    recommends
        body.len() > 0,
{
    body.push(body[0])
}

/// The form in which a chain is compared. A chain that ends at the node it
/// starts at is a cycle: its nodes are rotated so that the smallest comes
/// first, and the cycle is closed again at that node. Any other chain is
/// rotated so that its smallest node comes first.
pub open spec fn normal_form(s: Seq<Seq<char>>) -> Seq<Seq<char>> {
    if is_closed(s) {
        let body = s.drop_last();
        close(rotate(body, min_index(body)))
    } else {
        rotate(s, min_index(s))
    }
}

/// The separator between the nodes of a printed chain.
pub open spec fn chain_separator() -> Seq<char> {
    seq![' ', '>', ' ']
}

/// The printed form of a chain: its nodes, separated by `" > "`.
pub open spec fn chain_text(s: Seq<Seq<char>>) -> Seq<char>
    decreases s.len(),
{
    if s.len() == 0 {
        Seq::empty()
    } else if s.len() == 1 {
        s[0]
    } else {
        chain_text(s.drop_last()) + chain_separator() + s.last()
    }
}

/// The smallest name of `s` stands at `min_index(s)`, and every name before
/// it is strictly larger.
pub proof fn lemma_min_index(s: Seq<Seq<char>>)
    requires
        s.len() > 0,
    ensures
        0 <= min_index(s) < s.len(),
        forall|i: int| 0 <= i < s.len() ==> !lex_lt(#[trigger] s[i], s[min_index(s)]),
        forall|i: int| 0 <= i < min_index(s) ==> lex_lt(s[min_index(s)], #[trigger] s[i]),
    decreases s.len(),
{
    if s.len() > 1 {
        let init = s.drop_last();
        lemma_min_index(init);
        let m = min_index(init);
        if lex_lt(s.last(), s[m]) {
            assert forall|i: int| 0 <= i < s.len() implies !lex_lt(#[trigger] s[i], s.last()) by {
                if i < s.len() - 1 {
                    assert(init[i] == s[i]);
                    if lex_lt(s[i], s.last()) {
                        lemma_lex_lt_transitive(s[i], s.last(), s[m]);
                    }
                } else {
                    lemma_lex_lt_irreflexive(s.last());
                }
            }
            assert forall|i: int| 0 <= i < s.len() - 1 implies lex_lt(s.last(), #[trigger] s[i]) by {
                assert(init[i] == s[i]);
                lemma_lex_lt_total(s[i], s[m]);
                if s[i] != s[m] {
                    lemma_lex_lt_transitive(s.last(), s[m], s[i]);
                }
            }
        } else {
            assert forall|i: int| 0 <= i < s.len() implies !lex_lt(#[trigger] s[i], s[m]) by {
                if i < s.len() - 1 {
                    assert(init[i] == s[i]);
                }
            }
            assert forall|i: int| 0 <= i < m implies lex_lt(s[m], #[trigger] s[i]) by {
                assert(init[i] == s[i]);
            }
        }
    } else {
        lemma_lex_lt_irreflexive(s[0]);
    }
}

/// The index at which a name stands that no name of `s` is smaller than and
/// that every earlier name is larger than is `min_index(s)`.
pub proof fn lemma_min_index_is(s: Seq<Seq<char>>, m: int)
    requires
        0 <= m < s.len(),
        forall|i: int| 0 <= i < s.len() ==> !lex_lt(#[trigger] s[i], s[m]),
        forall|i: int| 0 <= i < m ==> lex_lt(s[m], #[trigger] s[i]),
    ensures
        min_index(s) == m,
{
    lemma_min_index(s);
    let k = min_index(s);
    if k < m {
        assert(lex_lt(s[m], s[k]));
        assert(!lex_lt(s[m], s[k]));
    } else if m < k {
        assert(lex_lt(s[k], s[m]));
        assert(!lex_lt(s[k], s[m]));
    }
}

/// The name at index `i` of a rotated sequence.
pub proof fn lemma_rotate_index(s: Seq<Seq<char>>, k: int, i: int)
    requires
        0 <= k <= s.len(),
        0 <= i < s.len(),
    ensures
        rotate(s, k).len() == s.len(),
        rotate(s, k)[i] == if i < s.len() - k {
            s[k + i]
        } else {
            s[i - (s.len() - k)]
        },
{
}

/// Rotating a sequence brings its smallest name to the front exactly when it
/// is rotated by the index of that name: whatever a sequence without
/// repetitions is rotated by, bringing the smallest name to the front gives
/// the same sequence.
pub proof fn lemma_rotation_to_min(s: Seq<Seq<char>>, k: int)
    requires
        s.no_duplicates(),
        0 <= k < s.len(),
    ensures
        rotate(rotate(s, k), min_index(rotate(s, k))) == rotate(s, min_index(s)),
{
    let n = s.len() as int;
    let r = rotate(s, k);
    lemma_min_index(s);
    let m = min_index(s);
    let x = if m >= k {
        m - k
    } else {
        n - k + m
    };
    assert(r.len() == n);
    lemma_rotate_index(s, k, x);
    assert(r[x] == s[m]);
    assert forall|i: int| 0 <= i < r.len() implies !lex_lt(#[trigger] r[i], r[x]) by {
        lemma_rotate_index(s, k, i);
    }
    assert forall|i: int| 0 <= i < x implies lex_lt(r[x], #[trigger] r[i]) by {
        lemma_rotate_index(s, k, i);
        let y = if i < n - k {
            k + i
        } else {
            i - (n - k)
        };
        assert(r[i] == s[y]);
        assert(y != m);
        assert(s[y] != s[m]);
        lemma_lex_lt_total(s[y], s[m]);
    }
    lemma_min_index_is(r, x);
    assert(rotate(r, x) =~= rotate(s, m));
}

/// A cycle has the same form of comparison whichever of its nodes it starts
/// at: for a cycle through the nodes of `body`, none of them met twice,
/// starting the cycle `k` nodes later changes nothing in its normal form.
pub proof fn lemma_rotated_cycle_same_normal_form(body: Seq<Seq<char>>, k: int)
    requires
        body.no_duplicates(),
        0 <= k < body.len(),
    ensures
        normal_form(close(rotate(body, k))) == normal_form(close(body)),
{
    let r = rotate(body, k);
    assert(r.len() == body.len());
    assert(close(r).drop_last() =~= r);
    assert(close(body).drop_last() =~= body);
    assert(is_closed(close(r)));
    assert(is_closed(close(body)));
    lemma_rotation_to_min(body, k);
}

/// The form in which a chain is compared is its own form of comparison.
pub proof fn lemma_normal_form_idempotent(s: Seq<Seq<char>>)
    ensures
        normal_form(normal_form(s)) == normal_form(s),
{
    if is_closed(s) {
        let b = s.drop_last();
        let n = b.len() as int;
        lemma_min_index(b);
        let m = min_index(b);
        let r = rotate(b, m);
        assert(r.len() == n);
        assert(close(r).drop_last() =~= r);
        assert forall|i: int| 0 <= i < r.len() implies !lex_lt(#[trigger] r[i], r[0]) by {
            lemma_rotate_index(b, m, i);
            lemma_rotate_index(b, m, 0);
        }
        lemma_min_index_is(r, 0);
        assert(rotate(r, 0) =~= r);
    } else if s.len() == 0 {
        assert(rotate(s, 0) =~= s);
    } else {
        let n = s.len() as int;
        lemma_min_index(s);
        let m = min_index(s);
        let r = rotate(s, m);
        assert(r.len() == n);
        assert forall|i: int| 0 <= i < r.len() implies !lex_lt(#[trigger] r[i], r[0]) by {
            lemma_rotate_index(s, m, i);
            lemma_rotate_index(s, m, 0);
        }
        lemma_min_index_is(r, 0);
        assert(rotate(r, 0) =~= r);
        if is_closed(r) {
            lemma_rotate_index(s, m, 0);
            lemma_rotate_index(s, m, n - 1);
            if m > 0 {
                assert(r[n - 1] == s[m - 1]);
                assert(lex_lt(s[m], s[m - 1]));
                lemma_lex_lt_irreflexive(s[m]);
            } else {
                assert(r =~= s);
            }
        }
    }
}

/// A chain: a sequence of node names.
#[derive(Debug)]
pub struct DependencyChain(Vec<String>);

impl View for DependencyChain {
    type V = Seq<Seq<char>>;

    closed spec fn view(&self) -> Seq<Seq<char>> {
        names_of(self.0@)
    }
}

impl Clone for DependencyChain {
    fn clone(&self) -> (r: Self)
        ensures
            r@ == self@,
    {
        let r = DependencyChain(self.0.clone());
        assert(r@ =~= self@);
        r
    }
}

impl PartialEq for DependencyChain {
    fn eq(&self, other: &DependencyChain) -> (r: bool) {
        let a = self.normalize();
        let b = other.normalize();
        if a.len() != b.len() {
            return false;
        }
        let mut i: usize = 0;
        while i < a.len()
            invariant
                i <= a@.len(),
                a@.len() == b@.len(),
                names_of(a@) == normal_form(self@),
                names_of(b@) == normal_form(other@),
                forall|k: int| 0 <= k < i ==> a@[k]@ == b@[k]@,
            decreases a@.len() - i,
        {
            if a[i] != b[i] {
                assert(names_of(a@)[i as int] != names_of(b@)[i as int]);
                return false;
            }
            i += 1;
        }
        assert(names_of(a@) =~= names_of(b@));
        true
    }
}

impl Eq for DependencyChain {

}

impl PartialEqSpecImpl for DependencyChain {
    open spec fn obeys_eq_spec() -> bool {
        true
    }

    open spec fn eq_spec(&self, other: &DependencyChain) -> bool {
        normal_form(self@) == normal_form(other@)
    }
}

impl Render for DependencyChain {
    open spec fn rendered(&self) -> Seq<char> {
        chain_text(self@)
    }

    fn render(&self) -> (s: String) {
        proof {
            reveal_strlit(" > ");
            assert(" > "@ =~= chain_separator());
        }
        let mut out = String::new();
        let mut i: usize = 0;
        assert(self@.subrange(0, 0) =~= Seq::<Seq<char>>::empty());
        while i < self.0.len()
            invariant
                i <= self.0@.len(),
                " > "@ == chain_separator(),
                out@ == chain_text(self@.subrange(0, i as int)),
            decreases self.0@.len() - i,
        {
            proof {
                let upto = self@.subrange(0, i + 1);
                assert(upto.drop_last() =~= self@.subrange(0, i as int));
                assert(upto.last() == self.0@[i as int]@);
                if i == 0 {
                    assert(upto[0] == self.0@[0]@);
                    assert(Seq::<char>::empty() + self.0@[0]@ =~= self.0@[0]@);
                }
            }
            if i > 0 {
                out.append(" > ");
            }
            out.append(self.0[i].as_str());
            i += 1;
        }
        assert(self@.subrange(0, i as int) =~= self@);
        out
    }
}

impl DependencyChain {
    /// The chain of the given nodes.
    pub fn new(nodes: Vec<String>) -> (r: DependencyChain)
        ensures
            r@ == names_of(nodes@),
    {
        DependencyChain(nodes)
    }

    /// The nodes of the chain, in order.
    pub fn nodes(&self) -> (r: &Vec<String>)
        ensures
            names_of(r@) == self@,
    {
        &self.0
    }

    /// The number of nodes of the chain.
    pub fn len(&self) -> (n: usize)
        ensures
            n == self@.len(),
    {
        self.0.len()
    }

    /// Whether the chain runs through the same nodes in the same order as
    /// `other`, starting at the same node.
    pub fn has_same_nodes(&self, other: &DependencyChain) -> (r: bool)
        ensures
            r == (self@ == other@),
    {
        if self.0.len() != other.0.len() {
            assert(self@.len() != other@.len());
            return false;
        }
        let mut i: usize = 0;
        while i < self.0.len()
            invariant
                i <= self.0@.len(),
                self.0@.len() == other.0@.len(),
                forall|k: int| 0 <= k < i ==> self.0@[k]@ == other.0@[k]@,
            decreases self.0@.len() - i,
        {
            if self.0[i] != other.0[i] {
                assert(self@[i as int] != other@[i as int]);
                return false;
            }
            i += 1;
        }
        assert(self@ =~= other@);
        true
    }

    /// The index of the smallest of the first `n` nodes.
    fn min_position(&self, n: usize) -> (m: usize)
        requires
            n <= self@.len(),
        ensures
            m == min_index(self@.subrange(0, n as int)),
            n > 0 ==> m < n,
    {
        if n <= 1 {
            return 0;
        }
        let mut m: usize = 0;
        let mut i: usize = 1;
        while i < n
            invariant
                1 <= i <= n <= self.0@.len(),
                m < i,
                m == min_index(self@.subrange(0, i as int)),
            decreases n - i,
        {
            proof {
                let upto = self@.subrange(0, i + 1);
                assert(upto.drop_last() =~= self@.subrange(0, i as int));
                assert(upto.last() == self.0@[i as int]@);
                assert(upto[m as int] == self.0@[m as int]@);
            }
            if str_lt(self.0[i].as_str(), self.0[m].as_str()) {
                m = i;
            }
            i += 1;
        }
        m
    }

    /// The nodes of the chain in the form in which chains are compared.
    pub fn normalize(&self) -> (r: Vec<String>)
        ensures
            names_of(r@) == normal_form(self@),
    {
        let n = self.0.len();
        if n == 0 {
            let r: Vec<String> = Vec::new();
            assert(names_of(r@) =~= normal_form(self@));
            return r;
        }
        let closed = n >= 2 && self.0[0] == self.0[n - 1];
        let body: usize = if closed {
            n - 1
        } else {
            n
        };
        let m = self.min_position(body);
        let mut out: Vec<String> = Vec::new();
        let mut i: usize = m;
        while i < body
            invariant
                m <= i <= body <= self.0@.len(),
                out@.len() == i - m,
                forall|k: int| 0 <= k < out@.len() ==> out@[k]@ == self.0@[m + k]@,
            decreases body - i,
        {
            out.push(self.0[i].clone());
            i += 1;
        }
        let mut j: usize = 0;
        while j < m
            invariant
                j <= m < body <= self.0@.len(),
                out@.len() == body - m + j,
                forall|k: int| 0 <= k < body - m ==> out@[k]@ == self.0@[m + k]@,
                forall|k: int| 0 <= k < j ==> out@[body - m + k]@ == self.0@[k]@,
            decreases m - j,
        {
            out.push(self.0[j].clone());
            j += 1;
        }
        proof {
            let b = self@.subrange(0, body as int);
            assert(names_of(out@) =~= rotate(b, m as int));
            if closed {
                assert(b =~= self@.drop_last());
            } else {
                assert(b =~= self@);
            }
        }
        if closed {
            let first = out[0].clone();
            out.push(first);
            assert(names_of(out@) =~= normal_form(self@));
        }
        out
    }

    /// Whether the chain has more than two nodes and ends at the node it
    /// starts at.
    pub fn is_circular(&self) -> (r: bool)
        ensures
            r == (self@.len() > 2 && self@.first() == self@.last()),
    {
        let n = self.0.len();
        n > 2 && self.0[0] == self.0[n - 1]
    }

    /// Whether some node stands in the chain more than once.
    pub fn has_loop(&self) -> (r: bool)
        ensures
            r == !self@.no_duplicates(),
    {
        let n = self.0.len();
        let mut i: usize = 0;
        while i < n
            invariant
                i <= n,
                n == self.0@.len(),
                forall|a: int, b: int| 0 <= a < i && a < b < n ==> self@[a] != self@[b],
            decreases n - i,
        {
            let mut j: usize = i + 1;
            while j < n
                invariant
                    i < j <= n,
                    n == self.0@.len(),
                    forall|b: int| i < b < j ==> self@[i as int] != self@[b],
                decreases n - j,
            {
                if self.0[i] == self.0[j] {
                    assert(self@[i as int] == self@[j as int]);
                    return true;
                }
                j += 1;
            }
            i += 1;
        }
        assert forall|a: int, b: int|
            0 <= a < self@.len() && 0 <= b < self@.len() && a != b implies self@[a] != self@[b] by {
            if a < b {
                assert(self@[a] != self@[b]);
            } else {
                assert(self@[b] != self@[a]);
            }
        }
        false
    }

    /// The chain with `next_value` added at its end.
    pub fn extend(&self, next_value: String) -> (r: DependencyChain)
        ensures
            r@ == self@.push(next_value@),
    {
        let mut new_chain = self.0.clone();
        new_chain.push(next_value);
        let r = DependencyChain(new_chain);
        assert(r@ =~= self@.push(next_value@));
        r
    }
}

} // verus!
