//! Finding a text among many without comparing it with each.
//!
//! Every text has a number, its hash, and equal texts have equal hashes. An
//! index keeps, for each hash, the places in a list at which a text with that
//! hash stands. To find a text in the list, only the texts at the places kept
//! for its hash are compared with it.

use crate::text::chars_of;
use std::collections::HashMap;
use vstd::prelude::*;

verus! {

broadcast use vstd::std_specs::hash::group_hash_axioms;

/// Hashes are smaller than this.
pub const HASH_MODULUS: u64 = 1_099_511_627_689;

/// What the hash of a text is multiplied by when a character is added.
pub const HASH_FACTOR: u64 = 1_000_003;

/// What the hash of the first of two texts is multiplied by.
pub const PAIR_FACTOR: u64 = 1_000_033;

/// The hash `h` of a text, taken on by the character `c` added at its end.
pub open spec fn hash_with(h: u64, c: char) -> u64 {
    ((h * HASH_FACTOR + (c as u32) + 1) % (HASH_MODULUS as int)) as u64
}

/// The hash of a text.
pub open spec fn hash_of(s: Seq<char>) -> u64
    decreases s.len(),
{
    if s.len() == 0 {
        0
    } else {
        hash_with(hash_of(s.drop_last()), s.last())
    }
}

/// The hash of a pair of texts.
pub open spec fn pair_hash(a: Seq<char>, b: Seq<char>) -> u64 {
    ((hash_of(a) * PAIR_FACTOR + hash_of(b)) % (HASH_MODULUS as int)) as u64
}

/// The hash of a sequence of texts.
pub open spec fn hashes_of(texts: Seq<Seq<char>>) -> Seq<u64> {
    Seq::new(texts.len(), |i: int| hash_of(texts[i]))
}

/// A hash is below the modulus.
pub proof fn lemma_hash_bound(s: Seq<char>)
    ensures
        hash_of(s) < HASH_MODULUS,
    decreases s.len(),
{
    if s.len() > 0 {
        lemma_hash_bound(s.drop_last());
    }
}

/// The hash of a text.
pub fn hash_str(s: &str) -> (h: u64)
    ensures
        h == hash_of(s@),
{
    let chars = chars_of(s);
    let mut h: u64 = 0;
    let mut i: usize = 0;
    assert(s@.take(0) =~= Seq::<char>::empty());
    while i < chars.len()
        invariant
            i <= chars@.len(),
            chars@ == s@,
            h == hash_of(s@.take(i as int)),
            h < HASH_MODULUS,
        decreases chars@.len() - i,
    {
        proof {
            let upto = s@.take(i + 1);
            assert(upto.drop_last() =~= s@.take(i as int));
            assert(upto.last() == chars@[i as int]);
            assert(h * HASH_FACTOR <= 1_099_511_627_688 * 1_000_003) by (nonlinear_arith)
                requires
                    h <= 1_099_511_627_688,
                    HASH_FACTOR == 1_000_003,
            ;
        }
        let c = chars[i];
        h = (h * HASH_FACTOR + ((c as u32) as u64) + 1) % HASH_MODULUS;
        i += 1;
    }
    assert(s@.take(i as int) =~= s@);
    h
}

/// The hash of a pair of texts.
pub fn hash_pair(a: &str, b: &str) -> (h: u64)
    ensures
        h == pair_hash(a@, b@),
{
    let x = hash_str(a);
    let y = hash_str(b);
    proof {
        lemma_hash_bound(a@);
        lemma_hash_bound(b@);
        assert(x * PAIR_FACTOR <= 1_099_511_627_688 * 1_000_033) by (nonlinear_arith)
            requires
                x <= 1_099_511_627_688,
                PAIR_FACTOR == 1_000_033,
        ;
    }
    (x * PAIR_FACTOR + y) % HASH_MODULUS
}

/// For each hash, the places at which it stands in a list of hashes.
#[derive(Debug)]
pub struct HashIndex {
    buckets: HashMap<u64, Vec<usize>>,
}

impl HashIndex {
    /// The index is that of the list `hashes`: the places it keeps for a hash
    /// are places of the list at which that hash stands, and every place of
    /// the list is kept for the hash that stands at it.
    pub closed spec fn of(&self, hashes: Seq<u64>) -> bool {
        &&& forall|h: u64, k: int|
            self.buckets@.contains_key(h) && 0 <= k < self.buckets@[h]@.len() ==> (
            #[trigger] self.buckets@[h]@[k]) < hashes.len() && hashes[self.buckets@[h]@[k] as int]
                == h
        &&& forall|p: int|
            0 <= p < hashes.len() ==> self.buckets@.contains_key(#[trigger] hashes[p])
                && self.buckets@[hashes[p]]@.contains(p as usize)
    }

    /// The index of the empty list.
    pub fn new() -> (r: HashIndex)
        ensures
            r.of(Seq::empty()),
    {
        HashIndex { buckets: HashMap::new() }
    }

    /// The places kept for the hash `h`.
    pub fn places(&self, h: u64, Ghost(hashes): Ghost<Seq<u64>>) -> (r: Option<&Vec<usize>>)
        requires
            self.of(hashes),
        ensures
            match r {
                Some(places) => {
                    &&& forall|k: int|
                        0 <= k < places@.len() ==> (#[trigger] places@[k]) < hashes.len()
                            && hashes[places@[k] as int] == h
                    &&& forall|p: int|
                        0 <= p < hashes.len() && #[trigger] hashes[p] == h ==> places@.contains(
                            p as usize,
                        )
                },
                None => forall|p: int| 0 <= p < hashes.len() ==> #[trigger] hashes[p] != h,
            },
    {
        self.buckets.get(&h)
    }

    /// Keeps the place `place`, the next of the list, for the hash `h`.
    pub fn insert(&mut self, h: u64, place: usize, Ghost(hashes): Ghost<Seq<u64>>)
        requires
            old(self).of(hashes),
            place == hashes.len(),
        ensures
            final(self).of(hashes.push(h)),
    {
        let ghost before = self.buckets@;
        let mut bucket = match self.buckets.remove(&h) {
            Some(bucket) => bucket,
            None => Vec::new(),
        };
        let ghost kept = bucket@;
        bucket.push(place);
        self.buckets.insert(h, bucket);
        proof {
            let after = self.buckets@;
            let longer = hashes.push(h);
            assert(after =~= before.insert(h, bucket));
            assert forall|x: u64, k: int|
                after.contains_key(x) && 0 <= k < after[x]@.len() implies (#[trigger] after[x]@[k])
                < longer.len() && longer[after[x]@[k] as int] == x by {
                if x == h {
                    if k < kept.len() {
                        assert(before.contains_key(h));
                        assert(before[h]@[k] == kept[k]);
                    }
                } else {
                    assert(before.contains_key(x));
                    assert(after[x] == before[x]);
                    assert(before[x]@[k] < hashes.len());
                }
            }
            assert forall|p: int| 0 <= p < longer.len() implies after.contains_key(
                #[trigger] longer[p],
            ) && after[longer[p]]@.contains(p as usize) by {
                if p < hashes.len() {
                    assert(before.contains_key(hashes[p]));
                    assert(before[hashes[p]]@.contains(p as usize));
                    if hashes[p] == h {
                        let k = kept.index_of(p as usize);
                        assert(kept[k] == p);
                        assert(bucket@[k] == p);
                    }
                } else {
                    assert(bucket@[bucket@.len() - 1] == place);
                }
            }
        }
    }
}

} // verus!
