//! Sets of chunk identities.
use std::collections::HashMap;
use vstd::prelude::*;

use crate::bytes::{le_value, lemma_le_value_bytes, lemma_pow256, read_u64};
use crate::chunking::ChunkId;

verus! {

broadcast use vstd::std_specs::hash::group_hash_axioms;

/// A set of chunk identities. Members stand in the order in which they came;
/// those that share their first 8 bytes share a bucket of positions, found
/// through a map from those bytes.
pub struct IdSet {
    members: Vec<ChunkId>,
    index: HashMap<u64, usize>,
    buckets: Vec<Vec<usize>>,
    contents: Ghost<Set<Seq<u8>>>,
}

/// The number that the first 8 bytes of an identity stand for.
spec fn prefix_of(id: Seq<u8>) -> u64 {
    le_value(id.subrange(0, 8)) as u64
}

spec fn in_bucket(members: Seq<ChunkId>, bucket: Seq<usize>, id: Seq<u8>) -> bool {
    exists|j: int|
        0 <= j < bucket.len() && bucket[j] < members.len() && #[trigger] members[bucket[j] as int]@
            == id
}

impl View for IdSet {
    type V = Set<Seq<u8>>;

    closed spec fn view(&self) -> Set<Seq<u8>> {
        self.contents@
    }
}

impl IdSet {
    /// Whether the parts of the set fit together.
    pub closed spec fn wf(self) -> bool {
        &&& self.contents@.finite()
        &&& self.contents@.len() == self.members@.len()
        &&& forall|k: u64| #[trigger]
            self.index@.contains_key(k) ==> self.index@[k] < self.buckets@.len()
        &&& forall|k: u64, l: u64|
            #![trigger self.index@[k], self.index@[l]]
            self.index@.contains_key(k) && self.index@.contains_key(l) && k != l ==> self.index@[k]
                != self.index@[l]
        &&& forall|b: int, j: int|
            #![trigger self.buckets@[b]@[j]]
            0 <= b < self.buckets@.len() && 0 <= j < self.buckets@[b]@.len()
                ==> self.buckets@[b]@[j] < self.members@.len()
        &&& forall|x: Seq<u8>| #[trigger]
            self.contents@.contains(x) <==> x.len() == 32 && self.index@.contains_key(
                prefix_of(x),
            ) && in_bucket(self.members@, self.buckets@[self.index@[prefix_of(x)] as int]@, x)
    }

    /// The empty set.
    #[must_use]
    pub fn new() -> (r: Self)
        ensures
            r.wf(),
            r@ == Set::<Seq<u8>>::empty(),
    {
        IdSet {
            members: Vec::new(),
            index: HashMap::new(),
            buckets: Vec::new(),
            contents: Ghost(Set::empty()),
        }
    }

    /// How many identities the set holds.
    #[must_use]
    pub fn len(&self) -> (r: usize)
        requires
            self.wf(),
        ensures
            r == self@.len(),
            self@.finite(),
    {
        self.members.len()
    }

    fn find(&self, bucket: &Vec<usize>, id: &ChunkId) -> (r: bool)
        requires
            forall|j: int| #![trigger bucket@[j]] 0 <= j < bucket@.len() ==> bucket@[j]
                < self.members@.len(),
        ensures
            r == in_bucket(self.members@, bucket@, id@),
    {
        let mut j: usize = 0;
        while j < bucket.len()
            invariant
                j <= bucket@.len(),
                forall|k: int| #![trigger bucket@[k]] 0 <= k < bucket@.len() ==> bucket@[k]
                    < self.members@.len(),
                forall|k: int|
                    0 <= k < j ==> #[trigger] self.members@[bucket@[k] as int]@ != id@,
            decreases bucket@.len() - j,
        {
            if self.members[bucket[j]].same(id) {
                return true;
            }
            j = j + 1;
        }
        false
    }

    /// Whether the set holds an identity.
    #[must_use]
    pub fn contains(&self, id: &ChunkId) -> (r: bool)
        requires
            self.wf(),
        ensures
            r == self@.contains(id@),
    {
        proof {
            lemma_prefix(id@);
        }
        let key: u64 = read_u64(&id.bytes, 0);
        match self.index.get(&key) {
            None => false,
            Some(at) => self.find(&self.buckets[*at], id),
        }
    }

    /// Adds an identity. `true` if the set did not hold it before.
    pub fn insert(&mut self, id: ChunkId) -> (r: bool)
        requires
            old(self).wf(),
        ensures
            final(self).wf(),
            r == !old(self)@.contains(id@),
            final(self)@ == old(self)@.insert(id@),
            final(self)@.finite(),
    {
        proof {
            lemma_prefix(id@);
        }
        if self.contains(&id) {
            proof {
                assert(self@.insert(id@) =~= self@);
            }
            return false;
        }
        let key: u64 = read_u64(&id.bytes, 0);
        let ghost before = *self;
        let place: usize = self.members.len();
        let slot: Option<usize> = match self.index.get(&key) {
            None => None,
            Some(at) => Some(*at),
        };
        self.members.push(id);
        self.contents = Ghost(self.contents@.insert(id@));
        match slot {
            None => {
                let at: usize = self.buckets.len();
                let mut bucket: Vec<usize> = Vec::new();
                bucket.push(place);
                self.buckets.push(bucket);
                self.index.insert(key, at);
                proof {
                    assert(bucket@[0] == place);
                    assert(self.members@[bucket@[0] as int]@ == id@);
                }
            },
            Some(at) => {
                self.buckets[at].push(place);
                proof {
                    let grown = self.buckets@[at as int]@;
                    let bucket = before.buckets@[at as int]@;
                    assert(grown == bucket.push(place));
                    assert(self.members@[grown[bucket.len() as int] as int]@ == id@);
                }
            },
        }
        proof {
            assert forall|x: Seq<u8>| #[trigger] self.contents@.contains(x) <==> x.len() == 32
                && self.index@.contains_key(prefix_of(x)) && in_bucket(
                self.members@,
                self.buckets@[self.index@[prefix_of(x)] as int]@,
                x,
            ) by {
                before.lemma_grown(*self, id, key, x);
            }
        }
        true
    }

    /// What holds of any other identity when one is added.
    proof fn lemma_grown(self, after: IdSet, id: ChunkId, key: u64, x: Seq<u8>)
        requires
            self.wf(),
            !self.contents@.contains(id@),
            key == prefix_of(id@),
            id@.len() == 32,
            after.members@ == self.members@.push(id),
            after.contents@ == self.contents@.insert(id@),
            after.index@.contains_key(key),
            in_bucket(after.members@, after.buckets@[after.index@[key] as int]@, id@),
            self.index@.contains_key(key) ==> {
                let at = self.index@[key] as int;
                &&& after.index@ == self.index@
                &&& after.buckets@ == self.buckets@.update(at, after.buckets@[at])
                &&& after.buckets@[at]@ == self.buckets@[at]@.push(self.members@.len() as usize)
                &&& self.members@.len() <= usize::MAX
            },
            !self.index@.contains_key(key) ==> {
                &&& after.index@ == self.index@.insert(key, self.buckets@.len() as usize)
                &&& self.buckets@.len() <= usize::MAX
                &&& after.buckets@.len() == self.buckets@.len() + 1
                &&& forall|b: int|
                    #![trigger after.buckets@[b]]
                    0 <= b < self.buckets@.len() ==> after.buckets@[b] == self.buckets@[b]
                &&& after.buckets@[self.buckets@.len() as int]@ =~= seq![
                    self.members@.len() as usize,
                ]
                &&& self.members@.len() <= usize::MAX
            },
        ensures
            after.contents@.contains(x) <==> x.len() == 32 && after.index@.contains_key(
                prefix_of(x),
            ) && in_bucket(after.members@, after.buckets@[after.index@[prefix_of(x)] as int]@, x),
    {
        if x != id@ && x.len() == 32 && after.index@.contains_key(prefix_of(x)) {
            let b = after.index@[prefix_of(x)] as int;
            let grown = after.buckets@[b]@;
            let m = self.members@;
            if self.index@.contains_key(prefix_of(x)) {
                let bucket = self.buckets@[b]@;
                if in_bucket(m, bucket, x) {
                    let j = choose|j: int|
                        0 <= j < bucket.len() && bucket[j] < m.len() && #[trigger] m[bucket[j] as int]@
                            == x;
                    assert(grown[j] == bucket[j]);
                    assert(after.members@[grown[j] as int]@ == x);
                }
                if in_bucket(after.members@, grown, x) {
                    let j = choose|j: int|
                        0 <= j < grown.len() && grown[j] < after.members@.len()
                            && #[trigger] after.members@[grown[j] as int]@ == x;
                    if j < bucket.len() {
                        assert(grown[j] == bucket[j]);
                        assert(self.buckets@[b]@[j] < m.len());
                        assert(m[bucket[j] as int]@ == x);
                    }
                }
                assert(self.contents@.contains(x) == in_bucket(m, bucket, x));
            } else {
                if in_bucket(after.members@, grown, x) {
                    let j = choose|j: int|
                        0 <= j < grown.len() && grown[j] < after.members@.len()
                            && #[trigger] after.members@[grown[j] as int]@ == x;
                    assert(grown[j] == m.len());
                }
            }
        }
    }
}

proof fn lemma_prefix(id: Seq<u8>)
    requires
        id.len() == 32,
    ensures
        le_value(id.subrange(0, 8)) == prefix_of(id),
{
    lemma_pow256();
    lemma_le_value_bytes(id.subrange(0, 8));
}

} // verus!
