//! The fingerprint store: a mapping from file identity to fingerprint,
//! both byte strings. One type serves the two mappings of a run, the
//! persistent cache and the manifest. Its view is the mathematical map
//! from identity to fingerprint.

use vstd::prelude::*;
use vstd::map::*;
use crate::bytes::bytes_eq;
use crate::bytes::clone_bytes;

verus! {

/// A mapping from file identity to fingerprint, held as two parallel
/// columns with no repeated identity.
pub struct FpMap {
    keys: Vec<Vec<u8>>,
    vals: Vec<Vec<u8>>,
}

impl View for FpMap {
    type V = Map<Seq<u8>, Seq<u8>>;

    closed spec fn view(&self) -> Map<Seq<u8>, Seq<u8>> {
        Map::new(
            |k: Seq<u8>| self.key_seq().contains(k),
            |k: Seq<u8>| self.vals@[self.key_index(k)]@,
        )
    }
}

/// The set of identities a list of them holds.
spec fn key_set(ks: Seq<Seq<u8>>) -> Set<Seq<u8>> {
    Set::new(|k: Seq<u8>| ks.contains(k))
}

/// A list of pairwise distinct identities holds as many as its length.
proof fn lemma_key_set_card(ks: Seq<Seq<u8>>)
    requires
        forall|p: int, q: int| 0 <= p < q < ks.len() ==> ks[p] != ks[q],
    ensures
        key_set(ks).finite(),
        key_set(ks).len() == ks.len(),
    decreases ks.len(),
{
    if ks.len() == 0 {
        assert(key_set(ks) =~= Set::<Seq<u8>>::empty());
    } else {
        let rest = ks.drop_last();
        lemma_key_set_card(rest);
        assert(!rest.contains(ks.last())) by {
            if rest.contains(ks.last()) {
                let w = choose|w: int| 0 <= w < rest.len() && rest[w] == ks.last();
                assert(ks[w] == ks[ks.len() - 1]);
            }
        }
        assert(key_set(ks) =~= key_set(rest).insert(ks.last())) by {
            assert forall|k: Seq<u8>| key_set(ks).contains(k) implies key_set(rest).insert(
                ks.last(),
            ).contains(k) by {
                let w = choose|w: int| 0 <= w < ks.len() && ks[w] == k;
                if w < ks.len() - 1 {
                    assert(rest[w] == k);
                }
            }
            assert forall|k: Seq<u8>| key_set(rest).insert(ks.last()).contains(k)
                implies key_set(ks).contains(k) by {
                if key_set(rest).contains(k) {
                    let w = choose|w: int| 0 <= w < rest.len() && rest[w] == k;
                    assert(ks[w] == k);
                } else {
                    assert(ks[ks.len() - 1] == k);
                }
            }
        }
    }
}

impl FpMap {
    /// The identities, in the order they are held.
    closed spec fn key_seq(self) -> Seq<Seq<u8>> {
        self.keys@.map_values(|k: Vec<u8>| k@)
    }

    /// Index of an identity among the columns.
    closed spec fn key_index(self, k: Seq<u8>) -> int {
        choose|i: int| 0 <= i < self.key_seq().len() && self.key_seq()[i] == k
    }

    /// Well-formed: the columns have equal length and no identity repeats.
    pub closed spec fn wf(self) -> bool {
        &&& self.keys@.len() == self.vals@.len()
        &&& forall|i: int, j: int|
            0 <= i < j < self.keys@.len() ==> self.keys@[i]@ != self.keys@[j]@
    }

    /// The entry at a column position is the map's entry for its identity.
    proof fn lemma_at(self, i: int)
        requires
            self.wf(),
            0 <= i < self.keys@.len(),
        ensures
            self@.dom().contains(self.keys@[i]@),
            self@[self.keys@[i]@] == self.vals@[i]@,
    {
        let k = self.keys@[i]@;
        assert(self.key_seq()[i] == k);
        assert(self.key_seq().contains(k));
        let j = self.key_index(k);
        assert(0 <= j < self.key_seq().len() && self.key_seq()[j] == k);
        assert(j == i);
    }

    /// An identity in the map stands at exactly one column position.
    proof fn lemma_contains_index(self, k: Seq<u8>)
        requires
            self.wf(),
            self@.dom().contains(k),
        ensures
            0 <= self.key_index(k) < self.keys@.len(),
            self.keys@[self.key_index(k)]@ == k,
            self@[k] == self.vals@[self.key_index(k)]@,
    {
        assert(self.key_seq().contains(k));
    }

    /// The empty mapping.
    pub fn new() -> (m: FpMap)
        ensures
            m.wf(),
            m@ == Map::<Seq<u8>, Seq<u8>>::empty(),
    {
        let m = FpMap { keys: Vec::new(), vals: Vec::new() };
        proof {
            assert(m@ =~= Map::<Seq<u8>, Seq<u8>>::empty());
        }
        m
    }

    /// Number of entries.
    pub fn len(&self) -> (n: usize)
        requires
            self.wf(),
        ensures
            n == self@.dom().len(),
    {
        proof {
            lemma_key_set_card(self.key_seq());
            assert(self@.dom() =~= key_set(self.key_seq()));
        }
        self.keys.len()
    }

    /// Look an identity up, handing back a copy of its fingerprint.
    pub fn get(&self, k: &[u8]) -> (r: Option<Vec<u8>>)
        requires
            self.wf(),
        ensures
            match r {
                Some(v) => self@.dom().contains(k@) && v@ == self@[k@],
                None => !self@.dom().contains(k@),
            },
    {
        let n = self.keys.len();
        let mut i: usize = 0;
        while i < n
            invariant
                0 <= i <= n,
                n == self.keys@.len(),
                self.wf(),
                forall|j: int| 0 <= j < i ==> self.keys@[j]@ != k@,
            decreases n - i,
        {
            if bytes_eq(self.keys[i].as_slice(), k) {
                proof {
                    self.lemma_at(i as int);
                }
                return Some(clone_bytes(self.vals[i].as_slice()));
            }
            i += 1;
        }
        proof {
            assert forall|j: int| 0 <= j < self.key_seq().len() implies self.key_seq()[j] != k@ by {
                assert(self.key_seq()[j] == self.keys@[j]@);
            }
            assert(!self.key_seq().contains(k@));
        }
        None
    }

    /// Whether an identity has an entry.
    pub fn contains_key(&self, k: &[u8]) -> (r: bool)
        requires
            self.wf(),
        ensures
            r == self@.dom().contains(k@),
    {
        match self.get(k) {
            Some(_) => true,
            None => false,
        }
    }

    /// Bind an identity to a fingerprint, replacing any earlier binding.
    pub fn insert(&mut self, k: Vec<u8>, v: Vec<u8>)
        requires
            old(self).wf(),
        ensures
            final(self).wf(),
            final(self)@ == old(self)@.insert(k@, v@),
    {
        let ghost orig = *self;
        let n = self.keys.len();
        let mut i: usize = 0;
        while i < n
            invariant
                *self == orig,
                orig == *old(self),
                0 <= i <= n,
                n == self.keys@.len(),
                self.wf(),
                forall|j: int| 0 <= j < i ==> self.keys@[j]@ != k@,
            decreases n - i,
        {
            if bytes_eq(self.keys[i].as_slice(), k.as_slice()) {
                self.vals.remove(i);
                self.vals.insert(i, v);
                proof {
                    let m = *self;
                    assert(m.vals@ =~= orig.vals@.update(i as int, v));
                    assert(m.key_seq() =~= orig.key_seq());
                    assert(m.wf());
                    m.lemma_at(i as int);
                    assert_maps_equal!(m@, orig@.insert(k@, v@), q => {
                        if q == k@ {
                            assert(m@.dom().contains(q));
                        } else {
                            if m@.dom().contains(q) {
                                m.lemma_contains_index(q);
                                let j = m.key_index(q);
                                assert(orig.keys@[j]@ == q);
                                orig.lemma_at(j);
                                assert(j != i);
                                assert(m@[q] == m.vals@[j]@);
                                assert(m.vals@[j]@ == orig.vals@[j]@);
                            }
                            if orig@.dom().contains(q) {
                                orig.lemma_contains_index(q);
                                let j = orig.key_index(q);
                                assert(m.keys@[j]@ == q);
                                m.lemma_at(j);
                            }
                        }
                    });
                }
                return;
            }
            i += 1;
        }
        self.keys.push(k);
        self.vals.push(v);
        proof {
            let m = *self;
            assert(m.keys@ =~= orig.keys@.push(k));
            assert(m.vals@ =~= orig.vals@.push(v));
            assert(m.key_seq() =~= orig.key_seq().push(k@));
            assert forall|p: int, q: int| 0 <= p < q < m.keys@.len()
                implies m.keys@[p]@ != m.keys@[q]@ by {
                if q == m.keys@.len() - 1 {
                    assert(m.keys@[q]@ == k@);
                    assert(m.keys@[p]@ == orig.keys@[p]@);
                } else {
                    assert(m.keys@[p]@ == orig.keys@[p]@);
                    assert(m.keys@[q]@ == orig.keys@[q]@);
                }
            }
            assert(m.wf());
            m.lemma_at(n as int);
            assert_maps_equal!(m@, orig@.insert(k@, v@), q => {
                if q == k@ {
                    assert(m@.dom().contains(q));
                } else {
                    if m@.dom().contains(q) {
                        m.lemma_contains_index(q);
                        let j = m.key_index(q);
                        assert(j != n);
                        assert(orig.keys@[j]@ == q);
                        orig.lemma_at(j);
                        assert(m@[q] == m.vals@[j]@);
                        assert(m.vals@[j]@ == orig.vals@[j]@);
                    }
                    if orig@.dom().contains(q) {
                        orig.lemma_contains_index(q);
                        let j = orig.key_index(q);
                        assert(m.keys@[j]@ == q);
                        m.lemma_at(j);
                    }
                }
            });
        }
    }

    /// Drop an identity's entry, if it has one.
    pub fn remove(&mut self, k: &[u8])
        requires
            old(self).wf(),
        ensures
            final(self).wf(),
            final(self)@ == old(self)@.remove(k@),
    {
        let ghost orig = *self;
        let n = self.keys.len();
        let mut i: usize = 0;
        while i < n
            invariant
                *self == orig,
                orig == *old(self),
                0 <= i <= n,
                n == self.keys@.len(),
                self.wf(),
                forall|j: int| 0 <= j < i ==> self.keys@[j]@ != k@,
            decreases n - i,
        {
            if bytes_eq(self.keys[i].as_slice(), k) {
                self.keys.remove(i);
                self.vals.remove(i);
                proof {
                    let m = *self;
                    assert(m.keys@ =~= orig.keys@.remove(i as int));
                    assert(m.vals@ =~= orig.vals@.remove(i as int));
                    assert forall|p: int, q: int| 0 <= p < q < m.keys@.len()
                        implies m.keys@[p]@ != m.keys@[q]@ by {
                        let p2: int = if p < i { p } else { p + 1 };
                        let q2: int = if q < i { q } else { q + 1 };
                        assert(m.keys@[p]@ == orig.keys@[p2]@);
                        assert(m.keys@[q]@ == orig.keys@[q2]@);
                    }
                    assert(m.wf());
                    assert_maps_equal!(m@, orig@.remove(k@), q => {
                        if m@.dom().contains(q) {
                            m.lemma_contains_index(q);
                            let jm = m.key_index(q);
                            let jo: int = if jm < i { jm } else { jm + 1 };
                            assert(orig.keys@[jo]@ == q);
                            orig.lemma_at(jo);
                            assert(q != k@) by {
                                if q == k@ {
                                    assert(orig.keys@[i as int]@ == k@);
                                    assert(jo != i);
                                }
                            }
                            assert(m@[q] == m.vals@[jm]@);
                            assert(m.vals@[jm]@ == orig.vals@[jo]@);
                        }
                        if orig@.dom().contains(q) && q != k@ {
                            orig.lemma_contains_index(q);
                            let jo = orig.key_index(q);
                            assert(orig.keys@[jo]@ == q);
                            assert(jo != i);
                            let jm: int = if jo < i { jo } else { jo - 1 };
                            assert(m.keys@[jm]@ == q);
                            m.lemma_at(jm);
                        }
                    });
                }
                return;
            }
            i += 1;
        }
        proof {
            assert forall|j: int| 0 <= j < self.key_seq().len()
                implies self.key_seq()[j] != k@ by {
                assert(self.key_seq()[j] == self.keys@[j]@);
            }
            assert(!self.key_seq().contains(k@));
            assert_maps_equal!(self@, orig@.remove(k@), q => {});
        }
    }

    /// Hand out every entry, as copies, for the caller to serialize.
    pub fn to_pairs(&self) -> (out: Vec<(Vec<u8>, Vec<u8>)>)
        requires
            self.wf(),
        ensures
            forall|i: int|
                0 <= i < out@.len() ==> self@.dom().contains(#[trigger] out@[i].0@)
                    && self@[out@[i].0@] == out@[i].1@,
            forall|k: Seq<u8>|
                self@.dom().contains(k) ==> exists|i: int|
                    0 <= i < out@.len() && #[trigger] out@[i].0@ == k,
            forall|p: int, q: int| 0 <= p < q < out@.len() ==> out@[p].0@ != out@[q].0@,
    {
        let n = self.keys.len();
        let mut out: Vec<(Vec<u8>, Vec<u8>)> = Vec::new();
        let mut i: usize = 0;
        while i < n
            invariant
                0 <= i <= n,
                n == self.keys@.len(),
                self.wf(),
                out@.len() == i,
                forall|j: int|
                    0 <= j < i ==> out@[j].0@ == self.keys@[j]@ && out@[j].1@ == self.vals@[j]@,
            decreases n - i,
        {
            let kc = clone_bytes(self.keys[i].as_slice());
            let vc = clone_bytes(self.vals[i].as_slice());
            out.push((kc, vc));
            i += 1;
        }
        proof {
            assert forall|j: int| 0 <= j < out@.len()
                implies self@.dom().contains(#[trigger] out@[j].0@)
                    && self@[out@[j].0@] == out@[j].1@ by {
                self.lemma_at(j);
            }
            assert forall|k: Seq<u8>| self@.dom().contains(k)
                implies exists|j: int| 0 <= j < out@.len() && #[trigger] out@[j].0@ == k by {
                self.lemma_contains_index(k);
                let j = self.key_index(k);
                assert(out@[j].0@ == k);
            }
            assert forall|p: int, q: int| 0 <= p < q < out@.len() implies out@[p].0@
                != out@[q].0@ by {
                assert(out@[p].0@ == self.keys@[p]@);
                assert(out@[q].0@ == self.keys@[q]@);
            }
        }
        out
    }
}

} // verus!
