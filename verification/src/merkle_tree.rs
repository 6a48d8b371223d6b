//! The Merkle Patricia Tree: each node owns an edge label (the bytes consumed
//! on the way from its parent), an optional value bound at the path ending
//! here, its children (kept sorted by the first byte of each child's label),
//! and a cached 32-byte digest of the whole subtree.

use vstd::prelude::*;
use vstd::slice::slice_subrange;

use crate::hashing::{encode_value, encoding_of, sha256, sha256_of};

verus! {

/// Why an operation on the trie was refused.
#[derive(Clone, Copy, Debug, PartialEq, Eq, Structural)]
pub enum TrieError {
    /// `insert` found the key already bound; rebinding is an error, not an
    /// update, and the trie is left exactly as it was.
    KeyAlreadyPresent,
    /// The value encoder reported an error while a digest was being
    /// computed. The built-in `u64` encoder never does, so no operation of
    /// this library returns it; it is part of the error surface for the
    /// protocol's sake.
    EncodingFailed,
}

/// One vertex of the radix-compressed trie; the root vertex doubles as the
/// container itself.
pub struct MerklePatriciaTree {
    value: Option<u64>,
    key: Vec<u8>,
    hash: [u8; 32],
    children: Vec<MerklePatriciaTree>,
}

impl MerklePatriciaTree {
    /// A node is empty when it binds no value and has no children; only the
    /// root may be empty between operations.
    pub closed spec fn spec_is_empty(self) -> bool {
        self.value is None && self.children@.len() == 0
    }

    /// The value bound to `k` in the subtree rooted here, where `k` includes
    /// this node's own edge label as its first bytes.
    spec fn spec_get(self, k: Seq<u8>) -> Option<u64>
        decreases self, self.children@.len() + 1,
    {
        if self.key@.is_prefix_of(k) {
            if k.len() == self.key@.len() {
                self.value
            } else {
                self.get_in_children(0, k.skip(self.key@.len() as int))
            }
        } else {
            None
        }
    }

    /// Linear scan of the children from index `i` on for one whose label
    /// starts with `s[0]`; the suffix `s` is the part of the key below this
    /// node's label.
    spec fn get_in_children(self, i: int, s: Seq<u8>) -> Option<u64>
        decreases self, self.children@.len() - i,
    {
        if i < 0 || i >= self.children@.len() {
            None
        } else if self.children@[i].key@.len() > 0 && s.len() > 0
            && self.children@[i].key@[0] == s[0] {
            self.children@[i].spec_get(s)
        } else {
            self.get_in_children(i + 1, s)
        }
    }

    /// Children are strictly ordered by the first byte of their labels; this
    /// both keys them uniquely and fixes the digest's child order.
    spec fn children_sorted(self) -> bool {
        forall|i: int, j: int|
            0 <= i < j < self.children@.len() ==> (#[trigger] self.children@[i]).key@[0]
                < (#[trigger] self.children@[j]).key@[0]
    }

    /// Structural well-formedness of the subtree below this node; the node's
    /// own label and emptiness are constrained by its parent (or, for the
    /// root, by `inv`).
    spec fn wf(self) -> bool
        decreases self, 0int,
    {
        &&& self.children_sorted()
        &&& forall|i: int|
            0 <= i < self.children@.len() ==> (#[trigger] self.children@[i]).child_ok()
    }

    /// What every non-root node must satisfy: a non-empty label, and either a
    /// value or at least two children (so it is neither empty nor a
    /// collapsible one-child chain).
    spec fn child_ok(self) -> bool
        decreases self, 1int,
    {
        &&& self.key@.len() > 0
        &&& self.value is Some || self.children@.len() >= 2
        &&& self.wf()
    }

    /// The digest this trie currently caches at its root. It equals
    /// `digest()` whenever the invariant holds; `==` on tries compares it.
    pub closed spec fn cached_digest(self) -> Seq<u8> {
        self.hash@
    }

    /// Under the invariant, the cached root digest is the true digest.
    pub proof fn lemma_cached_digest(self)
        requires
            self.inv(),
        ensures
            self.cached_digest() == self.digest(),
    {
    }

    /// The all-zero 32-byte value that stands for the empty trie.
    pub closed spec fn zero_digest() -> Seq<u8> {
        Seq::new(32, |i: int| 0u8)
    }

    /// The digest summarising this node's subtree: all zeros for an empty
    /// node, otherwise the hash of the canonical preimage.
    pub closed spec fn digest(self) -> Seq<u8> {
        self.digest_rec()
    }

    /// The hash of the bound value's canonical encoding, or nothing when no
    /// value is bound here.
    spec fn value_part(self) -> Seq<u8> {
        if self.value is Some {
            sha256_of(encoding_of(self.value.unwrap()))
        } else {
            Seq::<u8>::empty()
        }
    }

    /// The preimage is the flat concatenation of 32-byte words: the hash of
    /// the label, the hash of the encoded value if one is bound, then every
    /// child's digest in ascending order of first label byte.
    spec fn digest_rec(self) -> Seq<u8>
        decreases self, self.children@.len() + 1,
    {
        if self.spec_is_empty() {
            Self::zero_digest()
        } else {
            sha256_of(sha256_of(self.key@) + self.value_part() + self.child_digests(0))
        }
    }

    /// Concatenation of the digests of the children from index `i` on.
    spec fn child_digests(self, i: int) -> Seq<u8>
        decreases self, self.children@.len() - i,
    {
        if i < 0 || i >= self.children@.len() {
            Seq::<u8>::empty()
        } else {
            self.children@[i].digest_rec() + self.child_digests(i + 1)
        }
    }

    /// The cached `hash` of this node and of every node below it agrees with
    /// the digest recomputed from the structure.
    spec fn hashes_ok(self) -> bool
        decreases self,
    {
        &&& self.hash@ == self.digest_rec()
        &&& forall|i: int|
            0 <= i < self.children@.len() ==> (#[trigger] self.children@[i]).hashes_ok()
    }

    /// The trie seen as the partial map it stores: every key whose lookup
    /// succeeds, bound to its value.
    pub closed spec fn as_map(self) -> Map<Seq<u8>, u64> {
        Map::new(|k: Seq<u8>| self.spec_get(k) is Some, |k: Seq<u8>| self.spec_get(k).unwrap())
    }

    /// The container's invariant, maintained by every operation.
    pub closed spec fn inv(self) -> bool {
        &&& self.wf()
        &&& self.hashes_ok()
        &&& self.spec_is_empty() ==> self.key@.len() == 0
        &&& self.value is None ==> self.children@.len() != 1
    }

    /// Creates an empty trie: no keys, all-zero digest.
    pub fn new() -> (t: Self)
        ensures
            t.inv(),
            t.spec_is_empty(),
            t@ == Map::<Seq<u8>, u64>::empty(),
    {
        let t = MerklePatriciaTree {
            value: None,
            key: Vec::new(),
            hash: [0u8; 32],
            children: Vec::new(),
        };
        proof {
            assert forall|k: Seq<u8>| t.spec_get(k) is None by {
                if t.key@.is_prefix_of(k) && k.len() != 0 {
                    assert(t.get_in_children(0, k.skip(0)) is None);
                }
            }
            assert(t@ =~= Map::<Seq<u8>, u64>::empty());
            assert(t.hash@ =~= Self::zero_digest());
        }
        t
    }

    /// Binds `key` to `value`. Fails with `KeyAlreadyPresent` when `key` is
    /// already bound, leaving the trie untouched: rebinding is an error, not
    /// an update.
    pub fn insert(&mut self, key: &[u8], value: u64) -> (r: Result<(), TrieError>)
        requires
            old(self).inv(),
        ensures
            final(self).inv(),
            old(self)@.contains_key(key@) ==> r == Err::<(), TrieError>(
                TrieError::KeyAlreadyPresent,
            ) && *final(self) == *old(self),
            !old(self)@.contains_key(key@) ==> r == Ok::<(), TrieError>(()) && final(self)@
                == old(self)@.insert(key@, value),
    {
        let present = self.get(key).is_some();
        if present {
            return Err(TrieError::KeyAlreadyPresent);
        }
        self.insert_absent(key, value);
        proof {
            assert(final(self)@ =~= old(self)@.insert(key@, value));
        }
        Ok(())
    }

    /// Removes a key known to be bound below this node and returns its
    /// value, re-compressing the path on the way out.
    fn remove_present(&mut self, key: &[u8]) -> (r: u64)
        requires
            old(self).wf(),
            old(self).hashes_ok(),
            old(self).spec_get(key@) is Some,
        ensures
            Some(r) == old(self).spec_get(key@),
            forall|q: Seq<u8>|
                final(self).spec_get(q) == (if q == key@ {
                    None::<u64>
                } else {
                    old(self).spec_get(q)
                }),
            final(self).wf(),
            final(self).hashes_ok(),
            final(self).spec_is_empty() ==> final(self).key@.len() == 0,
            !final(self).spec_is_empty() ==> final(self).value is Some
                || final(self).children@.len() >= 2,
            !final(self).spec_is_empty() ==> old(self).key@.is_prefix_of(final(self).key@),
        decreases *old(self),
    {
        proof {
            old(self).lemma_get_split(key@);
        }
        if key.len() == self.key.len() {
            proof {
                assert(key@ =~= self.key@);
            }
            let v = self.value.take();
            proof {
                let m1 = *self;
                assert(m1.children_sorted());
                assert(m1.wf());
                assert forall|q: Seq<u8>|
                    m1.spec_get(q) == (if q == key@ {
                        None::<u64>
                    } else {
                        old(self).spec_get(q)
                    }) by {
                    m1.lemma_get_split(q);
                    old(self).lemma_get_split(q);
                    if m1.key@.is_prefix_of(q) && q.len() > m1.key@.len() {
                        Self::lemma_gic_same(m1, *old(self), 0, q.skip(m1.key@.len() as int));
                    }
                }
            }
            self.try_to_compress();
            v.unwrap()
        } else {
            proof {
                self.lemma_wf_children();
                assert(key@.len() > self.key@.len());
            }
            let suffix = slice_subrange(key, self.key.len(), key.len());
            proof {
                assert(suffix@ == key@.skip(self.key@.len() as int));
                assert(key@ =~= self.key@ + suffix@);
            }
            let iopt = self.find_child(suffix[0]);
            proof {
                if iopt is None {
                    self.lemma_gic_absent(suffix@);
                }
            }
            let i = iopt.unwrap();
            proof {
                self.lemma_gic_at(i as int, suffix@);
            }
            let mut c = self.children.remove(i);
            let v = c.remove_present(suffix);
            let dropped = c.is_empty();
            if !dropped {
                self.children.insert(i, c);
            }
            proof {
                let o = *old(self);
                let c0 = o.children@[i as int];
                let m1 = *self;
                if dropped {
                    assert(m1.children@ == o.children@.remove(i as int));
                    assert(m1.children_sorted()) by {
                        assert forall|a: int, b: int|
                            0 <= a < b < m1.children@.len() implies (
                        #[trigger] m1.children@[a]).key@[0] < (
                        #[trigger] m1.children@[b]).key@[0] by {
                            let a1: int = if a < i as int {
                                a
                            } else {
                                a + 1
                            };
                            let b1: int = if b < i as int {
                                b
                            } else {
                                b + 1
                            };
                            assert(o.children@[a1].key@[0] < o.children@[b1].key@[0]);
                        }
                    };
                    assert(m1.wf());
                } else {
                    assert(m1.children@ =~= o.children@.update(i as int, m1.children@[i as int]));
                    let c1 = m1.children@[i as int];
                    assert(c1.key@.len() > 0 && c1.key@[0] == c0.key@[0]);
                    assert(c1.child_ok());
                    assert(m1.children_sorted()) by {
                        assert forall|a: int, b: int|
                            0 <= a < b < m1.children@.len() implies (
                        #[trigger] m1.children@[a]).key@[0] < (
                        #[trigger] m1.children@[b]).key@[0] by {
                            assert(o.children@[a].key@[0] < o.children@[b].key@[0]);
                        }
                    };
                    assert(m1.wf());
                }
                assert forall|q: Seq<u8>|
                    m1.spec_get(q) == (if q == key@ {
                        None::<u64>
                    } else {
                        o.spec_get(q)
                    }) by {
                    m1.lemma_get_split(q);
                    o.lemma_get_split(q);
                    if m1.key@.is_prefix_of(q) && q.len() > m1.key@.len() {
                        let s = q.skip(m1.key@.len() as int);
                        if s[0] == suffix@[0] {
                            o.lemma_gic_at(i as int, s);
                            if dropped {
                                assert(c.spec_get(s) is None) by {
                                    c.lemma_get_split(s);
                                    if c.key@.is_prefix_of(s) && s.len() > c.key@.len() {
                                        assert(c.get_in_children(
                                            0,
                                            s.skip(c.key@.len() as int),
                                        ) is None);
                                    }
                                };
                                assert forall|j: int|
                                    0 <= j < m1.children@.len() implies (
                                #[trigger] m1.children@[j]).key@[0] != s[0] by {
                                    let j1: int = if j < i as int {
                                        j
                                    } else {
                                        j + 1
                                    };
                                    assert(m1.children@[j] == o.children@[j1]);
                                    if j1 < i as int {
                                        assert(o.children@[j1].key@[0] < c0.key@[0]);
                                    } else if j1 > i as int {
                                        assert(o.children@[j1].key@[0] > c0.key@[0]);
                                    }
                                }
                                m1.lemma_gic_absent(s);
                            } else {
                                m1.lemma_gic_at(i as int, s);
                            }
                            if s == suffix@ {
                                assert(q =~= key@);
                            }
                            if q == key@ {
                                assert(s == suffix@);
                            }
                        } else {
                            assert(q != key@) by {
                                if q == key@ {
                                    assert(s == suffix@);
                                }
                            };
                            if exists|j: int|
                                0 <= j < o.children@.len() && (
                                #[trigger] o.children@[j]).key@[0] == s[0] {
                                let j = choose|j: int|
                                    0 <= j < o.children@.len() && (
                                    #[trigger] o.children@[j]).key@[0] == s[0];
                                assert(j != i);
                                o.lemma_gic_at(j, s);
                                if dropped {
                                    let j1: int = if j < i as int {
                                        j
                                    } else {
                                        j - 1
                                    };
                                    assert(m1.children@[j1] == o.children@[j]);
                                    m1.lemma_gic_at(j1, s);
                                } else {
                                    m1.lemma_gic_at(j, s);
                                }
                            } else {
                                o.lemma_gic_absent(s);
                                assert forall|j: int|
                                    0 <= j < m1.children@.len() implies (
                                #[trigger] m1.children@[j]).key@[0] != s[0] by {
                                    if dropped {
                                        let j1: int = if j < i as int {
                                            j
                                        } else {
                                            j + 1
                                        };
                                        assert(m1.children@[j] == o.children@[j1]);
                                    } else {
                                        assert(o.children@[j].key@[0] != s[0]);
                                    }
                                }
                                m1.lemma_gic_absent(s);
                            }
                        }
                    } else {
                        assert(q != key@) by {
                            if q == key@ {
                                assert(m1.key@.is_prefix_of(q) && q.len() > m1.key@.len());
                            }
                        };
                    }
                }
            }
            self.try_to_compress();
            v
        }
    }

    /// Unbinds `key` and returns the value it was bound to, or absent when
    /// `key` was not bound; the trie is untouched in that case.
    pub fn remove(&mut self, key: &[u8]) -> (r: Option<u64>)
        requires
            old(self).inv(),
        ensures
            final(self).inv(),
            !old(self)@.contains_key(key@) ==> r is None && *final(self) == *old(self),
            old(self)@.contains_key(key@) ==> r == Some(old(self)@[key@]) && final(self)@ == old(
                self,
            )@.remove(key@),
    {
        let present = self.get(key).is_some();
        if !present {
            return None;
        }
        let v = self.remove_present(key);
        proof {
            assert(final(self)@ =~= old(self)@.remove(key@));
        }
        Some(v)
    }

    /// The root digest: 32 bytes identifying the entire key-value set; all
    /// zeros exactly when the trie is empty.
    pub fn root_digest(&self) -> (r: [u8; 32])
        requires
            self.inv(),
        ensures
            r@ == self.digest(),
            self.spec_is_empty() ==> r@ == Self::zero_digest(),
    {
        self.hash
    }

    /// True exactly when the trie holds no key at all.
    pub fn is_empty(&self) -> (r: bool)
        ensures
            r == self.spec_is_empty(),
            self.inv() ==> (r <==> self@ == Map::<Seq<u8>, u64>::empty()),
    {
        proof {
            if self.inv() {
                if self.spec_is_empty() {
                    assert forall|k: Seq<u8>| self.spec_get(k) is None by {
                        self.lemma_get_split(k);
                        assert(self.key@.is_prefix_of(k)) by {
                            assert(self.key@ =~= k.subrange(0, 0));
                        };
                        if k.len() > 0 {
                            assert(self.get_in_children(0, k.skip(0)) is None);
                        }
                    }
                    assert(self@ =~= Map::<Seq<u8>, u64>::empty());
                } else {
                    self.lemma_nonempty_has_key();
                    let q = choose|q: Seq<u8>|
                        #[trigger] self.spec_get(q) is Some && self.key@.is_prefix_of(q);
                    assert(self@.contains_key(q));
                    assert(!Map::<Seq<u8>, u64>::empty().contains_key(q));
                }
            }
        }
        self.children.is_empty() && self.value.is_none()
    }

    /// A scan that finds no child whose label starts with `s[0]` looks the
    /// key up nowhere: the result is absent.
    proof fn lemma_gic_none(self, i: int, s: Seq<u8>)
        requires
            0 <= i,
            s.len() > 0,
            forall|j: int|
                i <= j < self.children@.len() ==> (#[trigger] self.children@[j]).key@[0] != s[0]
                    || self.children@[j].key@.len() == 0,
        ensures
            self.get_in_children(i, s) is None,
        decreases self.children@.len() - i,
    {
        if i < self.children@.len() {
            self.lemma_gic_none(i + 1, s);
        }
    }

    /// A scan that reaches index `j`, the first child whose label starts
    /// with `s[0]`, looks the key up exactly there.
    proof fn lemma_gic_found(self, i: int, j: int, s: Seq<u8>)
        requires
            0 <= i <= j < self.children@.len(),
            s.len() > 0,
            self.children@[j].key@.len() > 0,
            self.children@[j].key@[0] == s[0],
            forall|m: int|
                i <= m < j ==> (#[trigger] self.children@[m]).key@[0] != s[0]
                    || self.children@[m].key@.len() == 0,
        ensures
            self.get_in_children(i, s) == self.children@[j].spec_get(s),
        decreases j - i,
    {
        if i < j {
            self.lemma_gic_found(i + 1, j, s);
        }
    }

    /// Unpacks structural well-formedness one level: every child is itself
    /// well-formed, carries a non-empty label, and is no collapsible chain.
    proof fn lemma_wf_children(self)
        requires
            self.wf(),
        ensures
            forall|i: int|
                0 <= i < self.children@.len() ==> (#[trigger] self.children@[i]).key@.len() > 0
                    && (self.children@[i].value is Some || self.children@[i].children@.len() >= 2)
                    && self.children@[i].wf() && !self.children@[i].spec_is_empty(),
    {
        assert forall|i: int| 0 <= i < self.children@.len() implies (
        #[trigger] self.children@[i]).key@.len() > 0 && (self.children@[i].value is Some
            || self.children@[i].children@.len() >= 2) && self.children@[i].wf()
            && !self.children@[i].spec_is_empty() by {
            assert(self.children@[i].child_ok());
        }
    }

    /// The child scan depends on the children alone, not on the node's other
    /// fields.
    proof fn lemma_gic_same(a: Self, b: Self, i: int, s: Seq<u8>)
        requires
            a.children == b.children,
        ensures
            a.get_in_children(i, s) == b.get_in_children(i, s),
        decreases a.children@.len() - i,
    {
        if 0 <= i < a.children@.len() {
            Self::lemma_gic_same(a, b, i + 1, s);
        }
    }

    /// How a lookup splits on this node: the key either misses the label,
    /// ends exactly on it, or descends past it into the children.
    proof fn lemma_get_split(self, q: Seq<u8>)
        ensures
            !self.key@.is_prefix_of(q) ==> self.spec_get(q) is None,
            self.key@.is_prefix_of(q) && q.len() == self.key@.len() ==> q == self.key@
                && self.spec_get(q) == self.value,
            self.key@.is_prefix_of(q) && q.len() > self.key@.len() ==> q == self.key@ + q.skip(
                self.key@.len() as int,
            ) && q.skip(self.key@.len() as int).len() > 0 && self.spec_get(q)
                == self.get_in_children(0, q.skip(self.key@.len() as int)),
    {
        if self.key@.is_prefix_of(q) && q.len() == self.key@.len() {
            assert(q =~= self.key@);
        }
        if self.key@.is_prefix_of(q) && q.len() > self.key@.len() {
            assert(q =~= self.key@ + q.skip(self.key@.len() as int));
        }
    }

    /// Under sortedness, the scan lands on whichever child carries the first
    /// byte of the suffix.
    proof fn lemma_gic_at(self, j: int, s: Seq<u8>)
        requires
            self.wf(),
            s.len() > 0,
            0 <= j < self.children@.len(),
            self.children@[j].key@.len() > 0,
            self.children@[j].key@[0] == s[0],
        ensures
            self.get_in_children(0, s) == self.children@[j].spec_get(s),
    {
        self.lemma_wf_children();
        assert forall|m: int| 0 <= m < j implies (#[trigger] self.children@[m]).key@[0] != s[0] by {
            assert(self.children@[m].key@[0] < self.children@[j].key@[0]);
        }
        self.lemma_gic_found(0, j, s);
    }

    /// With no child carrying the suffix's first byte, the scan is absent.
    proof fn lemma_gic_absent(self, s: Seq<u8>)
        requires
            s.len() > 0,
            forall|j: int|
                0 <= j < self.children@.len() ==> (#[trigger] self.children@[j]).key@[0] != s[0]
                    || self.children@[j].key@.len() == 0,
        ensures
            self.get_in_children(0, s) is None,
    {
        self.lemma_gic_none(0, s);
    }

    /// Prepending the same bytes to a node's label shifts every lookup by
    /// those bytes: the collapsed form of a two-edge path answers exactly as
    /// the uncollapsed one did below it.
    proof fn lemma_prefix_shift(x: Self, y: Self, p: Seq<u8>, r: Seq<u8>)
        requires
            y.key@ == p + x.key@,
            y.value == x.value,
            y.children == x.children,
        ensures
            y.spec_get(p + r) == x.spec_get(r),
    {
        let q = p + r;
        if x.key@.is_prefix_of(r) {
            assert(y.key@.is_prefix_of(q)) by {
                assert forall|i: int| 0 <= i < y.key@.len() implies q[i] == y.key@[i] by {
                    if i >= p.len() {
                        assert(x.key@[i - p.len()] == r[i - p.len()]);
                    }
                }
                assert(y.key@ =~= q.subrange(0, y.key@.len() as int));
            };
            if r.len() == x.key@.len() {
                assert(q.len() == y.key@.len());
            } else {
                assert(q.len() > y.key@.len());
                assert(q.skip(y.key@.len() as int) =~= r.skip(x.key@.len() as int));
                Self::lemma_gic_same(y, x, 0, r.skip(x.key@.len() as int));
            }
        } else {
            assert(!y.key@.is_prefix_of(q)) by {
                if y.key@.is_prefix_of(q) {
                    assert forall|i: int| 0 <= i < x.key@.len() implies r[i] == x.key@[i] by {
                        assert(q[p.len() + i] == y.key@[p.len() + i]);
                    }
                    assert(x.key@ =~= r.subrange(0, x.key@.len() as int));
                }
            };
        }
    }

    /// The shape constraints shared by the root (through `inv`) and by every
    /// other node (through `child_ok`): an empty node has an empty label,
    /// and a non-empty valueless node branches at least twice. These are
    /// what make the compressed form of a key set unique.
    spec fn canon_shape(self) -> bool {
        &&& self.spec_is_empty() ==> self.key@.len() == 0
        &&& !self.spec_is_empty() ==> self.value is Some || self.children@.len() >= 2
    }

    /// A well-formed non-empty node stores at least one key, and every key
    /// it stores starts with its own label.
    proof fn lemma_nonempty_has_key(self)
        requires
            self.wf(),
            !self.spec_is_empty(),
        ensures
            exists|q: Seq<u8>|
                #[trigger] self.spec_get(q) is Some && self.key@.is_prefix_of(q),
        decreases self,
    {
        assert(self.key@.is_prefix_of(self.key@)) by {
            assert(self.key@ =~= self.key@.subrange(0, self.key@.len() as int));
        };
        if self.value is Some {
            self.lemma_get_split(self.key@);
            assert(self.spec_get(self.key@) is Some);
        } else {
            self.lemma_wf_children();
            let c = self.children@[0];
            c.lemma_nonempty_has_key();
            let r = choose|r: Seq<u8>| #[trigger] c.spec_get(r) is Some && c.key@.is_prefix_of(r);
            assert(r[0] == c.key@[0]);
            let q = self.key@ + r;
            self.lemma_get_split(q);
            assert(self.key@.is_prefix_of(q)) by {
                assert(self.key@ =~= q.subrange(0, self.key@.len() as int));
            };
            assert(q.skip(self.key@.len() as int) =~= r);
            self.lemma_gic_at(0, r);
            assert(self.spec_get(q) is Some);
        }
    }

    /// A well-formed valueless node with two or more children stores two
    /// keys that diverge right after its label.
    proof fn lemma_two_keys(self)
        requires
            self.wf(),
            self.value is None,
            self.children@.len() >= 2,
        ensures
            exists|q1: Seq<u8>, q2: Seq<u8>|
                #[trigger] self.spec_get(q1) is Some && #[trigger] self.spec_get(q2) is Some
                    && self.key@.is_prefix_of(q1) && self.key@.is_prefix_of(q2) && q1.len()
                    > self.key@.len() && q2.len() > self.key@.len() && q1[self.key@.len() as int]
                    != q2[self.key@.len() as int],
    {
        self.lemma_wf_children();
        let c0 = self.children@[0];
        let c1 = self.children@[1];
        c0.lemma_nonempty_has_key();
        c1.lemma_nonempty_has_key();
        let r0 = choose|r: Seq<u8>| #[trigger] c0.spec_get(r) is Some && c0.key@.is_prefix_of(r);
        let r1 = choose|r: Seq<u8>| #[trigger] c1.spec_get(r) is Some && c1.key@.is_prefix_of(r);
        assert(r0[0] == c0.key@[0]);
        assert(r1[0] == c1.key@[0]);
        assert(c0.key@[0] < c1.key@[0]);
        let q1 = self.key@ + r0;
        let q2 = self.key@ + r1;
        self.lemma_get_split(q1);
        self.lemma_get_split(q2);
        assert(self.key@.is_prefix_of(q1)) by {
            assert(self.key@ =~= q1.subrange(0, self.key@.len() as int));
        };
        assert(self.key@.is_prefix_of(q2)) by {
            assert(self.key@ =~= q2.subrange(0, self.key@.len() as int));
        };
        assert(q1.skip(self.key@.len() as int) =~= r0);
        assert(q2.skip(self.key@.len() as int) =~= r1);
        self.lemma_gic_at(0, r0);
        self.lemma_gic_at(1, r1);
        assert(self.spec_get(q1) is Some && self.spec_get(q2) is Some);
        assert(q1[self.key@.len() as int] == r0[0]);
        assert(q2[self.key@.len() as int] == r1[0]);
    }

    /// Two well-formed, well-shaped nodes that answer every lookup alike
    /// carry the same label and the same bound value.
    proof fn lemma_keys_align(a: Self, b: Self)
        requires
            a.wf(),
            b.wf(),
            a.canon_shape(),
            b.canon_shape(),
            !a.spec_is_empty(),
            !b.spec_is_empty(),
            forall|q: Seq<u8>| #[trigger] a.spec_get(q) == b.spec_get(q),
        ensures
            a.key@ == b.key@,
            a.value == b.value,
        decreases (if a.value is Some {
            0int
        } else {
            1int
        }),
    {
        if a.value is Some {
            assert(a.key@.is_prefix_of(a.key@)) by {
                assert(a.key@ =~= a.key@.subrange(0, a.key@.len() as int));
            };
            a.lemma_get_split(a.key@);
            assert(a.spec_get(a.key@) == a.value);
            assert(b.spec_get(a.key@) is Some);
            b.lemma_get_split(a.key@);
            assert(b.key@.is_prefix_of(a.key@));
            if b.value is Some {
                b.lemma_get_split(b.key@);
                assert(b.key@.is_prefix_of(b.key@)) by {
                    assert(b.key@ =~= b.key@.subrange(0, b.key@.len() as int));
                };
                assert(b.spec_get(b.key@) == b.value);
                assert(a.spec_get(b.key@) is Some);
                a.lemma_get_split(b.key@);
                assert(a.key@.is_prefix_of(b.key@));
                assert(a.key@ =~= b.key@);
                assert(b.spec_get(a.key@) == b.value);
            } else {
                // A valueless b branches twice below its label; but every
                // key it answers extends a.key, which extends b.key, so all
                // of them agree just after b's label. Contradiction.
                b.lemma_two_keys();
                let (q1, q2) = choose|q1: Seq<u8>, q2: Seq<u8>|
                    #[trigger] b.spec_get(q1) is Some && #[trigger] b.spec_get(q2) is Some
                        && b.key@.is_prefix_of(q1) && b.key@.is_prefix_of(q2) && q1.len()
                        > b.key@.len() && q2.len() > b.key@.len() && q1[b.key@.len() as int]
                        != q2[b.key@.len() as int];
                if a.key@.len() == b.key@.len() {
                    assert(a.key@ =~= b.key@);
                    assert(b.spec_get(b.key@) is None);
                } else {
                    assert(a.key@.len() > b.key@.len());
                    assert(a.spec_get(q1) is Some);
                    assert(a.spec_get(q2) is Some);
                    a.lemma_get_split(q1);
                    a.lemma_get_split(q2);
                    assert(q1[b.key@.len() as int] == a.key@[b.key@.len() as int]);
                    assert(q2[b.key@.len() as int] == a.key@[b.key@.len() as int]);
                }
                assert(false);
            }
        } else if b.value is Some {
            Self::lemma_keys_align(b, a);
        } else {
            a.lemma_two_keys();
            b.lemma_two_keys();
            let (p1, p2) = choose|p1: Seq<u8>, p2: Seq<u8>|
                #[trigger] a.spec_get(p1) is Some && #[trigger] a.spec_get(p2) is Some
                    && a.key@.is_prefix_of(p1) && a.key@.is_prefix_of(p2) && p1.len()
                    > a.key@.len() && p2.len() > a.key@.len() && p1[a.key@.len() as int]
                    != p2[a.key@.len() as int];
            let (q1, q2) = choose|q1: Seq<u8>, q2: Seq<u8>|
                #[trigger] b.spec_get(q1) is Some && #[trigger] b.spec_get(q2) is Some
                    && b.key@.is_prefix_of(q1) && b.key@.is_prefix_of(q2) && q1.len()
                    > b.key@.len() && q2.len() > b.key@.len() && q1[b.key@.len() as int]
                    != q2[b.key@.len() as int];
            b.lemma_get_split(p1);
            b.lemma_get_split(p2);
            a.lemma_get_split(q1);
            a.lemma_get_split(q2);
            assert(a.spec_get(q1) is Some && a.spec_get(q2) is Some);
            assert(b.spec_get(p1) is Some && b.spec_get(p2) is Some);
            assert(b.key@.is_prefix_of(p1) && b.key@.is_prefix_of(p2));
            assert(a.key@.is_prefix_of(q1) && a.key@.is_prefix_of(q2));
            if b.key@.len() > a.key@.len() {
                assert(p1[a.key@.len() as int] == b.key@[a.key@.len() as int]);
                assert(p2[a.key@.len() as int] == b.key@[a.key@.len() as int]);
                assert(false);
            }
            if a.key@.len() > b.key@.len() {
                assert(q1[b.key@.len() as int] == a.key@[b.key@.len() as int]);
                assert(q2[b.key@.len() as int] == a.key@[b.key@.len() as int]);
                assert(false);
            }
            assert(a.key@ =~= b.key@);
        }
    }

    /// Two strictly ascending byte sequences with the same members are the
    /// same sequence.
    proof fn lemma_sorted_bytes_equal(x: Seq<u8>, y: Seq<u8>)
        requires
            forall|i: int, j: int| 0 <= i < j < x.len() ==> x[i] < x[j],
            forall|i: int, j: int| 0 <= i < j < y.len() ==> y[i] < y[j],
            forall|d: u8| x.contains(d) <==> y.contains(d),
        ensures
            x == y,
        decreases x.len(),
    {
        if x.len() == 0 {
            if y.len() > 0 {
                assert(y.contains(y[0]));
                assert(x.contains(y[0]));
            }
            assert(x =~= y);
        } else if y.len() == 0 {
            assert(x.contains(x[0]));
            assert(y.contains(x[0]));
            assert(x =~= y);
        } else {
            assert(x.contains(x[0]));
            assert(y.contains(y[0]));
            assert(y.contains(x[0]));
            assert(x.contains(y[0]));
            let jx = choose|j: int| 0 <= j < y.len() && y[j] == x[0];
            let jy = choose|j: int| 0 <= j < x.len() && x[j] == y[0];
            assert(y[0] <= y[jx]);
            assert(x[0] <= x[jy]);
            assert(x[0] == y[0]);
            let xt = x.skip(1);
            let yt = y.skip(1);
            assert forall|d: u8| xt.contains(d) <==> yt.contains(d) by {
                if xt.contains(d) {
                    let i = choose|i: int| 0 <= i < xt.len() && xt[i] == d;
                    assert(x[i + 1] == d);
                    assert(x.contains(d));
                    assert(d > x[0]);
                    let j = choose|j: int| 0 <= j < y.len() && y[j] == d;
                    assert(j != 0);
                    assert(yt[j - 1] == d);
                    assert(yt.contains(d));
                }
                if yt.contains(d) {
                    let i = choose|i: int| 0 <= i < yt.len() && yt[i] == d;
                    assert(y[i + 1] == d);
                    assert(y.contains(d));
                    assert(d > y[0]);
                    let j = choose|j: int| 0 <= j < x.len() && x[j] == d;
                    assert(j != 0);
                    assert(xt[j - 1] == d);
                    assert(xt.contains(d));
                }
            }
            Self::lemma_sorted_bytes_equal(xt, yt);
            assert(x.len() == y.len());
            assert forall|i: int| 0 <= i < x.len() implies x[i] == y[i] by {
                if i >= 1 {
                    assert(xt[i - 1] == yt[i - 1]);
                }
            }
            assert(x =~= y);
        }
    }

    /// Equal-length child lists whose digests agree index by index yield
    /// the same digest concatenation.
    proof fn lemma_child_digests_pointwise(a: Self, b: Self, i: int)
        requires
            a.children@.len() == b.children@.len(),
            forall|j: int|
                0 <= j < a.children@.len() ==> (#[trigger] a.children@[j]).digest_rec()
                    == b.children@[j].digest_rec(),
        ensures
            a.child_digests(i) == b.child_digests(i),
        decreases a.children@.len() - i,
    {
        if 0 <= i < a.children@.len() {
            Self::lemma_child_digests_pointwise(a, b, i + 1);
        }
    }

    /// The induction behind the canonicity of the digest: two well-formed,
    /// well-shaped nodes that answer every lookup alike have the same
    /// recomputed digest.
    proof fn lemma_canonical_rec(a: Self, b: Self)
        requires
            a.wf(),
            b.wf(),
            a.canon_shape(),
            b.canon_shape(),
            forall|q: Seq<u8>| #[trigger] a.spec_get(q) == b.spec_get(q),
        ensures
            a.digest_rec() == b.digest_rec(),
        decreases a,
    {
        if a.spec_is_empty() && !b.spec_is_empty() {
            b.lemma_nonempty_has_key();
            let q = choose|q: Seq<u8>|
                #[trigger] b.spec_get(q) is Some && b.key@.is_prefix_of(q);
            a.lemma_get_split(q);
            assert(a.key@.is_prefix_of(q)) by {
                assert(a.key@ =~= q.subrange(0, 0));
            };
            if q.len() > 0 {
                assert(a.get_in_children(0, q.skip(0)) is None);
            }
            assert(false);
        } else if b.spec_is_empty() && !a.spec_is_empty() {
            a.lemma_nonempty_has_key();
            let q = choose|q: Seq<u8>|
                #[trigger] a.spec_get(q) is Some && a.key@.is_prefix_of(q);
            b.lemma_get_split(q);
            assert(b.key@.is_prefix_of(q)) by {
                assert(b.key@ =~= q.subrange(0, 0));
            };
            if q.len() > 0 {
                assert(b.get_in_children(0, q.skip(0)) is None);
            }
            assert(false);
        } else if a.spec_is_empty() && b.spec_is_empty() {
        } else {
            Self::lemma_keys_align(a, b);
            let k = a.key@;
            a.lemma_wf_children();
            b.lemma_wf_children();
            let xa = Seq::new(a.children@.len() as nat, |i: int| a.children@[i].key@[0]);
            let xb = Seq::new(b.children@.len() as nat, |i: int| b.children@[i].key@[0]);
            assert forall|d: u8| xa.contains(d) implies xb.contains(d) by {
                let i = choose|i: int| 0 <= i < xa.len() && xa[i] == d;
                let ca = a.children@[i];
                ca.lemma_nonempty_has_key();
                let r = choose|r: Seq<u8>|
                    #[trigger] ca.spec_get(r) is Some && ca.key@.is_prefix_of(r);
                assert(r[0] == ca.key@[0]);
                let q = k + r;
                a.lemma_get_split(q);
                b.lemma_get_split(q);
                assert(k.is_prefix_of(q)) by {
                    assert(k =~= q.subrange(0, k.len() as int));
                };
                assert(q.skip(k.len() as int) =~= r);
                a.lemma_gic_at(i, r);
                assert(b.spec_get(q) is Some);
                if forall|j: int|
                    0 <= j < b.children@.len() ==> (#[trigger] b.children@[j]).key@[0] != r[0] {
                    b.lemma_gic_absent(r);
                } else {
                    let j = choose|j: int|
                        0 <= j < b.children@.len() && (#[trigger] b.children@[j]).key@[0] == r[0];
                    assert(xb[j] == d);
                }
            }
            assert forall|d: u8| xb.contains(d) implies xa.contains(d) by {
                let i = choose|i: int| 0 <= i < xb.len() && xb[i] == d;
                let cb = b.children@[i];
                cb.lemma_nonempty_has_key();
                let r = choose|r: Seq<u8>|
                    #[trigger] cb.spec_get(r) is Some && cb.key@.is_prefix_of(r);
                assert(r[0] == cb.key@[0]);
                let q = k + r;
                a.lemma_get_split(q);
                b.lemma_get_split(q);
                assert(k.is_prefix_of(q)) by {
                    assert(k =~= q.subrange(0, k.len() as int));
                };
                assert(q.skip(k.len() as int) =~= r);
                b.lemma_gic_at(i, r);
                assert(a.spec_get(q) is Some);
                if forall|j: int|
                    0 <= j < a.children@.len() ==> (#[trigger] a.children@[j]).key@[0] != r[0] {
                    a.lemma_gic_absent(r);
                } else {
                    let j = choose|j: int|
                        0 <= j < a.children@.len() && (#[trigger] a.children@[j]).key@[0] == r[0];
                    assert(xa[j] == d);
                }
            }
            Self::lemma_sorted_bytes_equal(xa, xb);
            assert(a.children@.len() == b.children@.len());
            assert forall|i: int|
                0 <= i < a.children@.len() implies (#[trigger] a.children@[i]).digest_rec()
                == b.children@[i].digest_rec() by {
                let ca = a.children@[i];
                let cb = b.children@[i];
                assert(xa[i] == xb[i]);
                let d = ca.key@[0];
                assert(cb.key@[0] == d);
                assert forall|s: Seq<u8>| #[trigger] ca.spec_get(s) == cb.spec_get(s) by {
                    if s.len() == 0 {
                        ca.lemma_get_split(s);
                        cb.lemma_get_split(s);
                        assert(!ca.key@.is_prefix_of(s));
                        assert(!cb.key@.is_prefix_of(s));
                    } else if s[0] == d {
                        let q = k + s;
                        a.lemma_get_split(q);
                        b.lemma_get_split(q);
                        assert(k.is_prefix_of(q)) by {
                            assert(k =~= q.subrange(0, k.len() as int));
                        };
                        assert(q.skip(k.len() as int) =~= s);
                        a.lemma_gic_at(i, s);
                        b.lemma_gic_at(i, s);
                    } else {
                        ca.lemma_get_split(s);
                        cb.lemma_get_split(s);
                        assert(!ca.key@.is_prefix_of(s)) by {
                            if ca.key@.is_prefix_of(s) {
                                assert(ca.key@[0] == s[0]);
                            }
                        };
                        assert(!cb.key@.is_prefix_of(s)) by {
                            if cb.key@.is_prefix_of(s) {
                                assert(cb.key@[0] == s[0]);
                            }
                        };
                    }
                }
                assert(ca.child_ok());
                assert(cb.child_ok());
                Self::lemma_canonical_rec(ca, cb);
            }
            Self::lemma_child_digests_pointwise(a, b, 0);
        }
    }

    /// Order independence of the digest: two tries holding exactly the same
    /// key-value pairs have the same digest, whatever sequence of operations
    /// built each of them. The compressed structure, and with it the digest,
    /// is canonical in the stored map.
    pub proof fn lemma_digest_determined_by_content(a: Self, b: Self)
        requires
            a.inv(),
            b.inv(),
            a@ == b@,
        ensures
            a.digest() == b.digest(),
    {
        assert forall|q: Seq<u8>| #[trigger] a.spec_get(q) == b.spec_get(q) by {
            assert(a@.contains_key(q) == (a.spec_get(q) is Some));
            assert(b@.contains_key(q) == (b.spec_get(q) is Some));
            if a.spec_get(q) is Some {
                assert(a@[q] == a.spec_get(q).unwrap());
                assert(b@[q] == b.spec_get(q).unwrap());
                assert(a.spec_get(q) == Some(a.spec_get(q).unwrap()));
                assert(b.spec_get(q) == Some(b.spec_get(q).unwrap()));
            }
        }
        Self::lemma_canonical_rec(a, b);
    }

    /// A trie that stores no key at all carries the all-zero digest.
    pub proof fn lemma_empty_digest(self)
        requires
            self.inv(),
            self@ == Map::<Seq<u8>, u64>::empty(),
        ensures
            self.digest() == Self::zero_digest(),
    {
        if !self.spec_is_empty() {
            self.lemma_nonempty_has_key();
            let q = choose|q: Seq<u8>|
                #[trigger] self.spec_get(q) is Some && self.key@.is_prefix_of(q);
            assert(self@.contains_key(q));
        }
    }

    /// The concatenated child digests depend on the children alone, not on
    /// the node's own cached hash.
    proof fn lemma_child_digests_same(a: Self, b: Self, i: int)
        requires
            a.children == b.children,
        ensures
            a.child_digests(i) == b.child_digests(i),
        decreases a.children@.len() - i,
    {
        if 0 <= i < a.children@.len() {
            Self::lemma_child_digests_same(a, b, i + 1);
        }
    }

    /// Finds the child whose label starts with byte `b`, scanning left to
    /// right.
    #[verifier::loop_isolation(false)]
    fn find_child(&self, b: u8) -> (r: Option<usize>)
        requires
            forall|i: int|
                0 <= i < self.children@.len() ==> (#[trigger] self.children@[i]).key@.len() > 0,
        ensures
            match r {
                Some(i) => i < self.children@.len() && self.children@[i as int].key@[0] == b
                    && forall|j: int| 0 <= j < i ==> (#[trigger] self.children@[j]).key@[0] != b,
                None => forall|j: int|
                    0 <= j < self.children@.len() ==> (#[trigger] self.children@[j]).key@[0] != b,
            },
    {
        let n = self.children.len();
        let mut i: usize = 0;
        while i < n
            invariant
                0 <= i <= n,
                forall|j: int| 0 <= j < i ==> (#[trigger] self.children@[j]).key@[0] != b,
            decreases n - i,
        {
            let c = &self.children[i];
            if c.key[0] == b {
                return Some(i);
            }
            i += 1;
        }
        None
    }

    /// Looks `key` up below this node; `key` still includes this node's own
    /// edge label.
    fn get_node(&self, key: &[u8]) -> (r: Option<&u64>)
        requires
            self.wf(),
        ensures
            self.spec_get(key@) is Some <==> r is Some,
            r is Some ==> *r.unwrap() == self.spec_get(key@).unwrap(),
        decreases self,
    {
        let l = common_prefix_len(self.key.as_slice(), key);
        if l == self.key.len() {
            proof {
                assert(self.key@ =~= key@.subrange(0, self.key@.len() as int));
            }
            if key.len() == self.key.len() {
                proof {
                    assert(key@ =~= self.key@);
                }
                self.value.as_ref()
            } else {
                let suffix = slice_subrange(key, l, key.len());
                proof {
                    self.lemma_wf_children();
                    assert(suffix@ == key@.skip(self.key@.len() as int));
                }
                match self.find_child(suffix[0]) {
                    Some(i) => {
                        proof {
                            self.lemma_gic_found(0, i as int, suffix@);
                        }
                        let c = &self.children[i];
                        c.get_node(suffix)
                    },
                    None => {
                        proof {
                            self.lemma_gic_none(0, suffix@);
                        }
                        None
                    },
                }
            }
        } else {
            proof {
                if self.key@.is_prefix_of(key@) {
                    assert(self.key@[l as int] == key@[l as int]);
                }
            }
            None
        }
    }

    /// Returns the value bound to `key`, or absent when `key` is not bound.
    pub fn get(&self, key: &[u8]) -> (r: Option<&u64>)
        requires
            self.inv(),
        ensures
            self@.contains_key(key@) <==> r is Some,
            r is Some ==> *r.unwrap() == self@[key@],
    {
        proof {
            assert(self@.contains_key(key@) == (self.spec_get(key@) is Some));
        }
        self.get_node(key)
    }

    /// Restores radix compression locally after a removal: an empty node
    /// clears its label (the parent drops it), and a valueless node with a
    /// single child absorbs that child, concatenating the labels.
    fn try_to_compress(&mut self)
        requires
            old(self).wf(),
            forall|i: int|
                0 <= i < old(self).children@.len() ==> (
                #[trigger] old(self).children@[i]).hashes_ok(),
        ensures
            final(self).wf(),
            final(self).hashes_ok(),
            forall|q: Seq<u8>| final(self).spec_get(q) == old(self).spec_get(q),
            final(self).spec_is_empty() == old(self).spec_is_empty(),
            final(self).spec_is_empty() ==> final(self).key@.len() == 0,
            !final(self).spec_is_empty() ==> final(self).value is Some
                || final(self).children@.len() >= 2,
            old(self).key@.is_prefix_of(final(self).key@) || final(self).spec_is_empty(),
    {
        if self.is_empty() {
            self.key = Vec::new();
            self.update_hash();
            proof {
                assert forall|q: Seq<u8>|
                    final(self).spec_get(q) == old(self).spec_get(q) by {
                    self.lemma_get_split(q);
                    old(self).lemma_get_split(q);
                    if self.key@.is_prefix_of(q) && q.len() > self.key@.len() {
                        assert(self.get_in_children(0, q.skip(self.key@.len() as int)) is None);
                    }
                    if old(self).key@.is_prefix_of(q) && q.len() > old(self).key@.len() {
                        assert(old(self).get_in_children(
                            0,
                            q.skip(old(self).key@.len() as int),
                        ) is None);
                    }
                }
            }
        } else if self.value.is_none() && self.children.len() == 1 {
            proof {
                self.lemma_wf_children();
            }
            let mut c = self.children.remove(0);
            self.key.append(&mut c.key);
            self.value = c.value;
            self.children = c.children;
            self.update_hash();
            proof {
                let c0 = old(self).children@[0];
                assert(self.children == c0.children);
                assert(self.key@ == old(self).key@ + c0.key@);
                assert(c0.wf());
                assert(self.children_sorted());
                assert(self.wf());
                assert(old(self).key@.is_prefix_of(self.key@)) by {
                    assert(old(self).key@ =~= self.key@.subrange(
                        0,
                        old(self).key@.len() as int,
                    ));
                };
                assert forall|q: Seq<u8>|
                    final(self).spec_get(q) == old(self).spec_get(q) by {
                    old(self).lemma_get_split(q);
                    self.lemma_get_split(q);
                    if old(self).key@.is_prefix_of(q) {
                        let r = q.skip(old(self).key@.len() as int);
                        assert(q =~= old(self).key@ + r);
                        Self::lemma_prefix_shift(c0, *self, old(self).key@, r);
                        if r.len() == 0 {
                            assert(!c0.key@.is_prefix_of(r));
                            c0.lemma_get_split(r);
                        } else {
                            if c0.key@[0] == r[0] {
                                old(self).lemma_gic_at(0, r);
                            } else {
                                old(self).lemma_gic_absent(r);
                                if c0.key@.is_prefix_of(r) {
                                    assert(c0.key@[0] == r[0]);
                                }
                                c0.lemma_get_split(r);
                            }
                        }
                    } else {
                        if self.key@.is_prefix_of(q) {
                            assert forall|i: int|
                                0 <= i < old(self).key@.len() implies q[i] == old(
                                self).key@[i] by {
                                assert(q[i] == self.key@[i]);
                            }
                            assert(old(self).key@ =~= q.subrange(
                                0,
                                old(self).key@.len() as int,
                            ));
                        }
                    }
                }
            }
        } else {
            self.update_hash();
            proof {
                assert(self.wf());
                assert forall|q: Seq<u8>|
                    final(self).spec_get(q) == old(self).spec_get(q) by {
                    self.lemma_get_split(q);
                    old(self).lemma_get_split(q);
                    if self.key@.is_prefix_of(q) && q.len() > self.key@.len() {
                        Self::lemma_gic_same(*self, *old(self), 0, q.skip(self.key@.len() as int));
                    }
                }
            }
        }
    }

    /// Builds a fresh leaf binding `value` at exactly the label `suffix`.
    fn make_leaf(suffix: &[u8], value: u64) -> (n: Self)
        ensures
            n.key@ == suffix@,
            n.value == Some(value),
            n.children@.len() == 0,
            n.wf(),
            n.hashes_ok(),
            !n.spec_is_empty(),
            forall|q: Seq<u8>|
                n.spec_get(q) == (if q == suffix@ {
                    Some(value)
                } else {
                    None::<u64>
                }),
    {
        let mut n = MerklePatriciaTree {
            value: Some(value),
            key: vstd::slice::slice_to_vec(suffix),
            hash: [0u8; 32],
            children: Vec::new(),
        };
        n.update_hash();
        proof {
            assert forall|q: Seq<u8>|
                n.spec_get(q) == (if q == suffix@ {
                    Some(value)
                } else {
                    None::<u64>
                }) by {
                n.lemma_get_split(q);
                if n.key@.is_prefix_of(q) && q.len() > n.key@.len() {
                    assert(n.get_in_children(0, q.skip(n.key@.len() as int)) is None);
                }
            }
        }
        n
    }

    /// The slot where a child whose label starts with `b` belongs, keeping
    /// the children sorted; `b` must not occur yet.
    #[verifier::loop_isolation(false)]
    fn find_insert_pos(&self, b: u8) -> (pos: usize)
        requires
            self.children_sorted(),
            forall|i: int|
                0 <= i < self.children@.len() ==> (#[trigger] self.children@[i]).key@.len() > 0,
            forall|i: int|
                0 <= i < self.children@.len() ==> (#[trigger] self.children@[i]).key@[0] != b,
        ensures
            pos <= self.children@.len(),
            forall|j: int| 0 <= j < pos ==> (#[trigger] self.children@[j]).key@[0] < b,
            forall|j: int|
                pos <= j < self.children@.len() ==> (#[trigger] self.children@[j]).key@[0] > b,
    {
        let n = self.children.len();
        let mut i: usize = 0;
        while i < n && self.children[i].key[0] < b
            invariant
                0 <= i <= n,
                forall|j: int| 0 <= j < i ==> (#[trigger] self.children@[j]).key@[0] < b,
            decreases n - i,
        {
            i += 1;
        }
        proof {
            assert forall|j: int|
                i <= j < self.children@.len() implies (#[trigger] self.children@[j]).key@[0]
                > b by {
                assert(self.children@[i as int].key@[0] != b);
                if j > i {
                    assert(self.children@[i as int].key@[0] < self.children@[j].key@[0]);
                }
            }
        }
        i
    }

    /// What splitting an edge does to every lookup: the node `o` whose label
    /// diverges from `key` at position `l` is replaced by `f`, which keeps
    /// the common prefix, hangs the remainder of `o` below it as `mid`, and
    /// binds `value` either at `f` itself or at a fresh sibling leaf.
    proof fn lemma_split_lookup(
        o: Self,
        f: Self,
        mid: Self,
        leaf: Option<Self>,
        key: Seq<u8>,
        value: u64,
        l: int,
    )
        requires
            o.wf(),
            0 <= l < o.key@.len(),
            l <= key.len(),
            o.key@.subrange(0, l) == key.subrange(0, l),
            l < key.len() ==> o.key@[l] != key[l],
            mid.key@ == o.key@.subrange(l, o.key@.len() as int),
            mid.value == o.value,
            mid.children == o.children,
            f.key@ == o.key@.subrange(0, l),
            match leaf {
                None => l == key.len() && f.children@ == seq![mid] && f.value == Some(value),
                Some(lf) => l < key.len() && lf.key@ == key.skip(l) && lf.value == Some(value)
                    && lf.children@.len() == 0 && f.value is None && (f.children@ == seq![mid, lf]
                    || f.children@ == seq![lf, mid]) && lf.key@[0] != mid.key@[0],
            },
            f.wf(),
        ensures
            forall|q: Seq<u8>|
                f.spec_get(q) == (if q == key {
                    Some(value)
                } else {
                    o.spec_get(q)
                }),
    {
        let p = f.key@;
        let t = mid.key@;
        assert(o.key@ =~= p + t);
        assert(key.subrange(0, l) == p);
        if l < key.len() {
            assert(key =~= p + key.skip(l));
        } else {
            assert(key =~= p);
        }
        assert forall|q: Seq<u8>|
            f.spec_get(q) == (if q == key {
                Some(value)
            } else {
                o.spec_get(q)
            }) by {
            f.lemma_get_split(q);
            o.lemma_get_split(q);
            if p.is_prefix_of(q) {
                if q.len() == p.len() {
                    assert(q =~= p);
                    assert(!o.key@.is_prefix_of(q));
                } else {
                    let r = q.skip(l);
                    assert(q =~= p + r);
                    assert(r.len() > 0);
                    Self::lemma_prefix_shift(mid, o, p, r);
                    if r[0] == t[0] {
                        match leaf {
                            None => {
                                f.lemma_gic_at(0, r);
                            },
                            Some(lf) => {
                                if f.children@ == seq![mid, lf] {
                                    f.lemma_gic_at(0, r);
                                } else {
                                    f.lemma_gic_at(1, r);
                                }
                                assert(q != key) by {
                                    if q == key {
                                        assert(r == key.skip(l));
                                        assert(r[0] == key[l]);
                                    }
                                };
                            },
                        }
                    } else {
                        mid.lemma_get_split(r);
                        assert(!t.is_prefix_of(r)) by {
                            if t.is_prefix_of(r) {
                                assert(t[0] == r[0]);
                            }
                        };
                        match leaf {
                            None => {
                                f.lemma_gic_absent(r);
                                assert(q != key);
                            },
                            Some(lf) => {
                                if r[0] == lf.key@[0] {
                                    if f.children@ == seq![mid, lf] {
                                        f.lemma_gic_at(1, r);
                                    } else {
                                        f.lemma_gic_at(0, r);
                                    }
                                    lf.lemma_get_split(r);
                                    if lf.key@.is_prefix_of(r) && r.len() > lf.key@.len() {
                                        assert(lf.get_in_children(
                                            0,
                                            r.skip(lf.key@.len() as int),
                                        ) is None);
                                    }
                                    assert(q == key <==> r == lf.key@) by {
                                        if r == lf.key@ {
                                            assert(q =~= key);
                                        }
                                        if q == key {
                                            assert(r == key.skip(l));
                                        }
                                    };
                                } else {
                                    f.lemma_gic_absent(r);
                                    assert(q != key) by {
                                        if q == key {
                                            assert(r == key.skip(l));
                                            assert(r[0] == key[l]);
                                        }
                                    };
                                }
                            },
                        }
                    }
                }
            } else {
                assert(!o.key@.is_prefix_of(q)) by {
                    if o.key@.is_prefix_of(q) {
                        assert forall|i: int| 0 <= i < p.len() implies q[i] == p[i] by {
                            assert(q[i] == o.key@[i]);
                        }
                        assert(p =~= q.subrange(0, p.len() as int));
                    }
                };
                assert(q != key) by {
                    if q == key {
                        assert(p =~= q.subrange(0, p.len() as int));
                    }
                };
            }
        }
    }

    /// Inserts a key known to be absent below this node; `key` still
    /// includes this node's own edge label. Splits the label where the key
    /// diverges inside it.
    fn insert_absent(&mut self, key: &[u8], value: u64)
        requires
            old(self).wf(),
            old(self).hashes_ok(),
            old(self).spec_get(key@) is None,
            old(self).spec_is_empty() ==> old(self).key@.len() == 0,
            !old(self).spec_is_empty() && old(self).value is None ==> old(
                self,
            ).children@.len() >= 2,
        ensures
            final(self).wf(),
            final(self).hashes_ok(),
            forall|q: Seq<u8>|
                final(self).spec_get(q) == (if q == key@ {
                    Some(value)
                } else {
                    old(self).spec_get(q)
                }),
            !final(self).spec_is_empty(),
            final(self).value is Some || final(self).children@.len() >= 2,
            old(self).key@.len() > 0 && key@.len() > 0 && old(self).key@[0] == key@[0]
                ==> final(self).key@.len() > 0 && final(self).key@[0] == old(self).key@[0],
        decreases *old(self),
    {
        let l = common_prefix_len(self.key.as_slice(), key);
        if self.is_empty() {
            // The empty root takes the whole key as its label.
            self.key = vstd::slice::slice_to_vec(key);
            self.value = Some(value);
            self.update_hash();
            proof {
                assert forall|q: Seq<u8>|
                    final(self).spec_get(q) == (if q == key@ {
                        Some(value)
                    } else {
                        old(self).spec_get(q)
                    }) by {
                    self.lemma_get_split(q);
                    old(self).lemma_get_split(q);
                    assert(old(self).key@.is_prefix_of(q)) by {
                        assert(old(self).key@ =~= q.subrange(0, 0));
                    };
                    if q.len() > 0 {
                        assert(old(self).get_in_children(0, q.skip(0)) is None);
                    }
                    if self.key@.is_prefix_of(q) && q.len() > self.key@.len() {
                        assert(self.get_in_children(0, q.skip(self.key@.len() as int)) is None);
                    }
                }
            }
        } else if l == self.key.len() && l == key.len() {
            // Exact match on a valueless interior node: bind the value here.
            proof {
                assert(key@ =~= self.key@);
            }
            self.value = Some(value);
            self.update_hash();
            proof {
                assert(self.wf());
                assert forall|q: Seq<u8>|
                    final(self).spec_get(q) == (if q == key@ {
                        Some(value)
                    } else {
                        old(self).spec_get(q)
                    }) by {
                    self.lemma_get_split(q);
                    old(self).lemma_get_split(q);
                    if self.key@.is_prefix_of(q) && q.len() > self.key@.len() {
                        Self::lemma_gic_same(*self, *old(self), 0, q.skip(self.key@.len() as int));
                    }
                }
            }
        } else if l == self.key.len() {
            // The key descends past this node's label.
            proof {
                self.lemma_wf_children();
                assert(self.key@ =~= key@.subrange(0, self.key@.len() as int));
            }
            let suffix = slice_subrange(key, l, key.len());
            proof {
                assert(suffix@ == key@.skip(self.key@.len() as int));
                assert(key@ =~= self.key@ + suffix@);
            }
            match self.find_child(suffix[0]) {
                Some(i) => {
                    proof {
                        old(self).lemma_get_split(key@);
                        self.lemma_gic_at(i as int, suffix@);
                    }
                    let mut c = self.children.remove(i);
                    c.insert_absent(suffix, value);
                    self.children.insert(i, c);
                    self.update_hash();
                    proof {
                        let o = *old(self);
                        let c0 = o.children@[i as int];
                        assert(self.children@ =~= o.children@.update(i as int, self.children@[i as int]));
                        let c1 = self.children@[i as int];
                        assert(c1.key@.len() > 0 && c1.key@[0] == c0.key@[0]);
                        assert(c1.child_ok());
                        assert(self.children_sorted()) by {
                            assert forall|a: int, b: int|
                                0 <= a < b < self.children@.len() implies (
                            #[trigger] self.children@[a]).key@[0] < (
                            #[trigger] self.children@[b]).key@[0] by {
                                assert(o.children@[a].key@[0] < o.children@[b].key@[0]);
                            }
                        };
                        assert(self.wf());
                        assert forall|q: Seq<u8>|
                            final(self).spec_get(q) == (if q == key@ {
                                Some(value)
                            } else {
                                o.spec_get(q)
                            }) by {
                            self.lemma_get_split(q);
                            o.lemma_get_split(q);
                            if self.key@.is_prefix_of(q) && q.len() > self.key@.len() {
                                let s = q.skip(self.key@.len() as int);
                                if s[0] == suffix@[0] {
                                    self.lemma_gic_at(i as int, s);
                                    o.lemma_gic_at(i as int, s);
                                    if s == suffix@ {
                                        assert(q =~= key@);
                                    }
                                    if q == key@ {
                                        assert(s == suffix@);
                                    }
                                } else {
                                    if exists|j: int|
                                        0 <= j < o.children@.len() && (
                                        #[trigger] o.children@[j]).key@[0] == s[0] {
                                        let j = choose|j: int|
                                            0 <= j < o.children@.len() && (
                                            #[trigger] o.children@[j]).key@[0] == s[0];
                                        assert(j != i);
                                        self.lemma_gic_at(j, s);
                                        o.lemma_gic_at(j, s);
                                    } else {
                                        self.lemma_gic_absent(s);
                                        o.lemma_gic_absent(s);
                                    }
                                    assert(q != key@) by {
                                        if q == key@ {
                                            assert(s == suffix@);
                                        }
                                    };
                                }
                            } else {
                                assert(q != key@) by {
                                    if q == key@ {
                                        assert(self.key@.is_prefix_of(q) && q.len()
                                            > self.key@.len());
                                    }
                                };
                            }
                        }
                    }
                },
                None => {
                    let leaf = Self::make_leaf(suffix, value);
                    let pos = self.find_insert_pos(suffix[0]);
                    self.children.insert(pos, leaf);
                    self.update_hash();
                    proof {
                        let o = *old(self);
                        let b = suffix@[0];
                        assert(self.children@ == o.children@.insert(pos as int, leaf));
                        assert(leaf.child_ok());
                        assert(self.children_sorted()) by {
                            assert forall|a: int, c: int|
                                0 <= a < c < self.children@.len() implies (
                            #[trigger] self.children@[a]).key@[0] < (
                            #[trigger] self.children@[c]).key@[0] by {
                                if a < pos && c > pos {
                                    assert(o.children@[a].key@[0] < b);
                                    assert(o.children@[c - 1].key@[0] > b);
                                } else if a == pos {
                                    assert(o.children@[c - 1].key@[0] > b);
                                } else if c == pos {
                                    assert(o.children@[a].key@[0] < b);
                                } else if c < pos {
                                    assert(o.children@[a].key@[0] < o.children@[c].key@[0]);
                                } else {
                                    assert(o.children@[a - 1].key@[0] < o.children@[c
                                        - 1].key@[0]);
                                }
                            }
                        };
                        assert(self.wf());
                        assert forall|q: Seq<u8>|
                            final(self).spec_get(q) == (if q == key@ {
                                Some(value)
                            } else {
                                o.spec_get(q)
                            }) by {
                            self.lemma_get_split(q);
                            o.lemma_get_split(q);
                            if self.key@.is_prefix_of(q) && q.len() > self.key@.len() {
                                let s = q.skip(self.key@.len() as int);
                                if s[0] == b {
                                    self.lemma_gic_at(pos as int, s);
                                    o.lemma_gic_absent(s);
                                    if s == suffix@ {
                                        assert(q =~= key@);
                                    }
                                    if q == key@ {
                                        assert(s == suffix@);
                                    }
                                } else {
                                    if exists|j: int|
                                        0 <= j < o.children@.len() && (
                                        #[trigger] o.children@[j]).key@[0] == s[0] {
                                        let j = choose|j: int|
                                            0 <= j < o.children@.len() && (
                                            #[trigger] o.children@[j]).key@[0] == s[0];
                                        let j1: int = if j < pos as int {
                                            j
                                        } else {
                                            j + 1
                                        };
                                        assert(self.children@[j1] == o.children@[j]);
                                        self.lemma_gic_at(j1, s);
                                        o.lemma_gic_at(j, s);
                                    } else {
                                        assert forall|j: int|
                                            0 <= j < self.children@.len() implies (
                                        #[trigger] self.children@[j]).key@[0] != s[0] by {
                                            if j < pos as int {
                                                assert(self.children@[j] == o.children@[j]);
                                            } else if j > pos as int {
                                                assert(self.children@[j] == o.children@[j - 1]);
                                            }
                                        }
                                        self.lemma_gic_absent(s);
                                        o.lemma_gic_absent(s);
                                    }
                                    assert(q != key@) by {
                                        if q == key@ {
                                            assert(s == suffix@);
                                        }
                                    };
                                }
                            } else {
                                assert(q != key@) by {
                                    if q == key@ {
                                        assert(self.key@.is_prefix_of(q) && q.len()
                                            > self.key@.len());
                                    }
                                };
                            }
                        }
                    }
                },
            }
        } else {
            // The key diverges inside this node's label: split the edge at
            // the end of the common prefix.
            proof {
                self.lemma_wf_children();
                if self.key@.is_prefix_of(key@) {
                    assert(self.key@[l as int] == key@[l as int]);
                }
            }
            let tail = self.key.split_off(l);
            let old_value = self.value.take();
            let mut mid = MerklePatriciaTree {
                value: old_value,
                key: tail,
                hash: [0u8; 32],
                children: Vec::new(),
            };
            core::mem::swap(&mut mid.children, &mut self.children);
            proof {
                assert(mid.children == old(self).children);
                assert(mid.children_sorted());
                assert(mid.wf());
            }
            mid.update_hash();
            proof {
                assert(mid.child_ok());
            }
            let mb = mid.key[0];
            let ghost midg = mid;
            let ghost p = old(self).key@.subrange(0, l as int);
            proof {
                assert(old(self).key@.subrange(0, l as int) =~= key@.subrange(0, l as int));
            }
            if l == key.len() {
                self.children.push(mid);
                self.value = Some(value);
                self.update_hash();
                proof {
                    assert(key@ =~= p);
                    assert(self.key@ == p);
                    assert(self.children@ =~= seq![midg]);
                    assert(self.children_sorted());
                    assert(self.wf());
                    Self::lemma_split_lookup(*old(self), *self, midg, None, key@, value, l as int);
                }
            } else {
                let suffix = slice_subrange(key, l, key.len());
                let leaf = Self::make_leaf(suffix, value);
                proof {
                    assert(suffix@[0] == key@[l as int]);
                    assert(mb != suffix@[0]);
                }
                if mb < suffix[0] {
                    self.children.push(mid);
                    self.children.push(leaf);
                    proof {
                        assert(self.children@ =~= seq![midg, leaf]);
                    }
                } else {
                    self.children.push(leaf);
                    self.children.push(mid);
                    proof {
                        assert(self.children@ =~= seq![leaf, midg]);
                    }
                }
                self.update_hash();
                proof {
                    assert(self.key@ == p);
                    assert(self.value is None);
                    assert(self.children_sorted());
                    assert(self.wf());
                    Self::lemma_split_lookup(
                        *old(self),
                        *self,
                        midg,
                        Some(leaf),
                        key@,
                        value,
                        l as int,
                    );
                }
            }
        }
    }

    /// Recomputes this node's cached digest from its label, value and the
    /// children's (already correct) cached digests.
    #[verifier::loop_isolation(false)]
    fn update_hash(&mut self)
        requires
            forall|i: int|
                0 <= i < old(self).children@.len() ==> (
                #[trigger] old(self).children@[i]).hashes_ok(),
        ensures
            final(self).value == old(self).value,
            final(self).key == old(self).key,
            final(self).children == old(self).children,
            final(self).hashes_ok(),
    {
        if self.is_empty() {
            self.hash = [0u8; 32];
            proof {
                assert(self.hash@ =~= Self::zero_digest());
            }
        } else {
            let mut pre: Vec<u8> = Vec::new();
            let kh = sha256(self.key.as_slice());
            push_digest(&mut pre, &kh);
            if let Some(v) = self.value {
                let enc = encode_value(v);
                let vh = sha256(enc.as_slice());
                push_digest(&mut pre, &vh);
            }
            proof {
                assert(pre@ =~= sha256_of(self.key@) + self.value_part());
            }
            let ghost base = pre@;
            let n = self.children.len();
            let mut i: usize = 0;
            while i < n
                invariant
                    0 <= i <= n,
                    pre@ + self.child_digests(i as int) == base + self.child_digests(0),
                decreases n - i,
            {
                let c = &self.children[i];
                proof {
                    assert(c.hashes_ok());
                    assert((pre@ + c.hash@) + self.child_digests(i as int + 1) =~= pre@ + (
                    c.hash@ + self.child_digests(i as int + 1)));
                }
                push_digest(&mut pre, &c.hash);
                i += 1;
            }
            proof {
                assert(self.child_digests(n as int) =~= Seq::<u8>::empty());
                assert(pre@ + Seq::<u8>::empty() =~= pre@);
                assert(pre@ == base + self.child_digests(0));
            }
            self.hash = sha256(pre.as_slice());
            proof {
                Self::lemma_child_digests_same(*self, *old(self), 0);
            }
        }
    }
}

/// The length of the longest common prefix of `a` and `b`.
#[verifier::loop_isolation(false)]
fn common_prefix_len(a: &[u8], b: &[u8]) -> (l: usize)
    ensures
        l <= a@.len() && l <= b@.len(),
        forall|j: int| 0 <= j < l ==> a@[j] == b@[j],
        l < a@.len() && l < b@.len() ==> a@[l as int] != b@[l as int],
{
    let mut l: usize = 0;
    while l < a.len() && l < b.len() && a[l] == b[l]
        invariant
            l <= a@.len() && l <= b@.len(),
            forall|j: int| 0 <= j < l ==> a@[j] == b@[j],
        decreases a@.len() - l,
    {
        l += 1;
    }
    l
}

/// Appends one 32-byte digest to the growing preimage.
#[verifier::loop_isolation(false)]
fn push_digest(out: &mut Vec<u8>, a: &[u8; 32])
    ensures
        final(out)@ == old(out)@ + a@,
{
    let mut j: usize = 0;
    while j < 32
        invariant
            0 <= j <= 32,
            out@ == old(out)@ + a@.take(j as int),
        decreases 32 - j,
    {
        proof {
            assert(old(out)@ + a@.take(j as int) + seq![a@[j as int]] =~= old(out)@ + a@.take(
            j as int + 1));
        }
        out.push(a[j]);
        j += 1;
    }
    proof {
        assert(a@.take(32) =~= a@);
    }
}

impl View for MerklePatriciaTree {
    type V = Map<Seq<u8>, u64>;

    open spec fn view(&self) -> Map<Seq<u8>, u64> {
        self.as_map()
    }
}

/// Two tries are equal when their root digests are: the digest identifies
/// the stored key-value set.
impl PartialEq for MerklePatriciaTree {
    #[verifier::loop_isolation(false)]
    fn eq(&self, other: &Self) -> (r: bool) {
        let mut j: usize = 0;
        while j < 32
            invariant
                0 <= j <= 32,
                forall|m: int| 0 <= m < j ==> self.cached_digest()[m] == other.cached_digest()[m],
            decreases 32 - j,
        {
            if self.hash[j] != other.hash[j] {
                proof {
                    assert(self.cached_digest()[j as int] != other.cached_digest()[j as int]);
                }
                return false;
            }
            j += 1;
        }
        proof {
            assert(self.cached_digest() =~= other.cached_digest());
        }
        true
    }
}

impl Eq for MerklePatriciaTree {

}

impl vstd::std_specs::cmp::PartialEqSpecImpl for MerklePatriciaTree {
    open spec fn obeys_eq_spec() -> bool {
        true
    }

    open spec fn eq_spec(&self, other: &Self) -> bool {
        self.cached_digest() == other.cached_digest()
    }
}

} // verus!
