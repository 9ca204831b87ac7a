//! A lazily-populated union-find (disjoint-set) structure over sparse
//! `usize` keys.
//!
//! Keys are auto-created as their own root on first reference. `find`
//! compresses the whole path it walks; `union` repoints the first
//! argument's root under the second argument's root, so the first set is
//! absorbed into the second.
//!
//! The semantic content of the structure is the total mapping `rep`, which
//! sends every key to its canonical representative (an untouched key is its
//! own representative). `find` never changes `rep`; `union` merges exactly
//! the two classes of its arguments. The raw parent entries, which path
//! compression does change, are exposed as `parent_list` in first-reference
//! order, because the entity output of the pipeline is defined from them.

use vstd::hash_map::HashMapWithView;
use vstd::prelude::*;
use vstd::set_lib::lemma_len_subset;

verus! {

broadcast use vstd::std_specs::hash::group_hash_axioms;

pub struct UnionFind {
    parent: HashMapWithView<usize, usize>,
    keys: Vec<usize>,
    roots: Ghost<Map<usize, usize>>,
    depths: Ghost<Map<usize, nat>>,
}

impl UnionFind {
    /// All keys referenced so far (each has a parent entry).
    pub closed spec fn key_set(self) -> Set<usize> {
        self.parent@.dom()
    }

    /// The referenced keys in first-reference order, each exactly once.
    pub closed spec fn key_order(self) -> Seq<usize> {
        self.keys@
    }

    /// The current parent entry of a referenced key.
    pub closed spec fn parent_of(self, k: usize) -> usize {
        self.parent@[k]
    }

    /// The current parent entries, in first-reference order of their keys.
    pub open spec fn parent_list(self) -> Seq<usize> {
        Seq::new(self.key_order().len(), |i: int| self.parent_of(self.key_order()[i]))
    }

    /// The canonical representative of `x`: the root of its tree, or `x`
    /// itself if it has never been referenced.
    pub closed spec fn rep(self, x: usize) -> usize {
        if self.parent@.dom().contains(x) {
            self.roots@[x]
        } else {
            x
        }
    }

    /// Internal invariant: parent links stay inside the key set and strictly
    /// descend in ghost depth until a self-parented root; the ghost `roots`
    /// map labels every key with the root its parent chain reaches.
    pub closed spec fn wf(self) -> bool {
        let pd = self.parent@.dom();
        &&& self.keys@.no_duplicates()
        &&& forall|i: int| 0 <= i < self.keys@.len() ==> pd.contains(#[trigger] self.keys@[i])
        &&& forall|k: usize| pd.contains(k) ==> #[trigger] self.keys@.contains(k)
        &&& self.roots@.dom() == pd
        &&& self.depths@.dom() == pd
        &&& forall|k: usize| pd.contains(k) ==> pd.contains(#[trigger] self.parent@[k])
        &&& forall|k: usize| pd.contains(k) ==> (#[trigger] self.parent@[k] == k
            || self.depths@[self.parent@[k]] < self.depths@[k])
        &&& forall|k: usize| pd.contains(k) ==> pd.contains(#[trigger] self.roots@[k])
        &&& forall|k: usize| #![trigger self.parent@[self.roots@[k]]] pd.contains(k)
            ==> self.parent@[self.roots@[k]] == self.roots@[k]
        &&& forall|k: usize| #![trigger self.roots@[self.parent@[k]]] pd.contains(k)
            ==> self.roots@[self.parent@[k]] == self.roots@[k]
        &&& forall|k: usize| #![trigger self.parent@[k], self.roots@[k]] pd.contains(k)
            && self.parent@[k] == k ==> self.roots@[k] == k
    }

    /// The facts of `wf` gathered for one key `k`.
    proof fn lemma_chain(self, k: usize)
        requires
            self.wf(),
            self.key_set().contains(k),
        ensures
            self.key_set().contains(self.parent@[k]),
            self.key_set().contains(self.roots@[k]),
            self.roots@[self.parent@[k]] == self.roots@[k],
            self.parent@[self.roots@[k]] == self.roots@[k],
            self.roots@[self.roots@[k]] == self.roots@[k],
            self.parent@[k] == k ==> self.roots@[k] == k,
            self.parent@[k] != k ==> self.depths@[self.parent@[k]] < self.depths@[k],
    {
        assert(self.roots@[self.parent@[k]] == self.roots@[k]);
        assert(self.parent@[self.roots@[k]] == self.roots@[k]);
        assert(self.roots@[self.roots@[k]] == self.roots@[k]);
    }

    /// Canonicalization is stable: `find` returns the representative of its
    /// key and preserves every representative, so its contract binds a
    /// second `find` on the same key to return the same result.
    pub proof fn lemma_find_stable(before: UnionFind, after: UnionFind, x: usize, r: usize)
        requires
            r == before.rep(x),
            forall|y: usize| after.rep(y) == before.rep(y),
        ensures
            after.rep(x) == r,
    {
    }

    /// A representative is its own representative.
    pub proof fn lemma_rep_idempotent(self, x: usize)
        requires
            self.wf(),
        ensures
            self.rep(self.rep(x)) == self.rep(x),
    {
        if self.parent@.dom().contains(x) {
            self.lemma_chain(x);
        }
    }

    /// The ghost depth of a key's root never exceeds the key's own depth.
    proof fn lemma_root_depth(self, k: usize)
        requires
            self.wf(),
            self.key_set().contains(k),
        ensures
            self.roots@[k] == k || self.depths@[self.roots@[k]] < self.depths@[k],
        decreases self.depths@[k],
    {
        self.lemma_chain(k);
        let p = self.parent@[k];
        if p != k {
            self.lemma_root_depth(p);
        }
    }

    /// Creates an empty store: no keys, and every key its own representative.
    pub fn new() -> (uf: UnionFind)
        ensures
            uf.wf(),
            uf.key_set() == Set::<usize>::empty(),
            uf.key_order() == Seq::<usize>::empty(),
            forall|x: usize| uf.rep(x) == x,
    {
        let uf = UnionFind {
            parent: HashMapWithView::new(),
            keys: Vec::new(),
            roots: Ghost(Map::empty()),
            depths: Ghost(Map::empty()),
        };
        proof {
            assert(uf.key_set() =~= Set::<usize>::empty());
            assert(uf.roots@.dom() =~= uf.parent@.dom());
            assert(uf.depths@.dom() =~= uf.parent@.dom());
        }
        uf
    }

    /// Creates `x` as its own root if it has never been referenced.
    fn ensure_key(&mut self, x: usize)
        requires
            old(self).wf(),
        ensures
            final(self).wf(),
            final(self).key_set() == old(self).key_set().insert(x),
            final(self).key_order() == (if old(self).key_set().contains(x) {
                old(self).key_order()
            } else {
                old(self).key_order().push(x)
            }),
            forall|y: usize| final(self).rep(y) == old(self).rep(y),
            forall|k: usize| old(self).key_set().contains(k)
                ==> final(self).parent_of(k) == old(self).parent_of(k),
    {
        if !self.parent.contains_key(&x) {
            proof {
                if old(self).keys@.contains(x) {
                    let i = choose|i: int| 0 <= i < old(self).keys@.len() && old(self).keys@[i] == x;
                    assert(old(self).parent@.dom().contains(old(self).keys@[i]));
                }
            }
            self.parent.insert(x, x);
            self.keys.push(x);
            proof {
                let pre = *old(self);
                self.roots@ = self.roots@.insert(x, x);
                self.depths@ = self.depths@.insert(x, 0);
                let pd = self.parent@.dom();
                assert(pd =~= pre.parent@.dom().insert(x));
                assert(self.roots@.dom() =~= pd);
                assert(self.depths@.dom() =~= pd);
                assert forall|k: usize| pd.contains(k) implies #[trigger] self.keys@.contains(
                    k,
                ) by {
                    if k == x {
                        assert(self.keys@[self.keys@.len() - 1] == x);
                    } else {
                        assert(pre.keys@.contains(k));
                        let i = choose|i: int| 0 <= i < pre.keys@.len() && pre.keys@[i] == k;
                        assert(self.keys@[i] == k);
                    }
                }
                assert forall|i: int, j: int|
                    0 <= i < self.keys@.len() && 0 <= j < self.keys@.len() && i != j
                    implies self.keys@[i] != self.keys@[j] by {
                    if i < self.keys@.len() - 1 && j < self.keys@.len() - 1 {
                        assert(pre.keys@[i] != pre.keys@[j]);
                    }
                }
                assert forall|k: usize| pd.contains(k) implies {
                    &&& pd.contains(#[trigger] self.parent@[k])
                    &&& (self.parent@[k] == k || self.depths@[self.parent@[k]] < self.depths@[k])
                    &&& pd.contains(self.roots@[k])
                    &&& self.parent@[self.roots@[k]] == self.roots@[k]
                    &&& self.roots@[self.parent@[k]] == self.roots@[k]
                    &&& (self.parent@[k] == k ==> self.roots@[k] == k)
                } by {
                    if k != x {
                        pre.lemma_chain(k);
                        assert(self.parent@[k] == pre.parent@[k]);
                        assert(pre.parent@[k] != x && pre.roots@[k] != x);
                    }
                }
                assert(self.wf());
            }
        } else {
            proof {
                assert(self.key_set() =~= old(self).key_set().insert(x));
            }
        }
    }

    /// Walk parent links from `x` to the root, without mutating.
    fn locate_root(&self, x: usize) -> (r: usize)
        requires
            self.wf(),
            self.key_set().contains(x),
        ensures
            r == self.rep(x),
    {
        let mut cur = x;
        loop
            invariant
                self.wf(),
                self.key_set().contains(x),
                self.key_set().contains(cur),
                self.roots@[cur] == self.roots@[x],
            decreases self.depths@[cur],
        {
            proof {
                self.lemma_chain(cur);
            }
            let p = *self.parent.get(&cur).unwrap();
            if p == cur {
                return cur;
            }
            cur = p;
        }
    }

    /// Repoint the parent entry of `k` directly to its representative `r`.
    fn repoint(&mut self, k: usize, r: usize)
        requires
            old(self).wf(),
            old(self).key_set().contains(k),
            old(self).roots@[k] == r,
        ensures
            final(self).wf(),
            final(self).parent@ == old(self).parent@.insert(k, r),
            final(self).parent@.dom() == old(self).parent@.dom(),
            final(self).roots@ == old(self).roots@,
            final(self).depths@ == old(self).depths@,
            final(self).keys@ == old(self).keys@,
    {
        proof {
            self.lemma_root_depth(k);
            self.lemma_chain(k);
        }
        self.parent.insert(k, r);
        proof {
            let pre = *old(self);
            let pd = self.parent@.dom();
            assert(pd =~= pre.parent@.dom());
            assert(pd.contains(r) && pre.parent@[r] == r && pre.roots@[r] == r);
            assert forall|q: usize| pd.contains(q) implies {
                &&& pd.contains(#[trigger] self.parent@[q])
                &&& (self.parent@[q] == q || self.depths@[self.parent@[q]] < self.depths@[q])
                &&& pd.contains(self.roots@[q])
                &&& self.parent@[self.roots@[q]] == self.roots@[q]
                &&& self.roots@[self.parent@[q]] == self.roots@[q]
                &&& (self.parent@[q] == q ==> self.roots@[q] == q)
            } by {
                pre.lemma_chain(q);
                if q == k {
                    assert(self.parent@[k] == r);
                    assert(pre.roots@[r] == r);
                } else {
                    assert(self.parent@[q] == pre.parent@[q]);
                    if pre.roots@[q] == k {
                        assert(pre.parent@[k] == k);
                        assert(pre.roots@[k] == k);
                    }
                }
            }
            assert(self.wf());
        }
    }

    /// Returns the canonical representative of `x`, auto-creating `x` if it
    /// was never referenced, and repoints every key on the walked path
    /// directly to the root. The semantic mapping `rep` is unchanged for
    /// every key; a parent entry either keeps its value or becomes its key's
    /// representative.
    pub fn find(&mut self, x: usize) -> (r: usize)
        requires
            old(self).wf(),
        ensures
            final(self).wf(),
            r == old(self).rep(x),
            forall|y: usize| final(self).rep(y) == old(self).rep(y),
            final(self).key_set() == old(self).key_set().insert(x),
            final(self).key_order() == (if old(self).key_set().contains(x) {
                old(self).key_order()
            } else {
                old(self).key_order().push(x)
            }),
            final(self).parent_of(x) == r,
            forall|k: usize| old(self).key_set().contains(k)
                ==> final(self).parent_of(k) == old(self).parent_of(k)
                    || final(self).parent_of(k) == old(self).rep(k),
    {
        self.ensure_key(x);
        let root = self.locate_root(x);
        let ghost pre = *self;
        let mut cur = x;
        while cur != root
            invariant
                self.wf(),
                self.parent@.dom() == pre.parent@.dom(),
                self.roots@ == pre.roots@,
                self.depths@ == pre.depths@,
                self.keys@ == pre.keys@,
                self.parent@.dom().contains(cur),
                self.parent@.dom().contains(x),
                self.roots@[cur] == root,
                self.roots@[x] == root,
                cur == x || self.parent@[x] == root,
                forall|k: usize| pre.parent@.dom().contains(k)
                    ==> #[trigger] self.parent@[k] == pre.parent@[k]
                        || self.parent@[k] == pre.roots@[k],
            decreases self.depths@[cur],
        {
            proof {
                self.lemma_chain(cur);
            }
            let p = *self.parent.get(&cur).unwrap();
            proof {
                if p == cur {
                    assert(self.roots@[cur] == cur);
                }
            }
            self.repoint(cur, root);
            cur = p;
        }
        proof {
            if cur == x {
                assert(self.parent@[self.roots@[x]] == self.roots@[x]);
            }
        }
        root
    }

    /// Merges the set containing `x` into the set containing `y`: the root
    /// of `x` is adopted under the root of `y`. A no-op when the roots
    /// already coincide. Exactly the keys represented as `x` was change
    /// representative, to the representative of `y`.
    #[verifier::rlimit(50)]
    #[verifier::spinoff_prover]
    pub fn union(&mut self, x: usize, y: usize)
        requires
            old(self).wf(),
        ensures
            final(self).wf(),
            forall|k: usize| final(self).rep(k) == (if old(self).rep(k) == old(self).rep(x) {
                old(self).rep(y)
            } else {
                old(self).rep(k)
            }),
            final(self).key_set() == old(self).key_set().insert(x).insert(y),
            old(self).key_order().is_prefix_of(final(self).key_order()),
    {
        let ghost m0 = *old(self);
        let rx = self.find(x);
        let ry = self.find(y);
        let ghost pre = *self;
        proof {
            assert(pre.parent@.dom().contains(rx) && pre.parent@.dom().contains(ry));
            assert(pre.roots@[rx] == rx && pre.roots@[ry] == ry);
        }
        if rx != ry {
            self.parent.insert(rx, ry);
            proof {
                let pd = pre.parent@.dom();
                assert(self.parent@.dom() =~= pd);
                self.roots@ = Map::new(
                    |k: usize| pd.contains(k),
                    |k: usize| if pre.roots@[k] == rx {
                        ry
                    } else {
                        pre.roots@[k]
                    },
                );
                self.depths@ = Map::new(
                    |k: usize| pd.contains(k),
                    |k: usize| if pre.roots@[k] == rx {
                        (pre.depths@[k] + pre.depths@[ry] + 1) as nat
                    } else {
                        pre.depths@[k]
                    },
                );
                assert(self.roots@.dom() =~= pd);
                assert(self.depths@.dom() =~= pd);
                assert forall|q: usize| pd.contains(q) implies {
                    &&& pd.contains(#[trigger] self.parent@[q])
                    &&& (self.parent@[q] == q || self.depths@[self.parent@[q]] < self.depths@[q])
                    &&& pd.contains(self.roots@[q])
                    &&& self.parent@[self.roots@[q]] == self.roots@[q]
                    &&& self.roots@[self.parent@[q]] == self.roots@[q]
                    &&& (self.parent@[q] == q ==> self.roots@[q] == q)
                } by {
                    pre.lemma_chain(q);
                    pre.lemma_chain(ry);
                    assert(pre.roots@[ry] != rx);
                    if q == rx {
                        assert(self.parent@[rx] == ry);
                        assert(self.roots@[rx] == ry && self.roots@[ry] == ry);
                        assert(self.depths@[ry] == pre.depths@[ry]);
                        assert(self.depths@[rx] == pre.depths@[rx] + pre.depths@[ry] + 1);
                    } else {
                        assert(self.parent@[q] == pre.parent@[q]);
                        let p = pre.parent@[q];
                        assert(pre.roots@[p] == pre.roots@[q]);
                        if pre.roots@[q] == rx {
                            assert(self.roots@[q] == ry && self.roots@[p] == ry);
                            assert(self.depths@[q] == pre.depths@[q] + pre.depths@[ry] + 1);
                            assert(self.depths@[p] == pre.depths@[p] + pre.depths@[ry] + 1);
                        } else {
                            assert(self.roots@[q] == pre.roots@[q]);
                            assert(self.depths@[q] == pre.depths@[q]);
                            assert(pre.roots@[q] != rx && self.parent@[pre.roots@[q]]
                                == pre.parent@[pre.roots@[q]]);
                        }
                    }
                }
                assert(self.wf());
                assert forall|k: usize| self.rep(k) == (if m0.rep(k) == m0.rep(x) {
                    m0.rep(y)
                } else {
                    m0.rep(k)
                }) by {
                    if !pd.contains(k) {
                        assert(!m0.key_set().contains(k));
                        assert(m0.rep(k) == k && k != rx);
                    }
                }
            }
        } else {
            proof {
                assert forall|k: usize| self.rep(k) == (if m0.rep(k) == m0.rep(x) {
                    m0.rep(y)
                } else {
                    m0.rep(k)
                }) by {}
            }
        }
        proof {
            assert(self.key_set() =~= m0.key_set().insert(x).insert(y));
            let s0 = m0.key_order();
            let s2 = self.key_order();
            assert(s0.len() <= s2.len() && s0 =~= s2.subrange(0, s0.len() as int));
        }
    }

    /// Reads out the parent entry of every referenced key, in
    /// first-reference order.
    pub fn parent_values(&self) -> (r: Vec<usize>)
        requires
            self.wf(),
        ensures
            r@ == self.parent_list(),
    {
        let n = self.keys.len();
        let mut r: Vec<usize> = Vec::new();
        let mut i: usize = 0;
        while i < n
            invariant
                self.wf(),
                i <= n,
                n == self.keys@.len(),
                r@.len() == i,
                forall|j: int| 0 <= j < i ==> r@[j] == self.parent_of(#[trigger] self.keys@[j]),
            decreases n - i,
        {
            let k = self.keys[i];
            r.push(*self.parent.get(&k).unwrap());
            i += 1;
        }
        proof {
            assert(r@ =~= self.parent_list());
        }
        r
    }

    /// `key_order` lists exactly the referenced keys, each once.
    pub proof fn lemma_key_set_order(self)
        requires
            self.wf(),
        ensures
            self.key_order().no_duplicates(),
            forall|k: usize| #[trigger] self.key_set().contains(k) <==> self.key_order().contains(
                k,
            ),
    {
        assert forall|k: usize| #[trigger] self.key_set().contains(k)
            <==> self.key_order().contains(k) by {
            if self.key_set().contains(k) {
                assert(self.keys@.contains(k));
            }
            if self.key_order().contains(k) {
                let i = choose|i: int| 0 <= i < self.keys@.len() && self.keys@[i] == k;
                assert(self.parent@.dom().contains(self.keys@[i]));
            }
        }
    }

    /// The number of referenced keys never exceeds the size of any set that
    /// contains them all.
    pub proof fn lemma_key_count_le(self, s: Set<usize>)
        requires
            self.wf(),
            s.finite(),
            forall|k: usize| self.key_set().contains(k) ==> s.contains(k),
        ensures
            self.key_order().len() <= s.len(),
    {
        self.keys@.unique_seq_to_set();
        assert forall|a: usize| self.keys@.to_set().contains(a) implies s.contains(a) by {
            let i = choose|i: int| 0 <= i < self.keys@.len() && self.keys@[i] == a;
            assert(self.key_set().contains(self.keys@[i]));
        }
        assert(self.keys@.to_set().subset_of(s));
        lemma_len_subset(self.keys@.to_set(), s);
    }
}

} // verus!
