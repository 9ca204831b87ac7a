//! The merge pipeline: stream records in, union later duplicates of a label
//! onto its first-seen index, then resolve every retained record to its
//! canonical representative and derive the entity list.
//!
//! The behaviour over a whole input is captured by spec functions on the
//! sequence of records pushed so far: `label_order` (the distinct labels in
//! first-occurrence order), `first_label_idx` (the index of the first record
//! bearing a label), and `canon_after` (the representative every key has
//! after all unions of the stream).

use crate::disjoint_set::UnionFind;
use crate::parsing::{line_err, line_index, line_label, line_ok, parse_line, FormatError};
use vstd::hash_map::StringHashMap;
use vstd::prelude::*;

verus! {

/// Some record of `recs` bears the label `l`.
pub open spec fn has_label(recs: Seq<(usize, Seq<char>)>, l: Seq<char>) -> bool {
    exists|i: int| 0 <= i < recs.len() && recs[i].1 == l
}

/// The index carried by the first record of `recs` whose label is `l`.
pub open spec fn first_label_idx(recs: Seq<(usize, Seq<char>)>, l: Seq<char>) -> usize
    decreases recs.len(),
{
    if recs.len() == 0 {
        0
    } else if has_label(recs.drop_last(), l) {
        first_label_idx(recs.drop_last(), l)
    } else if recs.last().1 == l {
        recs.last().0
    } else {
        0
    }
}

/// The distinct labels of `recs`, in order of first occurrence.
pub open spec fn label_order(recs: Seq<(usize, Seq<char>)>) -> Seq<Seq<char>>
    decreases recs.len(),
{
    if recs.len() == 0 {
        Seq::empty()
    } else if has_label(recs.drop_last(), recs.last().1) {
        label_order(recs.drop_last())
    } else {
        label_order(recs.drop_last()).push(recs.last().1)
    }
}

/// The canonical representative of key `x` after all records of `recs` have
/// been processed: each record whose label was already seen merges the class
/// of that label's first index into the class of the record's own index.
pub open spec fn canon_after(recs: Seq<(usize, Seq<char>)>, x: usize) -> usize
    decreases recs.len(),
{
    if recs.len() == 0 {
        x
    } else {
        let prev = recs.drop_last();
        let r = recs.last();
        if has_label(prev, r.1) {
            if canon_after(prev, x) == canon_after(prev, first_label_idx(prev, r.1)) {
                canon_after(prev, r.0)
            } else {
                canon_after(prev, x)
            }
        } else {
            canon_after(prev, x)
        }
    }
}

/// The index fields of `recs`, in order.
pub open spec fn indices_of(recs: Seq<(usize, Seq<char>)>) -> Seq<usize> {
    recs.map_values(|r: (usize, Seq<char>)| r.0)
}

/// The distinct values of `s`, in order of first occurrence.
pub open spec fn distinct_in_order(s: Seq<usize>) -> Seq<usize>
    decreases s.len(),
{
    if s.len() == 0 {
        Seq::empty()
    } else if s.drop_last().contains(s.last()) {
        distinct_in_order(s.drop_last())
    } else {
        distinct_in_order(s.drop_last()).push(s.last())
    }
}

proof fn lemma_push_contains<A>(s: Seq<A>, a: A)
    ensures
        forall|x: A| #[trigger] s.push(a).contains(x) <==> s.contains(x) || x == a,
{
    assert forall|x: A| #[trigger] s.push(a).contains(x) implies s.contains(x) || x == a by {
        let i = choose|i: int| 0 <= i < s.push(a).len() && s.push(a)[i] == x;
        if i < s.len() {
            assert(s[i] == x);
        }
    }
    assert forall|x: A| s.contains(x) || x == a implies #[trigger] s.push(a).contains(x) by {
        if s.contains(x) {
            let i = choose|i: int| 0 <= i < s.len() && s[i] == x;
            assert(s.push(a)[i] == x);
        } else {
            assert(s.push(a)[s.len() as int] == x);
        }
    }
}

/// Appending a record extends the labels of a stream by that record's label.
proof fn lemma_has_label_push(h: Seq<(usize, Seq<char>)>, r: (usize, Seq<char>))
    ensures
        h.push(r).drop_last() == h,
        h.push(r).last() == r,
        forall|l: Seq<char>| #[trigger] has_label(h.push(r), l) <==> has_label(h, l) || l == r.1,
{
    assert(h.push(r).drop_last() =~= h);
    assert forall|l: Seq<char>| #[trigger] has_label(h.push(r), l) implies has_label(h, l) || l
        == r.1 by {
        let i = choose|i: int| 0 <= i < h.push(r).len() && h.push(r)[i].1 == l;
        if i < h.len() {
            assert(h[i].1 == l);
        }
    }
    assert forall|l: Seq<char>| has_label(h, l) || l == r.1 implies #[trigger] has_label(
        h.push(r),
        l,
    ) by {
        if has_label(h, l) {
            let i = choose|i: int| 0 <= i < h.len() && h[i].1 == l;
            assert(h.push(r)[i].1 == l);
        } else {
            assert(h.push(r)[h.len() as int].1 == l);
        }
    }
}

/// The first index recorded for a label is the index of some record bearing
/// that label.
pub proof fn lemma_first_is_recorded(recs: Seq<(usize, Seq<char>)>, l: Seq<char>)
    requires
        has_label(recs, l),
    ensures
        exists|i: int| 0 <= i < recs.len() && recs[i].1 == l && recs[i].0 == first_label_idx(
            recs,
            l,
        ),
    decreases recs.len(),
{
    let prev = recs.drop_last();
    if has_label(prev, l) {
        lemma_first_is_recorded(prev, l);
        let i = choose|i: int| 0 <= i < prev.len() && prev[i].1 == l && prev[i].0
            == first_label_idx(prev, l);
        assert(recs[i].1 == l && recs[i].0 == first_label_idx(recs, l));
    } else {
        let i = choose|i: int| 0 <= i < recs.len() && recs[i].1 == l;
        if i < recs.len() - 1 {
            assert(prev[i].1 == l);
        }
        assert(i == recs.len() - 1);
        assert(recs[recs.len() - 1].1 == l && recs[recs.len() - 1].0 == first_label_idx(recs, l));
    }
}

/// A label stands in `label_order` exactly when some record bears it.
pub proof fn lemma_label_order_members(recs: Seq<(usize, Seq<char>)>)
    ensures
        forall|l: Seq<char>| #[trigger] label_order(recs).contains(l) <==> has_label(recs, l),
    decreases recs.len(),
{
    if recs.len() == 0 {
        assert forall|l: Seq<char>| #[trigger] label_order(recs).contains(l) <==> has_label(
            recs,
            l,
        ) by {
            assert(!has_label(recs, l));
            assert(label_order(recs).len() == 0);
        }
    } else {
        let prev = recs.drop_last();
        let r = recs.last();
        lemma_label_order_members(prev);
        lemma_has_label_push(prev, r);
        assert(prev.push(r) =~= recs);
        if !has_label(prev, r.1) {
            lemma_push_contains(label_order(prev), r.1);
        }
        assert forall|l: Seq<char>| #[trigger] label_order(recs).contains(l) <==> has_label(
            recs,
            l,
        ) by {
            assert(has_label(recs, l) <==> has_label(prev, l) || l == r.1);
            if has_label(prev, r.1) {
                assert(label_order(recs) == label_order(prev));
                assert(label_order(prev).contains(l) <==> has_label(prev, l));
            } else {
                assert(label_order(recs) == label_order(prev).push(r.1));
                assert(label_order(prev).push(r.1).contains(l) <==> label_order(prev).contains(l)
                    || l == r.1);
                assert(label_order(prev).contains(l) <==> has_label(prev, l));
            }
        }
    }
}

/// The label fields of `recs`, in order.
pub open spec fn labels_of(recs: Seq<(usize, Seq<char>)>) -> Seq<Seq<char>> {
    recs.map_values(|r: (usize, Seq<char>)| r.1)
}

proof fn lemma_labels_set(recs: Seq<(usize, Seq<char>)>)
    ensures
        forall|l: Seq<char>| #[trigger] labels_of(recs).to_set().contains(l) <==> has_label(
            recs,
            l,
        ),
{
    assert forall|l: Seq<char>| #[trigger] labels_of(recs).to_set().contains(l) <==> has_label(
        recs,
        l,
    ) by {
        if labels_of(recs).to_set().contains(l) {
            let i = choose|i: int| 0 <= i < labels_of(recs).len() && labels_of(recs)[i] == l;
            assert(recs[i].1 == l);
        }
        if has_label(recs, l) {
            let i = choose|i: int| 0 <= i < recs.len() && recs[i].1 == l;
            assert(labels_of(recs)[i] == l);
            assert(labels_of(recs).contains(l));
        }
    }
}

/// The primary output has exactly one entry per distinct label of the
/// input: `label_order` repeats nothing and counts the distinct labels.
pub proof fn lemma_label_order_distinct(recs: Seq<(usize, Seq<char>)>)
    ensures
        label_order(recs).no_duplicates(),
        label_order(recs).len() == labels_of(recs).to_set().len(),
    decreases recs.len(),
{
    lemma_label_order_members(recs);
    if recs.len() == 0 {
        assert(label_order(recs).len() == 0);
        assert forall|l: Seq<char>| !(#[trigger] labels_of(recs).to_set().contains(l)) by {
            if labels_of(recs).to_set().contains(l) {
                let i = choose|i: int| 0 <= i < labels_of(recs).len() && labels_of(recs)[i] == l;
            }
        }
        assert(labels_of(recs).to_set() =~= Set::<Seq<char>>::empty());
    } else {
        let prev = recs.drop_last();
        let r = recs.last();
        lemma_label_order_distinct(prev);
        lemma_label_order_members(prev);
        lemma_has_label_push(prev, r);
        assert(prev.push(r) =~= recs);
        lemma_labels_set(recs);
        lemma_labels_set(prev);
        if has_label(prev, r.1) {
            assert(label_order(recs) == label_order(prev));
            assert forall|l: Seq<char>| #[trigger] labels_of(recs).to_set().contains(l)
                <==> labels_of(prev).to_set().contains(l) by {
                assert(has_label(recs, l) <==> has_label(prev, l) || l == r.1);
            }
            assert(labels_of(recs).to_set() =~= labels_of(prev).to_set());
        } else {
            assert(label_order(recs) == label_order(prev).push(r.1));
            let d = label_order(prev);
            assert(!d.contains(r.1));
            assert forall|i: int, j: int|
                0 <= i < d.push(r.1).len() && 0 <= j < d.push(r.1).len() && i != j
                implies d.push(r.1)[i] != d.push(r.1)[j] by {
                if i < d.len() && j < d.len() {
                    assert(d[i] != d[j]);
                } else if i < d.len() {
                    if d[i] == r.1 {
                        assert(d.contains(r.1));
                    }
                } else if j < d.len() {
                    if d[j] == r.1 {
                        assert(d.contains(r.1));
                    }
                }
            }
            assert forall|l: Seq<char>| #[trigger] labels_of(recs).to_set().contains(l)
                <==> labels_of(prev).to_set().insert(r.1).contains(l) by {
                assert(has_label(recs, l) <==> has_label(prev, l) || l == r.1);
            }
            assert(labels_of(recs).to_set() =~= labels_of(prev).to_set().insert(r.1));
            assert(!labels_of(prev).to_set().contains(r.1));
            vstd::seq_lib::seq_to_set_is_finite(labels_of(prev));
            vstd::set::axiom_set_insert_len(labels_of(prev).to_set(), r.1);
        }
    }
}

/// Every record's key is resolved to the same representative as the first
/// record bearing the same label: processing a stream merges each label's
/// records into one class.
pub proof fn lemma_canon_of_first(recs: Seq<(usize, Seq<char>)>, i: int)
    requires
        0 <= i < recs.len(),
    ensures
        canon_after(recs, recs[i].0) == canon_after(recs, first_label_idx(recs, recs[i].1)),
    decreases recs.len(),
{
    let prev = recs.drop_last();
    let r = recs.last();
    assert(prev.push(r) =~= recs);
    lemma_has_label_push(prev, r);
    if i < recs.len() - 1 {
        assert(recs[i] == prev[i]);
        lemma_canon_of_first(prev, i);
        assert(has_label(prev, prev[i].1));
        assert(first_label_idx(recs, recs[i].1) == first_label_idx(prev, prev[i].1));
    } else {
        // the last record: if its label was seen, the merge itself joins it
        // with the label's first index; otherwise it is the first index.
        if has_label(prev, r.1) {
            assert(first_label_idx(recs, r.1) == first_label_idx(prev, r.1));
            let f = first_label_idx(prev, r.1);
            assert(canon_after(recs, f) == canon_after(prev, r.0));
            assert(canon_after(recs, r.0) == canon_after(prev, r.0));
        } else {
            assert(first_label_idx(recs, r.1) == r.0);
        }
    }
}

/// Two records with the same label end up with the same canonical
/// representative for their keys.
pub proof fn lemma_same_label_same_canon(recs: Seq<(usize, Seq<char>)>, i: int, j: int)
    requires
        0 <= i < recs.len(),
        0 <= j < recs.len(),
        recs[i].1 == recs[j].1,
    ensures
        canon_after(recs, recs[i].0) == canon_after(recs, recs[j].0),
{
    lemma_canon_of_first(recs, i);
    lemma_canon_of_first(recs, j);
}

/// The deduplicated sequence holds exactly the values of the original.
pub proof fn lemma_distinct_members(s: Seq<usize>)
    ensures
        forall|x: usize| #[trigger] distinct_in_order(s).contains(x) <==> s.contains(x),
    decreases s.len(),
{
    if s.len() == 0 {
        assert forall|x: usize| #[trigger] distinct_in_order(s).contains(x) <==> s.contains(
            x,
        ) by {
            assert(distinct_in_order(s).len() == 0);
        }
    } else {
        let prev = s.drop_last();
        let a = s.last();
        lemma_distinct_members(prev);
        lemma_push_contains(prev, a);
        assert(prev.push(a) =~= s);
        if !prev.contains(a) {
            lemma_push_contains(distinct_in_order(prev), a);
        }
        assert forall|x: usize| #[trigger] distinct_in_order(s).contains(x) <==> s.contains(
            x,
        ) by {
            assert(s.contains(x) <==> prev.contains(x) || x == a);
            if prev.contains(a) {
                assert(distinct_in_order(s) == distinct_in_order(prev));
                assert(distinct_in_order(prev).contains(x) <==> prev.contains(x));
            } else {
                assert(distinct_in_order(s) == distinct_in_order(prev).push(a));
                assert(distinct_in_order(prev).push(a).contains(x) <==> distinct_in_order(
                    prev,
                ).contains(x) || x == a);
                assert(distinct_in_order(prev).contains(x) <==> prev.contains(x));
            }
        }
    }
}

/// Deduplication leaves no duplicates.
pub proof fn lemma_distinct_no_duplicates(s: Seq<usize>)
    ensures
        distinct_in_order(s).no_duplicates(),
        distinct_in_order(s).len() <= s.len(),
    decreases s.len(),
{
    if s.len() > 0 {
        let prev = s.drop_last();
        let a = s.last();
        lemma_distinct_no_duplicates(prev);
        lemma_distinct_members(prev);
        if !prev.contains(a) {
            let d = distinct_in_order(prev);
            assert forall|i: int, j: int|
                0 <= i < d.push(a).len() && 0 <= j < d.push(a).len() && i != j
                implies d.push(a)[i] != d.push(a)[j] by {
                if i < d.len() && j < d.len() {
                    assert(d[i] != d[j]);
                } else if i < d.len() {
                    assert(d[i] != a) by {
                        if d[i] == a {
                            assert(d.contains(a));
                        }
                    }
                } else if j < d.len() {
                    assert(d[j] != a) by {
                        if d[j] == a {
                            assert(d.contains(a));
                        }
                    }
                }
            }
        }
    }
}

/// Phase-one state: the store of merged classes, the first-seen index per
/// label, and the retained first-occurrence records, tied by `wf` to the
/// ghost stream of all records pushed so far.
pub struct Merger {
    store: UnionFind,
    first_seen: StringHashMap<usize>,
    retained: Vec<(usize, String)>,
    history: Ghost<Seq<(usize, Seq<char>)>>,
}

impl Merger {
    /// The records pushed so far, in order.
    pub closed spec fn records(self) -> Seq<(usize, Seq<char>)> {
        self.history@
    }

    pub closed spec fn wf(self) -> bool {
        let h = self.history@;
        &&& self.store.wf()
        &&& forall|x: usize| #[trigger] self.store.rep(x) == canon_after(h, x)
        &&& forall|l: Seq<char>|
            #[trigger] self.first_seen@.contains_key(l) <==> has_label(h, l)
        &&& forall|l: Seq<char>| has_label(h, l) ==> #[trigger] self.first_seen@[l]
            == first_label_idx(h, l)
        &&& self.retained@.len() == label_order(h).len()
        &&& forall|k: int| 0 <= k < self.retained@.len() ==> (#[trigger] self.retained@[k]).1@
            == label_order(h)[k] && self.retained@[k].0 == first_label_idx(h, label_order(h)[k])
        &&& forall|x: usize| #[trigger] self.store.key_set().contains(x) ==> indices_of(
            h,
        ).contains(x)
    }

    /// An empty pipeline: nothing seen, nothing retained.
    pub fn new() -> (m: Merger)
        ensures
            m.wf(),
            m.records() == Seq::<(usize, Seq<char>)>::empty(),
    {
        let m = Merger {
            store: UnionFind::new(),
            first_seen: StringHashMap::new(),
            retained: Vec::new(),
            history: Ghost(Seq::empty()),
        };
        proof {
            assert forall|x: usize| #[trigger] m.store.rep(x) == canon_after(m.history@, x) by {}
            assert forall|l: Seq<char>| #[trigger] m.first_seen@.contains_key(l) <==> has_label(
                m.history@,
                l,
            ) by {
                assert(!m.first_seen@.dom().contains(l));
            }
        }
        m
    }

    /// Process one record, as the forward pass does: a record whose label
    /// was seen before merges the class of the label's first index into the
    /// class of this record's index; a record with a new label is remembered
    /// as the label's first and retained for output.
    pub fn push_record(&mut self, idx: usize, label: String)
        requires
            old(self).wf(),
        ensures
            final(self).wf(),
            final(self).records() == old(self).records().push((idx, label@)),
    {
        let ghost h = self.history@;
        let ghost r = (idx, label@);
        proof {
            lemma_has_label_push(h, r);
        }
        let seen = match self.first_seen.get(label.as_str()) {
            Some(first) => Some(*first),
            None => None,
        };
        match seen {
            Some(first) => {
                proof {
                    assert(has_label(h, label@));
                    assert(first == first_label_idx(h, label@));
                }
                self.store.union(first, idx);
                self.history = Ghost(h.push(r));
                proof {
                    let hp = h.push(r);
                    assert forall|x: usize| #[trigger] self.store.rep(x) == canon_after(
                        hp,
                        x,
                    ) by {
                        assert(hp.drop_last() == h && hp.last() == r);
                        assert(first_label_idx(hp, r.1) == first_label_idx(h, r.1));
                    }
                    assert forall|l: Seq<char>| has_label(hp, l)
                        implies #[trigger] self.first_seen@[l] == first_label_idx(hp, l) by {
                        assert(has_label(h, l) || l == r.1);
                        assert(has_label(h, l));
                    }
                    assert(label_order(hp) == label_order(h));
                    assert forall|k: int| 0 <= k < self.retained@.len()
                        implies (#[trigger] self.retained@[k]).1@ == label_order(hp)[k]
                            && self.retained@[k].0 == first_label_idx(
                            hp,
                            label_order(hp)[k],
                        ) by {
                        lemma_label_order_members(h);
                        assert(label_order(h).contains(label_order(h)[k]));
                        assert(has_label(h, label_order(h)[k]));
                    }
                    assert forall|x: usize| #[trigger] self.store.key_set().contains(x)
                        implies indices_of(hp).contains(x) by {
                        if x == idx {
                            assert(indices_of(hp)[hp.len() - 1] == x);
                        } else if x == first && !old(self).store.key_set().contains(x) {
                            lemma_first_is_recorded(h, r.1);
                            let i = choose|i: int| 0 <= i < h.len() && h[i].1 == r.1 && h[i].0
                                == first_label_idx(h, r.1);
                            assert(indices_of(hp)[i] == x);
                        } else {
                            assert(old(self).store.key_set().contains(x));
                            assert(indices_of(h).contains(x));
                            let i = choose|i: int| 0 <= i < indices_of(h).len() && indices_of(
                                h,
                            )[i] == x;
                            assert(indices_of(hp)[i] == x);
                        }
                    }
                }
            },
            None => {
                proof {
                    assert(!has_label(h, label@));
                }
                self.retained.push((idx, label.clone()));
                self.first_seen.insert(label, idx);
                self.history = Ghost(h.push(r));
                proof {
                    let hp = h.push(r);
                    assert(hp.drop_last() == h && hp.last() == r);
                    assert forall|x: usize| #[trigger] self.store.rep(x) == canon_after(
                        hp,
                        x,
                    ) by {}
                    assert forall|l: Seq<char>| has_label(hp, l)
                        implies #[trigger] self.first_seen@[l] == first_label_idx(hp, l) by {
                        if l == r.1 {
                            assert(self.first_seen@[l] == idx);
                            assert(first_label_idx(hp, l) == r.0);
                        } else {
                            assert(has_label(h, l));
                            assert(self.first_seen@[l] == old(self).first_seen@[l]);
                        }
                    }
                    assert(label_order(hp) == label_order(h).push(r.1));
                    lemma_label_order_members(h);
                    assert forall|k: int| 0 <= k < self.retained@.len()
                        implies (#[trigger] self.retained@[k]).1@ == label_order(hp)[k]
                            && self.retained@[k].0 == first_label_idx(
                            hp,
                            label_order(hp)[k],
                        ) by {
                        if k < self.retained@.len() - 1 {
                            assert(self.retained@[k] == old(self).retained@[k]);
                            assert(label_order(hp)[k] == label_order(h)[k]);
                            assert(label_order(h).contains(label_order(h)[k]));
                            assert(has_label(h, label_order(h)[k]));
                        } else {
                            assert(label_order(hp)[k] == r.1);
                            assert(first_label_idx(hp, r.1) == r.0);
                        }
                    }
                    assert forall|x: usize| #[trigger] self.store.key_set().contains(x)
                        implies indices_of(hp).contains(x) by {
                        assert(indices_of(h).contains(x));
                        let i = choose|i: int| 0 <= i < indices_of(h).len() && indices_of(h)[i]
                            == x;
                        assert(indices_of(hp)[i] == x);
                    }
                }
            },
        }
    }

    /// Resolve every retained record to its final canonical representative,
    /// in first-seen order, and derive the entity list: the distinct values
    /// among the parent entries the store then holds, an over-approximation
    /// of the true roots taken deliberately from the stored entries.
    pub fn finish(self) -> (out: (Vec<(usize, String)>, Vec<usize>))
        requires
            self.wf(),
        ensures
            out.0@.len() == label_order(self.records()).len(),
            forall|k: int| 0 <= k < out.0@.len() ==> (#[trigger] out.0@[k]).1@ == label_order(
                self.records(),
            )[k] && out.0@[k].0 == canon_after(
                self.records(),
                first_label_idx(self.records(), label_order(self.records())[k]),
            ),
            out.1@.no_duplicates(),
            forall|k: int| 0 <= k < out.0@.len() ==> out.1@.contains(#[trigger] out.0@[k].0),
            out.1@.len() <= self.records().len(),
    {
        let ghost h = self.history@;
        let ghost ret0 = self.retained@;
        let mut st = self;
        let n = st.retained.len();
        let mut primary: Vec<(usize, String)> = Vec::new();
        let mut i: usize = 0;
        while i < n
            invariant
                st.wf(),
                st.history@ == h,
                st.retained@ == ret0,
                n == ret0.len(),
                i <= n,
                primary@.len() == i,
                forall|k: int| 0 <= k < i ==> (#[trigger] primary@[k]).1@ == ret0[k].1@
                    && primary@[k].0 == canon_after(h, ret0[k].0),
                forall|k: int| 0 <= k < i ==> st.store.key_set().contains(#[trigger] ret0[k].0)
                    && st.store.parent_of(ret0[k].0) == canon_after(h, ret0[k].0),
            decreases n - i,
        {
            let idx = st.retained[i].0;
            let lab = st.retained[i].1.clone();
            let ghost before = st.store;
            let root = st.store.find(idx);
            proof {
                assert(root == canon_after(h, idx));
                assert forall|x: usize| #[trigger] st.store.key_set().contains(x)
                    implies indices_of(h).contains(x) by {
                    if x == idx {
                        lemma_label_order_members(h);
                        assert(label_order(h).contains(label_order(h)[i as int]));
                        assert(has_label(h, label_order(h)[i as int]));
                        lemma_first_is_recorded(h, label_order(h)[i as int]);
                        let q = choose|q: int| 0 <= q < h.len() && h[q].1 == label_order(h)[
                            i as int
                        ] && h[q].0 == first_label_idx(h, label_order(h)[i as int]);
                        assert(indices_of(h)[q] == idx);
                    } else {
                        assert(before.key_set().contains(x));
                    }
                }
                assert forall|k: int| 0 <= k < i + 1
                    implies st.store.key_set().contains(#[trigger] ret0[k].0)
                        && st.store.parent_of(ret0[k].0) == canon_after(h, ret0[k].0) by {
                    if k < i {
                        assert(before.key_set().contains(ret0[k].0));
                        assert(st.store.parent_of(ret0[k].0) == before.parent_of(ret0[k].0)
                            || st.store.parent_of(ret0[k].0) == before.rep(ret0[k].0));
                    }
                }
            }
            primary.push((root, lab));
            i += 1;
        }
        let pv = st.store.parent_values();
        let ents = dedup_in_order(&pv);
        proof {
            lemma_distinct_members(pv@);
            lemma_distinct_no_duplicates(pv@);
            assert forall|k: int| 0 <= k < primary@.len() implies ents@.contains(
                #[trigger] primary@[k].0,
            ) by {
                let x = ret0[k].0;
                assert(st.store.key_set().contains(x));
                st.store.lemma_key_set_order();
                assert(st.store.key_order().contains(x));
                let j = choose|j: int| 0 <= j < st.store.key_order().len()
                    && st.store.key_order()[j] == x;
                assert(st.store.parent_list()[j] == st.store.parent_of(x));
                assert(pv@.contains(st.store.parent_of(x)));
            }
            st.store.lemma_key_count_le(indices_of(h).to_set());
            indices_of(h).lemma_cardinality_of_set();
        }
        (primary, ents)
    }
}

/// `v@.contains(x)`, decided by a scan.
fn vec_holds(v: &Vec<usize>, x: usize) -> (b: bool)
    ensures
        b == v@.contains(x),
{
    let mut i: usize = 0;
    while i < v.len()
        invariant
            i <= v@.len(),
            forall|j: int| 0 <= j < i ==> v@[j] != x,
        decreases v@.len() - i,
    {
        if v[i] == x {
            return true;
        }
        i += 1;
    }
    false
}

/// Keep the first occurrence of every value, dropping later repeats.
fn dedup_in_order(v: &Vec<usize>) -> (r: Vec<usize>)
    ensures
        r@ == distinct_in_order(v@),
{
    let mut r: Vec<usize> = Vec::new();
    let mut i: usize = 0;
    while i < v.len()
        invariant
            i <= v@.len(),
            r@ == distinct_in_order(v@.take(i as int)),
        decreases v@.len() - i,
    {
        proof {
            assert(v@.take(i + 1).drop_last() =~= v@.take(i as int));
            assert(v@.take(i + 1).last() == v@[i as int]);
            lemma_distinct_members(v@.take(i as int));
        }
        if !vec_holds(&r, v[i]) {
            r.push(v[i]);
        }
        i += 1;
    }
    proof {
        assert(v@.take(v@.len() as int) =~= v@);
    }
    r
}

/// All lines of the input parse.
pub open spec fn all_lines_ok(lines: Seq<String>) -> bool {
    forall|i: int| 0 <= i < lines.len() ==> line_ok((#[trigger] lines[i])@)
}

/// The records the input lines parse to (meaningful when `all_lines_ok`).
pub open spec fn parsed_records(lines: Seq<String>) -> Seq<(usize, Seq<char>)> {
    lines.map_values(|s: String| (line_index(s@) as usize, line_label(s@)))
}

/// The position of the first malformed line.
pub open spec fn first_bad(lines: Seq<String>) -> int
    decreases lines.len(),
{
    if lines.len() == 0 {
        0
    } else if !line_ok(lines[0]@) {
        0
    } else {
        1 + first_bad(lines.drop_first())
    }
}

proof fn lemma_first_bad_here(lines: Seq<String>, i: int)
    requires
        0 <= i < lines.len(),
        forall|j: int| 0 <= j < i ==> line_ok((#[trigger] lines[j])@),
        !line_ok(lines[i]@),
    ensures
        first_bad(lines) == i,
    decreases i,
{
    if i > 0 {
        assert(line_ok(lines[0]@));
        let rest = lines.drop_first();
        assert forall|j: int| 0 <= j < i - 1 implies line_ok((#[trigger] rest[j])@) by {
            assert(rest[j] == lines[j + 1]);
        }
        assert(rest[i - 1] == lines[i]);
        lemma_first_bad_here(rest, i - 1);
    }
}

/// Run the whole pipeline on the input lines. Succeeds exactly when every
/// line is well-formed; the first malformed line aborts the run with its
/// error. On success the primary output holds one record per distinct label,
/// in first-occurrence order, each resolved to the canonical representative
/// of its label's class; the entity list holds the distinct parent entries
/// of the store, every primary representative among them.
pub fn merge_records(lines: &Vec<String>) -> (r: Result<
    (Vec<(usize, String)>, Vec<usize>),
    FormatError,
>)
    ensures
        match r {
            Ok(out) => {
                let recs = parsed_records(lines@);
                &&& all_lines_ok(lines@)
                &&& out.0@.len() == label_order(recs).len()
                &&& forall|k: int| 0 <= k < out.0@.len() ==> (#[trigger] out.0@[k]).1@
                    == label_order(recs)[k] && out.0@[k].0 == canon_after(
                    recs,
                    first_label_idx(recs, label_order(recs)[k]),
                )
                &&& out.1@.no_duplicates()
                &&& forall|k: int| 0 <= k < out.0@.len() ==> out.1@.contains(
                    #[trigger] out.0@[k].0,
                )
                &&& out.1@.len() <= lines@.len()
            },
            Err(e) => {
                &&& !all_lines_ok(lines@)
                &&& e == line_err(lines@[first_bad(lines@)]@)
            },
        },
{
    let n = lines.len();
    let mut m = Merger::new();
    let mut i: usize = 0;
    while i < n
        invariant
            i <= n,
            n == lines@.len(),
            m.wf(),
            m.records() == parsed_records(lines@.take(i as int)),
            forall|j: int| 0 <= j < i ==> line_ok((#[trigger] lines@[j])@),
        decreases n - i,
    {
        match parse_line(lines[i].as_str()) {
            Ok(rec) => {
                proof {
                    assert(parsed_records(lines@.take(i + 1)) =~= parsed_records(
                        lines@.take(i as int),
                    ).push((rec.0, rec.1@)));
                }
                m.push_record(rec.0, rec.1);
            },
            Err(e) => {
                proof {
                    lemma_first_bad_here(lines@, i as int);
                }
                return Err(e);
            },
        }
        i += 1;
    }
    proof {
        assert(lines@.take(n as int) =~= lines@);
    }
    let out = m.finish();
    Ok(out)
}

} // verus!
