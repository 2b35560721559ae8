//! The table: one growable sequence of entries, split into a sorted prefix
//! (binary-searchable) and an unsorted suffix (append order, linear search).

use vstd::prelude::*;

use crate::order::{eqv, Cmp, TotalOrdered};
use crate::threshold::{is_threshold, threshold_for};

verus! {

/// Initial capacity of the unsorted region of an empty table.
pub const INITIAL_THRESHOLD: usize = 10;

/// A key-value table with a sorted prefix and a small unsorted suffix.
///
/// The first `n_s` entries of `data` are ascending by key; the rest are in
/// insertion order. Keys are unique up to order-equivalence. Once the suffix
/// outgrows the threshold `k`, the whole table is resorted and `k` is
/// recomputed from the new total size.
#[derive(Debug, Clone)]
pub struct Psst<K: TotalOrdered, V> {
    n_s: usize,
    k: usize,
    data: Vec<(K, V)>,
}

impl<K: TotalOrdered, V> Psst<K, V> {
    /// The entries of the table, in storage order.
    pub closed spec fn entries(self) -> Seq<(K, V)> {
        self.data@
    }

    /// Length of the sorted prefix.
    pub closed spec fn sorted_len(self) -> nat {
        self.n_s as nat
    }

    /// Current capacity threshold of the unsorted suffix.
    pub closed spec fn threshold(self) -> nat {
        self.k as nat
    }

    /// The table holds some entry whose key is order-equivalent to `key`.
    pub open spec fn contains_key(self, key: K) -> bool {
        seq_contains_key(self.entries(), key)
    }

    /// An index holding a key order-equivalent to `key` (the index, once
    /// keys are unique).
    pub open spec fn index_for(self, key: K) -> int {
        seq_index_for(self.entries(), key)
    }

    /// The value associated with `key`.
    pub open spec fn value_for(self, key: K) -> V {
        seq_value_for(self.entries(), key)
    }

    /// What a lookup of `key` must return.
    pub open spec fn spec_get(self, key: K) -> Option<V> {
        if self.contains_key(key) {
            Some(self.value_for(key))
        } else {
            None
        }
    }

    /// The structural part of well-formedness: the sorted prefix is within
    /// bounds and ascending, and keys are unique up to order-equivalence.
    /// (During a resort the suffix transiently exceeds the threshold, so
    /// this part is kept separate from `wf`.)
    pub open spec fn ordered(self) -> bool {
        &&& self.sorted_len() <= self.entries().len()
        &&& sorted_prefix(self.entries(), self.sorted_len() as int)
        &&& unique_keys(self.entries())
    }

    /// The table is well formed: `ordered`, and the unsorted suffix is
    /// within the threshold.
    pub open spec fn wf(self) -> bool {
        &&& self.ordered()
        &&& self.entries().len() - self.sorted_len() <= self.threshold()
    }

    /// An empty table: no entries, empty sorted region, default threshold.
    pub fn new() -> (t: Self)
        ensures
            t.wf(),
            t.entries() == Seq::<(K, V)>::empty(),
            t.sorted_len() == 0,
            t.threshold() == INITIAL_THRESHOLD as nat,
    {
        Psst { n_s: 0, k: INITIAL_THRESHOLD, data: Vec::new() }
    }

    /// Total number of entries.
    pub fn len(&self) -> (n: usize)
        ensures
            n == self.entries().len(),
    {
        self.data.len()
    }

    /// Number of entries currently in the sorted region.
    pub fn sorted_region_len(&self) -> (n: usize)
        ensures
            n == self.sorted_len(),
    {
        self.n_s
    }

    /// Current capacity threshold of the unsorted region.
    pub fn unsorted_capacity(&self) -> (n: usize)
        ensures
            n == self.threshold(),
    {
        self.k
    }

    /// Size of the unsorted suffix.
    fn n_u(&self) -> (n: usize)
        requires
            self.sorted_len() <= self.entries().len(),
        ensures
            n == self.entries().len() - self.sorted_len(),
    {
        self.len() - self.n_s
    }

    /// Binary search over the sorted prefix: the index of the entry whose
    /// key matches `key`, or `None` when no prefix entry matches.
    fn binary_search(&self, key: &K) -> (r: Option<usize>)
        requires
            self.ordered(),
        ensures
            match r {
                Some(i) => i < self.sorted_len() && eqv(self.entries()[i as int].0, *key),
                None => forall|i: int|
                    #![trigger self.entries()[i]]
                    0 <= i < self.sorted_len() ==> !eqv(self.entries()[i].0, *key),
            },
    {
        let mut lo: usize = 0;
        let mut hi: usize = self.n_s;
        while lo < hi
            invariant
                self.ordered(),
                lo <= hi <= self.sorted_len(),
                forall|i: int|
                    #![trigger self.entries()[i]]
                    0 <= i < lo ==> !eqv(self.entries()[i].0, *key),
                forall|i: int|
                    #![trigger self.entries()[i]]
                    hi <= i < self.sorted_len() ==> !eqv(self.entries()[i].0, *key),
            decreases hi - lo,
        {
            let mid = lo + (hi - lo) / 2;
            match self.data[mid].0.compare(key) {
                Cmp::Equal => {
                    return Some(mid);
                },
                Cmp::Less => {
                    proof {
                        assert forall|i: int| 0 <= i <= mid implies !eqv(
                            #[trigger] self.entries()[i].0,
                            *key,
                        ) by {
                            if eqv(self.entries()[i].0, *key) {
                                K::transitive(*key, self.entries()[i].0, self.entries()[mid as int].0);
                            }
                        }
                    }
                    lo = mid + 1;
                },
                Cmp::Greater => {
                    proof {
                        assert forall|i: int| mid <= i < self.sorted_len() implies !eqv(
                            #[trigger] self.entries()[i].0,
                            *key,
                        ) by {
                            if eqv(self.entries()[i].0, *key) {
                                K::transitive(self.entries()[mid as int].0, self.entries()[i].0, *key);
                            }
                        }
                    }
                    hi = mid;
                },
            }
        }
        None
    }

    /// Linear search over the unsorted suffix: the first index at or past
    /// the sorted prefix whose key matches `key`.
    fn linear_search(&self, key: &K) -> (r: Option<usize>)
        requires
            self.ordered(),
        ensures
            match r {
                Some(i) => self.sorted_len() <= i < self.entries().len() && eqv(
                    self.entries()[i as int].0,
                    *key,
                ),
                None => forall|i: int|
                    #![trigger self.entries()[i]]
                    self.sorted_len() <= i < self.entries().len() ==> !eqv(
                        self.entries()[i].0,
                        *key,
                    ),
            },
    {
        let mut i: usize = self.n_s;
        while i < self.data.len()
            invariant
                self.ordered(),
                self.sorted_len() <= i,
                forall|j: int|
                    #![trigger self.entries()[j]]
                    self.sorted_len() <= j < i ==> !eqv(self.entries()[j].0, *key),
            decreases self.entries().len() - i,
        {
            match self.data[i].0.compare(key) {
                Cmp::Equal => {
                    return Some(i);
                },
                _ => {
                    i = i + 1;
                },
            }
        }
        None
    }

    /// The index of the entry whose key matches `key`, wherever it stands.
    fn search(&self, key: &K) -> (r: Option<usize>)
        requires
            self.ordered(),
        ensures
            match r {
                Some(i) => {
                    &&& i < self.entries().len()
                    &&& eqv(self.entries()[i as int].0, *key)
                    &&& self.contains_key(*key)
                    &&& self.index_for(*key) == i as int
                },
                None => !self.contains_key(*key),
            },
    {
        let r = match self.binary_search(key) {
            Some(i) => Some(i),
            None => self.linear_search(key),
        };
        proof {
            match r {
                Some(i) => {
                    lemma_key_at(self.entries(), *key, i as int);
                },
                None => {
                    assert(!seq_contains_key(self.entries(), *key));
                },
            }
        }
        r
    }

    /// The value stored for `key`, if the table holds the key.
    pub fn get(&self, key: &K) -> (r: Option<&V>)
        requires
            self.wf(),
        ensures
            match r {
                Some(v) => self.spec_get(*key) == Some(*v),
                None => self.spec_get(*key) is None,
            },
    {
        if let Some(i) = self.search(key) {
            Some(&self.data[i].1)
        } else {
            None
        }
    }

    /// A mutable reference to the value stored for `key`, if the table
    /// holds the key. The caller may overwrite the value through it; the
    /// table's keys, regions and threshold are untouched.
    pub fn get_mut(&mut self, key: &K) -> (r: Option<&mut V>)
        requires
            old(self).wf(),
        ensures
            match r {
                None => {
                    &&& !old(self).contains_key(*key)
                    &&& *final(self) == *old(self)
                },
                Some(_) => old(self).contains_key(*key),
            },
            r is Some ==> *r.unwrap() == old(self).value_for(*key),
            r is Some ==> final(self).entries() == old(self).entries().update(
                old(self).index_for(*key),
                (old(self).entries()[old(self).index_for(*key)].0, *final(r.unwrap())),
            ),
            r is Some ==> final(self).sorted_len() == old(self).sorted_len(),
            r is Some ==> final(self).threshold() == old(self).threshold(),
            final(self).wf(),
    {
        if let Some(i) = self.search(key) {
            proof {
                let s = self.data@;
                let n = old(self).sorted_len() as int;
                assert forall|v2: V|
                    sorted_prefix(#[trigger] s.update(i as int, (s[i as int].0, v2)), n)
                        && unique_keys(s.update(i as int, (s[i as int].0, v2))) by {
                    lemma_update_value(s, i as int, *key, v2, n);
                }
            }
            let pair = &mut self.data[i];
            Some(&mut pair.1)
        } else {
            None
        }
    }

    /// Where in the sorted prefix an entry with key `key` belongs: past
    /// every strictly smaller key.
    fn insert_pos(&self, key: &K) -> (p: usize)
        requires
            self.ordered(),
        ensures
            p <= self.sorted_len(),
            forall|q: int|
                #![trigger self.entries()[q]]
                0 <= q < p ==> self.entries()[q].0.le(*key),
            p < self.sorted_len() ==> key.le(self.entries()[p as int].0),
    {
        let mut p: usize = 0;
        while p < self.n_s
            invariant
                self.ordered(),
                p <= self.sorted_len(),
                forall|q: int|
                    #![trigger self.entries()[q]]
                    0 <= q < p ==> self.entries()[q].0.le(*key),
            decreases self.sorted_len() - p,
        {
            match self.data[p].0.compare(key) {
                Cmp::Less => {
                    p = p + 1;
                },
                Cmp::Equal => {
                    return p;
                },
                Cmp::Greater => {
                    return p;
                },
            }
        }
        p
    }

    /// Fold the unsorted suffix into the sorted prefix, one entry at a
    /// time, until the whole table is one sorted run.
    fn resort(&mut self)
        requires
            old(self).ordered(),
        ensures
            final(self).ordered(),
            final(self).sorted_len() == final(self).entries().len(),
            final(self).entries().len() == old(self).entries().len(),
            final(self).threshold() == old(self).threshold(),
            same_key_map(final(self).entries(), old(self).entries()),
    {
        while self.n_s < self.data.len()
            invariant
                self.ordered(),
                self.entries().len() == old(self).entries().len(),
                self.threshold() == old(self).threshold(),
                same_key_map(self.entries(), old(self).entries()),
            decreases self.entries().len() - self.sorted_len(),
        {
            let ghost s_pre = self.data@;
            let ghost n_pre = self.n_s as int;
            let e = self.data.pop().unwrap();
            proof {
                lemma_drop_last_ordered(s_pre, n_pre);
            }
            let pos = self.insert_pos(&e.0);
            proof {
                assert(e.0 == s_pre[s_pre.len() - 1].0);
                assert forall|q: int| #![trigger s_pre[q]] 0 <= q < pos implies s_pre[q].0.le(
                    s_pre[s_pre.len() - 1].0,
                ) by {
                    assert(self.entries()[q] == s_pre[q]);
                    assert(self.entries()[q].0.le(e.0));
                }
                if (pos as int) < n_pre {
                    assert(self.entries()[pos as int] == s_pre[pos as int]);
                    assert(s_pre[s_pre.len() - 1].0.le(s_pre[pos as int].0));
                }
            }
            self.data.insert(pos, e);
            self.n_s = self.n_s + 1;
            proof {
                lemma_move_last_into_prefix(s_pre, n_pre, pos as int);
                assert(self.data@ == move_last(s_pre, pos as int));
                lemma_same_key_map_trans(self.data@, s_pre, old(self).entries());
            }
        }
    }

    /// The unsorted-region capacity the resort formula assigns to the
    /// table's current size.
    fn get_opt_num_unsorted(&self) -> (r: usize)
        ensures
            is_threshold(r as nat, self.entries().len()),
    {
        threshold_for(self.data.len())
    }

    /// Insert `key` with `value`. An existing matching key has its value
    /// replaced in place, and the previous value is returned; a fresh key
    /// is appended to the unsorted suffix, which may trigger a resort.
    pub fn insert(&mut self, key: K, value: V) -> (r: Option<V>)
        requires
            old(self).wf(),
        ensures
            final(self).wf(),
            match r {
                Some(prev) => {
                    &&& old(self).contains_key(key)
                    &&& prev == old(self).value_for(key)
                    &&& final(self).entries() == old(self).entries().update(
                        old(self).index_for(key),
                        (old(self).entries()[old(self).index_for(key)].0, value),
                    )
                    &&& final(self).sorted_len() == old(self).sorted_len()
                    &&& final(self).threshold() == old(self).threshold()
                },
                None => {
                    &&& !old(self).contains_key(key)
                    &&& final(self).entries().len() == old(self).entries().len() + 1
                    &&& if old(self).entries().len() + 1 - old(self).sorted_len() > old(
                        self,
                    ).threshold() {
                        &&& final(self).sorted_len() == final(self).entries().len()
                        &&& is_threshold(final(self).threshold(), final(self).entries().len())
                    } else {
                        &&& final(self).entries() == old(self).entries().push((key, value))
                        &&& final(self).sorted_len() == old(self).sorted_len()
                        &&& final(self).threshold() == old(self).threshold()
                    }
                },
            },
            forall|k2: K|
                #![trigger final(self).contains_key(k2)]
                final(self).contains_key(k2) <==> (old(self).contains_key(k2) || eqv(k2, key)),
            forall|k2: K|
                #![trigger final(self).value_for(k2)]
                final(self).contains_key(k2) ==> final(self).value_for(k2) == (if eqv(k2, key) {
                    value
                } else {
                    old(self).value_for(k2)
                }),
    {
        if let Some(i) = self.search(&key) {
            let pair = self.data.remove(i);
            self.data.insert(i, (pair.0, value));
            proof {
                assert(self.data@ =~= old(self).entries().update(
                    i as int,
                    (old(self).entries()[i as int].0, value),
                ));
                lemma_update_value(
                    old(self).entries(),
                    i as int,
                    key,
                    value,
                    old(self).sorted_len() as int,
                );
            }
            Some(pair.1)
        } else {
            self.data.push((key, value));
            proof {
                lemma_push_new_key(
                    old(self).entries(),
                    old(self).sorted_len() as int,
                    key,
                    value,
                );
            }
            if self.n_u() > self.k {
                let ghost pushed = self.data@;
                self.resort();
                let new_k = self.get_opt_num_unsorted();
                self.k = new_k;
                proof {
                    assert forall|k2: K|
                        #![trigger seq_contains_key(self.entries(), k2)]
                        seq_contains_key(self.entries(), k2) <==> (seq_contains_key(
                            old(self).entries(),
                            k2,
                        ) || eqv(k2, key)) by {
                        assert((seq_contains_key(self.entries(), k2) <==> seq_contains_key(
                            pushed,
                            k2,
                        )) && (seq_contains_key(self.entries(), k2) ==> seq_value_for(
                            self.entries(),
                            k2,
                        ) == seq_value_for(pushed, k2)));
                    }
                    assert forall|k2: K|
                        #![trigger seq_value_for(self.entries(), k2)]
                        seq_contains_key(self.entries(), k2) implies seq_value_for(
                        self.entries(),
                        k2,
                    ) == (if eqv(k2, key) {
                        value
                    } else {
                        seq_value_for(old(self).entries(), k2)
                    }) by {
                        assert((seq_contains_key(self.entries(), k2) <==> seq_contains_key(
                            pushed,
                            k2,
                        )) && (seq_contains_key(self.entries(), k2) ==> seq_value_for(
                            self.entries(),
                            k2,
                        ) == seq_value_for(pushed, k2)));
                    }
                }
            }
            None
        }
    }
}

/// The first `n` entries are ascending by key.
pub open spec fn sorted_prefix<K: TotalOrdered, V>(s: Seq<(K, V)>, n: int) -> bool {
    forall|i: int, j: int|
        #![trigger s[i], s[j]]
        0 <= i <= j < n <= s.len() ==> s[i].0.le(s[j].0)
}

/// No two entries carry order-equivalent keys.
pub open spec fn unique_keys<K: TotalOrdered, V>(s: Seq<(K, V)>) -> bool {
    forall|i: int, j: int|
        #![trigger s[i], s[j]]
        0 <= i < j < s.len() ==> !eqv(s[i].0, s[j].0)
}

/// Some entry of `s` has a key order-equivalent to `key`.
pub open spec fn seq_contains_key<K: TotalOrdered, V>(s: Seq<(K, V)>, key: K) -> bool {
    exists|i: int| #![trigger s[i]] 0 <= i < s.len() && eqv(s[i].0, key)
}

/// An index of `s` whose key is order-equivalent to `key`.
pub open spec fn seq_index_for<K: TotalOrdered, V>(s: Seq<(K, V)>, key: K) -> int {
    choose|i: int| #![trigger s[i]] 0 <= i < s.len() && eqv(s[i].0, key)
}

/// The value stored beside the key order-equivalent to `key`.
pub open spec fn seq_value_for<K: TotalOrdered, V>(s: Seq<(K, V)>, key: K) -> V {
    s[seq_index_for(s, key)].1
}

/// `s1` and `s2` associate the same values to the same keys.
pub open spec fn same_key_map<K: TotalOrdered, V>(s1: Seq<(K, V)>, s2: Seq<(K, V)>) -> bool {
    forall|k: K|
        #![trigger seq_contains_key(s1, k)]
        #![trigger seq_contains_key(s2, k)]
        (seq_contains_key(s1, k) <==> seq_contains_key(s2, k)) && (seq_contains_key(s1, k)
            ==> seq_value_for(s1, k) == seq_value_for(s2, k))
}

/// Law: keys are unique. A well-formed table holds at most one entry per
/// key, counting keys equivalent under the order as the same key. (That an
/// insertion of a present key updates in place and returns the previous
/// value is the `Some` case of `insert`'s contract.)
pub proof fn lemma_keys_unique<K: TotalOrdered, V>(t: Psst<K, V>, i: int, j: int)
    requires
        t.wf(),
        0 <= i < j < t.entries().len(),
    ensures
        !eqv(t.entries()[i].0, t.entries()[j].0),
{
}

/// Law: the entries of the sorted region are non-decreasing by key.
pub proof fn lemma_sorted_region<K: TotalOrdered, V>(t: Psst<K, V>, i: int, j: int)
    requires
        t.wf(),
        0 <= i <= j < t.sorted_len(),
    ensures
        t.entries()[i].0.le(t.entries()[j].0),
{
}

/// Law: between calls the unsorted region is within the threshold — in
/// particular immediately after any `insert` returns, since `insert`
/// ensures well-formedness.
pub proof fn lemma_threshold_respected<K: TotalOrdered, V>(t: Psst<K, V>)
    requires
        t.wf(),
    ensures
        t.entries().len() - t.sorted_len() <= t.threshold(),
{
}

/// Law: round trip and update semantics of lookup. From the relation that
/// `insert`'s contract establishes between the table before and after a
/// call, a lookup of the inserted key yields the new value — however many
/// resorts have occurred — and a lookup of any non-equivalent key yields
/// exactly what it yielded before the call.
pub proof fn lemma_insert_lookup<K: TotalOrdered, V>(
    pre: Psst<K, V>,
    post: Psst<K, V>,
    key: K,
    value: V,
    k2: K,
)
    requires
        forall|k: K|
            #![trigger post.contains_key(k)]
            post.contains_key(k) <==> (pre.contains_key(k) || eqv(k, key)),
        forall|k: K|
            #![trigger post.value_for(k)]
            post.contains_key(k) ==> post.value_for(k) == (if eqv(k, key) {
                value
            } else {
                pre.value_for(k)
            }),
    ensures
        post.spec_get(key) == Some(value),
        !eqv(k2, key) ==> post.spec_get(k2) == pre.spec_get(k2),
{
    K::reflexive(key);
    assert(post.contains_key(key));
    assert(post.value_for(key) == value);
}

/// Law: lookup is idempotent. Its result is a function of the table state
/// and the key alone, so repeated lookups with no insertion in between all
/// return the same result.
pub proof fn lemma_lookup_idempotent<K: TotalOrdered, V>(
    t: Psst<K, V>,
    key: K,
    r1: Option<V>,
    r2: Option<V>,
)
    requires
        r1 == t.spec_get(key),
        r2 == t.spec_get(key),
    ensures
        r1 == r2,
{
}

/// `same_key_map` is transitive.
proof fn lemma_same_key_map_trans<K: TotalOrdered, V>(
    a: Seq<(K, V)>,
    b: Seq<(K, V)>,
    c: Seq<(K, V)>,
)
    requires
        same_key_map(a, b),
        same_key_map(b, c),
    ensures
        same_key_map(a, c),
{
    assert forall|k: K|
        #![trigger seq_contains_key(a, k)]
        #![trigger seq_contains_key(c, k)]
        (seq_contains_key(a, k) <==> seq_contains_key(c, k)) && (seq_contains_key(a, k)
            ==> seq_value_for(a, k) == seq_value_for(c, k)) by {
        assert((seq_contains_key(a, k) <==> seq_contains_key(b, k)) && (seq_contains_key(a, k)
            ==> seq_value_for(a, k) == seq_value_for(b, k)));
        assert((seq_contains_key(b, k) <==> seq_contains_key(c, k)) && (seq_contains_key(b, k)
            ==> seq_value_for(b, k) == seq_value_for(c, k)));
    }
}

/// With unique keys, any index whose key matches `key` is the index the
/// table's spec functions name.
pub proof fn lemma_key_at<K: TotalOrdered, V>(s: Seq<(K, V)>, key: K, i: int)
    requires
        unique_keys(s),
        0 <= i < s.len(),
        eqv(s[i].0, key),
    ensures
        seq_contains_key(s, key),
        seq_index_for(s, key) == i,
        seq_value_for(s, key) == s[i].1,
{
    assert(seq_contains_key(s, key));
    let j = seq_index_for(s, key);
    if i != j {
        K::transitive(s[i].0, key, s[j].0);
        K::transitive(s[j].0, key, s[i].0);
        assert(eqv(s[i].0, s[j].0));
        assert(false);
    }
}

/// Replacing the value beside an existing key keeps the table's shape and
/// changes the association of that key alone.
proof fn lemma_update_value<K: TotalOrdered, V>(s: Seq<(K, V)>, i: int, key: K, v: V, n: int)
    requires
        0 <= i < s.len(),
        0 <= n <= s.len(),
        sorted_prefix(s, n),
        unique_keys(s),
        eqv(s[i].0, key),
    ensures
        sorted_prefix(s.update(i, (s[i].0, v)), n),
        unique_keys(s.update(i, (s[i].0, v))),
        forall|k: K|
            #![trigger seq_contains_key(s.update(i, (s[i].0, v)), k)]
            seq_contains_key(s.update(i, (s[i].0, v)), k) <==> (seq_contains_key(s, k) || eqv(
                k,
                key,
            )),
        forall|k: K|
            #![trigger seq_value_for(s.update(i, (s[i].0, v)), k)]
            seq_contains_key(s.update(i, (s[i].0, v)), k) ==> seq_value_for(
                s.update(i, (s[i].0, v)),
                k,
            ) == (if eqv(k, key) {
                v
            } else {
                seq_value_for(s, k)
            }),
{
    let t = s.update(i, (s[i].0, v));
    assert forall|j: int| 0 <= j < t.len() implies (#[trigger] t[j]).0 == s[j].0 by {}
    assert forall|a: int, b: int|
        #![trigger t[a], t[b]]
        0 <= a <= b < n <= t.len() implies t[a].0.le(t[b].0) by {
        assert(s[a].0.le(s[b].0));
    }
    assert forall|a: int, b: int|
        #![trigger t[a], t[b]]
        0 <= a < b < t.len() implies !eqv(t[a].0, t[b].0) by {
        assert(!eqv(s[a].0, s[b].0));
    }
    assert forall|k: K|
        #![trigger seq_contains_key(t, k)]
        seq_contains_key(t, k) <==> (seq_contains_key(s, k) || eqv(k, key)) by {
        if seq_contains_key(s, k) {
            let w = seq_index_for(s, k);
            assert(eqv(t[w].0, k));
            assert(seq_contains_key(t, k));
        }
        if eqv(k, key) {
            K::transitive(s[i].0, key, k);
            K::transitive(k, key, s[i].0);
            assert(eqv(t[i].0, k));
            assert(seq_contains_key(t, k));
        }
        if seq_contains_key(t, k) {
            let w = seq_index_for(t, k);
            assert(eqv(s[w].0, k));
            assert(seq_contains_key(s, k));
        }
    }
    assert forall|k: K|
        #![trigger seq_value_for(t, k)]
        seq_contains_key(t, k) implies seq_value_for(t, k) == (if eqv(k, key) {
        v
    } else {
        seq_value_for(s, k)
    }) by {
        if eqv(k, key) {
            K::transitive(s[i].0, key, k);
            K::transitive(k, key, s[i].0);
            assert(eqv(t[i].0, k));
            lemma_key_at(t, k, i);
        } else {
            let w = seq_index_for(t, k);
            assert(eqv(t[w].0, k));
            if w == i {
                K::transitive(k, s[i].0, key);
                K::transitive(key, s[i].0, k);
                assert(false);
            }
            assert(eqv(s[w].0, k));
            lemma_key_at(t, k, w);
            lemma_key_at(s, k, w);
        }
    }
}

/// Appending an entry under a fresh key keeps the table's shape and adds
/// exactly that association.
proof fn lemma_push_new_key<K: TotalOrdered, V>(s: Seq<(K, V)>, n: int, key: K, v: V)
    requires
        0 <= n <= s.len(),
        sorted_prefix(s, n),
        unique_keys(s),
        !seq_contains_key(s, key),
    ensures
        sorted_prefix(s.push((key, v)), n),
        unique_keys(s.push((key, v))),
        forall|k: K|
            #![trigger seq_contains_key(s.push((key, v)), k)]
            seq_contains_key(s.push((key, v)), k) <==> (seq_contains_key(s, k) || eqv(k, key)),
        forall|k: K|
            #![trigger seq_value_for(s.push((key, v)), k)]
            seq_contains_key(s.push((key, v)), k) ==> seq_value_for(s.push((key, v)), k) == (
            if eqv(k, key) {
                v
            } else {
                seq_value_for(s, k)
            }),
{
    let t = s.push((key, v));
    let len = s.len() as int;
    assert(t[len] == (key, v));
    assert forall|j: int| 0 <= j < len implies #[trigger] t[j] == s[j] by {}
    assert forall|a: int, b: int|
        #![trigger t[a], t[b]]
        0 <= a <= b < n <= t.len() implies t[a].0.le(t[b].0) by {
        assert(s[a].0.le(s[b].0));
    }
    assert forall|a: int, b: int|
        #![trigger t[a], t[b]]
        0 <= a < b < t.len() implies !eqv(t[a].0, t[b].0) by {
        if b < len {
            assert(!eqv(s[a].0, s[b].0));
        } else {
            if eqv(t[a].0, t[b].0) {
                assert(eqv(s[a].0, key));
                assert(seq_contains_key(s, key));
            }
        }
    }
    assert forall|k: K|
        #![trigger seq_contains_key(t, k)]
        seq_contains_key(t, k) <==> (seq_contains_key(s, k) || eqv(k, key)) by {
        if seq_contains_key(s, k) {
            let w = seq_index_for(s, k);
            assert(eqv(t[w].0, k));
            assert(seq_contains_key(t, k));
        }
        if eqv(k, key) {
            assert(eqv(t[len].0, k));
            assert(seq_contains_key(t, k));
        }
        if seq_contains_key(t, k) {
            let w = seq_index_for(t, k);
            if w < len {
                assert(eqv(s[w].0, k));
                assert(seq_contains_key(s, k));
            } else {
                assert(eqv(key, k));
            }
        }
    }
    assert forall|k: K|
        #![trigger seq_value_for(t, k)]
        seq_contains_key(t, k) implies seq_value_for(t, k) == (if eqv(k, key) {
        v
    } else {
        seq_value_for(s, k)
    }) by {
        if eqv(k, key) {
            assert(eqv(t[len].0, k));
            lemma_key_at(t, k, len);
        } else {
            let w = seq_index_for(t, k);
            assert(eqv(t[w].0, k));
            if w == len {
                assert(eqv(k, key));
                assert(false);
            }
            assert(eqv(s[w].0, k));
            lemma_key_at(t, k, w);
            lemma_key_at(s, k, w);
        }
    }
}

/// Dropping the last entry keeps the prefix sorted and the keys unique.
proof fn lemma_drop_last_ordered<K: TotalOrdered, V>(s: Seq<(K, V)>, n: int)
    requires
        0 <= n < s.len(),
        sorted_prefix(s, n),
        unique_keys(s),
    ensures
        sorted_prefix(s.subrange(0, s.len() - 1), n),
        unique_keys(s.subrange(0, s.len() - 1)),
{
    let t = s.subrange(0, s.len() - 1);
    assert forall|a: int, b: int|
        #![trigger t[a], t[b]]
        0 <= a <= b < n <= t.len() implies t[a].0.le(t[b].0) by {
        assert(t[a] == s[a]);
        assert(t[b] == s[b]);
    }
    assert forall|a: int, b: int|
        #![trigger t[a], t[b]]
        0 <= a < b < t.len() implies !eqv(t[a].0, t[b].0) by {
        assert(t[a] == s[a]);
        assert(t[b] == s[b]);
    }
}

/// The shape of one resort step: the last entry moved to position `p`.
spec fn move_last<K: TotalOrdered, V>(s: Seq<(K, V)>, p: int) -> Seq<(K, V)> {
    s.subrange(0, s.len() - 1).insert(p, s[s.len() - 1])
}

/// Moving the last entry into position `p` of the sorted prefix grows the
/// prefix by one, keeps keys unique, and changes no association.
proof fn lemma_move_last_into_prefix<K: TotalOrdered, V>(s: Seq<(K, V)>, n: int, p: int)
    requires
        0 <= n < s.len(),
        0 <= p <= n,
        sorted_prefix(s, n),
        unique_keys(s),
        forall|q: int| #![trigger s[q]] 0 <= q < p ==> s[q].0.le(s[s.len() - 1].0),
        p < n ==> s[s.len() - 1].0.le(s[p].0),
    ensures
        move_last(s, p).len() == s.len(),
        sorted_prefix(move_last(s, p), n + 1),
        unique_keys(move_last(s, p)),
        same_key_map(move_last(s, p), s),
{
    let t = move_last(s, p);
    let len = s.len() as int;
    let e = s[len - 1];
    assert forall|i: int| 0 <= i < len implies #[trigger] t[i] == (if i < p {
        s[i]
    } else if i == p {
        e
    } else {
        s[i - 1]
    }) by {}
    assert(t.len() == len);
    assert forall|i: int, j: int|
        #![trigger t[i], t[j]]
        0 <= i <= j < n + 1 <= t.len() implies t[i].0.le(t[j].0) by {
        if i == j {
            K::reflexive(t[i].0);
        } else if j < p {
            assert(s[i].0.le(s[j].0));
        } else if j == p {
            assert(s[i].0.le(e.0));
        } else {
            // j > p, so t[j] == s[j - 1] with p <= j - 1 < n
            if i < p {
                assert(s[i].0.le(s[j - 1].0));
            } else if i == p {
                if j - 1 == p {
                    assert(e.0.le(s[p].0));
                } else {
                    assert(s[p].0.le(s[j - 1].0));
                    K::transitive(e.0, s[p].0, s[j - 1].0);
                }
            } else {
                assert(s[i - 1].0.le(s[j - 1].0));
            }
        }
    }
    assert forall|i: int, j: int|
        #![trigger t[i], t[j]]
        0 <= i < j < t.len() implies !eqv(t[i].0, t[j].0) by {
        let a: int = if i < p {
            i
        } else if i == p {
            len - 1
        } else {
            i - 1
        };
        let b: int = if j < p {
            j
        } else if j == p {
            len - 1
        } else {
            j - 1
        };
        assert(t[i] == s[a]);
        assert(t[j] == s[b]);
        assert(a != b);
        if a < b {
            assert(!eqv(s[a].0, s[b].0));
        } else {
            assert(!eqv(s[b].0, s[a].0));
        }
    }
    assert forall|k: K|
        #![trigger seq_contains_key(t, k)]
        #![trigger seq_contains_key(s, k)]
        (seq_contains_key(t, k) <==> seq_contains_key(s, k)) && (seq_contains_key(t, k)
            ==> seq_value_for(t, k) == seq_value_for(s, k)) by {
        if seq_contains_key(s, k) {
            let w = seq_index_for(s, k);
            let tw: int = if w < p {
                w
            } else if w == len - 1 {
                p
            } else {
                w + 1
            };
            assert(t[tw] == s[w]);
            assert(eqv(t[tw].0, k));
            assert(seq_contains_key(t, k));
            lemma_key_at(t, k, tw);
            lemma_key_at(s, k, w);
        }
        if seq_contains_key(t, k) {
            let w = seq_index_for(t, k);
            let a: int = if w < p {
                w
            } else if w == p {
                len - 1
            } else {
                w - 1
            };
            assert(t[w] == s[a]);
            assert(eqv(s[a].0, k));
            assert(seq_contains_key(s, k));
        }
    }
}

} // verus!
