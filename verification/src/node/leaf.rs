//! Leaf nodes: the sorted key/value pairs themselves.

use vstd::prelude::*;

use crate::node::{
    entries_above, entries_below, find_slot, has_key, key_le, lemma_map_of_dom,
    lemma_map_of_index, lemma_map_of_insert_at, lemma_map_of_remove_at, lemma_map_of_update,
    map_of, pairs_view, sorted_entries, InsertOutcome, Node, NodeError,
};
use crate::order::{KeyCmp, TreeKey, TreeValue};

verus! {

/// A leaf: key/value pairs in strictly ascending key order.
pub struct LeafNode<K, V> {
    pub kv_series: Vec<(K, V)>,
}

impl<K: TreeKey, V: TreeValue> LeafNode<K, V> {
    /// The views of the pairs held here.
    pub open spec fn entries(self) -> Seq<(K::V, V::V)> {
        pairs_view::<K, V>(self.kv_series@)
    }

    /// Keys strictly ascending.
    pub open spec fn ordered(self) -> bool {
        sorted_entries::<K, V>(self.entries())
    }

    /// The map described by this leaf.
    pub open spec fn as_map(self) -> Map<K::V, V::V> {
        map_of::<K, V>(self.entries())
    }

    pub fn new(kv_series: Vec<(K, V)>) -> (r: Self)
        ensures
            r.kv_series == kv_series,
    {
        LeafNode { kv_series }
    }

    proof fn lemma_slot_sorted(self)
        requires
            self.ordered(),
        ensures
            forall|p: int, q: int| 0 <= p < q < self.kv_series@.len() ==> K::key_lt(
                (#[trigger] self.kv_series@[p]).0@,
                (#[trigger] self.kv_series@[q]).0@,
            ),
    {
        assert forall|p: int, q: int| 0 <= p < q < self.kv_series@.len() implies K::key_lt(
            (#[trigger] self.kv_series@[p]).0@,
            (#[trigger] self.kv_series@[q]).0@,
        ) by {
            assert(self.entries()[p] == (self.kv_series@[p].0@, self.kv_series@[p].1@));
            assert(self.entries()[q] == (self.kv_series@[q].0@, self.kv_series@[q].1@));
        }
    }

    /// When the probe key sits strictly inside no slot, it is absent.
    proof fn lemma_absent(self, k: K::V, i: int)
        requires
            self.ordered(),
            0 <= i <= self.entries().len(),
            forall|j: int| 0 <= j < i ==> K::key_lt((#[trigger] self.kv_series@[j]).0@, k),
            i < self.entries().len() ==> K::key_lt(k, self.kv_series@[i].0@),
        ensures
            !self.as_map().contains_key(k),
    {
        assert forall|j: int| 0 <= j < self.entries().len() implies (
        #[trigger] self.entries()[j]).0 != k by {
            assert(self.entries()[j] == (self.kv_series@[j].0@, self.kv_series@[j].1@));
            if j < i {
                K::lemma_lt_trichotomy(self.kv_series@[j].0@, k);
            } else if j == i {
                K::lemma_lt_trichotomy(k, self.kv_series@[i].0@);
            } else {
                self.lemma_slot_sorted();
                K::lemma_lt_transitive(k, self.kv_series@[i].0@, self.kv_series@[j].0@);
                K::lemma_lt_trichotomy(k, self.kv_series@[j].0@);
            }
        }
        lemma_map_of_dom::<K, V>(self.entries(), k);
    }

    pub fn find(&self, key: &K) -> (r: Option<&V>)
        requires
            self.ordered(),
        ensures
            (match r {
                Some(v) => self.as_map().contains_key(key@) && v@ == self.as_map()[key@],
                None => !self.as_map().contains_key(key@),
            }),
    {
        proof {
            self.lemma_slot_sorted();
        }
        let i = find_slot(&self.kv_series, key);
        if i < self.kv_series.len() {
            match self.kv_series[i].0.key_cmp(key) {
                KeyCmp::Equal => {
                    proof {
                        assert(self.entries()[i as int] == (
                            self.kv_series@[i as int].0@,
                            self.kv_series@[i as int].1@,
                        ));
                        lemma_map_of_index::<K, V>(self.entries(), i as int);
                    }
                    Some(&self.kv_series[i].1)
                },
                _ => {
                    proof {
                        self.lemma_absent(key@, i as int);
                    }
                    None
                },
            }
        } else {
            proof {
                self.lemma_absent(key@, i as int);
            }
            None
        }
    }

    #[verifier::rlimit(100)]
    pub fn insert(&mut self, key: &K, value: V, allow_upsert: bool, n: usize) -> (r: Result<
        InsertOutcome<K, V>,
        NodeError,
    >)
        requires
            old(self).ordered(),
            old(self).entries().len() <= n,
            1 <= n <= usize::MAX - 3,
        ensures
            (match r {
                Ok(InsertOutcome::Done) => {
                    &&& final(self).ordered()
                    &&& final(self).entries().len() <= n
                    &&& final(self).entries().len() <= old(self).entries().len() + 1
                    &&& final(self).as_map() == old(self).as_map().insert(key@, value@)
                },
                Ok(InsertOutcome::Split(lo, hi, right)) => {
                    &&& final(self).ordered()
                    &&& right.ordered()
                    &&& right.capped(n as nat)
                    &&& 1 <= final(self).entries().len() <= n
                    &&& 1 <= right.entries().len()
                    &&& final(self).entries().len() == (old(self).entries().len() + 2) / 2
                    &&& entries_below::<K, V>(final(self).entries(), lo@)
                    &&& right.keys_above(lo@)
                    &&& right.keys_below(hi@)
                    &&& K::key_lt(lo@, hi@)
                    &&& lo@ == final(self).entries().last().0
                    &&& hi@ == right.entries().last().0
                    &&& has_key::<K, V>(final(self).entries(), lo@)
                    &&& has_key::<K, V>(right.entries(), hi@)
                    &&& right.seps_attained()
                    &&& map_of::<K, V>(final(self).entries() + right.entries()) == old(
                        self,
                    ).as_map().insert(key@, value@)
                },
                Err(e) => {
                    &&& e == NodeError::Duplicated
                    &&& !allow_upsert
                    &&& old(self).as_map().contains_key(key@)
                    &&& *final(self) == *old(self)
                },
            }),
            (r is Err) <==> (old(self).as_map().contains_key(key@) && !allow_upsert),
            (r matches Ok(InsertOutcome::Split(_, _, _))) <==> (!old(self).as_map().contains_key(
                key@,
            ) && old(self).entries().len() == n),
    {
        proof {
            self.lemma_slot_sorted();
        }
        let i = find_slot(&self.kv_series, key);
        let ghost old_entries = self.entries();
        let mut hit = false;
        if i < self.kv_series.len() {
            match self.kv_series[i].0.key_cmp(key) {
                KeyCmp::Equal => {
                    hit = true;
                },
                _ => {},
            }
        }
        if hit {
            proof {
                assert(old_entries[i as int] == (
                    self.kv_series@[i as int].0@,
                    self.kv_series@[i as int].1@,
                ));
                lemma_map_of_index::<K, V>(old_entries, i as int);
            }
            if allow_upsert {
                self.kv_series.remove(i);
                self.kv_series.insert(i, (key.dup(), value));
                proof {
                    assert(self.entries() =~= old_entries.update(i as int, (key@, value@)));
                    lemma_map_of_update::<K, V>(old_entries, i as int, key@, value@);
                    assert forall|p: int, q: int|
                        0 <= p < q < self.entries().len() implies K::key_lt(
                        (#[trigger] self.entries()[p]).0,
                        (#[trigger] self.entries()[q]).0,
                    ) by {
                        assert(self.entries()[p].0 == old_entries[p].0);
                        assert(self.entries()[q].0 == old_entries[q].0);
                    }
                }
                Ok(InsertOutcome::Done)
            } else {
                Err(NodeError::Duplicated)
            }
        } else {
            proof {
                if i < self.kv_series.len() {
                    K::lemma_lt_trichotomy(self.kv_series@[i as int].0@, key@);
                }
                self.lemma_absent(key@, i as int);
            }
            self.kv_series.insert(i, (key.dup(), value));
            let ghost ins = old_entries.insert(i as int, (key@, value@));
            proof {
                assert(self.entries() =~= ins);
                lemma_map_of_dom::<K, V>(old_entries, key@);
                lemma_map_of_insert_at::<K, V>(old_entries, i as int, key@, value@);
                assert forall|p: int, q: int| 0 <= p < q < ins.len() implies K::key_lt(
                    (#[trigger] ins[p]).0,
                    (#[trigger] ins[q]).0,
                ) by {
                    let iv = i as int;
                    if q < iv {
                        assert(ins[p] == old_entries[p]);
                        assert(ins[q] == old_entries[q]);
                    } else if p < iv && q == iv {
                        assert(ins[p] == old_entries[p]);
                        assert(old_entries[p].0 == self.kv_series@[p].0@) by {
                            assert(old_entries[p] == (old(self).kv_series@[p].0@, old(
                                self,
                            ).kv_series@[p].1@));
                        }
                    } else if p < iv && q > iv {
                        assert(ins[p] == old_entries[p]);
                        assert(ins[q] == old_entries[q - 1]);
                        if p == q - 1 {
                        } else {
                        }
                    } else if p == iv {
                        assert(ins[q] == old_entries[q - 1]);
                        assert(old_entries[q - 1] == (old(self).kv_series@[q - 1].0@, old(
                            self,
                        ).kv_series@[q - 1].1@));
                        assert(!K::key_lt(old(self).kv_series@[q - 1].0@, key@));
                        assert(old_entries[q - 1].0 != key@) by {
                            lemma_map_of_dom::<K, V>(old_entries, key@);
                        }
                        K::lemma_lt_trichotomy(key@, old_entries[q - 1].0);
                    } else {
                        assert(ins[p] == old_entries[p - 1]);
                        assert(ins[q] == old_entries[q - 1]);
                    }
                }
                assert(sorted_entries::<K, V>(self.entries()));
            }
            if self.kv_series.len() > n {
                let m = (self.kv_series.len() + 1) / 2;
                let second = self.kv_series.split_off(m);
                let lo = self.kv_series[self.kv_series.len() - 1].0.dup();
                let hi = second[second.len() - 1].0.dup();
                let right = LeafNode { kv_series: second };
                proof {
                    let mv = m as int;
                    let left_e = self.entries();
                    let right_e = right.entries();
                    assert(left_e =~= ins.subrange(0, mv));
                    assert(right_e =~= ins.subrange(mv, ins.len() as int));
                    assert(left_e + right_e =~= ins);
                    assert(lo@ == ins[mv - 1].0) by {
                        assert(left_e[mv - 1] == (self.kv_series@[mv - 1].0@, self.kv_series@[mv
                            - 1].1@));
                    }
                    assert(hi@ == ins.last().0) by {
                        assert(right_e[right_e.len() - 1] == (
                            right.kv_series@[right_e.len() - 1].0@,
                            right.kv_series@[right_e.len() - 1].1@,
                        ));
                    }
                    assert forall|j: int| 0 <= j < left_e.len() implies key_le::<K>(
                        (#[trigger] left_e[j]).0,
                        lo@,
                    ) by {
                        assert(left_e[j] == ins[j]);
                    }
                    assert forall|j: int| 0 <= j < right_e.len() implies K::key_lt(
                        lo@,
                        (#[trigger] right_e[j]).0,
                    ) by {
                        assert(right_e[j] == ins[mv + j]);
                    }
                    assert forall|j: int| 0 <= j < right_e.len() implies key_le::<K>(
                        (#[trigger] right_e[j]).0,
                        hi@,
                    ) by {
                        assert(right_e[j] == ins[mv + j]);
                    }
                    // both bound keys are attained: they are the last keys
                    assert(left_e[left_e.len() - 1].0 == lo@);
                    assert(right_e[right_e.len() - 1].0 == hi@);
                    assert(Node::<K, V>::Leaf(right).seps_attained());
                }
                Ok(InsertOutcome::Split(lo, hi, Node::Leaf(right)))
            } else {
                Ok(InsertOutcome::Done)
            }
        }
    }

    pub fn update(&mut self, key: &K, value: V) -> (r: Result<(), NodeError>)
        requires
            old(self).ordered(),
        ensures
            (match r {
                Ok(_) => {
                    &&& old(self).as_map().contains_key(key@)
                    &&& final(self).ordered()
                    &&& final(self).entries().len() == old(self).entries().len()
                    &&& final(self).as_map() == old(self).as_map().insert(key@, value@)
                },
                Err(e) => {
                    &&& e == NodeError::NotFound
                    &&& !old(self).as_map().contains_key(key@)
                    &&& *final(self) == *old(self)
                },
            }),
    {
        proof {
            self.lemma_slot_sorted();
        }
        let i = find_slot(&self.kv_series, key);
        let ghost old_entries = self.entries();
        let mut hit = false;
        if i < self.kv_series.len() {
            match self.kv_series[i].0.key_cmp(key) {
                KeyCmp::Equal => {
                    hit = true;
                },
                _ => {
                    proof {
                        K::lemma_lt_trichotomy(self.kv_series@[i as int].0@, key@);
                    }
                },
            }
        }
        if hit {
            proof {
                assert(old_entries[i as int] == (
                    self.kv_series@[i as int].0@,
                    self.kv_series@[i as int].1@,
                ));
                lemma_map_of_index::<K, V>(old_entries, i as int);
            }
            self.kv_series.remove(i);
            self.kv_series.insert(i, (key.dup(), value));
            proof {
                assert(self.entries() =~= old_entries.update(i as int, (key@, value@)));
                lemma_map_of_update::<K, V>(old_entries, i as int, key@, value@);
                assert forall|p: int, q: int| 0 <= p < q < self.entries().len() implies K::key_lt(
                    (#[trigger] self.entries()[p]).0,
                    (#[trigger] self.entries()[q]).0,
                ) by {
                    assert(self.entries()[p].0 == old_entries[p].0);
                    assert(self.entries()[q].0 == old_entries[q].0);
                }
            }
            Ok(())
        } else {
            proof {
                self.lemma_absent(key@, i as int);
            }
            Err(NodeError::NotFound)
        }
    }

    pub fn remove(&mut self, key: &K) -> (r: Result<(), NodeError>)
        requires
            old(self).ordered(),
        ensures
            (match r {
                Ok(_) => {
                    &&& old(self).as_map().contains_key(key@)
                    &&& final(self).ordered()
                    &&& final(self).entries().len() == old(self).entries().len() - 1
                    &&& final(self).as_map() == old(self).as_map().remove(key@)
                },
                Err(e) => {
                    &&& e == NodeError::NotFound
                    &&& !old(self).as_map().contains_key(key@)
                    &&& *final(self) == *old(self)
                },
            }),
    {
        proof {
            self.lemma_slot_sorted();
        }
        let i = find_slot(&self.kv_series, key);
        let ghost old_entries = self.entries();
        let mut hit = false;
        if i < self.kv_series.len() {
            match self.kv_series[i].0.key_cmp(key) {
                KeyCmp::Equal => {
                    hit = true;
                },
                _ => {
                    proof {
                        K::lemma_lt_trichotomy(self.kv_series@[i as int].0@, key@);
                    }
                },
            }
        }
        if hit {
            proof {
                assert(old_entries[i as int] == (
                    self.kv_series@[i as int].0@,
                    self.kv_series@[i as int].1@,
                ));
                lemma_map_of_index::<K, V>(old_entries, i as int);
                lemma_map_of_remove_at::<K, V>(old_entries, i as int);
            }
            self.kv_series.remove(i);
            proof {
                assert(self.entries() =~= old_entries.remove(i as int));
                assert forall|p: int, q: int| 0 <= p < q < self.entries().len() implies K::key_lt(
                    (#[trigger] self.entries()[p]).0,
                    (#[trigger] self.entries()[q]).0,
                ) by {
                    let iv = i as int;
                    if q < iv {
                        assert(self.entries()[p] == old_entries[p]);
                        assert(self.entries()[q] == old_entries[q]);
                    } else if p < iv && q >= iv {
                        assert(self.entries()[p] == old_entries[p]);
                        assert(self.entries()[q] == old_entries[q + 1]);
                    } else {
                        assert(self.entries()[p] == old_entries[p + 1]);
                        assert(self.entries()[q] == old_entries[q + 1]);
                    }
                }
            }
            Ok(())
        } else {
            proof {
                self.lemma_absent(key@, i as int);
            }
            Err(NodeError::NotFound)
        }
    }

    pub fn collect(&self) -> (r: Vec<(K, V)>)
        ensures
            pairs_view::<K, V>(r@) == self.entries(),
    {
        let mut out: Vec<(K, V)> = Vec::new();
        let mut idx: usize = 0;
        while idx < self.kv_series.len()
            invariant
                0 <= idx <= self.kv_series@.len(),
                out@.len() == idx,
                forall|j: int| 0 <= j < idx ==> (#[trigger] out@[j]).0@ == self.kv_series@[j].0@
                    && out@[j].1@ == self.kv_series@[j].1@,
            decreases self.kv_series@.len() - idx,
        {
            out.push((self.kv_series[idx].0.dup(), self.kv_series[idx].1.dup()));
            idx = idx + 1;
        }
        proof {
            assert(pairs_view::<K, V>(out@) =~= self.entries());
        }
        out
    }
}

} // verus!
