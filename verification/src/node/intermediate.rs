//! Intermediate nodes: separator-keyed children and recursive dispatch.

use vstd::prelude::*;

use crate::node::{
    entries_above, entries_below, find_slot, has_key, key_le, lemma_above_excludes,
    lemma_below_excludes, lemma_concat_remove_middle,
    lemma_capped_children_halves, lemma_capped_children_index, lemma_capped_children_update,
    lemma_capped_children_widen, lemma_child_window, lemma_children_above_halves,
    lemma_children_above_index, lemma_children_above_update, lemma_children_above_widen,
    lemma_children_below_halves, lemma_children_below_index, lemma_children_below_update,
    lemma_children_below_widen, lemma_concat_insert_middle, lemma_dispatch_agrees,
    lemma_children_attained_halves, lemma_children_attained_index,
    lemma_children_attained_update, lemma_children_attained_widen, lemma_entries_of_split,
    lemma_keys_above_mono, lemma_keys_below_entries,
    lemma_keys_below_mono, lemma_map_of_dom, lemma_ordered_children_halves,
    lemma_ordered_children_index, lemma_ordered_children_update, lemma_ordered_children_widen,
    lemma_separators_sorted, map_of, pairs_view, InsertOutcome, LeafNode, Node, NodeError,
};
use crate::order::{KeyCmp, TreeKey, TreeValue};

verus! {

/// An intermediate node: children in strictly ascending separator order;
/// every key and separator in a child's subtree is at most the child's
/// separator and strictly above the previous child's separator.
pub struct IntermediateNode<K, V> {
    pub children: Vec<(K, Node<K, V>)>,
}

impl<K: TreeKey, V: TreeValue> IntermediateNode<K, V> {
    /// The key/value pairs held below this node, in tree order.
    pub open spec fn entries(self) -> Seq<(K::V, V::V)> {
        Node::<K, V>::entries_of(self.children@)
    }

    /// Separator discipline of the children.
    pub open spec fn ordered(self) -> bool {
        Node::<K, V>::ordered_children(self.children@)
    }

    /// Capacity: at most `n + 1` children here, and `n` or `n + 1` below.
    pub open spec fn capped(self, n: nat) -> bool {
        self.children@.len() <= n + 1 && Node::<K, V>::capped_children(self.children@, n)
    }

    /// The map described by this subtree.
    pub open spec fn as_map(self) -> Map<K::V, V::V> {
        map_of::<K, V>(self.entries())
    }

    /// Every key and separator below this node is at most `b`.
    pub open spec fn keys_below(self, b: K::V) -> bool {
        Node::<K, V>::children_below(self.children@, b)
    }

    /// Every key and separator below this node is strictly above `b`.
    pub open spec fn keys_above(self, b: K::V) -> bool {
        Node::<K, V>::children_above(self.children@, b)
    }

    /// Every separator below this node is attained by a key of its child's
    /// subtree. Kept by insertions; a removal may leave a separator behind
    /// as a mere upper bound.
    pub open spec fn seps_attained(self) -> bool {
        Node::<K, V>::children_attained(self.children@)
    }

    pub fn new(children: Vec<(K, Node<K, V>)>) -> (r: Self)
        ensures
            r.children == children,
    {
        IntermediateNode { children }
    }

    proof fn lemma_slot_sorted(self)
        requires
            self.ordered(),
        ensures
            forall|p: int, q: int| 0 <= p < q < self.children@.len() ==> K::key_lt(
                (#[trigger] self.children@[p]).0@,
                (#[trigger] self.children@[q]).0@,
            ),
    {
        assert forall|p: int, q: int| 0 <= p < q < self.children@.len() implies K::key_lt(
            (#[trigger] self.children@[p]).0@,
            (#[trigger] self.children@[q]).0@,
        ) by {
            lemma_separators_sorted::<K, V>(self.children@, p, q);
        }
    }

    /// Index of the child responsible for `key`: the first child whose
    /// separator is at or above it, or the last child when every separator
    /// is below it.
    pub fn get_child_index(&self, key: &K) -> (i: usize)
        requires
            self.ordered(),
            self.children@.len() > 0,
        ensures
            0 <= i < self.children@.len(),
            forall|j: int| 0 <= j < i ==> K::key_lt((#[trigger] self.children@[j]).0@, key@),
            i < self.children@.len() - 1 ==> !K::key_lt(self.children@[i as int].0@, key@),
    {
        proof {
            self.lemma_slot_sorted();
        }
        let i0 = find_slot(&self.children, key);
        if i0 == self.children.len() {
            i0 - 1
        } else {
            i0
        }
    }

    /// Insert into the child responsible for `key`, absorbing or propagating
    /// splits, and keep the separator discipline intact.
    #[verifier::spinoff_prover]
    #[verifier::rlimit(100)]
    pub fn insert(&mut self, key: &K, value: V, allow_upsert: bool, n: usize) -> (r: Result<
        InsertOutcome<K, V>,
        NodeError,
    >)
        requires
            old(self).ordered(),
            old(self).capped(n as nat),
            1 <= n <= usize::MAX - 3,
        ensures
            (match r {
                Ok(InsertOutcome::Done) => {
                    &&& final(self).ordered()
                    &&& final(self).capped(n as nat)
                    &&& final(self).as_map() == old(self).as_map().insert(key@, value@)
                    &&& (old(self).seps_attained() ==> final(self).seps_attained())
                    &&& (forall|f: K::V|
                        #[trigger] old(self).keys_above(f) && K::key_lt(f, key@) ==> final(self).keys_above(f))
                    &&& (forall|f: K::V|
                        #[trigger] old(self).keys_below(f) && key_le::<K>(key@, f) ==> final(self).keys_below(f))
                },
                Ok(InsertOutcome::Split(lo, hi, right)) => {
                    &&& final(self).ordered()
                    &&& right.ordered()
                    &&& final(self).capped(n as nat)
                    &&& right.capped(n as nat)
                    &&& final(self).keys_below(lo@)
                    &&& right.keys_above(lo@)
                    &&& right.keys_below(hi@)
                    &&& K::key_lt(lo@, hi@)
                    &&& old(self).children@.len() == n + 1
                    &&& final(self).children@.len() == (old(self).children@.len() + 2) / 2
                    &&& (old(self).seps_attained() ==> final(self).seps_attained()
                        && right.seps_attained() && has_key::<K, V>(final(self).entries(), lo@)
                        && has_key::<K, V>(right.entries(), hi@))
                    &&& map_of::<K, V>(final(self).entries() + right.entries()) == old(
                        self,
                    ).as_map().insert(key@, value@)
                    &&& (forall|f: K::V|
                        #[trigger] old(self).keys_above(f) && K::key_lt(f, key@) ==> final(self).keys_above(f) && right.keys_above(f) && K::key_lt(f, lo@))
                    &&& (forall|f: K::V|
                        #[trigger] old(self).keys_below(f) && key_le::<K>(key@, f) ==> final(self).keys_below(f) && right.keys_below(f) && key_le::<K>(hi@, f))
                },
                Err(e) => {
                    &&& e == NodeError::Duplicated
                    &&& !allow_upsert
                    &&& old(self).as_map().contains_key(key@)
                    &&& final(self).ordered()
                    &&& final(self).capped(n as nat)
                    &&& final(self).entries() == old(self).entries()
                    &&& (old(self).seps_attained() ==> final(self).seps_attained())
                    &&& (forall|f: K::V|
                        #[trigger] old(self).keys_above(f) ==> final(self).keys_above(f))
                    &&& (forall|f: K::V|
                        #[trigger] old(self).keys_below(f) ==> final(self).keys_below(f))
                },
            }),
            (r matches Err(_)) <==> (old(self).as_map().contains_key(key@) && !allow_upsert),
            (old(self).children@.len() == 0 ==> {
                &&& r matches Ok(InsertOutcome::Done)
                &&& final(self).children@.len() == 1
                &&& final(self).children@[0].0@ == key@
                &&& final(self).children@[0].1 is Leaf
                &&& final(self).children@[0].1.entries() == seq![(key@, value@)]
            }),
        decreases *old(self),
    {
        let ghost cs = old(self).children@;
        let ghost k = key@;
        let ghost v = value@;
        if self.children.len() == 0 {
            let mut kv: Vec<(K, V)> = Vec::new();
            kv.push((key.dup(), value));
            let leaf = LeafNode::new(kv);
            self.children.push((key.dup(), Node::Leaf(leaf)));
            proof {
                let cs2 = self.children@;
                let child = cs2.last().1;
                assert(cs2.drop_last() =~= Seq::<(K, Node<K, V>)>::empty());
                assert(Node::<K, V>::entries_of(Seq::<(K, Node<K, V>)>::empty())
                    == Seq::<(K::V, V::V)>::empty());
                assert(child.entries() =~= seq![(k, v)]);
                assert(Node::<K, V>::entries_of(cs2) =~= seq![(k, v)]);
                assert(Node::<K, V>::ordered_children(Seq::<(K, Node<K, V>)>::empty()));
                assert(child.ordered());
                assert(entries_below::<K, V>(child.entries(), k));
                assert(self.ordered());
                assert(Node::<K, V>::capped_children(Seq::<(K, Node<K, V>)>::empty(), n as nat));
                assert(child.capped(n as nat));
                assert(self.capped(n as nat));
                assert(Node::<K, V>::entries_of(cs) == Seq::<(K::V, V::V)>::empty());
                assert(map_of::<K, V>(Seq::<(K::V, V::V)>::empty()) == Map::<K::V, V::V>::empty());
                assert(seq![(k, v)].drop_last() =~= Seq::<(K::V, V::V)>::empty());
                assert(map_of::<K, V>(seq![(k, v)]) =~= Map::<K::V, V::V>::empty().insert(k, v));
                assert(self.as_map() == old(self).as_map().insert(k, v));
                assert forall|f: K::V|
                    #[trigger] old(self).keys_above(f) && K::key_lt(f, k) implies self.keys_above(f) by {
                    assert(cs2.last().0@ == k);
                    assert(entries_above::<K, V>(child.entries(), f));
                    assert(child.keys_above(f));
                    assert(Node::<K, V>::children_above(cs2.drop_last(), f));
                    assert(Node::<K, V>::children_above(cs2, f));
                }
                assert forall|f: K::V|
                    #[trigger] old(self).keys_below(f) && key_le::<K>(k, f) implies self.keys_below(f) by {
                    assert(cs2.last().0@ == k);
                    assert(entries_below::<K, V>(child.entries(), f));
                    assert(child.keys_below(f));
                    assert(Node::<K, V>::children_below(cs2.drop_last(), f));
                    assert(Node::<K, V>::children_below(cs2, f));
                }
                lemma_map_of_dom::<K, V>(Node::<K, V>::entries_of(cs), k);
                // the seeded root: one leaf child holding the pair under
                // separator k, its separator attained by that very pair
                assert(cs2[0] == cs2.last());
                assert(cs2[0].1 is Leaf);
                assert(cs2[0].0@ == k);
                assert(cs2[0].1.entries() == seq![(k, v)]);
                assert(has_key::<K, V>(child.entries(), k)) by {
                    assert(child.entries()[0].0 == k);
                }
                assert(child.seps_attained());
                assert(Node::<K, V>::children_attained(cs2.drop_last()));
                assert(Node::<K, V>::children_attained(cs2));
                assert(self.seps_attained());
            }
            return Ok(InsertOutcome::Done);
        }
        let i = self.get_child_index(key);
        proof {
            lemma_ordered_children_index::<K, V>(cs, i as int);
            lemma_capped_children_index::<K, V>(cs, n as nat, i as int);
            lemma_dispatch_agrees::<K, V>(cs, i as int, k);
        }
        let ghost sepv = cs[i as int].0@;
        let ghost childv = cs[i as int].1;
        let (sep, child) = self.children.remove(i);
        let c = sep.key_cmp(key);
        let new_sep = match c {
            KeyCmp::Less => key.dup(),
            KeyCmp::Equal => sep,
            KeyCmp::Greater => sep,
        };
        proof {
            assert(key_le::<K>(sepv, new_sep@));
            assert(key_le::<K>(k, new_sep@)) by {
                if !K::key_lt(sepv, k) {
                    K::lemma_lt_trichotomy(sepv, k);
                }
            }
            K::lemma_lt_trichotomy(sepv, k);
            assert(K::key_lt(sepv, k) ==> new_sep@ == k);
            assert(!K::key_lt(sepv, k) ==> new_sep@ == sepv);
            if (i as int) < cs.len() - 1 {
                assert(new_sep@ == sepv);
            }
            assert(decreases_to!(*old(self) => childv));
        }
        let (child2, rc) = child.insert_owned(key, value, allow_upsert, n);
        match rc {
            Err(e) => {
                self.children.insert(i, (new_sep, child2));
                proof {
                    let iv = i as int;
                    let cs2 = self.children@;
                    assert(cs2 =~= cs.update(iv, (new_sep, child2)));
                    // the duplicate key sits at or below the old separator,
                    // so the separator was not raised
                    lemma_keys_below_entries::<K, V>(childv, sepv);
                    lemma_map_of_dom::<K, V>(childv.entries(), k);
                    let j = choose|j: int|
                        0 <= j < childv.entries().len() && (#[trigger] childv.entries()[j]).0 == k;
                    assert(key_le::<K>(k, sepv));
                    assert(new_sep@ == sepv) by {
                        if K::key_lt(sepv, k) {
                            if k == sepv {
                                K::lemma_lt_trichotomy(sepv, k);
                            } else {
                                K::lemma_lt_transitive(sepv, k, sepv);
                                K::lemma_lt_trichotomy(sepv, sepv);
                            }
                        }
                    }
                    assert(childv.keys_below(sepv));
                    assert(child2.keys_below(sepv));
                    if iv > 0 {
                        lemma_separators_sorted::<K, V>(cs, iv - 1, iv);
                        assert(childv.keys_above(cs[iv - 1].0@));
                        assert(child2.keys_above(cs[iv - 1].0@));
                    }
                    if iv < cs.len() - 1 {
                        lemma_separators_sorted::<K, V>(cs, iv, iv + 1);
                        lemma_ordered_children_index::<K, V>(cs, iv + 1);
                    }
                    lemma_ordered_children_update::<K, V>(cs, cs2, iv);
                    lemma_capped_children_update::<K, V>(cs, cs2, iv, n as nat);
                    lemma_child_window::<K, V>(cs, iv);
                    lemma_child_window::<K, V>(cs2, iv);
                    assert(cs2.take(iv) =~= cs.take(iv));
                    assert(cs2.skip(iv + 1) =~= cs.skip(iv + 1));
                    assert(Node::<K, V>::entries_of(cs2) == Node::<K, V>::entries_of(cs));
                    assert forall|f: K::V| #[trigger] old(self).keys_above(f) implies self.keys_above(f) by {
                        lemma_children_above_index::<K, V>(cs, f, iv);
                        assert(childv.keys_above(f));
                        lemma_children_above_update::<K, V>(cs, cs2, iv, f);
                    }
                    assert forall|f: K::V| #[trigger] old(self).keys_below(f) implies self.keys_below(f) by {
                        lemma_children_below_index::<K, V>(cs, f, iv);
                        assert(childv.keys_below(f));
                        lemma_children_below_update::<K, V>(cs, cs2, iv, f);
                    }
                    if old(self).seps_attained() {
                        lemma_children_attained_index::<K, V>(cs, iv);
                        assert(childv.seps_attained());
                        assert(child2.entries() == childv.entries());
                        lemma_children_attained_update::<K, V>(cs, cs2, iv);
                    }
                }
                Err(e)
            },
            Ok(InsertOutcome::Done) => {
                self.children.insert(i, (new_sep, child2));
                proof {
                    let iv = i as int;
                    let cs2 = self.children@;
                    let nsv = new_sep@;
                    assert(cs2 =~= cs.update(iv, (new_sep, child2)));
                    assert(childv.keys_below(nsv)) by {
                        lemma_keys_below_mono::<K, V>(childv, sepv, nsv);
                    }
                    assert(child2.keys_below(nsv));
                    if iv > 0 {
                        lemma_separators_sorted::<K, V>(cs, iv - 1, iv);
                        assert(K::key_lt(cs[iv - 1].0@, nsv)) by {
                            if nsv != sepv {
                                assert(K::key_lt(cs[iv - 1].0@, k));
                            }
                        }
                        assert(childv.keys_above(cs[iv - 1].0@));
                        assert(child2.keys_above(cs[iv - 1].0@));
                    }
                    if iv < cs.len() - 1 {
                        assert(nsv == sepv);
                        lemma_separators_sorted::<K, V>(cs, iv, iv + 1);
                        lemma_ordered_children_index::<K, V>(cs, iv + 1);
                    }
                    lemma_ordered_children_update::<K, V>(cs, cs2, iv);
                    lemma_capped_children_update::<K, V>(cs, cs2, iv, n as nat);
                    // the map gains exactly (k, v)
                    lemma_child_window::<K, V>(cs, iv);
                    lemma_child_window::<K, V>(cs2, iv);
                    assert(cs2.take(iv) =~= cs.take(iv));
                    assert(cs2.skip(iv + 1) =~= cs.skip(iv + 1));
                    let a = Node::<K, V>::entries_of(cs.take(iv));
                    let cme = childv.entries();
                    let b = Node::<K, V>::entries_of(cs.skip(iv + 1));
                    assert(!has_key::<K, V>(b, k)) by {
                        if iv < cs.len() - 1 {
                            lemma_above_excludes::<K, V>(b, sepv, k);
                        } else {
                            assert(cs.skip(iv + 1) =~= Seq::<(K, Node<K, V>)>::empty());
                            assert(b == Seq::<(K::V, V::V)>::empty());
                        }
                    }
                    lemma_concat_insert_middle::<K, V>(a, cme, b, child2.entries(), k, v);
                    assert(self.as_map() == old(self).as_map().insert(k, v));
                    assert forall|f: K::V|
                        #[trigger] old(self).keys_above(f) && K::key_lt(f, k) implies self.keys_above(f) by {
                        lemma_children_above_index::<K, V>(cs, f, iv);
                        assert(childv.keys_above(f));
                        assert(K::key_lt(f, nsv)) by {
                            if nsv != sepv {
                                assert(nsv == k);
                            }
                        }
                        lemma_children_above_update::<K, V>(cs, cs2, iv, f);
                    }
                    assert forall|f: K::V|
                        #[trigger] old(self).keys_below(f) && key_le::<K>(k, f) implies self.keys_below(f) by {
                        lemma_children_below_index::<K, V>(cs, f, iv);
                        assert(childv.keys_below(f));
                        assert(key_le::<K>(nsv, f)) by {
                            if nsv != sepv {
                                assert(nsv == k);
                            }
                        }
                        lemma_children_below_update::<K, V>(cs, cs2, iv, f);
                    }
                    if old(self).seps_attained() {
                        lemma_children_attained_index::<K, V>(cs, iv);
                        assert(childv.seps_attained());
                        assert(child2.seps_attained());
                        // the raised separator stays attained: either it is
                        // the new key, or the old attained separator persists
                        assert(has_key::<K, V>(child2.entries(), nsv)) by {
                            assert(map_of::<K, V>(child2.entries()).contains_key(nsv)) by {
                                if nsv != k {
                                    assert(nsv == sepv);
                                    lemma_map_of_dom::<K, V>(childv.entries(), sepv);
                                }
                            }
                            lemma_map_of_dom::<K, V>(child2.entries(), nsv);
                        }
                        lemma_children_attained_update::<K, V>(cs, cs2, iv);
                    }
                }
                Ok(InsertOutcome::Done)
            },
            Ok(InsertOutcome::Split(lo, hi, right)) => {
                let ghost lov = lo@;
                let ghost hiv = hi@;
                let ghost rightv = right;
                self.children.insert(i, (lo, child2));
                self.children.insert(i + 1, (hi, right));
                proof {
                    let iv = i as int;
                    let cs3 = self.children@;
                    assert(cs3.len() == cs.len() + 1);
                    assert(cs3[iv].1 == child2 && cs3[iv].0@ == lov);
                    assert(cs3[iv + 1].1 == rightv && cs3[iv + 1].0@ == hiv);
                    assert forall|j2: int| 0 <= j2 < iv implies cs3[j2] == cs[j2] by {}
                    assert forall|j2: int| iv + 1 < j2 < cs3.len() implies cs3[j2] == cs[j2
                        - 1] by {}
                    if iv > 0 {
                        lemma_separators_sorted::<K, V>(cs, iv - 1, iv);
                        assert(K::key_lt(cs[iv - 1].0@, k));
                        assert(childv.keys_above(cs[iv - 1].0@));
                        assert(child2.keys_above(cs[iv - 1].0@) && rightv.keys_above(cs[iv - 1].0@)
                            && K::key_lt(cs[iv - 1].0@, lov));
                    }
                    if iv < cs.len() - 1 {
                        lemma_separators_sorted::<K, V>(cs, iv, iv + 1);
                        assert(childv.keys_below(sepv));
                        assert(key_le::<K>(k, sepv)) by {
                            K::lemma_lt_trichotomy(sepv, k);
                        }
                        assert(child2.keys_below(sepv) && rightv.keys_below(sepv) && key_le::<K>(
                            hiv,
                            sepv,
                        ));
                        assert(K::key_lt(hiv, cs[iv + 1].0@)) by {
                            if hiv != sepv {
                                K::lemma_lt_transitive(hiv, sepv, cs[iv + 1].0@);
                            }
                        }
                        lemma_ordered_children_index::<K, V>(cs, iv + 1);
                        lemma_keys_above_mono::<K, V>(cs[iv + 1].1, sepv, hiv);
                    }
                    lemma_ordered_children_widen::<K, V>(cs, cs3, iv);
                    lemma_capped_children_widen::<K, V>(cs, cs3, iv, n as nat);
                    Self::lemma_absorb_entries(cs, cs3, iv, k, v);
                    assert(map_of::<K, V>(Node::<K, V>::entries_of(cs3)) == old(
                        self,
                    ).as_map().insert(k, v));
                    if old(self).seps_attained() {
                        lemma_children_attained_index::<K, V>(cs, iv);
                        assert(childv.seps_attained());
                        lemma_children_attained_widen::<K, V>(cs, cs3, iv);
                    }
                }
                let ghost csmid = self.children@;
                if self.children.len() > n + 1 {
                    let m = (self.children.len() + 1) / 2;
                    let second = self.children.split_off(m);
                    let lo2 = self.children[self.children.len() - 1].0.dup();
                    let hi2 = second[second.len() - 1].0.dup();
                    let right_node = IntermediateNode { children: second };
                    proof {
                        let iv = i as int;
                        let mv = m as int;
                        let cs1 = self.children@;
                        let cs2b = right_node.children@;
                        assert(cs1 =~= csmid.take(mv));
                        assert(cs2b =~= csmid.skip(mv));
                        assert(lo2@ == csmid[mv - 1].0@);
                        assert(hi2@ == csmid.last().0@);
                        lemma_ordered_children_halves::<K, V>(csmid, mv);
                        lemma_capped_children_halves::<K, V>(csmid, mv, n as nat);
                        lemma_separators_sorted::<K, V>(csmid, mv - 1, csmid.len() - 1);
                        lemma_entries_of_split::<K, V>(csmid, mv);
                        assert(self.entries() + Node::<K, V>::Intermediate(
                            right_node,
                        ).entries() == Node::<K, V>::entries_of(csmid));
                        assert forall|f: K::V|
                            #[trigger] old(self).keys_above(f) && K::key_lt(f, k) implies self.keys_above(f) && Node::<K, V>::Intermediate(right_node).keys_above(f)
                            && K::key_lt(f, lo2@) by {
                            lemma_children_above_index::<K, V>(cs, f, iv);
                            assert(childv.keys_above(f));
                            assert(K::key_lt(f, hiv)) by {
                                K::lemma_lt_transitive(f, lov, hiv);
                            }
                            lemma_children_above_widen::<K, V>(cs, csmid, iv, f);
                            lemma_children_above_halves::<K, V>(csmid, mv, f);
                            lemma_children_above_index::<K, V>(csmid, f, mv - 1);
                        }
                        assert forall|f: K::V|
                            #[trigger] old(self).keys_below(f) && key_le::<K>(k, f) implies self.keys_below(f) && Node::<K, V>::Intermediate(right_node).keys_below(f)
                            && key_le::<K>(hi2@, f) by {
                            lemma_children_below_index::<K, V>(cs, f, iv);
                            assert(childv.keys_below(f));
                            assert(key_le::<K>(lov, f)) by {
                                if hiv != f {
                                    K::lemma_lt_transitive(lov, hiv, f);
                                }
                            }
                            lemma_children_below_widen::<K, V>(cs, csmid, iv, f);
                            lemma_children_below_halves::<K, V>(csmid, mv, f);
                            lemma_children_below_index::<K, V>(csmid, f, csmid.len() - 1);
                        }
                        assert(cs1.len() == (cs.len() + 2) / 2);
                        if old(self).seps_attained() {
                            assert(Node::<K, V>::children_attained(csmid));
                            lemma_children_attained_halves::<K, V>(csmid, mv);
                        }
                    }
                    Ok(InsertOutcome::Split(lo2, hi2, Node::Intermediate(right_node)))
                } else {
                    proof {
                        let iv = i as int;
                        assert forall|f: K::V|
                            #[trigger] old(self).keys_above(f) && K::key_lt(f, k) implies self.keys_above(f) by {
                            lemma_children_above_index::<K, V>(cs, f, iv);
                            assert(childv.keys_above(f));
                            assert(K::key_lt(f, hiv)) by {
                                K::lemma_lt_transitive(f, lov, hiv);
                            }
                            lemma_children_above_widen::<K, V>(cs, csmid, iv, f);
                        }
                        assert forall|f: K::V|
                            #[trigger] old(self).keys_below(f) && key_le::<K>(k, f) implies self.keys_below(f) by {
                            lemma_children_below_index::<K, V>(cs, f, iv);
                            assert(childv.keys_below(f));
                            assert(key_le::<K>(lov, f)) by {
                                if hiv != f {
                                    K::lemma_lt_transitive(lov, hiv, f);
                                }
                            }
                            lemma_children_below_widen::<K, V>(cs, csmid, iv, f);
                        }
                    }
                    Ok(InsertOutcome::Done)
                }
            },
        }
    }

    /// Replace the value under an existing key in the responsible child.
    /// Keys and separators stay as they are, so attained separators stay
    /// attained.
    #[verifier::rlimit(100)]
    pub fn update(&mut self, key: &K, value: V) -> (r: Result<(), NodeError>)
        requires
            old(self).ordered(),
        ensures
            final(self).ordered(),
            old(self).seps_attained() ==> final(self).seps_attained(),
            (forall|nn: nat| old(self).capped(nn) ==> #[trigger] final(self).capped(nn)),
            (forall|f: K::V| #[trigger] old(self).keys_above(f) ==> final(self).keys_above(f)),
            (forall|f: K::V| #[trigger] old(self).keys_below(f) ==> final(self).keys_below(f)),
            (match r {
                Ok(_) => old(self).as_map().contains_key(key@) && final(self).as_map() == old(
                    self,
                ).as_map().insert(key@, value@),
                Err(e) => e == NodeError::NotFound && !old(self).as_map().contains_key(key@)
                    && final(self).entries() == old(self).entries(),
            }),
            (r matches Err(_)) <==> !old(self).as_map().contains_key(key@),
        decreases *old(self),
    {
        let ghost cs = old(self).children@;
        let ghost k = key@;
        let ghost v = value@;
        if self.children.len() == 0 {
            proof {
                assert(Node::<K, V>::entries_of(cs) == Seq::<(K::V, V::V)>::empty());
                lemma_map_of_dom::<K, V>(Node::<K, V>::entries_of(cs), k);
            }
            return Err(NodeError::NotFound);
        }
        let i = self.get_child_index(key);
        proof {
            lemma_ordered_children_index::<K, V>(cs, i as int);
            lemma_dispatch_agrees::<K, V>(cs, i as int, k);
        }
        let ghost sepv = cs[i as int].0@;
        let ghost childv = cs[i as int].1;
        let (sep, child) = self.children.remove(i);
        proof {
            assert(decreases_to!(*old(self) => childv));
        }
        let (child2, rc) = child.update_owned(key, value);
        self.children.insert(i, (sep, child2));
        proof {
            let iv = i as int;
            let cs2 = self.children@;
            assert(cs2 =~= cs.update(iv, (sep, child2)));
            assert(childv.keys_below(sepv));
            assert(child2.keys_below(sepv));
            if iv > 0 {
                lemma_separators_sorted::<K, V>(cs, iv - 1, iv);
                assert(childv.keys_above(cs[iv - 1].0@));
                assert(child2.keys_above(cs[iv - 1].0@));
            }
            if iv < cs.len() - 1 {
                lemma_separators_sorted::<K, V>(cs, iv, iv + 1);
                lemma_ordered_children_index::<K, V>(cs, iv + 1);
            }
            lemma_ordered_children_update::<K, V>(cs, cs2, iv);
            lemma_child_window::<K, V>(cs, iv);
            lemma_child_window::<K, V>(cs2, iv);
            assert(cs2.take(iv) =~= cs.take(iv));
            assert(cs2.skip(iv + 1) =~= cs.skip(iv + 1));
            let a = Node::<K, V>::entries_of(cs.take(iv));
            let b = Node::<K, V>::entries_of(cs.skip(iv + 1));
            if rc is Ok {
                assert(!has_key::<K, V>(b, k)) by {
                    if iv < cs.len() - 1 {
                        lemma_above_excludes::<K, V>(b, sepv, k);
                    } else {
                        assert(cs.skip(iv + 1) =~= Seq::<(K, Node<K, V>)>::empty());
                        assert(b == Seq::<(K::V, V::V)>::empty());
                    }
                }
                lemma_concat_insert_middle::<K, V>(a, childv.entries(), b, child2.entries(), k, v);
            }
            assert forall|nn: nat| old(self).capped(nn) implies #[trigger] self.capped(nn) by {
                lemma_capped_children_index::<K, V>(cs, nn, iv);
                assert(childv.capped(nn));
                lemma_capped_children_update::<K, V>(cs, cs2, iv, nn);
            }
            assert forall|f: K::V| #[trigger] old(self).keys_above(f) implies self.keys_above(
                f,
            ) by {
                lemma_children_above_index::<K, V>(cs, f, iv);
                assert(childv.keys_above(f));
                lemma_children_above_update::<K, V>(cs, cs2, iv, f);
            }
            assert forall|f: K::V| #[trigger] old(self).keys_below(f) implies self.keys_below(
                f,
            ) by {
                lemma_children_below_index::<K, V>(cs, f, iv);
                assert(childv.keys_below(f));
                lemma_children_below_update::<K, V>(cs, cs2, iv, f);
            }
            if old(self).seps_attained() {
                lemma_children_attained_index::<K, V>(cs, iv);
                assert(childv.seps_attained());
                assert(child2.seps_attained());
                assert(has_key::<K, V>(child2.entries(), sepv)) by {
                    if rc is Ok {
                        assert(map_of::<K, V>(child2.entries()).contains_key(sepv)) by {
                            lemma_map_of_dom::<K, V>(childv.entries(), sepv);
                        }
                        lemma_map_of_dom::<K, V>(child2.entries(), sepv);
                    } else {
                        assert(child2.entries() == childv.entries());
                    }
                }
                lemma_children_attained_update::<K, V>(cs, cs2, iv);
            }
        }
        match rc {
            Ok(_) => Ok(()),
            Err(e) => Err(e),
        }
    }

    /// Remove an existing key from the responsible child. The emptied slot,
    /// if any, stays in place: nothing merges, and the separator keeps its
    /// old value, surviving as an upper bound that may no longer be attained.
    #[verifier::rlimit(100)]
    pub fn remove(&mut self, key: &K) -> (r: Result<(), NodeError>)
        requires
            old(self).ordered(),
        ensures
            final(self).ordered(),
            (forall|nn: nat| old(self).capped(nn) ==> #[trigger] final(self).capped(nn)),
            (forall|f: K::V| #[trigger] old(self).keys_above(f) ==> final(self).keys_above(f)),
            (forall|f: K::V| #[trigger] old(self).keys_below(f) ==> final(self).keys_below(f)),
            (match r {
                Ok(_) => old(self).as_map().contains_key(key@) && final(self).as_map() == old(
                    self,
                ).as_map().remove(key@),
                Err(e) => e == NodeError::NotFound && !old(self).as_map().contains_key(key@)
                    && final(self).entries() == old(self).entries(),
            }),
            (r matches Err(_)) <==> !old(self).as_map().contains_key(key@),
        decreases *old(self),
    {
        let ghost cs = old(self).children@;
        let ghost k = key@;
        if self.children.len() == 0 {
            proof {
                assert(Node::<K, V>::entries_of(cs) == Seq::<(K::V, V::V)>::empty());
                lemma_map_of_dom::<K, V>(Node::<K, V>::entries_of(cs), k);
            }
            return Err(NodeError::NotFound);
        }
        let i = self.get_child_index(key);
        proof {
            lemma_ordered_children_index::<K, V>(cs, i as int);
            lemma_dispatch_agrees::<K, V>(cs, i as int, k);
        }
        let ghost sepv = cs[i as int].0@;
        let ghost childv = cs[i as int].1;
        let (sep, child) = self.children.remove(i);
        proof {
            assert(decreases_to!(*old(self) => childv));
        }
        let (child2, rc) = child.remove_owned(key);
        self.children.insert(i, (sep, child2));
        proof {
            let iv = i as int;
            let cs2 = self.children@;
            assert(cs2 =~= cs.update(iv, (sep, child2)));
            assert(childv.keys_below(sepv));
            assert(child2.keys_below(sepv));
            if iv > 0 {
                lemma_separators_sorted::<K, V>(cs, iv - 1, iv);
                assert(childv.keys_above(cs[iv - 1].0@));
                assert(child2.keys_above(cs[iv - 1].0@));
            }
            if iv < cs.len() - 1 {
                lemma_separators_sorted::<K, V>(cs, iv, iv + 1);
                lemma_ordered_children_index::<K, V>(cs, iv + 1);
            }
            lemma_ordered_children_update::<K, V>(cs, cs2, iv);
            lemma_child_window::<K, V>(cs, iv);
            lemma_child_window::<K, V>(cs2, iv);
            assert(cs2.take(iv) =~= cs.take(iv));
            assert(cs2.skip(iv + 1) =~= cs.skip(iv + 1));
            let a = Node::<K, V>::entries_of(cs.take(iv));
            let b = Node::<K, V>::entries_of(cs.skip(iv + 1));
            if rc is Ok {
                assert(!has_key::<K, V>(b, k)) by {
                    if iv < cs.len() - 1 {
                        lemma_above_excludes::<K, V>(b, sepv, k);
                    } else {
                        assert(cs.skip(iv + 1) =~= Seq::<(K, Node<K, V>)>::empty());
                        assert(b == Seq::<(K::V, V::V)>::empty());
                    }
                }
                assert(!has_key::<K, V>(a, k)) by {
                    if iv > 0 {
                        lemma_below_excludes::<K, V>(a, cs[iv - 1].0@, k);
                    } else {
                        assert(cs.take(0int) =~= Seq::<(K, Node<K, V>)>::empty());
                        assert(a == Seq::<(K::V, V::V)>::empty());
                    }
                }
                lemma_concat_remove_middle::<K, V>(a, childv.entries(), b, child2.entries(), k);
            }
            assert forall|nn: nat| old(self).capped(nn) implies #[trigger] self.capped(nn) by {
                lemma_capped_children_index::<K, V>(cs, nn, iv);
                assert(childv.capped(nn));
                lemma_capped_children_update::<K, V>(cs, cs2, iv, nn);
            }
            assert forall|f: K::V| #[trigger] old(self).keys_above(f) implies self.keys_above(
                f,
            ) by {
                lemma_children_above_index::<K, V>(cs, f, iv);
                assert(childv.keys_above(f));
                lemma_children_above_update::<K, V>(cs, cs2, iv, f);
            }
            assert forall|f: K::V| #[trigger] old(self).keys_below(f) implies self.keys_below(
                f,
            ) by {
                lemma_children_below_index::<K, V>(cs, f, iv);
                assert(childv.keys_below(f));
                lemma_children_below_update::<K, V>(cs, cs2, iv, f);
            }
        }
        match rc {
            Ok(_) => Ok(()),
            Err(e) => Err(e),
        }
    }

    /// Clone out every pair below this node, in tree order.
    pub fn collect(&self) -> (r: Vec<(K, V)>)
        ensures
            pairs_view::<K, V>(r@) == self.entries(),
        decreases self,
    {
        let mut out: Vec<(K, V)> = Vec::new();
        proof {
            assert(self.children@.take(0int) =~= Seq::<(K, Node<K, V>)>::empty());
            assert(Node::<K, V>::entries_of(Seq::<(K, Node<K, V>)>::empty())
                == Seq::<(K::V, V::V)>::empty());
            assert(pairs_view::<K, V>(out@) =~= Seq::<(K::V, V::V)>::empty());
        }
        let mut idx: usize = 0;
        while idx < self.children.len()
            invariant
                0 <= idx <= self.children@.len(),
                pairs_view::<K, V>(out@) == Node::<K, V>::entries_of(
                    self.children@.take(idx as int),
                ),
            decreases self.children@.len() - idx,
        {
            let ghost pre = out@;
            let mut part = self.children[idx].1.collect();
            let ghost partv = part@;
            out.append(&mut part);
            proof {
                let t1 = self.children@.take(idx as int + 1);
                assert(t1.drop_last() =~= self.children@.take(idx as int));
                assert(t1.last() == self.children@[idx as int]);
                assert(Node::<K, V>::entries_of(t1) == Node::<K, V>::entries_of(
                    self.children@.take(idx as int),
                ) + self.children@[idx as int].1.entries());
                assert(pairs_view::<K, V>(out@) =~= pairs_view::<K, V>(pre) + pairs_view::<
                    K,
                    V,
                >(partv));
            }
            idx = idx + 1;
        }
        proof {
            assert(self.children@.take(self.children@.len() as int) =~= self.children@);
        }
        out
    }

    /// Replacing child `iv`'s entries by two runs whose combined map gains
    /// `(k, v)` makes the whole run's map gain exactly `(k, v)`.
    proof fn lemma_absorb_entries(cs: Seq<(K, Node<K, V>)>, cs3: Seq<(K, Node<K, V>)>, iv: int, k: K::V, v: V::V)
        requires
            Node::<K, V>::ordered_children(cs),
            0 <= iv < cs.len(),
            cs3.len() == cs.len() + 1,
            forall|j: int| 0 <= j < iv ==> (#[trigger] cs3[j]) == cs[j],
            forall|j: int| iv + 1 < j < cs3.len() ==> (#[trigger] cs3[j]) == cs[j - 1],
            map_of::<K, V>(cs3[iv].1.entries() + cs3[iv + 1].1.entries()) == map_of::<K, V>(
                cs[iv].1.entries(),
            ).insert(k, v),
            iv < cs.len() - 1 ==> !K::key_lt(cs[iv].0@, k),
        ensures
            map_of::<K, V>(Node::<K, V>::entries_of(cs3)) == map_of::<K, V>(
                Node::<K, V>::entries_of(cs),
            ).insert(k, v),
    {
        lemma_child_window::<K, V>(cs, iv);
        lemma_entries_of_split::<K, V>(cs3, iv);
        let d = cs3.skip(iv);
        lemma_entries_of_split::<K, V>(d, 2);
        assert(d.take(2).drop_last() =~= d.take(1));
        assert(d.take(1).drop_last() =~= Seq::<(K, Node<K, V>)>::empty());
        assert(Node::<K, V>::entries_of(Seq::<(K, Node<K, V>)>::empty()) == Seq::<(
            K::V,
            V::V,
        )>::empty());
        assert(d.take(1).last() == cs3[iv]);
        assert(Node::<K, V>::entries_of(d.take(1)) =~= cs3[iv].1.entries());
        assert(d.take(2).last() == cs3[iv + 1]);
        assert(Node::<K, V>::entries_of(d.take(2)) =~= cs3[iv].1.entries()
            + cs3[iv + 1].1.entries());
        assert(d.skip(2) =~= cs.skip(iv + 1));
        assert(cs3.take(iv) =~= cs.take(iv));
        let a = Node::<K, V>::entries_of(cs.take(iv));
        let cme = cs[iv].1.entries();
        let b = Node::<K, V>::entries_of(cs.skip(iv + 1));
        assert(Node::<K, V>::entries_of(cs3) =~= a + (cs3[iv].1.entries()
            + cs3[iv + 1].1.entries()) + b);
        assert(!has_key::<K, V>(b, k)) by {
            if iv < cs.len() - 1 {
                lemma_above_excludes::<K, V>(b, cs[iv].0@, k);
            } else {
                assert(cs.skip(iv + 1) =~= Seq::<(K, Node<K, V>)>::empty());
                assert(b == Seq::<(K::V, V::V)>::empty());
            }
        }
        lemma_concat_insert_middle::<K, V>(a, cme, b, cs3[iv].1.entries() + cs3[iv + 1].1.entries(), k, v);
    }

    pub fn find(&self, key: &K) -> (r: Option<&V>)
        requires
            self.ordered(),
        ensures
            (match r {
                Some(v) => self.as_map().contains_key(key@) && v@ == self.as_map()[key@],
                None => !self.as_map().contains_key(key@),
            }),
        decreases self,
    {
        if self.children.len() == 0 {
            proof {
                assert(self.entries() =~= Seq::<(K::V, V::V)>::empty());
                lemma_map_of_dom::<K, V>(self.entries(), key@);
            }
            return None;
        }
        let i = self.get_child_index(key);
        proof {
            lemma_ordered_children_index::<K, V>(self.children@, i as int);
        }
        let r = self.children[i].1.find(key);
        proof {
            lemma_dispatch_agrees::<K, V>(self.children@, i as int, key@);
        }
        r
    }
}

} // verus!
