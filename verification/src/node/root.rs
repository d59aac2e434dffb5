//! The root of the tree: a single intermediate subtree plus the fan-out.
//! Splits reaching the root grow the tree by one level.

use vstd::prelude::*;

use crate::node::intermediate::IntermediateNode;
use crate::node::{
    lemma_entries_of_sorted, map_of, pairs_view, sorted_entries, InsertOutcome, Node, NodeError,
};
use crate::order::{TreeKey, TreeValue};

verus! {

/// The root: one intermediate subtree and the fan-out it was built with.
pub struct RootNode<K, V> {
    pub root: IntermediateNode<K, V>,
    pub fan_out: usize,
}

impl<K: TreeKey, V: TreeValue> View for RootNode<K, V> {
    type V = Map<K::V, V::V>;

    open spec fn view(&self) -> Map<K::V, V::V> {
        self.root.as_map()
    }
}

impl<K: TreeKey, V: TreeValue> RootNode<K, V> {
    /// Well-formedness: the subtree keeps the separator discipline and the
    /// fan-out capacity.
    pub open spec fn inv(self) -> bool {
        &&& self.root.ordered()
        &&& self.root.capped(self.fan_out as nat)
        &&& 1 <= self.fan_out <= usize::MAX - 3
    }

    /// The pairs held in the tree, in key order.
    pub open spec fn entries(self) -> Seq<(K::V, V::V)> {
        self.root.entries()
    }

    /// Every separator in the tree is attained by a key of its subtree, so
    /// each separator is exactly its subtree's maximum key. Insertions keep
    /// this; a removal may leave a stale separator behind, after which it
    /// survives only as an upper bound.
    pub open spec fn seps_attained(self) -> bool {
        self.root.seps_attained()
    }

    pub fn new(fan_out: usize) -> (r: Self)
        requires
            1 <= fan_out <= usize::MAX - 3,
        ensures
            r.inv(),
            r@ == Map::<K::V, V::V>::empty(),
            r.entries() == Seq::<(K::V, V::V)>::empty(),
            r.fan_out == fan_out,
            r.seps_attained(),
    {
        let r = RootNode { root: IntermediateNode::new(Vec::new()), fan_out };
        proof {
            assert(r.root.children@ =~= Seq::<(K, Node<K, V>)>::empty());
            assert(Node::<K, V>::entries_of(Seq::<(K, Node<K, V>)>::empty()) == Seq::<(
                K::V,
                V::V,
            )>::empty());
            assert(Node::<K, V>::ordered_children(Seq::<(K, Node<K, V>)>::empty()));
            assert(Node::<K, V>::capped_children(
                Seq::<(K, Node<K, V>)>::empty(),
                fan_out as nat,
            ));
            assert(map_of::<K, V>(Seq::<(K::V, V::V)>::empty()) =~= Map::<K::V, V::V>::empty());
            assert(Node::<K, V>::children_attained(Seq::<(K, Node<K, V>)>::empty()));
        }
        r
    }

    /// Point lookup.
    pub fn find(&self, key: &K) -> (r: Option<&V>)
        requires
            self.inv(),
        ensures
            (match r {
                Some(v) => self@.contains_key(key@) && v@ == self@[key@],
                None => !self@.contains_key(key@),
            }),
    {
        self.root.find(key)
    }

    /// Insert a pair; with `allow_upsert` an existing key's value is
    /// replaced, otherwise an existing key is refused. A split of the inner
    /// node grows the tree here.
    pub fn insert(&mut self, key: &K, value: V, allow_upsert: bool) -> (r: Result<(), NodeError>)
        requires
            old(self).inv(),
        ensures
            final(self).inv(),
            final(self).fan_out == old(self).fan_out,
            old(self).seps_attained() ==> final(self).seps_attained(),
            (match r {
                Ok(_) => final(self)@ == old(self)@.insert(key@, value@),
                Err(e) => {
                    &&& e == NodeError::Duplicated
                    &&& !allow_upsert
                    &&& old(self)@.contains_key(key@)
                    &&& final(self)@ == old(self)@
                    &&& final(self).entries() == old(self).entries()
                },
            }),
            (r matches Err(_)) <==> (old(self)@.contains_key(key@) && !allow_upsert),
    {
        let n = self.fan_out;
        let rc = self.root.insert(key, value, allow_upsert, n);
        match rc {
            Ok(InsertOutcome::Done) => Ok(()),
            Ok(InsertOutcome::Split(lo, hi, right)) => {
                let ghost lov = lo@;
                let ghost hiv = hi@;
                let ghost rightv = right;
                let ghost leftm = self.root;
                let mut tmp = IntermediateNode::new(Vec::new());
                core::mem::swap(&mut self.root, &mut tmp);
                let mut cs: Vec<(K, Node<K, V>)> = Vec::new();
                cs.push((lo, Node::Intermediate(tmp)));
                cs.push((hi, right));
                self.root = IntermediateNode::new(cs);
                proof {
                    let c2 = self.root.children@;
                    assert(c2.len() == 2);
                    let left = c2[0].1;
                    assert(left == Node::<K, V>::Intermediate(leftm));
                    assert(c2[0].0@ == lov && c2[1].0@ == hiv);
                    assert(c2[1].1 == rightv);
                    assert(c2.drop_last() =~= seq![c2[0]]);
                    assert(seq![c2[0]].drop_last() =~= Seq::<(K, Node<K, V>)>::empty());
                    assert(Node::<K, V>::ordered_children(Seq::<(K, Node<K, V>)>::empty()));
                    assert(left.ordered());
                    assert(left.keys_below(lov));
                    assert(seq![c2[0]].last() == c2[0]);
                    assert(Node::<K, V>::ordered_children(seq![c2[0]]));
                    assert(Node::<K, V>::ordered_children(c2));
                    assert(Node::<K, V>::capped_children(
                        Seq::<(K, Node<K, V>)>::empty(),
                        n as nat,
                    ));
                    assert(left.capped(n as nat));
                    assert(Node::<K, V>::capped_children(seq![c2[0]], n as nat));
                    assert(Node::<K, V>::capped_children(c2, n as nat));
                    assert(Node::<K, V>::entries_of(Seq::<(K, Node<K, V>)>::empty()) == Seq::<(
                        K::V,
                        V::V,
                    )>::empty());
                    assert(Node::<K, V>::entries_of(seq![c2[0]]) =~= left.entries());
                    assert(Node::<K, V>::entries_of(c2) =~= left.entries() + rightv.entries());
                    assert(self.root.as_map() == old(self)@.insert(key@, value@));
                    if old(self).seps_attained() {
                        // both halves keep their attained separators, and the
                        // two new separators are attained keys of the halves
                        assert(left.seps_attained());
                        assert(rightv.seps_attained());
                        assert(crate::node::has_key::<K, V>(left.entries(), lov));
                        assert(crate::node::has_key::<K, V>(rightv.entries(), hiv));
                        assert(Node::<K, V>::children_attained(Seq::<(K, Node<K, V>)>::empty()));
                        assert(Node::<K, V>::children_attained(seq![c2[0]]));
                        assert(Node::<K, V>::children_attained(c2));
                    }
                }
                Ok(())
            },
            Err(e) => Err(e),
        }
    }

    /// Replace the value under an existing key. Keys and separators stay as
    /// they are, so attained separators stay attained.
    pub fn update(&mut self, key: &K, value: V) -> (r: Result<(), NodeError>)
        requires
            old(self).inv(),
        ensures
            final(self).inv(),
            final(self).fan_out == old(self).fan_out,
            old(self).seps_attained() ==> final(self).seps_attained(),
            (match r {
                Ok(_) => old(self)@.contains_key(key@) && final(self)@ == old(self)@.insert(
                    key@,
                    value@,
                ),
                Err(e) => {
                    &&& e == NodeError::NotFound
                    &&& !old(self)@.contains_key(key@)
                    &&& final(self)@ == old(self)@
                    &&& final(self).entries() == old(self).entries()
                },
            }),
            (r matches Err(_)) <==> !old(self)@.contains_key(key@),
    {
        self.root.update(key, value)
    }

    /// Remove an existing key. Emptied nodes stay in place and separators
    /// keep their old values, so a removal may leave separators that no key
    /// attains any more; they remain sound as upper bounds.
    pub fn remove(&mut self, key: &K) -> (r: Result<(), NodeError>)
        requires
            old(self).inv(),
        ensures
            final(self).inv(),
            final(self).fan_out == old(self).fan_out,
            (match r {
                Ok(_) => old(self)@.contains_key(key@) && final(self)@ == old(self)@.remove(key@),
                Err(e) => {
                    &&& e == NodeError::NotFound
                    &&& !old(self)@.contains_key(key@)
                    &&& final(self)@ == old(self)@
                    &&& final(self).entries() == old(self).entries()
                },
            }),
            (r matches Err(_)) <==> !old(self)@.contains_key(key@),
    {
        self.root.remove(key)
    }

    /// Clone out the full key/value sequence, in strictly ascending key
    /// order; the pairs are exactly the graph of the map.
    pub fn collect(&self) -> (r: Vec<(K, V)>)
        requires
            self.inv(),
        ensures
            pairs_view::<K, V>(r@) == self.entries(),
            sorted_entries::<K, V>(pairs_view::<K, V>(r@)),
            map_of::<K, V>(pairs_view::<K, V>(r@)) == self@,
    {
        let r = self.root.collect();
        proof {
            lemma_entries_of_sorted::<K, V>(self.root.children@);
        }
        r
    }
}

/// Node capacity of a well-formed tree: no leaf holds more pairs than the
/// fan-out, no intermediate node more children than the fan-out plus one.
pub proof fn lemma_node_capacity<K: TreeKey, V: TreeValue>(t: RootNode<K, V>)
    requires
        t.inv(),
    ensures
        t.root.capped(t.fan_out as nat),
        Node::<K, V>::capped_children(t.root.children@, t.fan_out as nat),
        t.root.children@.len() <= t.fan_out + 1,
{
}

} // verus!
