//! The ordered index: leaf and intermediate nodes under a single root.
//!
//! Every node is modelled by the sequence of key/value pairs it holds, in
//! key order (`entries`); a well-formed node keeps that sequence strictly
//! sorted (`ordered`) and respects the fan-out bound (`capped`). The map
//! described by a node is `map_of` its entries.

use vstd::prelude::*;

use crate::order::{KeyCmp, TreeKey, TreeValue};

pub mod intermediate;
pub mod leaf;
pub mod root;

pub use intermediate::IntermediateNode;
pub use leaf::LeafNode;
pub use root::RootNode;

verus! {

/// Errors surfaced by index operations. Overflow is handled internally and
/// never escapes the root.
#[derive(Debug)]
pub enum NodeError {
    Duplicated,
    NotFound,
    Unknown,
}

/// A node of the tree: a leaf of key/value pairs, or an intermediate node of
/// separator-keyed children.
pub enum Node<K, V> {
    Leaf(LeafNode<K, V>),
    Intermediate(IntermediateNode<K, V>),
}

/// Outcome of an insert below the root: either the node absorbed the pair, or
/// it split, handing back the new bound of the left half, the bound of the
/// right half, and the right half itself.
pub enum InsertOutcome<K, V> {
    Done,
    Split(K, K, Node<K, V>),
}

/// Non-strict order on key views.
pub open spec fn key_le<K: TreeKey>(a: K::V, b: K::V) -> bool {
    K::key_lt(a, b) || a == b
}

/// The views of a sequence of owned key/value pairs.
pub open spec fn pairs_view<K: TreeKey, V: TreeValue>(s: Seq<(K, V)>) -> Seq<(K::V, V::V)> {
    s.map_values(|kv: (K, V)| (kv.0@, kv.1@))
}

/// Entry keys are strictly increasing.
pub open spec fn sorted_entries<K: TreeKey, V: TreeValue>(s: Seq<(K::V, V::V)>) -> bool {
    forall|i: int, j: int| 0 <= i < j < s.len() ==> K::key_lt(
        (#[trigger] s[i]).0,
        (#[trigger] s[j]).0,
    )
}

/// Every entry key is at most `bound`.
pub open spec fn entries_below<K: TreeKey, V: TreeValue>(
    s: Seq<(K::V, V::V)>,
    bound: K::V,
) -> bool {
    forall|i: int| 0 <= i < s.len() ==> key_le::<K>(#[trigger] s[i].0, bound)
}

/// Every entry key is strictly above `bound`.
pub open spec fn entries_above<K: TreeKey, V: TreeValue>(
    s: Seq<(K::V, V::V)>,
    bound: K::V,
) -> bool {
    forall|i: int| 0 <= i < s.len() ==> K::key_lt(bound, #[trigger] s[i].0)
}

/// Whether some entry of `s` carries key `k`.
pub open spec fn has_key<K: TreeKey, V: TreeValue>(s: Seq<(K::V, V::V)>, k: K::V) -> bool {
    exists|i: int| 0 <= i < s.len() && (#[trigger] s[i]).0 == k
}

/// The map described by a sequence of entries; on duplicate keys the later
/// entry wins, though a sorted sequence has none.
pub open spec fn map_of<K: TreeKey, V: TreeValue>(s: Seq<(K::V, V::V)>) -> Map<K::V, V::V>
    decreases s.len(),
{
    if s.len() == 0 {
        Map::empty()
    } else {
        map_of::<K, V>(s.drop_last()).insert(s.last().0, s.last().1)
    }
}

pub proof fn lemma_map_of_dom<K: TreeKey, V: TreeValue>(s: Seq<(K::V, V::V)>, k: K::V)
    ensures
        map_of::<K, V>(s).contains_key(k) <==> has_key::<K, V>(s, k),
    decreases s.len(),
{
    if s.len() == 0 {
    } else {
        lemma_map_of_dom::<K, V>(s.drop_last(), k);
        if s.last().0 == k {
            assert(s[s.len() - 1].0 == k);
        } else if map_of::<K, V>(s).contains_key(k) {
            assert(has_key::<K, V>(s.drop_last(), k));
            let i = choose|i: int| 0 <= i < s.drop_last().len() && (#[trigger] s.drop_last()[i]).0 == k;
            assert(s[i].0 == k);
        } else if has_key::<K, V>(s, k) {
            let i = choose|i: int| 0 <= i < s.len() && (#[trigger] s[i]).0 == k;
            assert(i < s.len() - 1);
            assert(s.drop_last()[i].0 == k);
        }
    }
}

/// The map described by finitely many entries has a finite domain.
pub proof fn lemma_map_of_dom_finite<K: TreeKey, V: TreeValue>(s: Seq<(K::V, V::V)>)
    ensures
        map_of::<K, V>(s).dom().finite(),
    decreases s.len(),
{
    if s.len() == 0 {
        assert(map_of::<K, V>(s).dom() =~= Set::<K::V>::empty());
    } else {
        lemma_map_of_dom_finite::<K, V>(s.drop_last());
        assert(map_of::<K, V>(s).dom() =~= map_of::<K, V>(s.drop_last()).dom().insert(
            s.last().0,
        ));
    }
}

pub proof fn lemma_map_of_index<K: TreeKey, V: TreeValue>(s: Seq<(K::V, V::V)>, i: int)
    requires
        sorted_entries::<K, V>(s),
        0 <= i < s.len(),
    ensures
        map_of::<K, V>(s).contains_key(s[i].0),
        map_of::<K, V>(s)[s[i].0] == s[i].1,
    decreases s.len(),
{
    if i == s.len() - 1 {
    } else {
        assert(K::key_lt(s[i].0, s.last().0));
        K::lemma_lt_trichotomy(s[i].0, s.last().0);
        assert(s.drop_last()[i] == s[i]);
        lemma_map_of_index::<K, V>(s.drop_last(), i);
    }
}

pub proof fn lemma_map_of_concat<K: TreeKey, V: TreeValue>(a: Seq<(K::V, V::V)>, b: Seq<(K::V, V::V)>)
    ensures
        map_of::<K, V>(a + b) == map_of::<K, V>(a).union_prefer_right(map_of::<K, V>(b)),
    decreases b.len(),
{
    if b.len() == 0 {
        assert(a + b =~= a);
        assert(map_of::<K, V>(a).union_prefer_right(map_of::<K, V>(b)) =~= map_of::<K, V>(a));
    } else {
        lemma_map_of_concat::<K, V>(a, b.drop_last());
        assert((a + b).drop_last() =~= a + b.drop_last());
        assert((a + b).last() == b.last());
        assert(map_of::<K, V>(a).union_prefer_right(map_of::<K, V>(b.drop_last())).insert(
            b.last().0,
            b.last().1,
        ) =~= map_of::<K, V>(a).union_prefer_right(
            map_of::<K, V>(b.drop_last()).insert(b.last().0, b.last().1),
        ));
    }
}

/// Dropping the last entry of a sorted sequence removes exactly its key.
pub proof fn lemma_map_of_drop_last<K: TreeKey, V: TreeValue>(s: Seq<(K::V, V::V)>)
    requires
        sorted_entries::<K, V>(s),
        s.len() > 0,
    ensures
        !map_of::<K, V>(s.drop_last()).contains_key(s.last().0),
        map_of::<K, V>(s.drop_last()) == map_of::<K, V>(s).remove(s.last().0),
{
    lemma_map_of_dom::<K, V>(s.drop_last(), s.last().0);
    if has_key::<K, V>(s.drop_last(), s.last().0) {
        let i = choose|i: int|
            0 <= i < s.drop_last().len() && (#[trigger] s.drop_last()[i]).0 == s.last().0;
        assert(K::key_lt(s[i].0, s.last().0));
        K::lemma_lt_trichotomy(s[i].0, s.last().0);
    }
    assert(map_of::<K, V>(s.drop_last()) =~= map_of::<K, V>(s).remove(s.last().0));
}

/// A sorted entry sequence is determined by the map it describes.
pub proof fn lemma_sorted_entries_unique<K: TreeKey, V: TreeValue>(
    s1: Seq<(K::V, V::V)>,
    s2: Seq<(K::V, V::V)>,
)
    requires
        sorted_entries::<K, V>(s1),
        sorted_entries::<K, V>(s2),
        map_of::<K, V>(s1) == map_of::<K, V>(s2),
    ensures
        s1 == s2,
    decreases s1.len(),
{
    if s1.len() == 0 {
        if s2.len() > 0 {
            lemma_map_of_index::<K, V>(s2, s2.len() - 1);
            lemma_map_of_dom::<K, V>(s1, s2.last().0);
            assert(map_of::<K, V>(s1).contains_key(s2.last().0));
            assert(!has_key::<K, V>(s1, s2.last().0));
            assert(false);
        }
        assert(s1 =~= s2);
    } else if s2.len() == 0 {
        lemma_map_of_index::<K, V>(s1, s1.len() - 1);
        lemma_map_of_dom::<K, V>(s2, s1.last().0);
    } else {
        // The two last keys agree: each is the maximum of the common domain.
        lemma_map_of_index::<K, V>(s1, s1.len() - 1);
        lemma_map_of_index::<K, V>(s2, s2.len() - 1);
        lemma_map_of_dom::<K, V>(s1, s2.last().0);
        lemma_map_of_dom::<K, V>(s2, s1.last().0);
        let i1 = choose|i: int| 0 <= i < s1.len() && (#[trigger] s1[i]).0 == s2.last().0;
        if i1 < s1.len() - 1 {
            // s2's last key sits strictly below s1's last key, and vice versa
            let i2 = choose|i: int| 0 <= i < s2.len() && (#[trigger] s2[i]).0 == s1.last().0;
            assert(K::key_lt(s1[i1].0, s1.last().0));
            if i2 < s2.len() - 1 {
                assert(K::key_lt(s2[i2].0, s2.last().0));
                K::lemma_lt_transitive(s1.last().0, s2.last().0, s1.last().0);
                K::lemma_lt_trichotomy(s1.last().0, s1.last().0);
            } else {
                K::lemma_lt_trichotomy(s1[i1].0, s1.last().0);
            }
        }
        assert(s1.last().0 == s2.last().0);
        assert(s1.last().1 == s2.last().1);
        assert(s1.last() =~= s2.last());
        lemma_map_of_drop_last::<K, V>(s1);
        lemma_map_of_drop_last::<K, V>(s2);
        lemma_sorted_entries_unique::<K, V>(s1.drop_last(), s2.drop_last());
        assert(s1.len() == s2.len());
        assert forall|i: int| 0 <= i < s1.len() implies s1[i] == s2[i] by {
            if i < s1.len() - 1 {
                assert(s1[i] == s1.drop_last()[i]);
                assert(s2[i] == s2.drop_last()[i]);
            } else {
                assert(s1[i] == s1.last());
                assert(s2[i] == s2.last());
            }
        }
        assert(s1 =~= s2);
    }
}

impl<K: TreeKey, V: TreeValue> Node<K, V> {
    /// The key/value pairs held below this node, in tree order.
    pub open spec fn entries(self) -> Seq<(K::V, V::V)>
        decreases self,
    {
        match self {
            Node::Leaf(l) => pairs_view::<K, V>(l.kv_series@),
            Node::Intermediate(m) => Self::entries_of(m.children@),
        }
    }

    /// The concatenated entries of a run of children.
    pub open spec fn entries_of(cs: Seq<(K, Node<K, V>)>) -> Seq<(K::V, V::V)>
        decreases cs,
    {
        if cs.len() == 0 {
            Seq::empty()
        } else {
            Self::entries_of(cs.drop_last()) + cs.last().1.entries()
        }
    }

    /// Well-ordering of a node: leaves are sorted; an intermediate's children
    /// are ordered, bounded above by their separators and below by the
    /// previous separator, under strictly increasing separators.
    pub open spec fn ordered(self) -> bool
        decreases self,
    {
        match self {
            Node::Leaf(l) => sorted_entries::<K, V>(pairs_view::<K, V>(l.kv_series@)),
            Node::Intermediate(m) => Self::ordered_children(m.children@),
        }
    }

    pub open spec fn ordered_children(cs: Seq<(K, Node<K, V>)>) -> bool
        decreases cs,
    {
        if cs.len() == 0 {
            true
        } else {
            let prefix = cs.drop_last();
            &&& Self::ordered_children(prefix)
            &&& cs.last().1.ordered()
            &&& cs.last().1.keys_below(cs.last().0@)
            &&& (prefix.len() > 0 ==> K::key_lt(prefix.last().0@, cs.last().0@))
            &&& (prefix.len() > 0 ==> cs.last().1.keys_above(prefix.last().0@))
        }
    }

    /// Every key and every separator in this subtree is at most `b`.
    pub open spec fn keys_below(self, b: K::V) -> bool
        decreases self,
    {
        match self {
            Node::Leaf(l) => entries_below::<K, V>(pairs_view::<K, V>(l.kv_series@), b),
            Node::Intermediate(m) => Self::children_below(m.children@, b),
        }
    }

    pub open spec fn children_below(cs: Seq<(K, Node<K, V>)>, b: K::V) -> bool
        decreases cs,
    {
        if cs.len() == 0 {
            true
        } else {
            &&& Self::children_below(cs.drop_last(), b)
            &&& key_le::<K>(cs.last().0@, b)
            &&& cs.last().1.keys_below(b)
        }
    }

    /// Every key and every separator in this subtree is strictly above `b`.
    pub open spec fn keys_above(self, b: K::V) -> bool
        decreases self,
    {
        match self {
            Node::Leaf(l) => entries_above::<K, V>(pairs_view::<K, V>(l.kv_series@), b),
            Node::Intermediate(m) => Self::children_above(m.children@, b),
        }
    }

    pub open spec fn children_above(cs: Seq<(K, Node<K, V>)>, b: K::V) -> bool
        decreases cs,
    {
        if cs.len() == 0 {
            true
        } else {
            &&& Self::children_above(cs.drop_last(), b)
            &&& K::key_lt(b, cs.last().0@)
            &&& cs.last().1.keys_above(b)
        }
    }

    /// Every separator in this subtree is attained: the child under it holds
    /// a key equal to it, so together with the ordering the separator is the
    /// maximum key of that subtree. Insertions preserve this. Removals need
    /// not: an emptied or shrunken subtree keeps its old separator, which
    /// then survives only as an upper bound.
    pub open spec fn seps_attained(self) -> bool
        decreases self,
    {
        match self {
            Node::Leaf(_) => true,
            Node::Intermediate(m) => Self::children_attained(m.children@),
        }
    }

    pub open spec fn children_attained(cs: Seq<(K, Node<K, V>)>) -> bool
        decreases cs,
    {
        if cs.len() == 0 {
            true
        } else {
            &&& Self::children_attained(cs.drop_last())
            &&& cs.last().1.seps_attained()
            &&& has_key::<K, V>(cs.last().1.entries(), cs.last().0@)
        }
    }

    /// Capacity: no leaf holds more than `n` pairs, no intermediate more than
    /// `n + 1` children.
    pub open spec fn capped(self, n: nat) -> bool
        decreases self,
    {
        match self {
            Node::Leaf(l) => l.kv_series@.len() <= n,
            Node::Intermediate(m) => m.children@.len() <= n + 1 && Self::capped_children(
                m.children@,
                n,
            ),
        }
    }

    pub open spec fn capped_children(cs: Seq<(K, Node<K, V>)>, n: nat) -> bool
        decreases cs,
    {
        if cs.len() == 0 {
            true
        } else {
            Self::capped_children(cs.drop_last(), n) && cs.last().1.capped(n)
        }
    }

    /// The map this node describes.
    pub open spec fn as_map(self) -> Map<K::V, V::V> {
        map_of::<K, V>(self.entries())
    }
}

impl<K: TreeKey, V: TreeValue> Node<K, V> {
    /// Insert a pair below this node, splitting on overflow. The caller owns
    /// the node and receives it back alongside the outcome.
    pub fn insert_owned(self, key: &K, value: V, allow_upsert: bool, n: usize) -> (res: (
        Node<K, V>,
        Result<InsertOutcome<K, V>, NodeError>,
    ))
        requires
            self.ordered(),
            self.capped(n as nat),
            1 <= n <= usize::MAX - 3,
        ensures
            (match res.1 {
                Ok(InsertOutcome::Done) => {
                    &&& res.0.ordered()
                    &&& res.0.capped(n as nat)
                    &&& res.0.as_map() == self.as_map().insert(key@, value@)
                    &&& (self.seps_attained() ==> res.0.seps_attained())
                    &&& (forall|f: K::V|
                        #[trigger] self.keys_above(f) && K::key_lt(f, key@)
                            ==> res.0.keys_above(f))
                    &&& (forall|f: K::V|
                        #[trigger] self.keys_below(f) && key_le::<K>(key@, f)
                            ==> res.0.keys_below(f))
                },
                Ok(InsertOutcome::Split(lo, hi, right)) => {
                    &&& res.0.ordered()
                    &&& right.ordered()
                    &&& res.0.capped(n as nat)
                    &&& right.capped(n as nat)
                    &&& res.0.keys_below(lo@)
                    &&& right.keys_above(lo@)
                    &&& right.keys_below(hi@)
                    &&& K::key_lt(lo@, hi@)
                    &&& (self.seps_attained() ==> res.0.seps_attained() && right.seps_attained()
                        && has_key::<K, V>(res.0.entries(), lo@) && has_key::<K, V>(
                        right.entries(),
                        hi@,
                    ))
                    &&& map_of::<K, V>(res.0.entries() + right.entries()) == self.as_map().insert(
                        key@,
                        value@,
                    )
                    &&& (forall|f: K::V|
                        #[trigger] self.keys_above(f) && K::key_lt(f, key@) ==> res.0.keys_above(f)
                            && right.keys_above(f) && K::key_lt(f, lo@))
                    &&& (forall|f: K::V|
                        #[trigger] self.keys_below(f) && key_le::<K>(key@, f) ==> res.0.keys_below(
                            f,
                        ) && right.keys_below(f) && key_le::<K>(hi@, f))
                },
                Err(e) => {
                    &&& e == NodeError::Duplicated
                    &&& !allow_upsert
                    &&& self.as_map().contains_key(key@)
                    &&& res.0.ordered()
                    &&& res.0.capped(n as nat)
                    &&& res.0.entries() == self.entries()
                    &&& (self.seps_attained() ==> res.0.seps_attained())
                    &&& (forall|f: K::V| #[trigger] self.keys_above(f) ==> res.0.keys_above(f))
                    &&& (forall|f: K::V| #[trigger] self.keys_below(f) ==> res.0.keys_below(f))
                },
            }),
            (res.1 matches Err(_)) <==> (self.as_map().contains_key(key@) && !allow_upsert),
        decreases self,
    {
        let ghost old_node = self;
        match self {
            Node::Leaf(mut l) => {
                let ghost old_l = l;
                let r = l.insert(key, value, allow_upsert, n);
                proof {
                    let k = key@;
                    let v = value@;
                    match &r {
                        Ok(InsertOutcome::Done) => {
                            let s = l.entries();
                            let s0 = old_l.entries();
                            assert forall|f: K::V|
                                #[trigger] old_node.keys_above(f) && K::key_lt(f, k) implies Node::<
                                K,
                                V,
                            >::Leaf(l).keys_above(f) by {
                                assert forall|x: K::V| map_of::<K, V>(s).contains_key(x) implies
                                    map_of::<K, V>(s0).contains_key(x) || x == k by {}
                                lemma_fence_above::<K, V>(s, s0, k, f);
                            }
                            assert forall|f: K::V|
                                #[trigger] old_node.keys_below(f) && key_le::<K>(k, f) implies
                                    Node::<K, V>::Leaf(l).keys_below(f) by {
                                assert forall|x: K::V| map_of::<K, V>(s).contains_key(x) implies
                                    map_of::<K, V>(s0).contains_key(x) || x == k by {}
                                lemma_fence_below::<K, V>(s, s0, k, f);
                            }
                        },
                        Ok(InsertOutcome::Split(lo, hi, right)) => {
                            let left_e = l.entries();
                            let right_e = right.entries();
                            let s0 = old_l.entries();
                            lemma_keys_above_entries::<K, V>(*right, lo@);
                            lemma_node_entries_sorted::<K, V>(*right);
                            lemma_sorted_concat::<K, V>(left_e, right_e, lo@);
                            lemma_map_of_concat::<K, V>(left_e, right_e);
                            // lo and hi are keys of the combined run
                            lemma_map_of_index::<K, V>(left_e + right_e, left_e.len() - 1);
                            lemma_map_of_index::<K, V>(
                                left_e + right_e,
                                left_e.len() + right_e.len() - 1,
                            );
                            assert((left_e + right_e)[left_e.len() - 1] == left_e.last());
                            assert((left_e + right_e)[left_e.len() + right_e.len() - 1]
                                == right_e.last());
                            assert forall|f: K::V|
                                #[trigger] old_node.keys_above(f) && K::key_lt(f, k) implies Node::<
                                K,
                                V,
                            >::Leaf(l).keys_above(f) && right.keys_above(f) && K::key_lt(
                                f,
                                lo@,
                            ) by {
                                assert forall|x: K::V|
                                    map_of::<K, V>(left_e + right_e).contains_key(x) implies
                                    map_of::<K, V>(s0).contains_key(x) || x == k by {}
                                lemma_fence_above::<K, V>(left_e + right_e, s0, k, f);
                                assert(K::key_lt(f, lo@)) by {
                                    assert(entries_above::<K, V>(left_e + right_e, f));
                                    assert((left_e + right_e)[left_e.len() - 1].0 == lo@);
                                }
                                assert forall|i: int| 0 <= i < left_e.len() implies K::key_lt(
                                    f,
                                    (#[trigger] left_e[i]).0,
                                ) by {
                                    assert(left_e[i] == (left_e + right_e)[i]);
                                }
                                lemma_keys_above_mono::<K, V>(*right, lo@, f);
                            }
                            assert forall|f: K::V|
                                #[trigger] old_node.keys_below(f) && key_le::<K>(k, f) implies
                                    Node::<K, V>::Leaf(l).keys_below(f) && right.keys_below(f)
                                    && key_le::<K>(hi@, f) by {
                                assert forall|x: K::V|
                                    map_of::<K, V>(left_e + right_e).contains_key(x) implies
                                    map_of::<K, V>(s0).contains_key(x) || x == k by {}
                                lemma_fence_below::<K, V>(left_e + right_e, s0, k, f);
                                assert(key_le::<K>(hi@, f)) by {
                                    assert(entries_below::<K, V>(left_e + right_e, f));
                                    assert((left_e + right_e)[left_e.len() + right_e.len()
                                        - 1].0 == hi@);
                                }
                                assert forall|i: int| 0 <= i < left_e.len() implies key_le::<K>(
                                    (#[trigger] left_e[i]).0,
                                    f,
                                ) by {
                                    assert(left_e[i] == (left_e + right_e)[i]);
                                }
                                lemma_keys_below_mono::<K, V>(*right, hi@, f);
                            }
                        },
                        Err(_) => {},
                    }
                }
                (Node::Leaf(l), r)
            },
            Node::Intermediate(mut m) => {
                let ghost m0 = m;
                let r = m.insert(key, value, allow_upsert, n);
                let node2 = Node::Intermediate(m);
                proof {
                    assert forall|f: K::V| #[trigger] old_node.keys_above(f) implies
                        m0.keys_above(f) by {}
                    assert forall|f: K::V| #[trigger] old_node.keys_below(f) implies
                        m0.keys_below(f) by {}
                    assert forall|f: K::V| #[trigger] m.keys_above(f) implies node2.keys_above(
                        f,
                    ) by {}
                    assert forall|f: K::V| #[trigger] m.keys_below(f) implies node2.keys_below(
                        f,
                    ) by {}
                    if old_node.seps_attained() {
                        assert(m0.seps_attained());
                    }
                    if m.seps_attained() {
                        assert(node2.seps_attained());
                    }
                }
                (node2, r)
            },
        }
    }

    /// Replace the value under an existing key. Keys and separators stay as
    /// they are, so attained separators stay attained.
    pub fn update_owned(self, key: &K, value: V) -> (res: (Node<K, V>, Result<(), NodeError>))
        requires
            self.ordered(),
        ensures
            res.0.ordered(),
            self.seps_attained() ==> res.0.seps_attained(),
            (forall|nn: nat| self.capped(nn) ==> #[trigger] res.0.capped(nn)),
            (forall|f: K::V| #[trigger] self.keys_above(f) ==> res.0.keys_above(f)),
            (forall|f: K::V| #[trigger] self.keys_below(f) ==> res.0.keys_below(f)),
            (match res.1 {
                Ok(_) => self.as_map().contains_key(key@) && res.0.as_map() == self.as_map().insert(
                    key@,
                    value@,
                ),
                Err(e) => e == NodeError::NotFound && !self.as_map().contains_key(key@)
                    && res.0.entries() == self.entries(),
            }),
            (res.1 matches Err(_)) <==> !self.as_map().contains_key(key@),
        decreases self,
    {
        let ghost old_node = self;
        match self {
            Node::Leaf(mut l) => {
                let ghost old_l = l;
                let r = l.update(key, value);
                let node2 = Node::Leaf(l);
                proof {
                    let k = key@;
                    if r is Ok {
                        let s = node2.entries();
                        let s0 = old_node.entries();
                        assert(s == l.entries());
                        lemma_map_of_dom::<K, V>(s0, k);
                        let j = choose|j: int| 0 <= j < s0.len() && (#[trigger] s0[j]).0 == k;
                        assert forall|nn: nat| old_node.capped(nn) implies #[trigger] node2.capped(
                            nn,
                        ) by {}
                        assert forall|f: K::V| #[trigger] old_node.keys_above(f) implies
                            node2.keys_above(f) by {
                            assert(K::key_lt(f, s0[j].0));
                            assert forall|x: K::V| map_of::<K, V>(s).contains_key(x) implies
                                map_of::<K, V>(s0).contains_key(x) || x == k by {}
                            lemma_fence_above::<K, V>(s, s0, k, f);
                        }
                        assert forall|f: K::V| #[trigger] old_node.keys_below(f) implies
                            node2.keys_below(f) by {
                            assert(key_le::<K>(s0[j].0, f));
                            assert forall|x: K::V| map_of::<K, V>(s).contains_key(x) implies
                                map_of::<K, V>(s0).contains_key(x) || x == k by {}
                            lemma_fence_below::<K, V>(s, s0, k, f);
                        }
                    }
                }
                (node2, r)
            },
            Node::Intermediate(mut m) => {
                let ghost m0 = m;
                let r = m.update(key, value);
                let node2 = Node::Intermediate(m);
                proof {
                    if old_node.seps_attained() {
                        assert(m0.seps_attained());
                    }
                    if m.seps_attained() {
                        assert(node2.seps_attained());
                    }
                    assert forall|f: K::V| #[trigger] old_node.keys_above(f) implies
                        m0.keys_above(f) by {}
                    assert forall|f: K::V| #[trigger] old_node.keys_below(f) implies
                        m0.keys_below(f) by {}
                    assert forall|f: K::V| #[trigger] m.keys_above(f) implies node2.keys_above(
                        f,
                    ) by {}
                    assert forall|f: K::V| #[trigger] m.keys_below(f) implies node2.keys_below(
                        f,
                    ) by {}
                    assert forall|nn: nat| old_node.capped(nn) implies #[trigger] node2.capped(
                        nn,
                    ) by {
                        assert(m0.capped(nn));
                        assert(m.capped(nn));
                    }
                }
                (node2, r)
            },
        }
    }

    /// Remove an existing key.
    pub fn remove_owned(self, key: &K) -> (res: (Node<K, V>, Result<(), NodeError>))
        requires
            self.ordered(),
        ensures
            res.0.ordered(),
            (forall|nn: nat| self.capped(nn) ==> #[trigger] res.0.capped(nn)),
            (forall|f: K::V| #[trigger] self.keys_above(f) ==> res.0.keys_above(f)),
            (forall|f: K::V| #[trigger] self.keys_below(f) ==> res.0.keys_below(f)),
            (match res.1 {
                Ok(_) => self.as_map().contains_key(key@) && res.0.as_map() == self.as_map().remove(
                    key@,
                ),
                Err(e) => e == NodeError::NotFound && !self.as_map().contains_key(key@)
                    && res.0.entries() == self.entries(),
            }),
            (res.1 matches Err(_)) <==> !self.as_map().contains_key(key@),
        decreases self,
    {
        let ghost old_node = self;
        match self {
            Node::Leaf(mut l) => {
                let ghost old_l = l;
                let r = l.remove(key);
                let node2 = Node::Leaf(l);
                proof {
                    let k = key@;
                    if r is Ok {
                        let s = node2.entries();
                        let s0 = old_node.entries();
                        assert(s == l.entries());
                        lemma_map_of_dom::<K, V>(s0, k);
                        let j = choose|j: int| 0 <= j < s0.len() && (#[trigger] s0[j]).0 == k;
                        assert forall|nn: nat| old_node.capped(nn) implies #[trigger] node2.capped(
                            nn,
                        ) by {}
                        assert forall|f: K::V| #[trigger] old_node.keys_above(f) implies
                            node2.keys_above(f) by {
                            assert(K::key_lt(f, s0[j].0));
                            assert forall|x: K::V| map_of::<K, V>(s).contains_key(x) implies
                                map_of::<K, V>(s0).contains_key(x) || x == k by {}
                            lemma_fence_above::<K, V>(s, s0, k, f);
                        }
                        assert forall|f: K::V| #[trigger] old_node.keys_below(f) implies
                            node2.keys_below(f) by {
                            assert(key_le::<K>(s0[j].0, f));
                            assert forall|x: K::V| map_of::<K, V>(s).contains_key(x) implies
                                map_of::<K, V>(s0).contains_key(x) || x == k by {}
                            lemma_fence_below::<K, V>(s, s0, k, f);
                        }
                    }
                }
                (node2, r)
            },
            Node::Intermediate(mut m) => {
                let ghost m0 = m;
                let r = m.remove(key);
                let node2 = Node::Intermediate(m);
                proof {
                    assert forall|f: K::V| #[trigger] old_node.keys_above(f) implies
                        m0.keys_above(f) by {}
                    assert forall|f: K::V| #[trigger] old_node.keys_below(f) implies
                        m0.keys_below(f) by {}
                    assert forall|f: K::V| #[trigger] m.keys_above(f) implies node2.keys_above(
                        f,
                    ) by {}
                    assert forall|f: K::V| #[trigger] m.keys_below(f) implies node2.keys_below(
                        f,
                    ) by {}
                    assert forall|nn: nat| old_node.capped(nn) implies #[trigger] node2.capped(
                        nn,
                    ) by {
                        assert(m0.capped(nn));
                        assert(m.capped(nn));
                    }
                }
                (node2, r)
            },
        }
    }

    /// Clone out every pair, in tree order.
    pub fn collect(&self) -> (r: Vec<(K, V)>)
        ensures
            pairs_view::<K, V>(r@) == self.entries(),
        decreases self,
    {
        match self {
            Node::Leaf(l) => l.collect(),
            Node::Intermediate(m) => m.collect(),
        }
    }

    /// Point lookup.
    pub fn find(&self, key: &K) -> (r: Option<&V>)
        requires
            self.ordered(),
        ensures
            (match r {
                Some(v) => self.as_map().contains_key(key@) && v@ == self.as_map()[key@],
                None => !self.as_map().contains_key(key@),
            }),
        decreases self,
    {
        match self {
            Node::Leaf(l) => l.find(key),
            Node::Intermediate(m) => m.find(key),
        }
    }
}

/// Every child of an ordered run is itself ordered and bounded by the
/// neighbouring separators, and the separators increase.
pub proof fn lemma_ordered_children_index<K: TreeKey, V: TreeValue>(
    cs: Seq<(K, Node<K, V>)>,
    i: int,
)
    requires
        Node::<K, V>::ordered_children(cs),
        0 <= i < cs.len(),
    ensures
        cs[i].1.ordered(),
        cs[i].1.keys_below(cs[i].0@),
        i > 0 ==> K::key_lt(cs[i - 1].0@, cs[i].0@),
        i > 0 ==> cs[i].1.keys_above(cs[i - 1].0@),
    decreases cs.len(),
{
    if i == cs.len() - 1 {
        if i > 0 {
            assert(cs.drop_last().last() == cs[i - 1]);
        }
    } else {
        assert(cs.drop_last()[i] == cs[i]);
        if i > 0 {
            assert(cs.drop_last()[i - 1] == cs[i - 1]);
        }
        lemma_ordered_children_index::<K, V>(cs.drop_last(), i);
    }
}

/// Separators of an ordered run increase strictly.
pub proof fn lemma_separators_sorted<K: TreeKey, V: TreeValue>(
    cs: Seq<(K, Node<K, V>)>,
    i: int,
    j: int,
)
    requires
        Node::<K, V>::ordered_children(cs),
        0 <= i < j < cs.len(),
    ensures
        K::key_lt(cs[i].0@, cs[j].0@),
    decreases j - i,
{
    lemma_ordered_children_index::<K, V>(cs, j);
    if i < j - 1 {
        lemma_separators_sorted::<K, V>(cs, i, j - 1);
        K::lemma_lt_transitive(cs[i].0@, cs[j - 1].0@, cs[j].0@);
    }
}

/// Every capped child of a capped run is capped.
pub proof fn lemma_capped_children_index<K: TreeKey, V: TreeValue>(
    cs: Seq<(K, Node<K, V>)>,
    n: nat,
    i: int,
)
    requires
        Node::<K, V>::capped_children(cs, n),
        0 <= i < cs.len(),
    ensures
        cs[i].1.capped(n),
    decreases cs.len(),
{
    if i == cs.len() - 1 {
    } else {
        assert(cs.drop_last()[i] == cs[i]);
        lemma_capped_children_index::<K, V>(cs.drop_last(), n, i);
    }
}

/// Bounds on keys and separators imply bounds on the entries.
pub proof fn lemma_keys_below_entries<K: TreeKey, V: TreeValue>(node: Node<K, V>, b: K::V)
    requires
        node.keys_below(b),
    ensures
        entries_below::<K, V>(node.entries(), b),
    decreases node,
{
    match node {
        Node::Leaf(_) => {},
        Node::Intermediate(m) => {
            lemma_children_below_entries::<K, V>(m.children@, b);
        },
    }
}

pub proof fn lemma_children_below_entries<K: TreeKey, V: TreeValue>(
    cs: Seq<(K, Node<K, V>)>,
    b: K::V,
)
    requires
        Node::<K, V>::children_below(cs, b),
    ensures
        entries_below::<K, V>(Node::<K, V>::entries_of(cs), b),
    decreases cs,
{
    if cs.len() == 0 {
    } else {
        lemma_children_below_entries::<K, V>(cs.drop_last(), b);
        lemma_keys_below_entries::<K, V>(cs.last().1, b);
        let whole = Node::<K, V>::entries_of(cs);
        let pre = Node::<K, V>::entries_of(cs.drop_last());
        let tail = cs.last().1.entries();
        assert forall|i: int| 0 <= i < whole.len() implies key_le::<K>(
            (#[trigger] whole[i]).0,
            b,
        ) by {
            if i < pre.len() {
                assert(whole[i] == pre[i]);
            } else {
                assert(whole[i] == tail[i - pre.len()]);
            }
        }
    }
}

pub proof fn lemma_keys_above_entries<K: TreeKey, V: TreeValue>(node: Node<K, V>, b: K::V)
    requires
        node.keys_above(b),
    ensures
        entries_above::<K, V>(node.entries(), b),
    decreases node,
{
    match node {
        Node::Leaf(_) => {},
        Node::Intermediate(m) => {
            lemma_children_above_entries::<K, V>(m.children@, b);
        },
    }
}

pub proof fn lemma_children_above_entries<K: TreeKey, V: TreeValue>(
    cs: Seq<(K, Node<K, V>)>,
    b: K::V,
)
    requires
        Node::<K, V>::children_above(cs, b),
    ensures
        entries_above::<K, V>(Node::<K, V>::entries_of(cs), b),
    decreases cs,
{
    if cs.len() == 0 {
    } else {
        lemma_children_above_entries::<K, V>(cs.drop_last(), b);
        lemma_keys_above_entries::<K, V>(cs.last().1, b);
        let whole = Node::<K, V>::entries_of(cs);
        let pre = Node::<K, V>::entries_of(cs.drop_last());
        let tail = cs.last().1.entries();
        assert forall|i: int| 0 <= i < whole.len() implies K::key_lt(
            b,
            (#[trigger] whole[i]).0,
        ) by {
            if i < pre.len() {
                assert(whole[i] == pre[i]);
            } else {
                assert(whole[i] == tail[i - pre.len()]);
            }
        }
    }
}

/// A bound may be relaxed upward (`keys_below`) or downward (`keys_above`).
pub proof fn lemma_keys_below_mono<K: TreeKey, V: TreeValue>(node: Node<K, V>, b1: K::V, b2: K::V)
    requires
        node.keys_below(b1),
        key_le::<K>(b1, b2),
    ensures
        node.keys_below(b2),
    decreases node,
{
    match node {
        Node::Leaf(l) => {
            assert forall|i: int| 0 <= i < pairs_view::<K, V>(l.kv_series@).len() implies key_le::<
                K,
            >((#[trigger] pairs_view::<K, V>(l.kv_series@)[i]).0, b2) by {
                let k = pairs_view::<K, V>(l.kv_series@)[i].0;
                if k != b1 && b1 != b2 {
                    K::lemma_lt_transitive(k, b1, b2);
                }
            }
        },
        Node::Intermediate(m) => {
            lemma_children_below_mono::<K, V>(m.children@, b1, b2);
        },
    }
}

pub proof fn lemma_children_below_mono<K: TreeKey, V: TreeValue>(
    cs: Seq<(K, Node<K, V>)>,
    b1: K::V,
    b2: K::V,
)
    requires
        Node::<K, V>::children_below(cs, b1),
        key_le::<K>(b1, b2),
    ensures
        Node::<K, V>::children_below(cs, b2),
    decreases cs,
{
    if cs.len() == 0 {
    } else {
        lemma_children_below_mono::<K, V>(cs.drop_last(), b1, b2);
        lemma_keys_below_mono::<K, V>(cs.last().1, b1, b2);
        if cs.last().0@ != b1 && b1 != b2 {
            K::lemma_lt_transitive(cs.last().0@, b1, b2);
        }
    }
}

pub proof fn lemma_keys_above_mono<K: TreeKey, V: TreeValue>(node: Node<K, V>, b1: K::V, b2: K::V)
    requires
        node.keys_above(b1),
        key_le::<K>(b2, b1),
    ensures
        node.keys_above(b2),
    decreases node,
{
    match node {
        Node::Leaf(l) => {
            assert forall|i: int| 0 <= i < pairs_view::<K, V>(l.kv_series@).len() implies K::key_lt(
                b2,
                (#[trigger] pairs_view::<K, V>(l.kv_series@)[i]).0,
            ) by {
                let k = pairs_view::<K, V>(l.kv_series@)[i].0;
                if b2 != b1 {
                    K::lemma_lt_transitive(b2, b1, k);
                }
            }
        },
        Node::Intermediate(m) => {
            lemma_children_above_mono::<K, V>(m.children@, b1, b2);
        },
    }
}

pub proof fn lemma_children_above_mono<K: TreeKey, V: TreeValue>(
    cs: Seq<(K, Node<K, V>)>,
    b1: K::V,
    b2: K::V,
)
    requires
        Node::<K, V>::children_above(cs, b1),
        key_le::<K>(b2, b1),
    ensures
        Node::<K, V>::children_above(cs, b2),
    decreases cs,
{
    if cs.len() == 0 {
    } else {
        lemma_children_above_mono::<K, V>(cs.drop_last(), b1, b2);
        lemma_keys_above_mono::<K, V>(cs.last().1, b1, b2);
        if b2 != b1 {
            K::lemma_lt_transitive(b2, b1, cs.last().0@);
        }
    }
}

/// Rebuild `ordered_children` from facts about each position.
pub proof fn lemma_ordered_children_build<K: TreeKey, V: TreeValue>(cs: Seq<(K, Node<K, V>)>)
    requires
        forall|i: int| 0 <= i < cs.len() ==> (#[trigger] cs[i].1).ordered(),
        forall|i: int| 0 <= i < cs.len() ==> (#[trigger] cs[i].1).keys_below(cs[i].0@),
        forall|i: int| 0 < i < cs.len() ==> K::key_lt(cs[i - 1].0@, (#[trigger] cs[i].0)@),
        forall|i: int| 0 < i < cs.len() ==> (#[trigger] cs[i].1).keys_above(cs[i - 1].0@),
    ensures
        Node::<K, V>::ordered_children(cs),
    decreases cs.len(),
{
    if cs.len() == 0 {
    } else {
        let prefix = cs.drop_last();
        assert forall|i: int| 0 <= i < prefix.len() implies (#[trigger] prefix[i].1).ordered()
            && prefix[i].1.keys_below(prefix[i].0@) by {
            assert(prefix[i] == cs[i]);
        }
        assert forall|i: int| 0 < i < prefix.len() implies K::key_lt(
            prefix[i - 1].0@,
            (#[trigger] prefix[i].0)@,
        ) && prefix[i].1.keys_above(prefix[i - 1].0@) by {
            assert(prefix[i] == cs[i]);
            assert(prefix[i - 1] == cs[i - 1]);
        }
        lemma_ordered_children_build::<K, V>(prefix);
        if prefix.len() > 0 {
            assert(prefix.last() == cs[cs.len() - 2]);
        }
    }
}

/// Rebuild `capped_children` from facts about each position.
pub proof fn lemma_capped_children_build<K: TreeKey, V: TreeValue>(
    cs: Seq<(K, Node<K, V>)>,
    n: nat,
)
    requires
        forall|i: int| 0 <= i < cs.len() ==> (#[trigger] cs[i].1).capped(n),
    ensures
        Node::<K, V>::capped_children(cs, n),
    decreases cs.len(),
{
    if cs.len() == 0 {
    } else {
        let prefix = cs.drop_last();
        assert forall|i: int| 0 <= i < prefix.len() implies (#[trigger] prefix[i].1).capped(n) by {
            assert(prefix[i] == cs[i]);
        }
        lemma_capped_children_build::<K, V>(prefix, n);
    }
}

/// Rebuild `children_below` from facts about each position.
pub proof fn lemma_children_below_build<K: TreeKey, V: TreeValue>(
    cs: Seq<(K, Node<K, V>)>,
    b: K::V,
)
    requires
        forall|i: int| 0 <= i < cs.len() ==> key_le::<K>((#[trigger] cs[i].0)@, b),
        forall|i: int| 0 <= i < cs.len() ==> (#[trigger] cs[i].1).keys_below(b),
    ensures
        Node::<K, V>::children_below(cs, b),
    decreases cs.len(),
{
    if cs.len() == 0 {
    } else {
        let prefix = cs.drop_last();
        assert forall|i: int| 0 <= i < prefix.len() implies key_le::<K>((#[trigger] prefix[i].0)@, b)
            && prefix[i].1.keys_below(b) by {
            assert(prefix[i] == cs[i]);
        }
        lemma_children_below_build::<K, V>(prefix, b);
    }
}

/// Rebuild `children_above` from facts about each position.
pub proof fn lemma_children_above_build<K: TreeKey, V: TreeValue>(
    cs: Seq<(K, Node<K, V>)>,
    b: K::V,
)
    requires
        forall|i: int| 0 <= i < cs.len() ==> K::key_lt(b, (#[trigger] cs[i].0)@),
        forall|i: int| 0 <= i < cs.len() ==> (#[trigger] cs[i].1).keys_above(b),
    ensures
        Node::<K, V>::children_above(cs, b),
    decreases cs.len(),
{
    if cs.len() == 0 {
    } else {
        let prefix = cs.drop_last();
        assert forall|i: int| 0 <= i < prefix.len() implies K::key_lt(b, (#[trigger] prefix[i].0)@)
            && prefix[i].1.keys_above(b) by {
            assert(prefix[i] == cs[i]);
        }
        lemma_children_above_build::<K, V>(prefix, b);
    }
}

/// Access `children_below` facts by position.
pub proof fn lemma_children_below_index<K: TreeKey, V: TreeValue>(
    cs: Seq<(K, Node<K, V>)>,
    b: K::V,
    i: int,
)
    requires
        Node::<K, V>::children_below(cs, b),
        0 <= i < cs.len(),
    ensures
        key_le::<K>(cs[i].0@, b),
        cs[i].1.keys_below(b),
    decreases cs.len(),
{
    if i == cs.len() - 1 {
    } else {
        assert(cs.drop_last()[i] == cs[i]);
        lemma_children_below_index::<K, V>(cs.drop_last(), b, i);
    }
}

/// Access `children_above` facts by position.
pub proof fn lemma_children_above_index<K: TreeKey, V: TreeValue>(
    cs: Seq<(K, Node<K, V>)>,
    b: K::V,
    i: int,
)
    requires
        Node::<K, V>::children_above(cs, b),
        0 <= i < cs.len(),
    ensures
        K::key_lt(b, cs[i].0@),
        cs[i].1.keys_above(b),
    decreases cs.len(),
{
    if i == cs.len() - 1 {
    } else {
        assert(cs.drop_last()[i] == cs[i]);
        lemma_children_above_index::<K, V>(cs.drop_last(), b, i);
    }
}

/// An ordered run is bounded below by any bound below its first separator
/// that bounds its first child.
pub proof fn lemma_children_above_build_from_ordered<K: TreeKey, V: TreeValue>(
    cs: Seq<(K, Node<K, V>)>,
    b: K::V,
)
    requires
        Node::<K, V>::ordered_children(cs),
        cs.len() > 0 ==> K::key_lt(b, cs[0].0@),
        cs.len() > 0 ==> cs[0].1.keys_above(b),
    ensures
        Node::<K, V>::children_above(cs, b),
{
    assert forall|i: int| 0 <= i < cs.len() implies K::key_lt(b, (#[trigger] cs[i].0)@) by {
        if i > 0 {
            lemma_separators_sorted::<K, V>(cs, 0, i);
            K::lemma_lt_transitive(b, cs[0].0@, cs[i].0@);
        }
    }
    assert forall|i: int| 0 <= i < cs.len() implies (#[trigger] cs[i].1).keys_above(b) by {
        if i > 0 {
            lemma_ordered_children_index::<K, V>(cs, i);
            if i - 1 > 0 {
                lemma_separators_sorted::<K, V>(cs, 0, i - 1);
                K::lemma_lt_transitive(b, cs[0].0@, cs[i - 1].0@);
            }
            lemma_keys_above_mono::<K, V>(cs[i].1, cs[i - 1].0@, b);
        }
    }
    lemma_children_above_build::<K, V>(cs, b);
}

/// The entries of a run split at `m` into the entries of its two halves.
pub proof fn lemma_entries_of_split<K: TreeKey, V: TreeValue>(cs: Seq<(K, Node<K, V>)>, m: int)
    requires
        0 <= m <= cs.len(),
    ensures
        Node::<K, V>::entries_of(cs) == Node::<K, V>::entries_of(cs.take(m))
            + Node::<K, V>::entries_of(cs.skip(m)),
    decreases cs.len(),
{
    if m == cs.len() {
        assert(cs.take(m) =~= cs);
        assert(Node::<K, V>::entries_of(cs.skip(m)) =~= Seq::empty());
        assert(Node::<K, V>::entries_of(cs) =~= Node::<K, V>::entries_of(cs.take(m))
            + Node::<K, V>::entries_of(cs.skip(m)));
    } else {
        let dl = cs.drop_last();
        assert(dl.take(m) =~= cs.take(m));
        lemma_entries_of_split::<K, V>(dl, m);
        let dls = dl.skip(m);
        let css = cs.skip(m);
        assert(css.len() > 0);
        assert(css.drop_last() =~= dls);
        assert(css.last() == cs.last());
        assert(Node::<K, V>::entries_of(css) == Node::<K, V>::entries_of(dls)
            + cs.last().1.entries());
        assert(Node::<K, V>::entries_of(cs) =~= Node::<K, V>::entries_of(cs.take(m))
            + Node::<K, V>::entries_of(css));
    }
}

/// Around any position, an ordered run's entries decompose into the entries
/// before, within, and after that child, with the outer parts bounded by the
/// neighbouring separators.
pub proof fn lemma_child_window<K: TreeKey, V: TreeValue>(cs: Seq<(K, Node<K, V>)>, i: int)
    requires
        Node::<K, V>::ordered_children(cs),
        0 <= i < cs.len(),
    ensures
        Node::<K, V>::entries_of(cs) == Node::<K, V>::entries_of(cs.take(i))
            + cs[i].1.entries() + Node::<K, V>::entries_of(cs.skip(i + 1)),
        i > 0 ==> entries_below::<K, V>(Node::<K, V>::entries_of(cs.take(i)), cs[i - 1].0@),
        entries_above::<K, V>(Node::<K, V>::entries_of(cs.skip(i + 1)), cs[i].0@),
        Node::<K, V>::ordered_children(cs.take(i)),
{
    let pre = cs.take(i);
    let suf = cs.skip(i + 1);
    lemma_entries_of_split::<K, V>(cs, i + 1);
    assert(cs.take(i + 1).drop_last() =~= pre);
    assert(cs.take(i + 1).last() == cs[i]);
    assert(Node::<K, V>::entries_of(cs.take(i + 1)) == Node::<K, V>::entries_of(pre)
        + cs[i].1.entries());
    assert(Node::<K, V>::entries_of(cs) =~= Node::<K, V>::entries_of(pre) + cs[i].1.entries()
        + Node::<K, V>::entries_of(suf));
    // the prefix is itself an ordered run
    assert forall|j: int| 0 <= j < pre.len() implies (#[trigger] pre[j].1).ordered()
        && pre[j].1.keys_below(pre[j].0@) by {
        assert(pre[j] == cs[j]);
        lemma_ordered_children_index::<K, V>(cs, j);
    }
    assert forall|j: int| 0 < j < pre.len() implies K::key_lt(
        pre[j - 1].0@,
        (#[trigger] pre[j].0)@,
    ) by {
        assert(pre[j] == cs[j]);
        assert(pre[j - 1] == cs[j - 1]);
        lemma_ordered_children_index::<K, V>(cs, j);
    }
    assert forall|j: int| 0 < j < pre.len() implies (#[trigger] pre[j].1).keys_above(
        pre[j - 1].0@,
    ) by {
        assert(pre[j] == cs[j]);
        assert(pre[j - 1] == cs[j - 1]);
        lemma_ordered_children_index::<K, V>(cs, j);
    }
    lemma_ordered_children_build::<K, V>(pre);
    if i > 0 {
        lemma_entries_of_below::<K, V>(pre);
        assert(pre.last() == cs[i - 1]);
    }
    // the suffix lies strictly above this child's separator
    assert forall|j: int| 0 <= j < suf.len() implies K::key_lt(
        cs[i].0@,
        (#[trigger] suf[j].0)@,
    ) by {
        assert(suf[j] == cs[i + 1 + j]);
        lemma_separators_sorted::<K, V>(cs, i, i + 1 + j);
    }
    assert forall|j: int| 0 <= j < suf.len() implies (#[trigger] suf[j].1).keys_above(
        cs[i].0@,
    ) by {
        assert(suf[j] == cs[i + 1 + j]);
        lemma_ordered_children_index::<K, V>(cs, i + 1 + j);
        if i + j > i {
            lemma_separators_sorted::<K, V>(cs, i, i + j);
        }
        lemma_keys_above_mono::<K, V>(cs[i + 1 + j].1, cs[i + j].0@, cs[i].0@);
    }
    lemma_children_above_build::<K, V>(suf, cs[i].0@);
    lemma_children_above_entries::<K, V>(suf, cs[i].0@);
}

/// Replacing the child at `i` (possibly raising its separator) keeps the run
/// ordered, provided the new pair respects its neighbours.
pub proof fn lemma_ordered_children_update<K: TreeKey, V: TreeValue>(
    cs: Seq<(K, Node<K, V>)>,
    cs2: Seq<(K, Node<K, V>)>,
    i: int,
)
    requires
        Node::<K, V>::ordered_children(cs),
        cs2.len() == cs.len(),
        0 <= i < cs.len(),
        forall|j: int| 0 <= j < cs.len() && j != i ==> cs2[j] == cs[j],
        cs2[i].1.ordered(),
        cs2[i].1.keys_below(cs2[i].0@),
        i > 0 ==> K::key_lt(cs[i - 1].0@, cs2[i].0@),
        i > 0 ==> cs2[i].1.keys_above(cs[i - 1].0@),
        i < cs.len() - 1 ==> K::key_lt(cs2[i].0@, cs[i + 1].0@),
        i < cs.len() - 1 ==> cs[i + 1].1.keys_above(cs2[i].0@),
    ensures
        Node::<K, V>::ordered_children(cs2),
{
    assert forall|j: int| 0 <= j < cs2.len() implies (#[trigger] cs2[j].1).ordered() by {
        if j != i {
            lemma_ordered_children_index::<K, V>(cs, j);
        }
    }
    assert forall|j: int| 0 <= j < cs2.len() implies (#[trigger] cs2[j].1).keys_below(
        cs2[j].0@,
    ) by {
        if j != i {
            lemma_ordered_children_index::<K, V>(cs, j);
        }
    }
    assert forall|j: int| 0 < j < cs2.len() implies K::key_lt(
        cs2[j - 1].0@,
        (#[trigger] cs2[j].0)@,
    ) by {
        if j != i && j != i + 1 {
            lemma_separators_sorted::<K, V>(cs, j - 1, j);
        }
    }
    assert forall|j: int| 0 < j < cs2.len() implies (#[trigger] cs2[j].1).keys_above(
        cs2[j - 1].0@,
    ) by {
        if j != i && j != i + 1 {
            lemma_ordered_children_index::<K, V>(cs, j);
        }
    }
    lemma_ordered_children_build::<K, V>(cs2);
}

/// The same replacement keeps the capacity bound.
pub proof fn lemma_capped_children_update<K: TreeKey, V: TreeValue>(
    cs: Seq<(K, Node<K, V>)>,
    cs2: Seq<(K, Node<K, V>)>,
    i: int,
    n: nat,
)
    requires
        Node::<K, V>::capped_children(cs, n),
        cs2.len() == cs.len(),
        0 <= i < cs.len(),
        forall|j: int| 0 <= j < cs.len() && j != i ==> cs2[j] == cs[j],
        cs2[i].1.capped(n),
    ensures
        Node::<K, V>::capped_children(cs2, n),
{
    assert forall|j: int| 0 <= j < cs2.len() implies (#[trigger] cs2[j].1).capped(n) by {
        if j != i {
            lemma_capped_children_index::<K, V>(cs, n, j);
        }
    }
    lemma_capped_children_build::<K, V>(cs2, n);
}

/// The same replacement keeps an upper fence.
pub proof fn lemma_children_below_update<K: TreeKey, V: TreeValue>(
    cs: Seq<(K, Node<K, V>)>,
    cs2: Seq<(K, Node<K, V>)>,
    i: int,
    f: K::V,
)
    requires
        Node::<K, V>::children_below(cs, f),
        cs2.len() == cs.len(),
        0 <= i < cs.len(),
        forall|j: int| 0 <= j < cs.len() && j != i ==> cs2[j] == cs[j],
        key_le::<K>(cs2[i].0@, f),
        cs2[i].1.keys_below(f),
    ensures
        Node::<K, V>::children_below(cs2, f),
{
    assert forall|j: int| 0 <= j < cs2.len() implies key_le::<K>((#[trigger] cs2[j].0)@, f) by {
        if j != i {
            lemma_children_below_index::<K, V>(cs, f, j);
        }
    }
    assert forall|j: int| 0 <= j < cs2.len() implies (#[trigger] cs2[j].1).keys_below(f) by {
        if j != i {
            lemma_children_below_index::<K, V>(cs, f, j);
        }
    }
    lemma_children_below_build::<K, V>(cs2, f);
}

/// The same replacement keeps a lower fence.
pub proof fn lemma_children_above_update<K: TreeKey, V: TreeValue>(
    cs: Seq<(K, Node<K, V>)>,
    cs2: Seq<(K, Node<K, V>)>,
    i: int,
    f: K::V,
)
    requires
        Node::<K, V>::children_above(cs, f),
        cs2.len() == cs.len(),
        0 <= i < cs.len(),
        forall|j: int| 0 <= j < cs.len() && j != i ==> cs2[j] == cs[j],
        K::key_lt(f, cs2[i].0@),
        cs2[i].1.keys_above(f),
    ensures
        Node::<K, V>::children_above(cs2, f),
{
    assert forall|j: int| 0 <= j < cs2.len() implies K::key_lt(f, (#[trigger] cs2[j].0)@) by {
        if j != i {
            lemma_children_above_index::<K, V>(cs, f, j);
        }
    }
    assert forall|j: int| 0 <= j < cs2.len() implies (#[trigger] cs2[j].1).keys_above(f) by {
        if j != i {
            lemma_children_above_index::<K, V>(cs, f, j);
        }
    }
    lemma_children_above_build::<K, V>(cs2, f);
}

/// Replacing the child at `i` by two children keeps the run ordered,
/// provided the pair respects its neighbours.
pub proof fn lemma_ordered_children_widen<K: TreeKey, V: TreeValue>(
    cs: Seq<(K, Node<K, V>)>,
    cs2: Seq<(K, Node<K, V>)>,
    i: int,
)
    requires
        Node::<K, V>::ordered_children(cs),
        cs2.len() == cs.len() + 1,
        0 <= i < cs.len(),
        forall|j: int| 0 <= j < i ==> cs2[j] == cs[j],
        forall|j: int| i + 1 < j < cs2.len() ==> cs2[j] == cs[j - 1],
        cs2[i].1.ordered(),
        cs2[i].1.keys_below(cs2[i].0@),
        cs2[i + 1].1.ordered(),
        cs2[i + 1].1.keys_above(cs2[i].0@),
        cs2[i + 1].1.keys_below(cs2[i + 1].0@),
        K::key_lt(cs2[i].0@, cs2[i + 1].0@),
        i > 0 ==> K::key_lt(cs[i - 1].0@, cs2[i].0@),
        i > 0 ==> cs2[i].1.keys_above(cs[i - 1].0@),
        i < cs.len() - 1 ==> K::key_lt(cs2[i + 1].0@, cs[i + 1].0@),
        i < cs.len() - 1 ==> cs[i + 1].1.keys_above(cs2[i + 1].0@),
    ensures
        Node::<K, V>::ordered_children(cs2),
{
    assert forall|j: int| 0 <= j < cs2.len() implies (#[trigger] cs2[j].1).ordered() by {
        if j < i {
            lemma_ordered_children_index::<K, V>(cs, j);
        } else if j > i + 1 {
            lemma_ordered_children_index::<K, V>(cs, j - 1);
        }
    }
    assert forall|j: int| 0 <= j < cs2.len() implies (#[trigger] cs2[j].1).keys_below(
        cs2[j].0@,
    ) by {
        if j < i {
            lemma_ordered_children_index::<K, V>(cs, j);
        } else if j > i + 1 {
            lemma_ordered_children_index::<K, V>(cs, j - 1);
        }
    }
    assert forall|j: int| 0 < j < cs2.len() implies K::key_lt(
        cs2[j - 1].0@,
        (#[trigger] cs2[j].0)@,
    ) by {
        if j < i {
            lemma_separators_sorted::<K, V>(cs, j - 1, j);
        } else if j > i + 2 {
            lemma_separators_sorted::<K, V>(cs, j - 2, j - 1);
        }
    }
    assert forall|j: int| 0 < j < cs2.len() implies (#[trigger] cs2[j].1).keys_above(
        cs2[j - 1].0@,
    ) by {
        if j < i {
            lemma_ordered_children_index::<K, V>(cs, j);
        } else if j > i + 2 {
            lemma_ordered_children_index::<K, V>(cs, j - 1);
        }
    }
    lemma_ordered_children_build::<K, V>(cs2);
}

/// The same widening keeps the capacity facts of the children.
pub proof fn lemma_capped_children_widen<K: TreeKey, V: TreeValue>(
    cs: Seq<(K, Node<K, V>)>,
    cs2: Seq<(K, Node<K, V>)>,
    i: int,
    n: nat,
)
    requires
        Node::<K, V>::capped_children(cs, n),
        cs2.len() == cs.len() + 1,
        0 <= i < cs.len(),
        forall|j: int| 0 <= j < i ==> cs2[j] == cs[j],
        forall|j: int| i + 1 < j < cs2.len() ==> cs2[j] == cs[j - 1],
        cs2[i].1.capped(n),
        cs2[i + 1].1.capped(n),
    ensures
        Node::<K, V>::capped_children(cs2, n),
{
    assert forall|j: int| 0 <= j < cs2.len() implies (#[trigger] cs2[j].1).capped(n) by {
        if j < i {
            lemma_capped_children_index::<K, V>(cs, n, j);
        } else if j > i + 1 {
            lemma_capped_children_index::<K, V>(cs, n, j - 1);
        }
    }
    lemma_capped_children_build::<K, V>(cs2, n);
}

/// The same widening keeps a lower fence when both new children respect it.
pub proof fn lemma_children_above_widen<K: TreeKey, V: TreeValue>(
    cs: Seq<(K, Node<K, V>)>,
    cs2: Seq<(K, Node<K, V>)>,
    i: int,
    f: K::V,
)
    requires
        Node::<K, V>::children_above(cs, f),
        cs2.len() == cs.len() + 1,
        0 <= i < cs.len(),
        forall|j: int| 0 <= j < i ==> cs2[j] == cs[j],
        forall|j: int| i + 1 < j < cs2.len() ==> cs2[j] == cs[j - 1],
        K::key_lt(f, cs2[i].0@),
        cs2[i].1.keys_above(f),
        K::key_lt(f, cs2[i + 1].0@),
        cs2[i + 1].1.keys_above(f),
    ensures
        Node::<K, V>::children_above(cs2, f),
{
    assert forall|j: int| 0 <= j < cs2.len() implies K::key_lt(f, (#[trigger] cs2[j].0)@) by {
        if j < i {
            lemma_children_above_index::<K, V>(cs, f, j);
        } else if j > i + 1 {
            lemma_children_above_index::<K, V>(cs, f, j - 1);
        }
    }
    assert forall|j: int| 0 <= j < cs2.len() implies (#[trigger] cs2[j].1).keys_above(f) by {
        if j < i {
            lemma_children_above_index::<K, V>(cs, f, j);
        } else if j > i + 1 {
            lemma_children_above_index::<K, V>(cs, f, j - 1);
        }
    }
    lemma_children_above_build::<K, V>(cs2, f);
}

/// The same widening keeps an upper fence when both new children respect it.
pub proof fn lemma_children_below_widen<K: TreeKey, V: TreeValue>(
    cs: Seq<(K, Node<K, V>)>,
    cs2: Seq<(K, Node<K, V>)>,
    i: int,
    f: K::V,
)
    requires
        Node::<K, V>::children_below(cs, f),
        cs2.len() == cs.len() + 1,
        0 <= i < cs.len(),
        forall|j: int| 0 <= j < i ==> cs2[j] == cs[j],
        forall|j: int| i + 1 < j < cs2.len() ==> cs2[j] == cs[j - 1],
        key_le::<K>(cs2[i].0@, f),
        cs2[i].1.keys_below(f),
        key_le::<K>(cs2[i + 1].0@, f),
        cs2[i + 1].1.keys_below(f),
    ensures
        Node::<K, V>::children_below(cs2, f),
{
    assert forall|j: int| 0 <= j < cs2.len() implies key_le::<K>((#[trigger] cs2[j].0)@, f) by {
        if j < i {
            lemma_children_below_index::<K, V>(cs, f, j);
        } else if j > i + 1 {
            lemma_children_below_index::<K, V>(cs, f, j - 1);
        }
    }
    assert forall|j: int| 0 <= j < cs2.len() implies (#[trigger] cs2[j].1).keys_below(f) by {
        if j < i {
            lemma_children_below_index::<K, V>(cs, f, j);
        } else if j > i + 1 {
            lemma_children_below_index::<K, V>(cs, f, j - 1);
        }
    }
    lemma_children_below_build::<K, V>(cs2, f);
}

/// Both halves of a split run are ordered runs, bounded by their last
/// separators, the right half lying strictly above the left's bound.
pub proof fn lemma_ordered_children_halves<K: TreeKey, V: TreeValue>(
    cs: Seq<(K, Node<K, V>)>,
    m: int,
)
    requires
        Node::<K, V>::ordered_children(cs),
        0 < m < cs.len(),
    ensures
        Node::<K, V>::ordered_children(cs.take(m)),
        Node::<K, V>::ordered_children(cs.skip(m)),
        Node::<K, V>::children_below(cs.take(m), cs[m - 1].0@),
        Node::<K, V>::children_above(cs.skip(m), cs[m - 1].0@),
        Node::<K, V>::children_below(cs.skip(m), cs.last().0@),
{
    let cs1 = cs.take(m);
    let cs2 = cs.skip(m);
    assert forall|j: int| 0 <= j < cs1.len() implies (#[trigger] cs1[j].1).ordered()
        && cs1[j].1.keys_below(cs1[j].0@) by {
        assert(cs1[j] == cs[j]);
        lemma_ordered_children_index::<K, V>(cs, j);
    }
    assert forall|j: int| 0 < j < cs1.len() implies K::key_lt(
        cs1[j - 1].0@,
        (#[trigger] cs1[j].0)@,
    ) by {
        assert(cs1[j] == cs[j]);
        assert(cs1[j - 1] == cs[j - 1]);
        lemma_separators_sorted::<K, V>(cs, j - 1, j);
    }
    assert forall|j: int| 0 < j < cs1.len() implies (#[trigger] cs1[j].1).keys_above(
        cs1[j - 1].0@,
    ) by {
        assert(cs1[j] == cs[j]);
        assert(cs1[j - 1] == cs[j - 1]);
        lemma_ordered_children_index::<K, V>(cs, j);
    }
    lemma_ordered_children_build::<K, V>(cs1);
    assert forall|j: int| 0 <= j < cs2.len() implies (#[trigger] cs2[j].1).ordered()
        && cs2[j].1.keys_below(cs2[j].0@) by {
        assert(cs2[j] == cs[m + j]);
        lemma_ordered_children_index::<K, V>(cs, m + j);
    }
    assert forall|j: int| 0 < j < cs2.len() implies K::key_lt(
        cs2[j - 1].0@,
        (#[trigger] cs2[j].0)@,
    ) by {
        assert(cs2[j] == cs[m + j]);
        assert(cs2[j - 1] == cs[m + j - 1]);
        lemma_separators_sorted::<K, V>(cs, m + j - 1, m + j);
    }
    assert forall|j: int| 0 < j < cs2.len() implies (#[trigger] cs2[j].1).keys_above(
        cs2[j - 1].0@,
    ) by {
        assert(cs2[j] == cs[m + j]);
        assert(cs2[j - 1] == cs[m + j - 1]);
        lemma_ordered_children_index::<K, V>(cs, m + j);
    }
    lemma_ordered_children_build::<K, V>(cs2);
    lemma_run_below_last::<K, V>(cs1);
    assert(cs1.last() == cs[m - 1]);
    lemma_separators_sorted::<K, V>(cs, m - 1, m);
    lemma_ordered_children_index::<K, V>(cs, m);
    assert(cs2[0] == cs[m]);
    lemma_children_above_build_from_ordered::<K, V>(cs2, cs[m - 1].0@);
    lemma_run_below_last::<K, V>(cs2);
    assert(cs2.last() == cs.last());
}

/// The halves of a split run keep their capacity facts.
pub proof fn lemma_capped_children_halves<K: TreeKey, V: TreeValue>(
    cs: Seq<(K, Node<K, V>)>,
    m: int,
    n: nat,
)
    requires
        Node::<K, V>::capped_children(cs, n),
        0 <= m <= cs.len(),
    ensures
        Node::<K, V>::capped_children(cs.take(m), n),
        Node::<K, V>::capped_children(cs.skip(m), n),
{
    let cs1 = cs.take(m);
    let cs2 = cs.skip(m);
    assert forall|j: int| 0 <= j < cs1.len() implies (#[trigger] cs1[j].1).capped(n) by {
        assert(cs1[j] == cs[j]);
        lemma_capped_children_index::<K, V>(cs, n, j);
    }
    lemma_capped_children_build::<K, V>(cs1, n);
    assert forall|j: int| 0 <= j < cs2.len() implies (#[trigger] cs2[j].1).capped(n) by {
        assert(cs2[j] == cs[m + j]);
        lemma_capped_children_index::<K, V>(cs, n, m + j);
    }
    lemma_capped_children_build::<K, V>(cs2, n);
}

/// Fences restrict to both halves of a split run.
pub proof fn lemma_children_above_halves<K: TreeKey, V: TreeValue>(
    cs: Seq<(K, Node<K, V>)>,
    m: int,
    f: K::V,
)
    requires
        Node::<K, V>::children_above(cs, f),
        0 <= m <= cs.len(),
    ensures
        Node::<K, V>::children_above(cs.take(m), f),
        Node::<K, V>::children_above(cs.skip(m), f),
{
    let cs1 = cs.take(m);
    let cs2 = cs.skip(m);
    assert forall|j: int| 0 <= j < cs1.len() implies K::key_lt(f, (#[trigger] cs1[j].0)@)
        && cs1[j].1.keys_above(f) by {
        assert(cs1[j] == cs[j]);
        lemma_children_above_index::<K, V>(cs, f, j);
    }
    assert forall|j: int| 0 <= j < cs1.len() implies (#[trigger] cs1[j].1).keys_above(f) by {
        assert(cs1[j] == cs[j]);
        lemma_children_above_index::<K, V>(cs, f, j);
    }
    lemma_children_above_build::<K, V>(cs1, f);
    assert forall|j: int| 0 <= j < cs2.len() implies K::key_lt(f, (#[trigger] cs2[j].0)@) by {
        assert(cs2[j] == cs[m + j]);
        lemma_children_above_index::<K, V>(cs, f, m + j);
    }
    assert forall|j: int| 0 <= j < cs2.len() implies (#[trigger] cs2[j].1).keys_above(f) by {
        assert(cs2[j] == cs[m + j]);
        lemma_children_above_index::<K, V>(cs, f, m + j);
    }
    lemma_children_above_build::<K, V>(cs2, f);
}

/// The mirrored restriction for upper fences.
pub proof fn lemma_children_below_halves<K: TreeKey, V: TreeValue>(
    cs: Seq<(K, Node<K, V>)>,
    m: int,
    f: K::V,
)
    requires
        Node::<K, V>::children_below(cs, f),
        0 <= m <= cs.len(),
    ensures
        Node::<K, V>::children_below(cs.take(m), f),
        Node::<K, V>::children_below(cs.skip(m), f),
{
    let cs1 = cs.take(m);
    let cs2 = cs.skip(m);
    assert forall|j: int| 0 <= j < cs1.len() implies key_le::<K>((#[trigger] cs1[j].0)@, f) by {
        assert(cs1[j] == cs[j]);
        lemma_children_below_index::<K, V>(cs, f, j);
    }
    assert forall|j: int| 0 <= j < cs1.len() implies (#[trigger] cs1[j].1).keys_below(f) by {
        assert(cs1[j] == cs[j]);
        lemma_children_below_index::<K, V>(cs, f, j);
    }
    lemma_children_below_build::<K, V>(cs1, f);
    assert forall|j: int| 0 <= j < cs2.len() implies key_le::<K>((#[trigger] cs2[j].0)@, f) by {
        assert(cs2[j] == cs[m + j]);
        lemma_children_below_index::<K, V>(cs, f, m + j);
    }
    assert forall|j: int| 0 <= j < cs2.len() implies (#[trigger] cs2[j].1).keys_below(f) by {
        assert(cs2[j] == cs[m + j]);
        lemma_children_below_index::<K, V>(cs, f, m + j);
    }
    lemma_children_below_build::<K, V>(cs2, f);
}

/// An ordered run lies at or below its own last separator.
pub proof fn lemma_run_below_last<K: TreeKey, V: TreeValue>(cs: Seq<(K, Node<K, V>)>)
    requires
        Node::<K, V>::ordered_children(cs),
        cs.len() > 0,
    ensures
        Node::<K, V>::children_below(cs, cs.last().0@),
{
    assert forall|j: int| 0 <= j < cs.len() implies key_le::<K>(
        (#[trigger] cs[j].0)@,
        cs.last().0@,
    ) by {
        if j < cs.len() - 1 {
            lemma_separators_sorted::<K, V>(cs, j, cs.len() - 1);
        }
    }
    assert forall|j: int| 0 <= j < cs.len() implies (#[trigger] cs[j].1).keys_below(
        cs.last().0@,
    ) by {
        lemma_ordered_children_index::<K, V>(cs, j);
        if j < cs.len() - 1 {
            lemma_separators_sorted::<K, V>(cs, j, cs.len() - 1);
        }
        lemma_keys_below_mono::<K, V>(cs[j].1, cs[j].0@, cs.last().0@);
    }
    lemma_children_below_build::<K, V>(cs, cs.last().0@);
}

/// Keys strictly above a bound exclude any key at or below it.
pub proof fn lemma_above_excludes<K: TreeKey, V: TreeValue>(
    s: Seq<(K::V, V::V)>,
    bound: K::V,
    k: K::V,
)
    requires
        entries_above::<K, V>(s, bound),
        !K::key_lt(bound, k),
    ensures
        !has_key::<K, V>(s, k),
{
    if has_key::<K, V>(s, k) {
        let j = choose|j: int| 0 <= j < s.len() && (#[trigger] s[j]).0 == k;
        assert(K::key_lt(bound, s[j].0));
    }
}

/// Keys at or below a bound exclude any key strictly above it.
pub proof fn lemma_below_excludes<K: TreeKey, V: TreeValue>(
    s: Seq<(K::V, V::V)>,
    bound: K::V,
    k: K::V,
)
    requires
        entries_below::<K, V>(s, bound),
        K::key_lt(bound, k),
    ensures
        !has_key::<K, V>(s, k),
{
    if has_key::<K, V>(s, k) {
        let j = choose|j: int| 0 <= j < s.len() && (#[trigger] s[j]).0 == k;
        assert(key_le::<K>(k, bound));
        if k == bound {
            K::lemma_lt_trichotomy(bound, k);
        } else {
            K::lemma_lt_transitive(bound, k, bound);
            K::lemma_lt_trichotomy(bound, bound);
        }
    }
}

/// Replacing the middle of a three-part concatenation by entries whose map
/// gains `k`, while the right part lacks `k`, adds `k` to the whole map.
pub proof fn lemma_concat_insert_middle<K: TreeKey, V: TreeValue>(
    a: Seq<(K::V, V::V)>,
    c: Seq<(K::V, V::V)>,
    b: Seq<(K::V, V::V)>,
    c2: Seq<(K::V, V::V)>,
    k: K::V,
    v: V::V,
)
    requires
        map_of::<K, V>(c2) == map_of::<K, V>(c).insert(k, v),
        !has_key::<K, V>(b, k),
    ensures
        map_of::<K, V>(a + c2 + b) == map_of::<K, V>(a + c + b).insert(k, v),
{
    lemma_map_of_concat::<K, V>(a + c2, b);
    lemma_map_of_concat::<K, V>(a, c2);
    lemma_map_of_concat::<K, V>(a + c, b);
    lemma_map_of_concat::<K, V>(a, c);
    lemma_map_of_dom::<K, V>(b, k);
    assert(map_of::<K, V>(a + c2 + b) =~= map_of::<K, V>(a + c + b).insert(k, v));
}

/// Replacing the middle of a three-part concatenation by entries whose map
/// loses `k`, while the outer parts lack `k`, removes `k` from the whole map.
pub proof fn lemma_concat_remove_middle<K: TreeKey, V: TreeValue>(
    a: Seq<(K::V, V::V)>,
    c: Seq<(K::V, V::V)>,
    b: Seq<(K::V, V::V)>,
    c2: Seq<(K::V, V::V)>,
    k: K::V,
)
    requires
        map_of::<K, V>(c2) == map_of::<K, V>(c).remove(k),
        !has_key::<K, V>(a, k),
        !has_key::<K, V>(b, k),
    ensures
        map_of::<K, V>(a + c2 + b) == map_of::<K, V>(a + c + b).remove(k),
{
    lemma_map_of_concat::<K, V>(a + c2, b);
    lemma_map_of_concat::<K, V>(a, c2);
    lemma_map_of_concat::<K, V>(a + c, b);
    lemma_map_of_concat::<K, V>(a, c);
    lemma_map_of_dom::<K, V>(a, k);
    lemma_map_of_dom::<K, V>(b, k);
    assert(map_of::<K, V>(a + c2 + b) =~= map_of::<K, V>(a + c + b).remove(k));
}

/// When the entry keys of a sorted run come from an old key set plus `k`,
/// fences below `k` that held of the old keys still hold.
pub proof fn lemma_fence_above<K: TreeKey, V: TreeValue>(
    s: Seq<(K::V, V::V)>,
    old_s: Seq<(K::V, V::V)>,
    k: K::V,
    f: K::V,
)
    requires
        sorted_entries::<K, V>(s),
        forall|x: K::V| map_of::<K, V>(s).contains_key(x) ==> map_of::<K, V>(
            old_s,
        ).contains_key(x) || x == k,
        entries_above::<K, V>(old_s, f),
        K::key_lt(f, k),
    ensures
        entries_above::<K, V>(s, f),
{
    assert forall|i: int| 0 <= i < s.len() implies K::key_lt(f, (#[trigger] s[i]).0) by {
        lemma_map_of_index::<K, V>(s, i);
        if s[i].0 != k {
            lemma_map_of_dom::<K, V>(old_s, s[i].0);
            let j = choose|j: int| 0 <= j < old_s.len() && (#[trigger] old_s[j]).0 == s[i].0;
            assert(K::key_lt(f, old_s[j].0));
        }
    }
}

/// The mirrored fence: bounds at or above `k` that held of the old keys hold.
pub proof fn lemma_fence_below<K: TreeKey, V: TreeValue>(
    s: Seq<(K::V, V::V)>,
    old_s: Seq<(K::V, V::V)>,
    k: K::V,
    f: K::V,
)
    requires
        sorted_entries::<K, V>(s),
        forall|x: K::V| map_of::<K, V>(s).contains_key(x) ==> map_of::<K, V>(
            old_s,
        ).contains_key(x) || x == k,
        entries_below::<K, V>(old_s, f),
        key_le::<K>(k, f),
    ensures
        entries_below::<K, V>(s, f),
{
    assert forall|i: int| 0 <= i < s.len() implies key_le::<K>((#[trigger] s[i]).0, f) by {
        lemma_map_of_index::<K, V>(s, i);
        if s[i].0 != k {
            lemma_map_of_dom::<K, V>(old_s, s[i].0);
            let j = choose|j: int| 0 <= j < old_s.len() && (#[trigger] old_s[j]).0 == s[i].0;
            assert(key_le::<K>(old_s[j].0, f));
        }
    }
}

/// When dispatch picks child `i` for probe `k` (all earlier separators below
/// `k`, and `k` at most separator `i` unless `i` is last), the run's map
/// agrees at `k` with child `i`'s map.
pub proof fn lemma_dispatch_agrees<K: TreeKey, V: TreeValue>(
    cs: Seq<(K, Node<K, V>)>,
    i: int,
    k: K::V,
)
    requires
        Node::<K, V>::ordered_children(cs),
        0 <= i < cs.len(),
        forall|j: int| 0 <= j < i ==> K::key_lt((#[trigger] cs[j]).0@, k),
        i < cs.len() - 1 ==> !K::key_lt(cs[i].0@, k),
    ensures
        map_of::<K, V>(Node::<K, V>::entries_of(cs)).contains_key(k) == map_of::<K, V>(
            cs[i].1.entries(),
        ).contains_key(k),
        map_of::<K, V>(cs[i].1.entries()).contains_key(k) ==> map_of::<K, V>(
            Node::<K, V>::entries_of(cs),
        )[k] == map_of::<K, V>(cs[i].1.entries())[k],
{
    lemma_child_window::<K, V>(cs, i);
    let a = Node::<K, V>::entries_of(cs.take(i));
    let c = cs[i].1.entries();
    let b = Node::<K, V>::entries_of(cs.skip(i + 1));
    lemma_map_of_concat::<K, V>(a + c, b);
    lemma_map_of_concat::<K, V>(a, c);
    assert(!map_of::<K, V>(a).contains_key(k)) by {
        lemma_map_of_dom::<K, V>(a, k);
        if has_key::<K, V>(a, k) {
            let j = choose|j: int| 0 <= j < a.len() && (#[trigger] a[j]).0 == k;
            assert(i > 0);
            assert(key_le::<K>(a[j].0, cs[i - 1].0@));
            if k == cs[i - 1].0@ {
                K::lemma_lt_trichotomy(cs[i - 1].0@, k);
            } else {
                K::lemma_lt_transitive(cs[i - 1].0@, k, cs[i - 1].0@);
                K::lemma_lt_trichotomy(cs[i - 1].0@, cs[i - 1].0@);
            }
        }
    }
    assert(!map_of::<K, V>(b).contains_key(k)) by {
        lemma_map_of_dom::<K, V>(b, k);
        if has_key::<K, V>(b, k) {
            let j = choose|j: int| 0 <= j < b.len() && (#[trigger] b[j]).0 == k;
            assert(i < cs.len() - 1);
            assert(K::key_lt(cs[i].0@, b[j].0));
            assert(!K::key_lt(cs[i].0@, k));
            K::lemma_lt_trichotomy(cs[i].0@, k);
            if K::key_lt(k, cs[i].0@) {
                K::lemma_lt_transitive(k, cs[i].0@, k);
                K::lemma_lt_trichotomy(k, k);
            }
        }
    }
}

/// Access attainment facts by position.
pub proof fn lemma_children_attained_index<K: TreeKey, V: TreeValue>(
    cs: Seq<(K, Node<K, V>)>,
    i: int,
)
    requires
        Node::<K, V>::children_attained(cs),
        0 <= i < cs.len(),
    ensures
        cs[i].1.seps_attained(),
        has_key::<K, V>(cs[i].1.entries(), cs[i].0@),
    decreases cs.len(),
{
    if i == cs.len() - 1 {
    } else {
        assert(cs.drop_last()[i] == cs[i]);
        lemma_children_attained_index::<K, V>(cs.drop_last(), i);
    }
}

/// Rebuild attainment from facts about each position.
pub proof fn lemma_children_attained_build<K: TreeKey, V: TreeValue>(cs: Seq<(K, Node<K, V>)>)
    requires
        forall|i: int| 0 <= i < cs.len() ==> (#[trigger] cs[i].1).seps_attained(),
        forall|i: int| 0 <= i < cs.len() ==> has_key::<K, V>(
            (#[trigger] cs[i].1).entries(),
            cs[i].0@,
        ),
    ensures
        Node::<K, V>::children_attained(cs),
    decreases cs.len(),
{
    if cs.len() == 0 {
    } else {
        let prefix = cs.drop_last();
        assert forall|i: int| 0 <= i < prefix.len() implies (#[trigger] prefix[i].1).seps_attained()
            && has_key::<K, V>(prefix[i].1.entries(), prefix[i].0@) by {
            assert(prefix[i] == cs[i]);
        }
        lemma_children_attained_build::<K, V>(prefix);
    }
}

/// Replacing the child at `i` keeps attainment when the new child is
/// attained and reaches its separator.
pub proof fn lemma_children_attained_update<K: TreeKey, V: TreeValue>(
    cs: Seq<(K, Node<K, V>)>,
    cs2: Seq<(K, Node<K, V>)>,
    i: int,
)
    requires
        Node::<K, V>::children_attained(cs),
        cs2.len() == cs.len(),
        0 <= i < cs.len(),
        forall|j: int| 0 <= j < cs.len() && j != i ==> cs2[j] == cs[j],
        cs2[i].1.seps_attained(),
        has_key::<K, V>(cs2[i].1.entries(), cs2[i].0@),
    ensures
        Node::<K, V>::children_attained(cs2),
{
    assert forall|j: int| 0 <= j < cs2.len() implies (#[trigger] cs2[j].1).seps_attained() by {
        if j != i {
            lemma_children_attained_index::<K, V>(cs, j);
        }
    }
    assert forall|j: int| 0 <= j < cs2.len() implies has_key::<K, V>(
        (#[trigger] cs2[j].1).entries(),
        cs2[j].0@,
    ) by {
        if j != i {
            lemma_children_attained_index::<K, V>(cs, j);
        }
    }
    lemma_children_attained_build::<K, V>(cs2);
}

/// Replacing the child at `i` by two children keeps attainment when both
/// are attained and reach their separators.
pub proof fn lemma_children_attained_widen<K: TreeKey, V: TreeValue>(
    cs: Seq<(K, Node<K, V>)>,
    cs2: Seq<(K, Node<K, V>)>,
    i: int,
)
    requires
        Node::<K, V>::children_attained(cs),
        cs2.len() == cs.len() + 1,
        0 <= i < cs.len(),
        forall|j: int| 0 <= j < i ==> cs2[j] == cs[j],
        forall|j: int| i + 1 < j < cs2.len() ==> cs2[j] == cs[j - 1],
        cs2[i].1.seps_attained(),
        has_key::<K, V>(cs2[i].1.entries(), cs2[i].0@),
        cs2[i + 1].1.seps_attained(),
        has_key::<K, V>(cs2[i + 1].1.entries(), cs2[i + 1].0@),
    ensures
        Node::<K, V>::children_attained(cs2),
{
    assert forall|j: int| 0 <= j < cs2.len() implies (#[trigger] cs2[j].1).seps_attained() by {
        if j < i {
            lemma_children_attained_index::<K, V>(cs, j);
        } else if j > i + 1 {
            lemma_children_attained_index::<K, V>(cs, j - 1);
        }
    }
    assert forall|j: int| 0 <= j < cs2.len() implies has_key::<K, V>(
        (#[trigger] cs2[j].1).entries(),
        cs2[j].0@,
    ) by {
        if j < i {
            lemma_children_attained_index::<K, V>(cs, j);
        } else if j > i + 1 {
            lemma_children_attained_index::<K, V>(cs, j - 1);
        }
    }
    lemma_children_attained_build::<K, V>(cs2);
}

/// Attainment restricts to both halves of a split run, whose last
/// separators are attained keys of the halves.
pub proof fn lemma_children_attained_halves<K: TreeKey, V: TreeValue>(
    cs: Seq<(K, Node<K, V>)>,
    m: int,
)
    requires
        Node::<K, V>::children_attained(cs),
        0 < m < cs.len(),
    ensures
        Node::<K, V>::children_attained(cs.take(m)),
        Node::<K, V>::children_attained(cs.skip(m)),
        has_key::<K, V>(Node::<K, V>::entries_of(cs.take(m)), cs[m - 1].0@),
        has_key::<K, V>(Node::<K, V>::entries_of(cs.skip(m)), cs.last().0@),
{
    let cs1 = cs.take(m);
    let cs2 = cs.skip(m);
    assert forall|j: int| 0 <= j < cs1.len() implies (#[trigger] cs1[j].1).seps_attained() by {
        assert(cs1[j] == cs[j]);
        lemma_children_attained_index::<K, V>(cs, j);
    }
    assert forall|j: int| 0 <= j < cs1.len() implies has_key::<K, V>(
        (#[trigger] cs1[j].1).entries(),
        cs1[j].0@,
    ) by {
        assert(cs1[j] == cs[j]);
        lemma_children_attained_index::<K, V>(cs, j);
    }
    lemma_children_attained_build::<K, V>(cs1);
    assert forall|j: int| 0 <= j < cs2.len() implies (#[trigger] cs2[j].1).seps_attained() by {
        assert(cs2[j] == cs[m + j]);
        lemma_children_attained_index::<K, V>(cs, m + j);
    }
    assert forall|j: int| 0 <= j < cs2.len() implies has_key::<K, V>(
        (#[trigger] cs2[j].1).entries(),
        cs2[j].0@,
    ) by {
        assert(cs2[j] == cs[m + j]);
        lemma_children_attained_index::<K, V>(cs, m + j);
    }
    lemma_children_attained_build::<K, V>(cs2);
    assert(cs1[m - 1] == cs[m - 1]);
    lemma_children_attained_index::<K, V>(cs, m - 1);
    lemma_has_key_in_run::<K, V>(cs1, m - 1, cs[m - 1].0@);
    assert(cs2[cs2.len() - 1] == cs[cs.len() - 1]);
    lemma_children_attained_index::<K, V>(cs, cs.len() - 1);
    lemma_has_key_in_run::<K, V>(cs2, cs2.len() - 1, cs.last().0@);
}

/// A key of one child's subtree is a key of the whole run.
pub proof fn lemma_has_key_in_run<K: TreeKey, V: TreeValue>(
    cs: Seq<(K, Node<K, V>)>,
    i: int,
    x: K::V,
)
    requires
        0 <= i < cs.len(),
        has_key::<K, V>(cs[i].1.entries(), x),
    ensures
        has_key::<K, V>(Node::<K, V>::entries_of(cs), x),
    decreases cs.len(),
{
    let whole = Node::<K, V>::entries_of(cs);
    let pre = Node::<K, V>::entries_of(cs.drop_last());
    if i == cs.len() - 1 {
        let j = choose|j: int|
            0 <= j < cs[i].1.entries().len() && (#[trigger] cs[i].1.entries()[j]).0 == x;
        assert(whole[pre.len() + j] == cs[i].1.entries()[j]);
    } else {
        assert(cs.drop_last()[i] == cs[i]);
        lemma_has_key_in_run::<K, V>(cs.drop_last(), i, x);
        let j = choose|j: int| 0 <= j < pre.len() && (#[trigger] pre[j]).0 == x;
        assert(whole[j] == pre[j]);
    }
}

/// In an ordered run with attained separators, each separator is exactly
/// the maximum key of its child's subtree: an upper bound that one of the
/// subtree's keys reaches.
pub proof fn lemma_separator_is_max<K: TreeKey, V: TreeValue>(cs: Seq<(K, Node<K, V>)>, i: int)
    requires
        Node::<K, V>::ordered_children(cs),
        Node::<K, V>::children_attained(cs),
        0 <= i < cs.len(),
    ensures
        has_key::<K, V>(cs[i].1.entries(), cs[i].0@),
        entries_below::<K, V>(cs[i].1.entries(), cs[i].0@),
{
    lemma_ordered_children_index::<K, V>(cs, i);
    lemma_children_attained_index::<K, V>(cs, i);
    lemma_keys_below_entries::<K, V>(cs[i].1, cs[i].0@);
}

/// The entries of an ordered run stay at or below its last separator.
pub proof fn lemma_entries_of_below<K: TreeKey, V: TreeValue>(cs: Seq<(K, Node<K, V>)>)
    requires
        Node::<K, V>::ordered_children(cs),
        cs.len() > 0,
    ensures
        entries_below::<K, V>(Node::<K, V>::entries_of(cs), cs.last().0@),
    decreases cs.len(),
{
    let prefix = cs.drop_last();
    let whole = Node::<K, V>::entries_of(cs);
    let pre = Node::<K, V>::entries_of(prefix);
    let tail = cs.last().1.entries();
    assert(whole == pre + tail);
    lemma_keys_below_entries::<K, V>(cs.last().1, cs.last().0@);
    assert(entries_below::<K, V>(tail, cs.last().0@));
    if prefix.len() > 0 {
        lemma_entries_of_below::<K, V>(prefix);
        assert forall|i: int| 0 <= i < whole.len() implies key_le::<K>(
            #[trigger] whole[i].0,
            cs.last().0@,
        ) by {
            if i < pre.len() {
                assert(whole[i] == pre[i]);
                assert(key_le::<K>(pre[i].0, prefix.last().0@));
                if pre[i].0 == prefix.last().0@ {
                } else {
                    K::lemma_lt_transitive(pre[i].0, prefix.last().0@, cs.last().0@);
                }
            } else {
                assert(whole[i] == tail[i - pre.len()]);
                assert(key_le::<K>(tail[i - pre.len()].0, cs.last().0@));
            }
        }
    } else {
        assert(whole =~= tail);
        assert forall|i: int| 0 <= i < whole.len() implies key_le::<K>(
            #[trigger] whole[i].0,
            cs.last().0@,
        ) by {
            assert(whole[i] == tail[i]);
            assert(key_le::<K>(tail[i].0, cs.last().0@));
        }
    }
}

/// An ordered node's entries are sorted.
pub proof fn lemma_node_entries_sorted<K: TreeKey, V: TreeValue>(node: Node<K, V>)
    requires
        node.ordered(),
    ensures
        sorted_entries::<K, V>(node.entries()),
    decreases node,
{
    match node {
        Node::Leaf(_) => {},
        Node::Intermediate(m) => {
            lemma_entries_of_sorted::<K, V>(m.children@);
        },
    }
}

/// The concatenated entries of an ordered run are sorted.
pub proof fn lemma_entries_of_sorted<K: TreeKey, V: TreeValue>(cs: Seq<(K, Node<K, V>)>)
    requires
        Node::<K, V>::ordered_children(cs),
    ensures
        sorted_entries::<K, V>(Node::<K, V>::entries_of(cs)),
    decreases cs,
{
    if cs.len() == 0 {
    } else {
        let prefix = cs.drop_last();
        lemma_entries_of_sorted::<K, V>(prefix);
        lemma_node_entries_sorted::<K, V>(cs.last().1);
        if prefix.len() == 0 {
            assert(Node::<K, V>::entries_of(cs) =~= cs.last().1.entries());
        } else {
            lemma_entries_of_below::<K, V>(prefix);
            lemma_keys_above_entries::<K, V>(cs.last().1, prefix.last().0@);
            lemma_sorted_concat::<K, V>(
                Node::<K, V>::entries_of(prefix),
                cs.last().1.entries(),
                prefix.last().0@,
            );
        }
    }
}

/// Replacing the value at an entry's position updates its key in the map.
pub proof fn lemma_map_of_update<K: TreeKey, V: TreeValue>(
    s: Seq<(K::V, V::V)>,
    i: int,
    k: K::V,
    v: V::V,
)
    requires
        sorted_entries::<K, V>(s),
        0 <= i < s.len(),
        s[i].0 == k,
    ensures
        map_of::<K, V>(s.update(i, (k, v))) == map_of::<K, V>(s).insert(k, v),
    decreases s.len(),
{
    let upd = s.update(i, (k, v));
    if i == s.len() - 1 {
        assert(upd.drop_last() =~= s.drop_last());
        assert(upd.last() == (k, v));
        assert(map_of::<K, V>(s.drop_last()).insert(s.last().0, s.last().1).insert(k, v)
            =~= map_of::<K, V>(s.drop_last()).insert(k, v));
    } else {
        assert(upd.drop_last() =~= s.drop_last().update(i, (k, v)));
        assert(upd.last() == s.last());
        assert(s.drop_last()[i] == s[i]);
        lemma_map_of_update::<K, V>(s.drop_last(), i, k, v);
        assert(K::key_lt(s[i].0, s.last().0));
        K::lemma_lt_trichotomy(s[i].0, s.last().0);
        assert(map_of::<K, V>(s.drop_last()).insert(k, v).insert(s.last().0, s.last().1)
            =~= map_of::<K, V>(s.drop_last()).insert(s.last().0, s.last().1).insert(k, v));
    }
}

/// Inserting an entry with a fresh key at any position inserts it in the map.
pub proof fn lemma_map_of_insert_at<K: TreeKey, V: TreeValue>(
    s: Seq<(K::V, V::V)>,
    i: int,
    k: K::V,
    v: V::V,
)
    requires
        0 <= i <= s.len(),
        !has_key::<K, V>(s, k),
    ensures
        map_of::<K, V>(s.insert(i, (k, v))) == map_of::<K, V>(s).insert(k, v),
    decreases s.len(),
{
    let ins = s.insert(i, (k, v));
    if i == s.len() {
        assert(ins.drop_last() =~= s);
        assert(ins.last() == (k, v));
    } else {
        assert(ins.drop_last() =~= s.drop_last().insert(i, (k, v)));
        assert(ins.last() == s.last());
        assert(!has_key::<K, V>(s.drop_last(), k)) by {
            if has_key::<K, V>(s.drop_last(), k) {
                let j = choose|j: int|
                    0 <= j < s.drop_last().len() && (#[trigger] s.drop_last()[j]).0 == k;
                assert(s[j].0 == k);
            }
        }
        lemma_map_of_insert_at::<K, V>(s.drop_last(), i, k, v);
        assert(s[s.len() - 1].0 != k);
        assert(map_of::<K, V>(s.drop_last()).insert(k, v).insert(s.last().0, s.last().1)
            =~= map_of::<K, V>(s.drop_last()).insert(s.last().0, s.last().1).insert(k, v));
    }
}

/// Removing an entry's position removes its key from the map.
pub proof fn lemma_map_of_remove_at<K: TreeKey, V: TreeValue>(s: Seq<(K::V, V::V)>, i: int)
    requires
        sorted_entries::<K, V>(s),
        0 <= i < s.len(),
    ensures
        map_of::<K, V>(s.remove(i)) == map_of::<K, V>(s).remove(s[i].0),
    decreases s.len(),
{
    let rem = s.remove(i);
    if i == s.len() - 1 {
        assert(rem =~= s.drop_last());
        lemma_map_of_drop_last::<K, V>(s);
    } else {
        assert(rem.drop_last() =~= s.drop_last().remove(i));
        assert(rem.last() == s.last());
        assert(s.drop_last()[i] == s[i]);
        lemma_map_of_remove_at::<K, V>(s.drop_last(), i);
        assert(K::key_lt(s[i].0, s.last().0));
        K::lemma_lt_trichotomy(s[i].0, s.last().0);
        assert(map_of::<K, V>(s.drop_last()).remove(s[i].0).insert(s.last().0, s.last().1)
            =~= map_of::<K, V>(s.drop_last()).insert(s.last().0, s.last().1).remove(s[i].0));
    }
}

/// Binary search over separator or entry keys: the first position whose key
/// is at or above the probe, or the length when every key is below it.
pub fn find_slot<K: TreeKey, T>(v: &Vec<(K, T)>, key: &K) -> (i: usize)
    requires
        forall|p: int, q: int| 0 <= p < q < v@.len() ==> K::key_lt(
            (#[trigger] v@[p]).0@,
            (#[trigger] v@[q]).0@,
        ),
    ensures
        0 <= i <= v@.len(),
        forall|j: int| 0 <= j < i ==> K::key_lt((#[trigger] v@[j]).0@, key@),
        forall|j: int| i <= j < v@.len() ==> !K::key_lt((#[trigger] v@[j]).0@, key@),
{
    let mut lo: usize = 0;
    let mut hi: usize = v.len();
    while lo < hi
        invariant
            0 <= lo <= hi <= v@.len(),
            forall|p: int, q: int| 0 <= p < q < v@.len() ==> K::key_lt(
                (#[trigger] v@[p]).0@,
                (#[trigger] v@[q]).0@,
            ),
            forall|j: int| 0 <= j < lo ==> K::key_lt((#[trigger] v@[j]).0@, key@),
            forall|j: int| hi <= j < v@.len() ==> !K::key_lt((#[trigger] v@[j]).0@, key@),
        decreases hi - lo,
    {
        let mid = lo + (hi - lo) / 2;
        match v[mid].0.key_cmp(key) {
            KeyCmp::Less => {
                proof {
                    assert forall|j: int| 0 <= j < mid + 1 implies K::key_lt(
                        (#[trigger] v@[j]).0@,
                        key@,
                    ) by {
                        if j < mid {
                            K::lemma_lt_transitive(v@[j].0@, v@[mid as int].0@, key@);
                        }
                    }
                }
                lo = mid + 1;
            },
            KeyCmp::Equal => {
                proof {
                    assert forall|j: int| mid <= j < v@.len() implies !K::key_lt(
                        (#[trigger] v@[j]).0@,
                        key@,
                    ) by {
                        if j > mid {
                            K::lemma_lt_trichotomy(v@[j].0@, v@[mid as int].0@);
                        } else {
                            K::lemma_lt_trichotomy(v@[mid as int].0@, key@);
                        }
                    }
                }
                hi = mid;
            },
            KeyCmp::Greater => {
                proof {
                    assert forall|j: int| mid <= j < v@.len() implies !K::key_lt(
                        (#[trigger] v@[j]).0@,
                        key@,
                    ) by {
                        if j > mid {
                            if K::key_lt(v@[j].0@, key@) {
                                K::lemma_lt_transitive(v@[j].0@, key@, v@[mid as int].0@);
                                K::lemma_lt_trichotomy(v@[j].0@, v@[mid as int].0@);
                            }
                        } else {
                            if K::key_lt(v@[mid as int].0@, key@) {
                                K::lemma_lt_transitive(key@, v@[mid as int].0@, key@);
                                K::lemma_lt_trichotomy(key@, key@);
                            }
                        }
                    }
                }
                hi = mid;
            },
        }
    }
    lo
}

/// Concatenating sorted runs separated by a bound yields a sorted run.
pub proof fn lemma_sorted_concat<K: TreeKey, V: TreeValue>(
    a: Seq<(K::V, V::V)>,
    b: Seq<(K::V, V::V)>,
    bound: K::V,
)
    requires
        sorted_entries::<K, V>(a),
        sorted_entries::<K, V>(b),
        entries_below::<K, V>(a, bound),
        entries_above::<K, V>(b, bound),
    ensures
        sorted_entries::<K, V>(a + b),
{
    assert forall|i: int, j: int| 0 <= i < j < (a + b).len() implies K::key_lt(
        (a + b)[i].0,
        (a + b)[j].0,
    ) by {
        if i < a.len() && j >= a.len() {
            assert((a + b)[i] == a[i]);
            assert((a + b)[j] == b[j - a.len()]);
            if a[i].0 == bound {
            } else {
                K::lemma_lt_transitive(a[i].0, bound, b[j - a.len()].0);
            }
        }
    }
}

} // verus!
