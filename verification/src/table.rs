//! The table: one primary index and a name-keyed family of secondary
//! indexes, kept consistent with the primary at every commit.

use vstd::prelude::*;

use vstd::set_lib::lemma_set_subset_finite;

use crate::node::RootNode;
use crate::primitive::PrimitiveView;
use crate::secondary::{add_to_contents, remove_from_contents, SecondaryIndex};

verus! {

/// The primary keys whose value selects to `p`.
pub open spec fn keys_selecting<S: SecondaryIndex>(
    m: Map<Seq<char>, Seq<char>>,
    p: PrimitiveView,
) -> Set<Seq<char>> {
    Set::new(|k: Seq<char>| m.contains_key(k) && S::sel(m[k]) == p)
}

/// The reverse mapping an index must hold for a primary map: every accepted
/// scalar that some value selects to, mapped to the set of those keys.
pub open spec fn derived_contents<S: SecondaryIndex>(m: Map<Seq<char>, Seq<char>>) -> Map<
    PrimitiveView,
    Set<Seq<char>>,
> {
    Map::new(
        |p: PrimitiveView|
            S::accepts(p) && (exists|k: Seq<char>|
                m.contains_key(k) && #[trigger] S::sel(m[k]) == p),
        |p: PrimitiveView| keys_selecting::<S>(m, p),
    )
}

pub proof fn lemma_keys_selecting_finite<S: SecondaryIndex>(
    m: Map<Seq<char>, Seq<char>>,
    p: PrimitiveView,
)
    requires
        m.dom().finite(),
    ensures
        keys_selecting::<S>(m, p).finite(),
        keys_selecting::<S>(m, p).len() <= m.dom().len(),
{
    assert(keys_selecting::<S>(m, p).subset_of(m.dom()));
    lemma_set_subset_finite(m.dom(), keys_selecting::<S>(m, p));
    vstd::set_lib::lemma_len_subset(keys_selecting::<S>(m, p), m.dom());
}

/// Appending a fresh pair to the primary appends its key to the index
/// contents under the pair's selector output.
pub proof fn lemma_derived_insert<S: SecondaryIndex>(
    m: Map<Seq<char>, Seq<char>>,
    k: Seq<char>,
    v: Seq<char>,
)
    requires
        !m.contains_key(k),
    ensures
        add_to_contents(derived_contents::<S>(m), S::sel(v), k) == derived_contents::<S>(
            m.insert(k, v),
        ),
{
    S::sel_accepted(v);
    let p0 = S::sel(v);
    let m2 = m.insert(k, v);
    let d = derived_contents::<S>(m);
    let d2 = derived_contents::<S>(m2);
    let a = add_to_contents(d, p0, k);
    assert forall|p: PrimitiveView| a.contains_key(p) implies d2.contains_key(p) by {
        if p == p0 {
            assert(m2.contains_key(k) && S::sel(m2[k]) == p);
        } else {
            let k2 = choose|k2: Seq<char>| m.contains_key(k2) && #[trigger] S::sel(m[k2]) == p;
            assert(m2.contains_key(k2) && S::sel(m2[k2]) == p);
        }
    }
    assert forall|p: PrimitiveView| d2.contains_key(p) implies a.contains_key(p) by {
        if p != p0 {
            let k2 = choose|k2: Seq<char>| m2.contains_key(k2) && #[trigger] S::sel(m2[k2]) == p;
            assert(k2 != k);
            assert(m.contains_key(k2) && S::sel(m[k2]) == p);
        }
    }
    assert forall|p: PrimitiveView| d2.contains_key(p) implies a[p] =~= d2[p] by {
        if p == p0 {
            assert forall|k2: Seq<char>| d2[p].contains(k2) implies a[p].contains(k2) by {
                if k2 != k {
                    assert(m.contains_key(k2) && S::sel(m[k2]) == p);
                    assert(d.contains_key(p));
                }
            }
            assert forall|k2: Seq<char>| a[p].contains(k2) implies d2[p].contains(k2) by {
                if d.contains_key(p) && k2 != k {
                    assert(m2.contains_key(k2) && S::sel(m2[k2]) == p);
                }
            }
        } else {
            assert forall|k2: Seq<char>| d2[p].contains(k2) implies a[p].contains(k2) by {
                assert(k2 != k);
                assert(d.contains_key(p));
            }
            assert forall|k2: Seq<char>| a[p].contains(k2) implies d2[p].contains(k2) by {
                assert(k2 != k);
            }
        }
    }
    assert(a =~~= d2);
}

/// Removing a pair from the primary removes its key from the index contents
/// under the pair's selector output; an emptied set leaves entirely.
pub proof fn lemma_derived_remove<S: SecondaryIndex>(m: Map<Seq<char>, Seq<char>>, k: Seq<char>)
    requires
        m.contains_key(k),
        m.dom().finite(),
    ensures
        remove_from_contents(derived_contents::<S>(m), S::sel(m[k]), k) == derived_contents::<S>(
            m.remove(k),
        ),
{
    S::sel_accepted(m[k]);
    let p0 = S::sel(m[k]);
    let m2 = m.remove(k);
    let d = derived_contents::<S>(m);
    let d2 = derived_contents::<S>(m2);
    let s0 = keys_selecting::<S>(m, p0);
    assert(s0.contains(k));
    assert(d.contains_key(p0));
    lemma_keys_selecting_finite::<S>(m, p0);
    assert(keys_selecting::<S>(m2, p0) =~= s0.remove(k));
    assert forall|p: PrimitiveView| p != p0 implies keys_selecting::<S>(m2, p)
        =~= keys_selecting::<S>(m, p) by {}
    let r = remove_from_contents(d, p0, k);
    if d[p0].len() == 1 {
        // the set was exactly {k}: the entry disappears
        vstd::set::axiom_set_remove_len(s0, k);
        s0.remove(k).lemma_len0_is_empty();
        assert(s0.remove(k) =~= Set::<Seq<char>>::empty());
        assert forall|p: PrimitiveView| r.contains_key(p) implies d2.contains_key(p) by {
            let k2 = choose|k2: Seq<char>| m.contains_key(k2) && #[trigger] S::sel(m[k2]) == p;
            assert(k2 != k) by {
                if k2 == k {
                    assert(p == p0);
                }
            }
            assert(m2.contains_key(k2) && S::sel(m2[k2]) == p);
        }
        assert forall|p: PrimitiveView| d2.contains_key(p) implies r.contains_key(p) by {
            let k2 = choose|k2: Seq<char>| m2.contains_key(k2) && #[trigger] S::sel(m2[k2]) == p;
            assert(m.contains_key(k2) && S::sel(m[k2]) == p);
            if p == p0 {
                assert(s0.remove(k).contains(k2));
                assert(false);
            }
        }
        assert forall|p: PrimitiveView| d2.contains_key(p) implies r[p] =~= d2[p] by {
            assert(p != p0);
        }
        assert(r =~~= d2);
    } else {
        // another key still selects to the scalar: the set only shrinks
        vstd::set::axiom_set_remove_len(s0, k);
        assert(s0.remove(k).len() > 0);
        assert(s0.remove(k) != Set::<Seq<char>>::empty()) by {
            if s0.remove(k) == Set::<Seq<char>>::empty() {
                assert(s0.remove(k).len() == 0);
            }
        }
        let k2 = choose|k2: Seq<char>| s0.remove(k).contains(k2);
        assert(s0.remove(k).contains(k2)) by {
            if !(exists|k2: Seq<char>| s0.remove(k).contains(k2)) {
                assert(s0.remove(k) =~= Set::<Seq<char>>::empty());
            }
        }
        assert(m2.contains_key(k2) && S::sel(m2[k2]) == p0);
        assert forall|p: PrimitiveView| r.contains_key(p) implies d2.contains_key(p) by {
            if p == p0 {
            } else {
                let k3 = choose|k3: Seq<char>| m.contains_key(k3) && #[trigger] S::sel(m[k3]) == p;
                assert(k3 != k);
                assert(m2.contains_key(k3) && S::sel(m2[k3]) == p);
            }
        }
        assert forall|p: PrimitiveView| d2.contains_key(p) implies r.contains_key(p) by {
            let k3 = choose|k3: Seq<char>| m2.contains_key(k3) && #[trigger] S::sel(m2[k3]) == p;
            assert(m.contains_key(k3) && S::sel(m[k3]) == p);
        }
        assert forall|p: PrimitiveView| d2.contains_key(p) implies r[p] =~= d2[p] by {}
        assert(r =~~= d2);
    }
}

/// A table: the primary index and the named secondary indexes, each of which
/// holds exactly the reverse mapping derived from the primary.
pub struct Table<S> {
    pub primary: RootNode<String, String>,
    pub secondaries: Vec<(String, S)>,
}

impl<S: SecondaryIndex> View for Table<S> {
    type V = Map<Seq<char>, Seq<char>>;

    open spec fn view(&self) -> Map<Seq<char>, Seq<char>> {
        self.primary@
    }
}

impl<S: SecondaryIndex> Table<S> {
    /// The index names, in order.
    pub open spec fn names(self) -> Seq<Seq<char>> {
        self.secondaries@.map_values(|e: (String, S)| e.0@)
    }

    /// Well-formedness: a sound primary, unique index names, and every
    /// index consistent with the primary.
    pub open spec fn inv(self) -> bool {
        &&& self.primary.inv()
        &&& (forall|i: int, j: int| 0 <= i < j < self.names().len() ==> self.names()[i]
            != self.names()[j])
        &&& (forall|i: int| 0 <= i < self.secondaries@.len() ==> (
        #[trigger] self.secondaries@[i].1).inv())
        &&& (forall|i: int| 0 <= i < self.secondaries@.len() ==> (
        #[trigger] self.secondaries@[i].1).contents() == derived_contents::<S>(self.primary@))
    }

    /// Whether an index of this name is configured.
    pub open spec fn has_index(self, n: Seq<char>) -> bool {
        exists|i: int| 0 <= i < self.secondaries@.len() && (#[trigger] self.secondaries@[i].0)@ == n
    }

    /// An empty table without secondary indexes.
    pub fn new(fan_out: usize) -> (r: Self)
        requires
            1 <= fan_out <= usize::MAX - 3,
        ensures
            r.inv(),
            r@ == Map::<Seq<char>, Seq<char>>::empty(),
            r.secondaries@.len() == 0,
            r.primary.fan_out == fan_out,
    {
        Table { primary: RootNode::new(fan_out), secondaries: Vec::new() }
    }

    /// An empty table with the given fresh indexes, named uniquely.
    pub fn with_secondary_indexes(fan_out: usize, secondaries: Vec<(String, S)>) -> (r: Self)
        requires
            1 <= fan_out <= usize::MAX - 3,
            forall|i: int| 0 <= i < secondaries@.len() ==> (#[trigger] secondaries@[i].1).inv(),
            forall|i: int| 0 <= i < secondaries@.len() ==> (#[trigger] secondaries@[i].1).contents()
                == Map::<PrimitiveView, Set<Seq<char>>>::empty(),
            forall|i: int, j: int| 0 <= i < j < secondaries@.len() ==> (
            #[trigger] secondaries@[i].0)@ != (#[trigger] secondaries@[j].0)@,
        ensures
            r.inv(),
            r@ == Map::<Seq<char>, Seq<char>>::empty(),
            r.names() == secondaries@.map_values(|e: (String, S)| e.0@),
            r.primary.fan_out == fan_out,
    {
        let r = Table { primary: RootNode::new(fan_out), secondaries };
        proof {
            assert(derived_contents::<S>(r.primary@) =~~= Map::<
                PrimitiveView,
                Set<Seq<char>>,
            >::empty());
        }
        r
    }

    /// Look up a configured index by name.
    pub fn get_index(&self, name: &String) -> (r: Option<&S>)
        requires
            self.inv(),
        ensures
            (r is Some) <==> self.has_index(name@),
            (match r {
                Some(s) => s.inv() && s.contents() == derived_contents::<S>(self.primary@),
                None => true,
            }),
    {
        let mut i: usize = 0;
        while i < self.secondaries.len()
            invariant
                self.inv(),
                0 <= i <= self.secondaries@.len(),
                forall|j: int| 0 <= j < i ==> (#[trigger] self.secondaries@[j].0)@ != name@,
            decreases self.secondaries@.len() - i,
        {
            if self.secondaries[i].0 == *name {
                proof {
                    assert(self.secondaries@[i as int].1.inv());
                    assert(self.secondaries@[i as int].1.contents() == derived_contents::<S>(
                        self.primary@,
                    ));
                    assert(self.secondaries@[i as int].0@ == name@);
                }
                return Some(&self.secondaries[i].1);
            }
            i = i + 1;
        }
        proof {
            if self.has_index(name@) {
                let j = choose|j: int|
                    0 <= j < self.secondaries@.len() && (#[trigger] self.secondaries@[j].0)@
                        == name@;
            }
        }
        None
    }
}

/// Secondary-index consistency of a well-formed table: every primary pair
/// whose value selects to an accepted scalar appears in each index's set at
/// that scalar, and every key in an index's set resolves to a primary value
/// that reproduces the scalar.
pub proof fn lemma_secondary_consistency<S: SecondaryIndex>(t: Table<S>, i: int)
    requires
        t.inv(),
        0 <= i < t.secondaries@.len(),
    ensures
        forall|k: Seq<char>|
            t@.contains_key(k) && S::accepts(S::sel(#[trigger] t@[k]))
                ==> t.secondaries@[i].1.contents().contains_key(S::sel(t@[k]))
                && t.secondaries@[i].1.contents()[S::sel(t@[k])].contains(k),
        forall|p: PrimitiveView, k: Seq<char>|
            t.secondaries@[i].1.contents().contains_key(p) && (
            #[trigger] t.secondaries@[i].1.contents()[p].contains(k)) ==> t@.contains_key(k)
                && S::sel(t@[k]) == p && S::accepts(p),
        forall|p: PrimitiveView| #[trigger] t.secondaries@[i].1.contents().contains_key(p)
            ==> t.secondaries@[i].1.contents()[p].len() > 0,
{
    let c = t.secondaries@[i].1.contents();
    assert(c == derived_contents::<S>(t@));
    assert forall|k: Seq<char>|
        t@.contains_key(k) && S::accepts(S::sel(#[trigger] t@[k])) implies c.contains_key(
        S::sel(t@[k]),
    ) && c[S::sel(t@[k])].contains(k) by {
        assert(t@.contains_key(k) && S::sel(t@[k]) == S::sel(t@[k]));
    }
    assert forall|p: PrimitiveView| #[trigger] c.contains_key(p) implies c[p].len() > 0 by {
        crate::node::lemma_map_of_dom_finite::<String, String>(t.primary.root.entries());
        lemma_keys_selecting_finite::<S>(t@, p);
        let k = choose|k: Seq<char>| t@.contains_key(k) && #[trigger] S::sel(t@[k]) == p;
        assert(c[p].contains(k));
        if c[p].len() == 0 {
            c[p].lemma_len0_is_empty();
        }
    }
}

} // verus!
