//! Secondary indexes: value-derived reverse lookups from a scalar key to the
//! set of primary keys whose values select to it.

use vstd::prelude::*;

use crate::keyset::KeySet;
use crate::node::{NodeError, RootNode};
use crate::order::TreeValue;
use crate::primitive::{Primitive, PrimitiveView};

verus! {

/// Errors of secondary-index operations.
#[derive(Debug)]
pub enum SecondaryIndexError {
    IllegalKeyType,
}

/// Contents after appending `k` under `p`: the set grows, or springs into
/// being with one element.
pub open spec fn add_to_contents(
    m: Map<PrimitiveView, Set<Seq<char>>>,
    p: PrimitiveView,
    k: Seq<char>,
) -> Map<PrimitiveView, Set<Seq<char>>> {
    if m.contains_key(p) {
        m.insert(p, m[p].insert(k))
    } else {
        m.insert(p, Set::<Seq<char>>::empty().insert(k))
    }
}

/// Contents after removing `k` under `p`: a one-element set disappears
/// entirely; otherwise `k` leaves the set; an absent entry stays absent.
pub open spec fn remove_from_contents(
    m: Map<PrimitiveView, Set<Seq<char>>>,
    p: PrimitiveView,
    k: Seq<char>,
) -> Map<PrimitiveView, Set<Seq<char>>> {
    if !m.contains_key(p) {
        m
    } else if m[p].len() == 1 {
        m.remove(p)
    } else {
        m.insert(p, m[p].remove(k))
    }
}

/// A reverse index from a scalar key to the primary keys bearing it.
///
/// `sel` is the selector: the scalar a value projects to. `accepts` is the
/// validator: whether a presented scalar is well-typed for this index. The
/// executable methods are bound exactly to those two functions and to the
/// `contents` map.
pub trait SecondaryIndex: Sized {
    /// The selector, on value views.
    spec fn sel(v: Seq<char>) -> PrimitiveView;

    /// The validator, on scalar views.
    spec fn accepts(p: PrimitiveView) -> bool;

    /// An index accepts its own selector's output.
    proof fn sel_accepted(v: Seq<char>)
        ensures
            Self::accepts(Self::sel(v)),
    ;

    /// The stored reverse mapping.
    spec fn contents(self) -> Map<PrimitiveView, Set<Seq<char>>>;

    /// Well-formedness: only accepted keys, only finite non-empty sets.
    spec fn inv(self) -> bool;

    /// Project a value to its index key.
    fn select(&self, value: &String) -> (p: Primitive)
        ensures
            p@ == Self::sel(value@),
    ;

    /// Check a presented key against the validator.
    fn validate(&self, key: &Primitive) -> (b: bool)
        ensures
            b == Self::accepts(key@),
    ;

    /// Look up the set of primary keys under a scalar key.
    fn find(&self, key: &Primitive) -> (r: Option<&KeySet>)
        requires
            self.inv(),
        ensures
            (match r {
                Some(ks) => Self::accepts(key@) && self.contents().contains_key(key@) && ks@
                    == self.contents()[key@],
                None => !(Self::accepts(key@) && self.contents().contains_key(key@)),
            }),
    ;

    /// Add a primary key to the set under `key`.
    fn append_to(&mut self, key: &Primitive, primary: &String) -> (r: Result<
        (),
        SecondaryIndexError,
    >)
        requires
            old(self).inv(),
        ensures
            final(self).inv(),
            (match r {
                Ok(_) => Self::accepts(key@) && final(self).contents() == add_to_contents(
                    old(self).contents(),
                    key@,
                    primary@,
                ),
                Err(e) => e == SecondaryIndexError::IllegalKeyType && !Self::accepts(key@) && final(self).contents() == old(self).contents(),
            }),
            (r matches Err(_)) <==> !Self::accepts(key@),
    ;

    /// Remove a primary key from the set under `key`.
    fn remove_from(&mut self, key: &Primitive, primary: &String) -> (r: Result<
        (),
        SecondaryIndexError,
    >)
        requires
            old(self).inv(),
        ensures
            final(self).inv(),
            (match r {
                Ok(_) => Self::accepts(key@) && final(self).contents() == remove_from_contents(
                    old(self).contents(),
                    key@,
                    primary@,
                ),
                Err(e) => e == SecondaryIndexError::IllegalKeyType && !Self::accepts(key@) && final(self).contents() == old(self).contents(),
            }),
            (r matches Err(_)) <==> !Self::accepts(key@),
    ;
}

/// The default index: a value is its own key, as a string scalar; only
/// string scalars are accepted. Storage is a tree keyed by the scalar whose
/// values are the sets of primary keys.
pub struct DefaultSecondaryIndex {
    pub index: RootNode<Primitive, KeySet>,
}

impl DefaultSecondaryIndex {
    pub fn new(fan_out: usize) -> (r: Self)
        requires
            1 <= fan_out <= usize::MAX - 3,
        ensures
            r.inv(),
            r.contents() == Map::<PrimitiveView, Set<Seq<char>>>::empty(),
    {
        DefaultSecondaryIndex { index: RootNode::new(fan_out) }
    }
}

impl SecondaryIndex for DefaultSecondaryIndex {
    open spec fn sel(v: Seq<char>) -> PrimitiveView {
        PrimitiveView::String(v)
    }

    open spec fn accepts(p: PrimitiveView) -> bool {
        p is String
    }

    proof fn sel_accepted(v: Seq<char>) {
    }

    open spec fn contents(self) -> Map<PrimitiveView, Set<Seq<char>>> {
        self.index@
    }

    open spec fn inv(self) -> bool {
        &&& self.index.inv()
        &&& (forall|p: PrimitiveView| self.index@.contains_key(p) ==> Self::accepts(p))
        &&& (forall|p: PrimitiveView|
            #[trigger] self.index@.contains_key(p) ==> self.index@[p].finite()
                && self.index@[p].len() > 0)
    }

    fn select(&self, value: &String) -> (p: Primitive)
    {
        Primitive::String(value.clone())
    }

    fn validate(&self, key: &Primitive) -> (b: bool)
    {
        match key {
            Primitive::String(_) => true,
            _ => false,
        }
    }

    fn find(&self, key: &Primitive) -> (r: Option<&KeySet>)
    {
        if !self.validate(key) {
            return None;
        }
        self.index.find(key)
    }

    fn append_to(&mut self, key: &Primitive, primary: &String) -> (r: Result<
        (),
        SecondaryIndexError,
    >)
    {
        if !self.validate(key) {
            return Err(SecondaryIndexError::IllegalKeyType);
        }
        let found = self.index.find(key);
        match found {
            Some(ks) => {
                let mut ks2 = ks.dup();
                let ghost old_set = ks2@;
                ks2.insert_elem(primary.clone());
                proof {
                    vstd::set::axiom_set_insert_finite(old_set, primary@);
                    vstd::set::axiom_set_insert_len(old_set, primary@);
                }
                let r = self.index.update(key, ks2);
                match r {
                    Ok(_) => {},
                    Err(_) => {
                        proof {
                            assert(false);
                        }
                    },
                }
                proof {
                    assert(final(self).contents() =~= add_to_contents(
                        old(self).contents(),
                        key@,
                        primary@,
                    ));
                }
                Ok(())
            },
            None => {
                let single = KeySet::singleton(primary.clone());
                proof {
                    vstd::set::axiom_set_insert_finite(Set::<Seq<char>>::empty(), primary@);
                    vstd::set::axiom_set_insert_len(Set::<Seq<char>>::empty(), primary@);
                }
                let r = self.index.insert(key, single, false);
                match r {
                    Ok(_) => {},
                    Err(_) => {
                        proof {
                            assert(false);
                        }
                    },
                }
                proof {
                    assert(final(self).contents() =~= add_to_contents(
                        old(self).contents(),
                        key@,
                        primary@,
                    ));
                }
                Ok(())
            },
        }
    }

    fn remove_from(&mut self, key: &Primitive, primary: &String) -> (r: Result<
        (),
        SecondaryIndexError,
    >)
    {
        if !self.validate(key) {
            return Err(SecondaryIndexError::IllegalKeyType);
        }
        let found = self.index.find(key);
        match found {
            Some(ks) => {
                if ks.len() == 1 {
                    let r = self.index.remove(key);
                    match r {
                        Ok(_) => {},
                        Err(_) => {
                            proof {
                                assert(false);
                            }
                        },
                    }
                    proof {
                        assert(final(self).contents() =~= remove_from_contents(
                            old(self).contents(),
                            key@,
                            primary@,
                        ));
                    }
                } else {
                    let mut ks2 = ks.dup();
                    let ghost old_set = ks2@;
                    ks2.remove_elem(primary);
                    proof {
                        vstd::set::axiom_set_remove_finite(old_set, primary@);
                        vstd::set::axiom_set_remove_len(old_set, primary@);
                    }
                    let r = self.index.update(key, ks2);
                    match r {
                        Ok(_) => {},
                        Err(_) => {
                            proof {
                                assert(false);
                            }
                        },
                    }
                    proof {
                        assert(final(self).contents() =~= remove_from_contents(
                            old(self).contents(),
                            key@,
                            primary@,
                        ));
                    }
                }
                Ok(())
            },
            None => {
                proof {
                    assert(final(self).contents() =~= remove_from_contents(
                        old(self).contents(),
                        key@,
                        primary@,
                    ));
                }
                Ok(())
            },
        }
    }
}

} // verus!
