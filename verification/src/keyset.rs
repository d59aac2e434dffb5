//! A set of primary keys, stored as a duplicate-free list of strings.

use vstd::prelude::*;

use crate::order::TreeValue;

verus! {

/// A set of primary keys. Two elements never share a view.
pub struct KeySet {
    elems: Vec<String>,
}

impl View for KeySet {
    type V = Set<Seq<char>>;

    closed spec fn view(&self) -> Set<Seq<char>> {
        set_of_list(self.elems@)
    }
}

/// The set of views of a list of strings.
pub open spec fn set_of_list(s: Seq<String>) -> Set<Seq<char>> {
    Set::new(|x: Seq<char>| exists|i: int| 0 <= i < s.len() && (#[trigger] s[i])@ == x)
}

/// No two list entries share a view.
pub open spec fn list_unique(s: Seq<String>) -> bool {
    forall|i: int, j: int| 0 <= i < j < s.len() ==> (#[trigger] s[i])@ != (#[trigger] s[j])@
}

/// A duplicate-free list describes a finite set of its own length.
pub proof fn lemma_set_of_list_card(s: Seq<String>)
    requires
        list_unique(s),
    ensures
        set_of_list(s).finite(),
        set_of_list(s).len() == s.len(),
    decreases s.len(),
{
    if s.len() == 0 {
        assert(set_of_list(s) =~= Set::<Seq<char>>::empty());
    } else {
        let dl = s.drop_last();
        lemma_set_of_list_card(dl);
        assert(set_of_list(s) =~= set_of_list(dl).insert(s.last()@)) by {
            assert forall|x: Seq<char>| set_of_list(s).contains(x) implies set_of_list(
                dl,
            ).insert(s.last()@).contains(x) by {
                let i = choose|i: int| 0 <= i < s.len() && (#[trigger] s[i])@ == x;
                if i < s.len() - 1 {
                    assert(dl[i]@ == x);
                }
            }
            assert forall|x: Seq<char>|
                set_of_list(dl).insert(s.last()@).contains(x) implies set_of_list(s).contains(
                x,
            ) by {
                if x == s.last()@ {
                    assert(s[s.len() - 1]@ == x);
                } else {
                    let i = choose|i: int| 0 <= i < dl.len() && (#[trigger] dl[i])@ == x;
                    assert(s[i]@ == x);
                }
            }
        }
        assert(!set_of_list(dl).contains(s.last()@)) by {
            if set_of_list(dl).contains(s.last()@) {
                let i = choose|i: int| 0 <= i < dl.len() && (#[trigger] dl[i])@ == s.last()@;
                assert(s[i]@ == s[s.len() - 1]@);
            }
        }
    }
}

impl KeySet {
    #[verifier::type_invariant]
    closed spec fn wf(self) -> bool {
        list_unique(self.elems@)
    }

    /// The element views in storage order.
    pub closed spec fn list(self) -> Seq<Seq<char>> {
        self.elems@.map_values(|e: String| e@)
    }

    /// Record that the list enumerates the set without repetition.
    pub fn list_props(&self)
        ensures
            self.list().len() == self@.len(),
            self@.finite(),
            forall|i: int| 0 <= i < self.list().len() ==> self@.contains(#[trigger] self.list()[i]),
            forall|i: int, j: int| 0 <= i < j < self.list().len() ==> self.list()[i]
                != self.list()[j],
            forall|x: Seq<char>| self@.contains(x) ==> exists|i: int|
                0 <= i < self.list().len() && self.list()[i] == x,
    {
        proof {
            use_type_invariant(self);
            lemma_set_of_list_card(self.elems@);
            assert forall|x: Seq<char>| self@.contains(x) implies exists|i: int|
                0 <= i < self.list().len() && self.list()[i] == x by {
                let i = choose|i: int|
                    0 <= i < self.elems@.len() && (#[trigger] self.elems@[i])@ == x;
                assert(self.list()[i] == x);
            }
        }
    }

    pub fn new() -> (r: Self)
        ensures
            r@ == Set::<Seq<char>>::empty(),
    {
        let r = KeySet { elems: Vec::new() };
        proof {
            assert(r@ =~= Set::<Seq<char>>::empty());
        }
        r
    }

    /// A set holding exactly one key.
    pub fn singleton(key: String) -> (r: Self)
        ensures
            r@ == Set::<Seq<char>>::empty().insert(key@),
    {
        let mut elems: Vec<String> = Vec::new();
        elems.push(key);
        let r = KeySet { elems };
        proof {
            assert forall|x: Seq<char>| r@.contains(x) implies Set::<Seq<char>>::empty().insert(
                r.elems@[0]@,
            ).contains(x) by {}
            assert(r@ =~= Set::<Seq<char>>::empty().insert(r.elems@[0]@));
        }
        r
    }

    pub fn len(&self) -> (r: usize)
        ensures
            r == self@.len(),
            self@.finite(),
    {
        proof {
            use_type_invariant(self);
            lemma_set_of_list_card(self.elems@);
        }
        self.elems.len()
    }

    pub fn contains(&self, key: &String) -> (r: bool)
        ensures
            r == self@.contains(key@),
    {
        let mut i: usize = 0;
        while i < self.elems.len()
            invariant
                0 <= i <= self.elems@.len(),
                forall|j: int| 0 <= j < i ==> (#[trigger] self.elems@[j])@ != key@,
            decreases self.elems@.len() - i,
        {
            if self.elems[i] == *key {
                proof {
                    assert(self.elems@[i as int]@ == key@);
                }
                return true;
            }
            i = i + 1;
        }
        proof {
            if self@.contains(key@) {
                let j = choose|j: int|
                    0 <= j < self.elems@.len() && (#[trigger] self.elems@[j])@ == key@;
            }
        }
        false
    }

    /// The element at a position of the list.
    pub fn get(&self, i: usize) -> (r: &String)
        requires
            i < self.list().len(),
        ensures
            r@ == self.list()[i as int],
            self@.contains(r@),
    {
        &self.elems[i]
    }

    /// Add a key; a key already present stays single.
    pub fn insert_elem(&mut self, key: String)
        ensures
            final(self)@ == old(self)@.insert(key@),
    {
        proof {
            use_type_invariant(&*self);
        }
        let ghost pre = self.elems@;
        let present = self.contains(&key);
        let mut v: Vec<String> = Vec::new();
        let mut i: usize = 0;
        while i < self.elems.len()
            invariant
                0 <= i <= self.elems@.len(),
                self.elems@ == pre,
                v@.len() == i,
                forall|j: int| 0 <= j < i ==> (#[trigger] v@[j])@ == pre[j]@,
            decreases self.elems@.len() - i,
        {
            v.push(self.elems[i].clone());
            i = i + 1;
        }
        if !present {
            v.push(key);
        }
        self.elems = v;
        proof {
            assert(list_unique(self.elems@));
            assert forall|x: Seq<char>| final(self)@.contains(x) implies old(self)@.insert(
                key@,
            ).contains(x) by {
                let j = choose|j: int|
                    0 <= j < self.elems@.len() && (#[trigger] self.elems@[j])@ == x;
                if j < pre.len() {
                    assert(pre[j]@ == x);
                }
            }
            assert forall|x: Seq<char>| old(self)@.insert(key@).contains(x) implies final(self)@.contains(x) by {
                if x == key@ {
                    if present {
                        let j = choose|j: int| 0 <= j < pre.len() && (#[trigger] pre[j])@ == key@;
                        assert(self.elems@[j]@ == x);
                    } else {
                        assert(self.elems@[pre.len() as int]@ == x);
                    }
                } else {
                    let j = choose|j: int| 0 <= j < pre.len() && (#[trigger] pre[j])@ == x;
                    assert(self.elems@[j]@ == x);
                }
            }
            assert(final(self)@ =~= old(self)@.insert(key@));
        }
    }

    /// Drop a key; an absent key changes nothing.
    pub fn remove_elem(&mut self, key: &String)
        ensures
            final(self)@ == old(self)@.remove(key@),
    {
        proof {
            use_type_invariant(&*self);
        }
        let ghost pre = self.elems@;
        let mut v: Vec<String> = Vec::new();
        let mut i: usize = 0;
        while i < self.elems.len()
            invariant
                0 <= i <= self.elems@.len(),
                self.elems@ == pre,
                list_unique(pre),
                forall|j: int, j2: int| 0 <= j < j2 < v@.len() ==> (#[trigger] v@[j])@ != (
                #[trigger] v@[j2])@,
                forall|j: int| 0 <= j < v@.len() ==> (#[trigger] v@[j])@ != key@,
                forall|j: int| 0 <= j < v@.len() ==> exists|j2: int|
                    0 <= j2 < i && (#[trigger] v@[j])@ == pre[j2]@,
                forall|j2: int| 0 <= j2 < i && (#[trigger] pre[j2])@ != key@ ==> exists|j: int|
                    0 <= j < v@.len() && v@[j]@ == pre[j2]@,
            decreases self.elems@.len() - i,
        {
            if !(self.elems[i] == *key) {
                let ghost vpre = v@;
                v.push(self.elems[i].clone());
                proof {
                    assert(v@[vpre.len() as int]@ == pre[i as int]@);
                    assert forall|j2: int|
                        0 <= j2 < i + 1 && (#[trigger] pre[j2])@ != key@ implies exists|j: int|
                        0 <= j < v@.len() && v@[j]@ == pre[j2]@ by {
                        if j2 < i {
                            let j = choose|j: int|
                                0 <= j < vpre.len() && (#[trigger] vpre[j])@ == pre[j2]@;
                            assert(v@[j]@ == pre[j2]@);
                        } else {
                            assert(v@[vpre.len() as int]@ == pre[j2]@);
                        }
                    }
                }
            }
            i = i + 1;
        }
        self.elems = v;
        proof {
            assert forall|x: Seq<char>| final(self)@.contains(x) implies old(self)@.remove(
                key@,
            ).contains(x) by {
                let j = choose|j: int|
                    0 <= j < self.elems@.len() && (#[trigger] self.elems@[j])@ == x;
            }
            assert forall|x: Seq<char>| old(self)@.remove(key@).contains(x) implies final(self)@.contains(x) by {
                let j2 = choose|j2: int| 0 <= j2 < pre.len() && (#[trigger] pre[j2])@ == x;
            }
            assert(final(self)@ =~= old(self)@.remove(key@));
        }
    }
}

impl TreeValue for KeySet {
    fn dup(&self) -> (r: Self)
        ensures
            r@ == self@,
    {
        proof {
            use_type_invariant(self);
        }
        let mut elems: Vec<String> = Vec::new();
        let mut i: usize = 0;
        while i < self.elems.len()
            invariant
                0 <= i <= self.elems@.len(),
                elems@.len() == i,
                forall|j: int| 0 <= j < i ==> (#[trigger] elems@[j])@ == self.elems@[j]@,
            decreases self.elems@.len() - i,
        {
            elems.push(self.elems[i].clone());
            i = i + 1;
        }
        let r = KeySet { elems };
        proof {
            assert(list_unique(r.elems@));
            assert forall|x: Seq<char>| r@.contains(x) implies self@.contains(x) by {
                let j = choose|j: int| 0 <= j < r.elems@.len() && (#[trigger] r.elems@[j])@ == x;
                assert(self.elems@[j]@ == x);
            }
            assert forall|x: Seq<char>| self@.contains(x) implies r@.contains(x) by {
                let j = choose|j: int|
                    0 <= j < self.elems@.len() && (#[trigger] self.elems@[j])@ == x;
                assert(r.elems@[j]@ == x);
            }
            assert(r@ =~= self@);
        }
        r
    }
}

} // verus!
