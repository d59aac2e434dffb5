//! Transactions: a write-set buffered over an exclusively held table,
//! shadow reads through the buffer, pre-validated atomic commit.

use vstd::prelude::*;

use crate::keyset::KeySet;
use crate::node::RootNode;
use crate::order::{KeyCmp, TreeKey, TreeValue};
use crate::primitive::{Primitive, PrimitiveView};
use crate::secondary::SecondaryIndex;
use crate::table::{derived_contents, lemma_derived_insert, lemma_derived_remove, Table};
use crate::node::lemma_map_of_dom_finite;

verus! {

/// Errors surfaced by transaction operations.
#[derive(Debug)]
pub enum TransactionError {
    KeyNotFound,
    SecondaryIndexNotFound,
    IllegalKeyType,
    Unknown,
}

/// A request against a transaction.
pub enum Request {
    Insert((String, String)),
    Update((String, String)),
    Remove(String),
}

/// The mathematical value of a request.
pub enum RequestView {
    Insert(Seq<char>, Seq<char>),
    Update(Seq<char>, Seq<char>),
    Remove(Seq<char>),
}

impl View for Request {
    type V = RequestView;

    open spec fn view(&self) -> RequestView {
        match self {
            Request::Insert(kv) => RequestView::Insert(kv.0@, kv.1@),
            Request::Update(kv) => RequestView::Update(kv.0@, kv.1@),
            Request::Remove(k) => RequestView::Remove(k@),
        }
    }
}

/// A pending operation in the write-set.
#[derive(Clone)]
pub enum Write {
    Insert(String),
    Update(String),
    Remove,
}

/// The mathematical value of a pending operation.
pub enum WriteView {
    Insert(Seq<char>),
    Update(Seq<char>),
    Remove,
}

impl View for Write {
    type V = WriteView;

    open spec fn view(&self) -> WriteView {
        match self {
            Write::Insert(v) => WriteView::Insert(v@),
            Write::Update(v) => WriteView::Update(v@),
            Write::Remove => WriteView::Remove,
        }
    }
}

impl TreeValue for Write {
    fn dup(&self) -> (r: Self)
        ensures
            r@ == self@,
    {
        match self {
            Write::Insert(v) => Write::Insert(v.clone()),
            Write::Update(v) => Write::Update(v.clone()),
            Write::Remove => Write::Remove,
        }
    }
}

/// The direction of a journaled secondary-index delta.
pub enum WriteSecondary {
    InsertTo,
    RemoveFrom,
}

/// The map described by a list of pending writes; later entries win, though
/// the write-set keeps its keys unique.
pub open spec fn wmap(l: Seq<(Seq<char>, WriteView)>) -> Map<Seq<char>, WriteView>
    decreases l.len(),
{
    if l.len() == 0 {
        Map::empty()
    } else {
        wmap(l.drop_last()).insert(l.last().0, l.last().1)
    }
}

pub proof fn lemma_wmap_dom(l: Seq<(Seq<char>, WriteView)>, k: Seq<char>)
    ensures
        wmap(l).contains_key(k) <==> exists|i: int| 0 <= i < l.len() && (#[trigger] l[i]).0 == k,
    decreases l.len(),
{
    if l.len() == 0 {
    } else {
        lemma_wmap_dom(l.drop_last(), k);
        if l.last().0 == k {
            assert(l[l.len() - 1].0 == k);
        } else if wmap(l).contains_key(k) {
            let i = choose|i: int| 0 <= i < l.drop_last().len() && (#[trigger] l.drop_last()[i]).0
                == k;
            assert(l[i].0 == k);
        } else if exists|i: int| 0 <= i < l.len() && (#[trigger] l[i]).0 == k {
            let i = choose|i: int| 0 <= i < l.len() && (#[trigger] l[i]).0 == k;
            assert(i < l.len() - 1);
            assert(l.drop_last()[i].0 == k);
        }
    }
}

/// No two entries share a key.
pub open spec fn wlist_unique(l: Seq<(Seq<char>, WriteView)>) -> bool {
    forall|i: int, j: int| 0 <= i < j < l.len() ==> (#[trigger] l[i]).0 != (#[trigger] l[j]).0
}

pub proof fn lemma_wmap_index(l: Seq<(Seq<char>, WriteView)>, i: int)
    requires
        wlist_unique(l),
        0 <= i < l.len(),
    ensures
        wmap(l).contains_key(l[i].0),
        wmap(l)[l[i].0] == l[i].1,
    decreases l.len(),
{
    if i == l.len() - 1 {
    } else {
        assert(l.drop_last()[i] == l[i]);
        lemma_wmap_index(l.drop_last(), i);
    }
}

/// Replacing the entry at a key's position updates that key in the map.
pub proof fn lemma_wmap_update(l: Seq<(Seq<char>, WriteView)>, i: int, k: Seq<char>, w: WriteView)
    requires
        wlist_unique(l),
        0 <= i < l.len(),
        l[i].0 == k,
    ensures
        wmap(l.update(i, (k, w))) == wmap(l).insert(k, w),
    decreases l.len(),
{
    let upd = l.update(i, (k, w));
    if i == l.len() - 1 {
        assert(upd.drop_last() =~= l.drop_last());
        assert(upd.last() == (k, w));
        assert(wmap(l.drop_last()).insert(l.last().0, l.last().1).insert(k, w) =~= wmap(
            l.drop_last(),
        ).insert(k, w));
    } else {
        assert(upd.drop_last() =~= l.drop_last().update(i, (k, w)));
        assert(upd.last() == l.last());
        assert(l.drop_last()[i] == l[i]);
        lemma_wmap_update(l.drop_last(), i, k, w);
        assert(l[i].0 != l[l.len() - 1].0);
        assert(wmap(l.drop_last()).insert(k, w).insert(l.last().0, l.last().1) =~= wmap(
            l.drop_last(),
        ).insert(l.last().0, l.last().1).insert(k, w));
    }
}

/// Dropping the entry at a key's position removes that key from the map.
pub proof fn lemma_wmap_remove_at(l: Seq<(Seq<char>, WriteView)>, i: int)
    requires
        wlist_unique(l),
        0 <= i < l.len(),
    ensures
        wmap(l.remove(i)) == wmap(l).remove(l[i].0),
    decreases l.len(),
{
    let rem = l.remove(i);
    if i == l.len() - 1 {
        assert(rem =~= l.drop_last());
        assert(!wmap(l.drop_last()).contains_key(l.last().0)) by {
            lemma_wmap_dom(l.drop_last(), l.last().0);
            if exists|j: int| 0 <= j < l.drop_last().len() && (#[trigger] l.drop_last()[j]).0
                == l.last().0 {
                let j = choose|j: int|
                    0 <= j < l.drop_last().len() && (#[trigger] l.drop_last()[j]).0 == l.last().0;
                assert(l[j].0 == l[l.len() - 1].0);
            }
        }
        assert(wmap(l.drop_last()) =~= wmap(l).remove(l.last().0));
    } else {
        assert(rem.drop_last() =~= l.drop_last().remove(i));
        assert(rem.last() == l.last());
        assert(l.drop_last()[i] == l[i]);
        lemma_wmap_remove_at(l.drop_last(), i);
        assert(l[i].0 != l[l.len() - 1].0);
        assert(wmap(l.drop_last()).remove(l[i].0).insert(l.last().0, l.last().1) =~= wmap(
            l.drop_last(),
        ).insert(l.last().0, l.last().1).remove(l[i].0));
    }
}

/// The write-set: pending operations keyed by primary key.
pub struct WriteSet {
    entries: Vec<(String, Write)>,
}

impl View for WriteSet {
    type V = Map<Seq<char>, WriteView>;

    closed spec fn view(&self) -> Map<Seq<char>, WriteView> {
        wmap(self.list())
    }
}

impl WriteSet {
    /// The pending entries, in insertion order.
    pub closed spec fn list(self) -> Seq<(Seq<char>, WriteView)> {
        self.entries@.map_values(|e: (String, Write)| (e.0@, e.1@))
    }

    /// Keys are pairwise distinct.
    pub open spec fn wf(self) -> bool {
        wlist_unique(self.list())
    }

    /// Record that the list enumerates the map without repetition.
    pub fn props(&self)
        requires
            self.wf(),
        ensures
            self.list().len() == self@.dom().len(),
            self@.dom().finite(),
            forall|i: int| 0 <= i < self.list().len() ==> self@.contains_key(
                (#[trigger] self.list()[i]).0,
            ) && self@[self.list()[i].0] == self.list()[i].1,
            forall|k: Seq<char>| self@.contains_key(k) ==> exists|i: int|
                0 <= i < self.list().len() && (#[trigger] self.list()[i]).0 == k,
    {
        proof {
            let l = self.list();
            assert forall|i: int| 0 <= i < l.len() implies self@.contains_key((#[trigger] l[i]).0)
                && self@[l[i].0] == l[i].1 by {
                lemma_wmap_index(l, i);
            }
            assert forall|k: Seq<char>| self@.contains_key(k) implies exists|i: int|
                0 <= i < l.len() && (#[trigger] l[i]).0 == k by {
                lemma_wmap_dom(l, k);
            }
            lemma_wlist_card(l);
        }
    }

    pub fn new() -> (r: Self)
        ensures
            r.wf(),
            r@ == Map::<Seq<char>, WriteView>::empty(),
            r.list() == Seq::<(Seq<char>, WriteView)>::empty(),
    {
        let r = WriteSet { entries: Vec::new() };
        proof {
            assert(r.list() =~= Seq::<(Seq<char>, WriteView)>::empty());
        }
        r
    }

    pub fn len(&self) -> (r: usize)
        ensures
            r == self.list().len(),
    {
        self.entries.len()
    }

    pub fn is_empty(&self) -> (r: bool)
        requires
            self.wf(),
        ensures
            r == (self@ =~= Map::<Seq<char>, WriteView>::empty()),
            r == (self.list().len() == 0),
    {
        proof {
            if self.list().len() > 0 {
                lemma_wmap_index(self.list(), 0);
            } else {
                assert(self@ =~= Map::<Seq<char>, WriteView>::empty());
            }
        }
        self.entries.len() == 0
    }

    /// The entry at a position.
    pub fn entry_at(&self, i: usize) -> (r: &(String, Write))
        requires
            i < self.list().len(),
        ensures
            (r.0@, r.1@) == self.list()[i as int],
    {
        &self.entries[i]
    }

    /// The position of a key's entry, if any.
    fn index_of(&self, key: &String) -> (r: Option<usize>)
        ensures
            (match r {
                Some(i) => i < self.list().len() && self.list()[i as int].0 == key@,
                None => forall|j: int| 0 <= j < self.list().len() ==> (
                #[trigger] self.list()[j]).0 != key@,
            }),
    {
        let mut i: usize = 0;
        while i < self.entries.len()
            invariant
                0 <= i <= self.entries@.len(),
                self.entries@.len() == self.list().len(),
                forall|j: int| 0 <= j < i ==> (#[trigger] self.list()[j]).0 != key@,
            decreases self.entries@.len() - i,
        {
            if self.entries[i].0 == *key {
                proof {
                    assert(self.list()[i as int].0 == key@);
                }
                return Some(i);
            }
            proof {
                assert(self.list()[i as int].0 != key@);
            }
            i = i + 1;
        }
        None
    }

    /// The pending operation for a key, if any.
    pub fn get(&self, key: &String) -> (r: Option<&Write>)
        requires
            self.wf(),
        ensures
            (match r {
                Some(w) => self@.contains_key(key@) && w@ == self@[key@],
                None => !self@.contains_key(key@),
            }),
    {
        let found = self.index_of(key);
        match found {
            Some(i) => {
                proof {
                    lemma_wmap_index(self.list(), i as int);
                }
                Some(&self.entries[i].1)
            },
            None => {
                proof {
                    lemma_wmap_dom(self.list(), key@);
                }
                None
            },
        }
    }

    /// Record an operation for a key, replacing any pending one.
    pub fn set(&mut self, key: String, w: Write)
        requires
            old(self).wf(),
        ensures
            final(self).wf(),
            final(self)@ == old(self)@.insert(key@, w@),
    {
        let ghost pre = self.list();
        let found = self.index_of(&key);
        match found {
            Some(i) => {
                self.entries.remove(i);
                self.entries.insert(i, (key, w));
                proof {
                    assert(self.list() =~= pre.update(i as int, (pre[i as int].0, w@)));
                    lemma_wmap_update(pre, i as int, pre[i as int].0, w@);
                    assert forall|p: int, q: int|
                        0 <= p < q < self.list().len() implies (#[trigger] self.list()[p]).0 != (
                    #[trigger] self.list()[q]).0 by {
                        assert(self.list()[p].0 == pre[p].0);
                        assert(self.list()[q].0 == pre[q].0);
                    }
                }
            },
            None => {
                self.entries.push((key, w));
                proof {
                    let l = self.list();
                    assert(l.drop_last() =~= pre);
                    assert(l.last().0 == key@ && l.last().1 == w@);
                    assert forall|p: int, q: int| 0 <= p < q < l.len() implies (
                    #[trigger] l[p]).0 != (#[trigger] l[q]).0 by {
                        assert(l[p] == pre[p]);
                        if q < l.len() - 1 {
                            assert(l[q] == pre[q]);
                        }
                    }
                }
            },
        }
    }

    /// Drop any pending operation for a key.
    pub fn remove(&mut self, key: &String)
        requires
            old(self).wf(),
        ensures
            final(self).wf(),
            final(self)@ == old(self)@.remove(key@),
    {
        let ghost pre = self.list();
        let found = self.index_of(key);
        match found {
            Some(i) => {
                self.entries.remove(i);
                proof {
                    assert(self.list() =~= pre.remove(i as int));
                    lemma_wmap_remove_at(pre, i as int);
                    assert forall|p: int, q: int|
                        0 <= p < q < self.list().len() implies (#[trigger] self.list()[p]).0 != (
                    #[trigger] self.list()[q]).0 by {
                        let iv = i as int;
                        if q < iv {
                            assert(self.list()[p] == pre[p]);
                            assert(self.list()[q] == pre[q]);
                        } else if p < iv {
                            assert(self.list()[p] == pre[p]);
                            assert(self.list()[q] == pre[q + 1]);
                        } else {
                            assert(self.list()[p] == pre[p + 1]);
                            assert(self.list()[q] == pre[q + 1]);
                        }
                    }
                }
            },
            None => {
                proof {
                    lemma_wmap_dom(pre, key@);
                    assert(final(self)@ =~= old(self)@.remove(key@));
                }
            },
        }
    }

    /// Clone out the pending entries, in order.
    pub fn writes(&self) -> (r: Vec<(String, Write)>)
        ensures
            r@.len() == self.list().len(),
            forall|i: int| 0 <= i < r@.len() ==> ((#[trigger] r@[i]).0@, r@[i].1@)
                == self.list()[i],
    {
        let mut out: Vec<(String, Write)> = Vec::new();
        let mut i: usize = 0;
        while i < self.entries.len()
            invariant
                0 <= i <= self.entries@.len(),
                self.entries@.len() == self.list().len(),
                out@.len() == i,
                forall|j: int| 0 <= j < i ==> ((#[trigger] out@[j]).0@, out@[j].1@)
                    == self.list()[j],
            decreases self.entries@.len() - i,
        {
            out.push((self.entries[i].0.clone(), self.entries[i].1.dup()));
            proof {
                assert((out@[i as int].0@, out@[i as int].1@) == self.list()[i as int]);
            }
            i = i + 1;
        }
        out
    }
}

/// A duplicate-free write list has as many entries as its map has keys.
pub proof fn lemma_wlist_card(l: Seq<(Seq<char>, WriteView)>)
    requires
        wlist_unique(l),
    ensures
        wmap(l).dom().finite(),
        wmap(l).dom().len() == l.len(),
    decreases l.len(),
{
    if l.len() == 0 {
        assert(wmap(l).dom() =~= Set::<Seq<char>>::empty());
    } else {
        lemma_wlist_card(l.drop_last());
        assert(wmap(l).dom() =~= wmap(l.drop_last()).dom().insert(l.last().0));
        assert(!wmap(l.drop_last()).dom().contains(l.last().0)) by {
            lemma_wmap_dom(l.drop_last(), l.last().0);
            if exists|i: int| 0 <= i < l.drop_last().len() && (#[trigger] l.drop_last()[i]).0
                == l.last().0 {
                let i = choose|i: int|
                    0 <= i < l.drop_last().len() && (#[trigger] l.drop_last()[i]).0 == l.last().0;
                assert(l[i].0 == l[l.len() - 1].0);
            }
        }
    }
}

/// The value a transaction's read returns: the write-set shadows the table.
pub open spec fn shadow_find(
    ws: Map<Seq<char>, WriteView>,
    m: Map<Seq<char>, Seq<char>>,
    k: Seq<char>,
) -> Option<Seq<char>> {
    if ws.contains_key(k) {
        match ws[k] {
            WriteView::Insert(v) => Some(v),
            WriteView::Update(v) => Some(v),
            WriteView::Remove => None,
        }
    } else if m.contains_key(k) {
        Some(m[k])
    } else {
        None
    }
}

/// One step of request buffering: how a request rewrites the write-set over
/// the committed map.
pub open spec fn exec_step(
    ws: Map<Seq<char>, WriteView>,
    m: Map<Seq<char>, Seq<char>>,
    req: RequestView,
) -> Map<Seq<char>, WriteView> {
    match req {
        RequestView::Insert(k, v) => if ws.contains_key(k) {
            match ws[k] {
                WriteView::Insert(_) => ws.insert(k, WriteView::Insert(v)),
                WriteView::Update(_) => ws.insert(k, WriteView::Update(v)),
                WriteView::Remove => ws.insert(k, WriteView::Update(v)),
            }
        } else if m.contains_key(k) {
            ws.insert(k, WriteView::Update(v))
        } else {
            ws.insert(k, WriteView::Insert(v))
        },
        RequestView::Update(k, v) => if ws.contains_key(k) {
            match ws[k] {
                WriteView::Insert(_) => ws.insert(k, WriteView::Insert(v)),
                WriteView::Update(_) => ws.insert(k, WriteView::Update(v)),
                WriteView::Remove => ws.insert(k, WriteView::Update(v)),
            }
        } else {
            ws.insert(k, WriteView::Update(v))
        },
        RequestView::Remove(k) => if ws.contains_key(k) && ws[k] is Insert {
            ws.remove(k)
        } else {
            ws.insert(k, WriteView::Remove)
        },
    }
}

/// Commit validation: a pending insert needs its key absent, a pending
/// update or removal needs it present.
pub open spec fn writes_valid(
    ws: Map<Seq<char>, WriteView>,
    m: Map<Seq<char>, Seq<char>>,
) -> bool {
    forall|k: Seq<char>| #[trigger] ws.contains_key(k) ==> ((ws[k] is Insert) <==> !m.contains_key(
        k,
    ))
}

/// The new value of a pending write, where one exists.
pub open spec fn write_value(w: WriteView) -> Seq<char> {
    match w {
        WriteView::Insert(v) => v,
        WriteView::Update(v) => v,
        WriteView::Remove => Seq::<char>::empty(),
    }
}

/// One pending write applied to a map.
pub open spec fn apply_write_one(
    m: Map<Seq<char>, Seq<char>>,
    k: Seq<char>,
    w: WriteView,
) -> Map<Seq<char>, Seq<char>> {
    match w {
        WriteView::Insert(v) => m.insert(k, v),
        WriteView::Update(v) => m.insert(k, v),
        WriteView::Remove => m.remove(k),
    }
}

/// A list of pending writes applied in order.
pub open spec fn apply_list(
    m: Map<Seq<char>, Seq<char>>,
    l: Seq<(Seq<char>, WriteView)>,
) -> Map<Seq<char>, Seq<char>>
    decreases l.len(),
{
    if l.len() == 0 {
        m
    } else {
        apply_write_one(apply_list(m, l.drop_last()), l.last().0, l.last().1)
    }
}

/// A whole write-set applied to a map: pending inserts and updates supply
/// the value, pending removals delete the key, the rest stays.
pub open spec fn apply_writes(
    m: Map<Seq<char>, Seq<char>>,
    ws: Map<Seq<char>, WriteView>,
) -> Map<Seq<char>, Seq<char>> {
    Map::new(
        |k: Seq<char>|
            if ws.contains_key(k) {
                !(ws[k] is Remove)
            } else {
                m.contains_key(k)
            },
        |k: Seq<char>| if ws.contains_key(k) {
            write_value(ws[k])
        } else {
            m[k]
        },
    )
}

/// Applying a duplicate-free list in any order equals applying its map.
pub proof fn lemma_apply_list_eq(m: Map<Seq<char>, Seq<char>>, l: Seq<(Seq<char>, WriteView)>)
    requires
        wlist_unique(l),
    ensures
        apply_list(m, l) == apply_writes(m, wmap(l)),
    decreases l.len(),
{
    if l.len() == 0 {
        assert(apply_writes(m, wmap(l)) =~= m);
    } else {
        lemma_apply_list_eq(m, l.drop_last());
        assert(!wmap(l.drop_last()).contains_key(l.last().0)) by {
            lemma_wmap_dom(l.drop_last(), l.last().0);
            if exists|i: int| 0 <= i < l.drop_last().len() && (#[trigger] l.drop_last()[i]).0
                == l.last().0 {
                let i = choose|i: int|
                    0 <= i < l.drop_last().len() && (#[trigger] l.drop_last()[i]).0 == l.last().0;
                assert(l[i].0 == l[l.len() - 1].0);
            }
        }
        assert(apply_write_one(apply_writes(m, wmap(l.drop_last())), l.last().0, l.last().1)
            =~= apply_writes(m, wmap(l)));
    }
}

/// Whether a pending write carries a value selecting to `p`.
pub open spec fn write_selects<S: SecondaryIndex>(w: WriteView, p: PrimitiveView) -> bool {
    match w {
        WriteView::Insert(v) => S::sel(v) == p,
        WriteView::Update(v) => S::sel(v) == p,
        WriteView::Remove => false,
    }
}

/// The keys a transactional reverse lookup returns: committed keys selecting
/// to `p` and untouched by the write-set, plus pending writes whose new
/// value selects to `p`.
pub open spec fn selected_keys<S: SecondaryIndex>(
    m: Map<Seq<char>, Seq<char>>,
    ws: Map<Seq<char>, WriteView>,
    p: PrimitiveView,
) -> Set<Seq<char>> {
    Set::new(
        |pk: Seq<char>|
            (m.contains_key(pk) && S::sel(m[pk]) == p && !ws.contains_key(pk)) || (ws.contains_key(
                pk,
            ) && write_selects::<S>(ws[pk], p)),
    )
}

/// Append `key` under each index's selection of `value`.
fn append_all<S: SecondaryIndex>(secs: &mut Vec<(String, S)>, value: &String, key: &String)
    requires
        forall|j: int| 0 <= j < old(secs)@.len() ==> (#[trigger] old(secs)@[j].1).inv(),
    ensures
        final(secs)@.len() == old(secs)@.len(),
        forall|j: int| 0 <= j < final(secs)@.len() ==> (#[trigger] final(secs)@[j]).0 == old(
            secs,
        )@[j].0,
        forall|j: int| 0 <= j < final(secs)@.len() ==> (#[trigger] final(secs)@[j]).1.inv(),
        forall|j: int| 0 <= j < final(secs)@.len() ==> (#[trigger] final(secs)@[j]).1.contents()
            == crate::secondary::add_to_contents(old(secs)@[j].1.contents(), S::sel(value@), key@),
    {
    let ghost pre = old(secs)@;
    let mut j: usize = 0;
    while j < secs.len()
        invariant
            0 <= j <= pre.len(),
            secs@.len() == pre.len(),
            forall|jj: int| 0 <= jj < pre.len() ==> (#[trigger] secs@[jj]).0 == pre[jj].0,
            forall|jj: int| j <= jj < pre.len() ==> (#[trigger] secs@[jj]).1 == pre[jj].1,
            forall|jj: int| 0 <= jj < pre.len() ==> (#[trigger] pre[jj].1).inv(),
            forall|jj: int| 0 <= jj < j ==> (#[trigger] secs@[jj]).1.inv(),
            forall|jj: int| 0 <= jj < j ==> (#[trigger] secs@[jj]).1.contents()
                == crate::secondary::add_to_contents(pre[jj].1.contents(), S::sel(value@), key@),
        decreases pre.len() - j,
    {
        let ghost before = secs@;
        let (name, mut s) = secs.remove(j);
        let p = s.select(value);
        let r = s.append_to(&p, key);
        match r {
            Ok(_) => {},
            Err(_) => {
                proof {
                    S::sel_accepted(value@);
                    assert(false);
                }
            },
        }
        secs.insert(j, (name, s));
        proof {
            assert forall|jj: int| 0 <= jj < pre.len() implies (#[trigger] secs@[jj]).0
                == pre[jj].0 by {
                if jj != j {
                    assert(secs@[jj] == before[jj]);
                }
            }
        }
        j = j + 1;
    }
}

/// Remove `key` from under each index's selection of `value`.
fn remove_all<S: SecondaryIndex>(secs: &mut Vec<(String, S)>, value: &String, key: &String)
    requires
        forall|j: int| 0 <= j < old(secs)@.len() ==> (#[trigger] old(secs)@[j].1).inv(),
    ensures
        final(secs)@.len() == old(secs)@.len(),
        forall|j: int| 0 <= j < final(secs)@.len() ==> (#[trigger] final(secs)@[j]).0 == old(
            secs,
        )@[j].0,
        forall|j: int| 0 <= j < final(secs)@.len() ==> (#[trigger] final(secs)@[j]).1.inv(),
        forall|j: int| 0 <= j < final(secs)@.len() ==> (#[trigger] final(secs)@[j]).1.contents()
            == crate::secondary::remove_from_contents(
            old(secs)@[j].1.contents(),
            S::sel(value@),
            key@,
        ),
    {
    let ghost pre = old(secs)@;
    let mut j: usize = 0;
    while j < secs.len()
        invariant
            0 <= j <= pre.len(),
            secs@.len() == pre.len(),
            forall|jj: int| 0 <= jj < pre.len() ==> (#[trigger] secs@[jj]).0 == pre[jj].0,
            forall|jj: int| j <= jj < pre.len() ==> (#[trigger] secs@[jj]).1 == pre[jj].1,
            forall|jj: int| 0 <= jj < pre.len() ==> (#[trigger] pre[jj].1).inv(),
            forall|jj: int| 0 <= jj < j ==> (#[trigger] secs@[jj]).1.inv(),
            forall|jj: int| 0 <= jj < j ==> (#[trigger] secs@[jj]).1.contents()
                == crate::secondary::remove_from_contents(
                pre[jj].1.contents(),
                S::sel(value@),
                key@,
            ),
        decreases pre.len() - j,
    {
        let ghost before = secs@;
        let (name, mut s) = secs.remove(j);
        let p = s.select(value);
        let r = s.remove_from(&p, key);
        match r {
            Ok(_) => {},
            Err(_) => {
                proof {
                    S::sel_accepted(value@);
                    assert(false);
                }
            },
        }
        secs.insert(j, (name, s));
        proof {
            assert forall|jj: int| 0 <= jj < pre.len() implies (#[trigger] secs@[jj]).0
                == pre[jj].0 by {
                if jj != j {
                    assert(secs@[jj] == before[jj]);
                }
            }
        }
        j = j + 1;
    }
}

/// Apply one pending write to the table, keeping every index consistent.
pub(crate) fn apply_one<S: SecondaryIndex>(table: &mut Table<S>, key: &String, w: &Write)
    requires
        old(table).inv(),
        (w@ is Insert) <==> !old(table)@.contains_key(key@),
    ensures
        final(table).inv(),
        final(table)@ == apply_write_one(old(table)@, key@, w@),
        final(table).names() == old(table).names(),
        final(table).primary.fan_out == old(table).primary.fan_out,
    {
    let ghost m0 = table@;
    proof {
        lemma_map_of_dom_finite::<String, String>(table.primary.root.entries());
    }
    match w {
        Write::Insert(v) => {
            append_all(&mut table.secondaries, v, key);
            let r = table.primary.insert(key, v.clone(), true);
            match r {
                Ok(_) => {},
                Err(_) => {
                    proof {
                        assert(false);
                    }
                },
            }
            proof {
                lemma_derived_insert::<S>(m0, key@, v@);
                assert(final(table).names() =~= old(table).names());
            }
        },
        Write::Update(v) => {
            let ov = match table.primary.find(key) {
                Some(x) => x.clone(),
                None => {
                    proof {
                        assert(false);
                    }
                    String::new()
                },
            };
            remove_all(&mut table.secondaries, &ov, key);
            append_all(&mut table.secondaries, v, key);
            let r = table.primary.update(key, v.clone());
            match r {
                Ok(_) => {},
                Err(_) => {
                    proof {
                        assert(false);
                    }
                },
            }
            proof {
                lemma_derived_remove::<S>(m0, key@);
                lemma_derived_insert::<S>(m0.remove(key@), key@, v@);
                assert(m0.remove(key@).insert(key@, v@) =~= m0.insert(key@, v@));
                assert(final(table).names() =~= old(table).names());
            }
        },
        Write::Remove => {
            let ov = match table.primary.find(key) {
                Some(x) => x.clone(),
                None => {
                    proof {
                        assert(false);
                    }
                    String::new()
                },
            };
            remove_all(&mut table.secondaries, &ov, key);
            let r = table.primary.remove(key);
            match r {
                Ok(_) => {},
                Err(_) => {
                    proof {
                        assert(false);
                    }
                },
            }
            proof {
                lemma_derived_remove::<S>(m0, key@);
                assert(final(table).names() =~= old(table).names());
            }
        },
    }
}

/// A transaction: exclusive ownership of a table plus the buffered writes.
pub struct Transaction<S> {
    pub write_set: WriteSet,
    pub table: Table<S>,
}

impl<S: SecondaryIndex> Transaction<S> {
    /// Well-formedness: a sound table, a duplicate-free write-set, and a
    /// pending insert only for keys absent from the table.
    pub open spec fn inv(self) -> bool {
        &&& self.table.inv()
        &&& self.write_set.wf()
        &&& (forall|k: Seq<char>|
            #[trigger] self.write_set@.contains_key(k) && self.write_set@[k] is Insert
                ==> !self.table@.contains_key(k))
    }

    /// Open a transaction over a table; the table is held until commit or
    /// abort returns it.
    pub fn new(table: Table<S>) -> (tx: Self)
        requires
            table.inv(),
        ensures
            tx.inv(),
            tx.table == table,
            tx.write_set@ == Map::<Seq<char>, WriteView>::empty(),
            tx.write_set.list() == Seq::<(Seq<char>, WriteView)>::empty(),
    {
        Transaction { write_set: WriteSet::new(), table }
    }

    /// Drop the buffered writes and hand the table back unchanged.
    pub fn abort(self) -> (t: Table<S>)
        ensures
            t == self.table,
    {
        self.table
    }

    /// Buffer one request. The write-set is rewritten so that a pending
    /// insert always targets an absent key and a pending update or removal a
    /// present one, as far as this transaction has observed.
    pub fn exec(&mut self, req: Request) -> (r: Result<(), TransactionError>)
        requires
            old(self).inv(),
        ensures
            final(self).inv(),
            r is Ok,
            final(self).table == old(self).table,
            final(self).write_set@ == exec_step(old(self).write_set@, old(self).table@, req@),
    {
        match req {
            Request::Insert(kv) => {
                let (key, value) = kv;
                let mut has_pending = false;
                let mut pending_insert = false;
                match self.write_set.get(&key) {
                    Some(Write::Insert(_)) => {
                        has_pending = true;
                        pending_insert = true;
                    },
                    Some(_) => {
                        has_pending = true;
                    },
                    None => {},
                }
                if has_pending {
                    if pending_insert {
                        self.write_set.set(key, Write::Insert(value));
                    } else {
                        self.write_set.set(key, Write::Update(value));
                    }
                } else {
                    let committed = match self.table.primary.find(&key) {
                        Some(_) => true,
                        None => false,
                    };
                    if committed {
                        self.write_set.set(key, Write::Update(value));
                    } else {
                        self.write_set.set(key, Write::Insert(value));
                    }
                }
            },
            Request::Update(kv) => {
                let (key, value) = kv;
                let mut pending_insert = false;
                match self.write_set.get(&key) {
                    Some(Write::Insert(_)) => {
                        pending_insert = true;
                    },
                    _ => {},
                }
                if pending_insert {
                    self.write_set.set(key, Write::Insert(value));
                } else {
                    self.write_set.set(key, Write::Update(value));
                }
            },
            Request::Remove(key) => {
                let mut pending_insert = false;
                match self.write_set.get(&key) {
                    Some(Write::Insert(_)) => {
                        pending_insert = true;
                    },
                    _ => {},
                }
                if pending_insert {
                    self.write_set.remove(&key);
                } else {
                    self.write_set.set(key, Write::Remove);
                }
            },
        }
        Ok(())
    }

    /// Read through the write-set, falling back to the committed table.
    pub fn find(&self, key: &String) -> (r: Result<Option<String>, TransactionError>)
        requires
            self.inv(),
        ensures
            (match r {
                Ok(Some(v)) => shadow_find(self.write_set@, self.table@, key@) == Some(v@),
                Ok(None) => shadow_find(self.write_set@, self.table@, key@) is None,
                Err(_) => false,
            }),
    {
        match self.write_set.get(key) {
            Some(w) => match w {
                Write::Insert(v) => Ok(Some(v.clone())),
                Write::Update(v) => Ok(Some(v.clone())),
                Write::Remove => Ok(None),
            },
            None => match self.table.primary.find(key) {
                Some(v) => Ok(Some(v.clone())),
                None => Ok(None),
            },
        }
    }

    /// Check every pending write against the table: inserts need absent
    /// keys, updates and removals present ones. An absent update or removal
    /// target is reported as `KeyNotFound`, a pending insert over a present
    /// key as the `Unknown` conflict.
    pub fn validate(&self) -> (r: Result<(), TransactionError>)
        requires
            self.inv(),
        ensures
            (r is Ok) <==> writes_valid(self.write_set@, self.table@),
            (match r {
                Err(e) => {
                    &&& e == TransactionError::KeyNotFound || e == TransactionError::Unknown
                    &&& (e == TransactionError::KeyNotFound ==> exists|k: Seq<char>|
                        #[trigger] self.write_set@.contains_key(k) && !(self.write_set@[k]
                            is Insert) && !self.table@.contains_key(k))
                    &&& (e == TransactionError::Unknown ==> exists|k: Seq<char>|
                        #[trigger] self.write_set@.contains_key(k) && self.write_set@[k] is Insert
                            && self.table@.contains_key(k))
                },
                Ok(_) => true,
            }),
    {
        let n = self.write_set.len();
        let mut i: usize = 0;
        while i < n
            invariant
                self.inv(),
                n == self.write_set.list().len(),
                0 <= i <= n,
                forall|j: int| 0 <= j < i ==> (((#[trigger] self.write_set.list()[j]).1 is Insert)
                    <==> !self.table@.contains_key(self.write_set.list()[j].0)),
            decreases n - i,
        {
            self.write_set.props();
            let e = self.write_set.entry_at(i);
            let is_insert = match &e.1 {
                Write::Insert(_) => true,
                _ => false,
            };
            let committed = match self.table.primary.find(&e.0) {
                Some(_) => true,
                None => false,
            };
            if is_insert && committed {
                proof {
                    let k0 = self.write_set.list()[i as int].0;
                    assert(self.write_set@.contains_key(k0));
                    assert(self.write_set@[k0] is Insert && self.table@.contains_key(k0));
                    assert(!writes_valid(self.write_set@, self.table@));
                }
                return Err(TransactionError::Unknown);
            }
            if !is_insert && !committed {
                proof {
                    let k0 = self.write_set.list()[i as int].0;
                    assert(self.write_set@.contains_key(k0));
                    assert(!(self.write_set@[k0] is Insert) && !self.table@.contains_key(k0));
                    assert(!writes_valid(self.write_set@, self.table@));
                }
                return Err(TransactionError::KeyNotFound);
            }
            i = i + 1;
        }
        self.write_set.props();
        proof {
            assert forall|k: Seq<char>| #[trigger] self.write_set@.contains_key(k) implies ((
            self.write_set@[k] is Insert) <==> !self.table@.contains_key(k)) by {
                let j = choose|j: int|
                    0 <= j < self.write_set.list().len() && (
                    #[trigger] self.write_set.list()[j]).0 == k;
            }
        }
        Ok(())
    }

    /// Commit: an empty write-set is a no-op; otherwise every pending write
    /// is validated, and only then applied atomically. A validation failure
    /// hands the table back untouched.
    pub fn commit(self) -> (res: (Table<S>, Result<(), TransactionError>))
        requires
            self.inv(),
        ensures
            res.0.inv(),
            res.0.names() == self.table.names(),
            res.0.primary.fan_out == self.table.primary.fan_out,
            (match res.1 {
                Ok(_) => res.0@ == apply_writes(self.table@, self.write_set@),
                Err(e) => {
                    &&& res.0 == self.table
                    &&& (e == TransactionError::KeyNotFound || e == TransactionError::Unknown)
                    &&& (e == TransactionError::KeyNotFound ==> exists|k: Seq<char>|
                        #[trigger] self.write_set@.contains_key(k) && !(self.write_set@[k]
                            is Insert) && !self.table@.contains_key(k))
                    &&& (e == TransactionError::Unknown ==> exists|k: Seq<char>|
                        #[trigger] self.write_set@.contains_key(k) && self.write_set@[k] is Insert
                            && self.table@.contains_key(k))
                },
            }),
            (res.1 is Ok) <==> (self.write_set@ =~= Map::<Seq<char>, WriteView>::empty()
                || writes_valid(self.write_set@, self.table@)),
    {
        if self.write_set.is_empty() {
            proof {
                assert(apply_writes(self.table@, self.write_set@) =~= self.table@);
            }
            return (self.table, Ok(()));
        }
        match self.validate() {
            Err(e) => {
                return (self.table, Err(e));
            },
            Ok(_) => {},
        }
        self.write_set.props();
        let Transaction { write_set, mut table } = self;
        let ghost m0 = table@;
        let ghost l = write_set.list();
        let ghost names0 = table.names();
        let ghost f0 = table.primary.fan_out;
        let n = write_set.len();
        let mut i: usize = 0;
        while i < n
            invariant
                table.inv(),
                n == l.len(),
                write_set.list() == l,
                write_set.wf(),
                wlist_unique(l),
                0 <= i <= n,
                table@ == apply_list(m0, l.take(i as int)),
                table.names() == names0,
                table.primary.fan_out == f0,
                forall|j: int| i <= j < n ==> (((#[trigger] l[j]).1 is Insert)
                    <==> !table@.contains_key(l[j].0)),
            decreases n - i,
        {
            let ghost mpre = table@;
            let e = write_set.entry_at(i);
            apply_one(&mut table, &e.0, &e.1);
            proof {
                let iv = i as int;
                assert(l.take(iv + 1).drop_last() =~= l.take(iv));
                assert(l.take(iv + 1).last() == l[iv]);
                assert(table@ == apply_list(m0, l.take(iv + 1)));
                assert forall|j: int| iv + 1 <= j < n implies (((#[trigger] l[j]).1 is Insert)
                    <==> !table@.contains_key(l[j].0)) by {
                    assert(l[iv].0 != l[j].0);
                }
            }
            i = i + 1;
        }
        proof {
            assert(l.take(n as int) =~= l);
            lemma_apply_list_eq(m0, l);
        }
        (table, Ok(()))
    }

    /// Reverse lookup through the write-set: committed keys still selecting
    /// to the probe, minus pending removals and re-selections, plus pending
    /// writes whose new value selects to it.
    #[verifier::rlimit(100)]
    pub fn select(&self, index: &String, key: &Primitive) -> (r: Result<KeySet, TransactionError>)
        requires
            self.inv(),
        ensures
            (match r {
                Ok(ks) => self.table.has_index(index@) && S::accepts(key@) && ks@
                    == selected_keys::<S>(self.table@, self.write_set@, key@),
                Err(e) => (e == TransactionError::SecondaryIndexNotFound && !self.table.has_index(
                    index@,
                )) || (e == TransactionError::IllegalKeyType && self.table.has_index(index@)
                    && !S::accepts(key@)),
            }),
    {
        let idx = match self.table.get_index(index) {
            Some(s) => s,
            None => {
                return Err(TransactionError::SecondaryIndexNotFound);
            },
        };
        if !idx.validate(key) {
            return Err(TransactionError::IllegalKeyType);
        }
        let ghost m = self.table@;
        let ghost ws = self.write_set@;
        let ghost p = key@;
        let mut out = KeySet::new();
        let found = idx.find(key);
        match found {
            Some(ks) => {
                ks.list_props();
                let nks = ks.len();
                let mut i: usize = 0;
                while i < nks
                    invariant
                        self.inv(),
                        p == key@,
                        S::accepts(p),
                        ks.list().len() == nks,
                        ks@ == derived_contents::<S>(m)[p],
                        derived_contents::<S>(m).contains_key(p),
                        m == self.table@,
                        ws == self.write_set@,
                        forall|x: Seq<char>| ks@.contains(x) ==> exists|i2: int|
                            0 <= i2 < ks.list().len() && (#[trigger] ks.list()[i2]) == x,
                        forall|i2: int| 0 <= i2 < nks ==> ks@.contains(#[trigger] ks.list()[i2]),
                        0 <= i <= nks,
                        forall|x: Seq<char>| #[trigger] out@.contains(x) ==> (exists|i2: int|
                            0 <= i2 < i && ks.list()[i2] == x) && (!ws.contains_key(x) || (
                        ws.contains_key(x) && write_selects::<S>(ws[x], p))),
                        forall|i2: int|
                            0 <= i2 < i && (!ws.contains_key(#[trigger] ks.list()[i2]) || (
                            ws.contains_key(ks.list()[i2]) && write_selects::<S>(
                                ws[ks.list()[i2]],
                                p,
                            ))) ==> out@.contains(ks.list()[i2]),
                    decreases nks - i,
                {
                    let pk = ks.get(i);
                    let ghost opre = out@;
                    let ghost pkv = ks.list()[i as int];
                    let mut keep = false;
                    match self.write_set.get(pk) {
                        None => {
                            keep = true;
                            proof {
                                assert(!ws.contains_key(pkv));
                            }
                        },
                        Some(Write::Insert(v)) => {
                            proof {
                                assert(ws.contains_key(pkv));
                                assert(ws[pkv] == WriteView::Insert(v@));
                            }
                            let pv = idx.select(v);
                            match pv.key_cmp(key) {
                                KeyCmp::Equal => {
                                    keep = true;
                                    proof {
                                        assert(S::sel(v@) == p);
                                        assert(write_selects::<S>(ws[pkv], p));
                                    }
                                },
                                _ => {
                                    proof {
                                        <Primitive as TreeKey>::lemma_lt_trichotomy(pv@, key@);
                                <Primitive as TreeKey>::lemma_lt_trichotomy(key@, pv@);
                                    }
                                },
                            }
                        },
                        Some(Write::Update(v)) => {
                            let pv = idx.select(v);
                            match pv.key_cmp(key) {
                                KeyCmp::Equal => {
                                    keep = true;
                                },
                                _ => {
                                    proof {
                                        <Primitive as TreeKey>::lemma_lt_trichotomy(pv@, key@);
                                <Primitive as TreeKey>::lemma_lt_trichotomy(key@, pv@);
                                    }
                                },
                            }
                        },
                        Some(Write::Remove) => {},
                    }
                    proof {
                        assert(keep == (!ws.contains_key(pkv) || (ws.contains_key(pkv)
                            && write_selects::<S>(ws[pkv], p))));
                    }
                    if keep {
                        out.insert_elem(pk.clone());
                    }
                    proof {
                        assert forall|x: Seq<char>| #[trigger] out@.contains(x) implies (exists|
                            i2: int,
                        |
                            0 <= i2 < i + 1 && ks.list()[i2] == x) && (!ws.contains_key(x) || (
                        ws.contains_key(x) && write_selects::<S>(ws[x], p))) by {
                            if opre.contains(x) {
                                let i2 = choose|i2: int|
                                    0 <= i2 < i && (#[trigger] ks.list()[i2]) == x;
                                assert(0 <= i2 < i + 1 && ks.list()[i2] == x);
                            } else {
                                assert(x == pkv && keep);
                                assert(ks.list()[i as int] == x);
                            }
                        }
                        assert forall|i2: int|
                            0 <= i2 < i + 1 && (!ws.contains_key(#[trigger] ks.list()[i2]) || (
                            ws.contains_key(ks.list()[i2]) && write_selects::<S>(
                                ws[ks.list()[i2]],
                                p,
                            ))) implies out@.contains(ks.list()[i2]) by {
                            if i2 < i {
                                assert(opre.contains(ks.list()[i2]));
                            }
                        }
                    }
                    i = i + 1;
                }
                proof {
                    assert(ks@ =~= crate::table::keys_selecting::<S>(m, p));
                    assert forall|x: Seq<char>| #[trigger] out@.contains(x) implies (
                    m.contains_key(x) && S::sel(m[x]) == p) && (!ws.contains_key(x)
                        || write_selects::<S>(ws[x], p)) by {
                        assert(ks@.contains(x));
                    }
                    assert forall|x: Seq<char>|
                        m.contains_key(x) && #[trigger] S::sel(m[x]) == p && !ws.contains_key(
                        x,
                    ) implies out@.contains(x) by {
                        assert(ks@.contains(x));
                        let i2 = choose|i2: int|
                            0 <= i2 < ks.list().len() && (#[trigger] ks.list()[i2]) == x;
                    }
                }
            },
            None => {
                proof {
                    assert forall|x: Seq<char>|
                        m.contains_key(x) && #[trigger] S::sel(m[x]) == p && !ws.contains_key(
                        x,
                    ) implies out@.contains(x) by {
                        assert(derived_contents::<S>(m).contains_key(p));
                        assert(false);
                    }
                }
            },
        }
        // pending writes selecting to the probe
        self.write_set.props();
        let ghost committed_part = out@;
        let nw = self.write_set.len();
        let mut i: usize = 0;
        while i < nw
            invariant
                self.inv(),
                p == key@,
                S::accepts(p),
                m == self.table@,
                ws == self.write_set@,
                nw == self.write_set.list().len(),
                0 <= i <= nw,
                forall|x: Seq<char>| #[trigger] committed_part.contains(x) ==> (m.contains_key(x)
                    && S::sel(m[x]) == p) && (!ws.contains_key(x) || write_selects::<S>(ws[x], p)),
                forall|x: Seq<char>| m.contains_key(x) && #[trigger] S::sel(m[x]) == p
                    && !ws.contains_key(x) ==> committed_part.contains(x),
                forall|i2: int| 0 <= i2 < nw ==> ws.contains_key(
                    (#[trigger] self.write_set.list()[i2]).0,
                ) && ws[self.write_set.list()[i2].0] == self.write_set.list()[i2].1,
                forall|k2: Seq<char>| ws.contains_key(k2) ==> exists|i2: int|
                    0 <= i2 < nw && (#[trigger] self.write_set.list()[i2]).0 == k2,
                forall|x: Seq<char>| #[trigger] out@.contains(x) ==> committed_part.contains(x)
                    || (ws.contains_key(x) && write_selects::<S>(ws[x], p)),
                forall|x: Seq<char>| committed_part.contains(x) ==> #[trigger] out@.contains(x),
                forall|i2: int|
                    0 <= i2 < i && write_selects::<S>(
                        (#[trigger] self.write_set.list()[i2]).1,
                        p,
                    ) ==> out@.contains(self.write_set.list()[i2].0),
            decreases nw - i,
        {
            let e = self.write_set.entry_at(i);
            let ghost opre = out@;
            let ghost ent = self.write_set.list()[i as int];
            match &e.1 {
                Write::Insert(v) => {
                    let pv = idx.select(v);
                    match pv.key_cmp(key) {
                        KeyCmp::Equal => {
                            out.insert_elem(e.0.clone());
                        },
                        _ => {
                            proof {
                                <Primitive as TreeKey>::lemma_lt_trichotomy(pv@, key@);
                                <Primitive as TreeKey>::lemma_lt_trichotomy(key@, pv@);
                            }
                        },
                    }
                },
                Write::Update(v) => {
                    let pv = idx.select(v);
                    match pv.key_cmp(key) {
                        KeyCmp::Equal => {
                            out.insert_elem(e.0.clone());
                        },
                        _ => {
                            proof {
                                <Primitive as TreeKey>::lemma_lt_trichotomy(pv@, key@);
                                <Primitive as TreeKey>::lemma_lt_trichotomy(key@, pv@);
                            }
                        },
                    }
                },
                Write::Remove => {},
            }
            proof {
                assert(ws.contains_key(ent.0) && ws[ent.0] == ent.1);
                assert forall|x: Seq<char>| #[trigger] out@.contains(x) implies
                    committed_part.contains(x) || (ws.contains_key(x) && write_selects::<S>(
                    ws[x],
                    p,
                )) by {
                    if !opre.contains(x) {
                        assert(x == ent.0);
                        assert(write_selects::<S>(ent.1, p));
                    }
                }
                assert forall|i2: int|
                    0 <= i2 < i + 1 && write_selects::<S>(
                        (#[trigger] self.write_set.list()[i2]).1,
                        p,
                    ) implies out@.contains(self.write_set.list()[i2].0) by {
                    if i2 < i {
                        assert(opre.contains(self.write_set.list()[i2].0));
                    } else {
                        assert(out@.contains(ent.0));
                    }
                }
            }
            i = i + 1;
        }
        proof {
            assert forall|x: Seq<char>| out@.contains(x) implies selected_keys::<S>(
                m,
                ws,
                p,
            ).contains(x) by {
                if committed_part.contains(x) {
                    assert(m.contains_key(x) && S::sel(m[x]) == p);
                }
            }
            assert forall|x: Seq<char>| selected_keys::<S>(m, ws, p).contains(x) implies
                out@.contains(x) by {
                if m.contains_key(x) && S::sel(m[x]) == p && !ws.contains_key(x) {
                    assert(committed_part.contains(x));
                } else {
                    let i2 = choose|i2: int|
                        0 <= i2 < nw && (#[trigger] self.write_set.list()[i2]).0 == x;
                    assert(write_selects::<S>(self.write_set.list()[i2].1, p));
                }
            }
            assert(out@ =~= selected_keys::<S>(m, ws, p));
        }
        Ok(out)
    }
}


/// The write-set after buffering a run of requests, starting empty.
pub open spec fn run_requests(
    m: Map<Seq<char>, Seq<char>>,
    rs: Seq<RequestView>,
) -> Map<Seq<char>, WriteView>
    decreases rs.len(),
{
    if rs.len() == 0 {
        Map::empty()
    } else {
        exec_step(run_requests(m, rs.drop_last()), m, rs.last())
    }
}

/// The key a request touches.
pub open spec fn request_key(req: RequestView) -> Seq<char> {
    match req {
        RequestView::Insert(k, _) => k,
        RequestView::Update(k, _) => k,
        RequestView::Remove(k) => k,
    }
}

/// The last value a run of requests writes under `k`: the value of the
/// latest insert or update of `k`, nothing after a removal of `k`, and the
/// committed value where no request touches `k`.
pub open spec fn last_write(
    rs: Seq<RequestView>,
    m: Map<Seq<char>, Seq<char>>,
    k: Seq<char>,
) -> Option<Seq<char>>
    decreases rs.len(),
{
    if rs.len() == 0 {
        if m.contains_key(k) {
            Some(m[k])
        } else {
            None
        }
    } else if request_key(rs.last()) == k {
        match rs.last() {
            RequestView::Insert(_, v) => Some(v),
            RequestView::Update(_, v) => Some(v),
            RequestView::Remove(_) => None,
        }
    } else {
        last_write(rs.drop_last(), m, k)
    }
}

/// Along any run of requests the write-set records an insert only for keys
/// the table lacks, and a read through it yields the last value written, or
/// nothing after a removal, or the committed value where nothing touched
/// the key.
pub proof fn lemma_find_last_write(rs: Seq<RequestView>, m: Map<Seq<char>, Seq<char>>, k: Seq<char>)
    ensures
        run_requests(m, rs).contains_key(k) && run_requests(m, rs)[k] is Insert
            ==> !m.contains_key(k),
        shadow_find(run_requests(m, rs), m, k) == last_write(rs, m, k),
    decreases rs.len(),
{
    if rs.len() == 0 {
    } else {
        let ws0 = run_requests(m, rs.drop_last());
        lemma_find_last_write(rs.drop_last(), m, k);
        let req = rs.last();
        let rk = request_key(req);
        if rk != k {
        } else {
            lemma_find_last_write(rs.drop_last(), m, rk);
        }
    }
}

/// A committed write-set reads exactly as the shadowed transaction read:
/// the applied map looks up every key the way `find` resolved it.
pub proof fn lemma_commit_preserves_reads(
    m: Map<Seq<char>, Seq<char>>,
    ws: Map<Seq<char>, WriteView>,
    k: Seq<char>,
)
    ensures
        (apply_writes(m, ws).contains_key(k) ==> shadow_find(ws, m, k) == Some(
            apply_writes(m, ws)[k],
        )),
        (!apply_writes(m, ws).contains_key(k) ==> shadow_find(ws, m, k) is None),
{
}

/// Buffering a run of requests and committing the resulting write-set leaves
/// every key at its last written value: the value of the latest insert or
/// update of the key, nothing after a removal of it, and the old committed
/// value where no request touched it.
pub proof fn lemma_commit_reads_last_write(
    m: Map<Seq<char>, Seq<char>>,
    rs: Seq<RequestView>,
    k: Seq<char>,
)
    ensures
        ({
            let m2 = apply_writes(m, run_requests(m, rs));
            &&& (m2.contains_key(k) ==> Some(m2[k]) == last_write(rs, m, k))
            &&& (!m2.contains_key(k) ==> last_write(rs, m, k) is None)
        }),
{
    lemma_find_last_write(rs, m, k);
    lemma_commit_preserves_reads(m, run_requests(m, rs), k);
}

} // verus!
