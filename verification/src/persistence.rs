//! Persistence: rebuilding a table from a snapshot and ordered log records,
//! and the snapshot of a table. Reading and writing the files themselves is
//! the embedding application's part; this module owns the semantics.

use vstd::prelude::*;

use crate::node::{
    has_key, lemma_map_of_dom, lemma_map_of_index, lemma_sorted_entries_unique, map_of,
    pairs_view, sorted_entries, NodeError,
};
use crate::primitive::PrimitiveView;
use crate::secondary::SecondaryIndex;
use crate::table::{derived_contents, Table};
use crate::transaction::{apply_write_one, Write, WriteView};

verus! {

/// Loading a snapshot: each pair inserted in turn, refusing a duplicate key.
pub open spec fn snap_load(pairs: Seq<(Seq<char>, Seq<char>)>) -> Option<
    Map<Seq<char>, Seq<char>>,
>
    decreases pairs.len(),
{
    if pairs.len() == 0 {
        Some(Map::empty())
    } else {
        match snap_load(pairs.drop_last()) {
            None => None,
            Some(m) => if m.contains_key(pairs.last().0) {
                None
            } else {
                Some(m.insert(pairs.last().0, pairs.last().1))
            },
        }
    }
}

/// Replaying one log record: pending inserts tolerate a key the snapshot
/// already absorbed, updates and removals need their key present.
pub open spec fn replay_log(m: Map<Seq<char>, Seq<char>>, l: Seq<(Seq<char>, WriteView)>) -> Option<
    Map<Seq<char>, Seq<char>>,
>
    decreases l.len(),
{
    if l.len() == 0 {
        Some(m)
    } else {
        match replay_log(m, l.drop_last()) {
            None => None,
            Some(m2) => if l.last().1 is Insert || m2.contains_key(l.last().0) {
                Some(apply_write_one(m2, l.last().0, l.last().1))
            } else {
                None
            },
        }
    }
}

/// Replaying a run of log records in order.
pub open spec fn replay_logs(
    m: Map<Seq<char>, Seq<char>>,
    logs: Seq<Seq<(Seq<char>, WriteView)>>,
) -> Option<Map<Seq<char>, Seq<char>>>
    decreases logs.len(),
{
    if logs.len() == 0 {
        Some(m)
    } else {
        match replay_logs(m, logs.drop_last()) {
            None => None,
            Some(m2) => replay_log(m2, logs.last()),
        }
    }
}

/// The views of a run of owned log entries.
pub open spec fn log_view(l: Seq<(String, Write)>) -> Seq<(Seq<char>, WriteView)> {
    l.map_values(|e: (String, Write)| (e.0@, e.1@))
}

/// The views of a run of owned logs.
pub open spec fn logs_view(logs: Seq<Vec<(String, Write)>>) -> Seq<Seq<(Seq<char>, WriteView)>> {
    logs.map_values(|l: Vec<(String, Write)>| log_view(l@))
}

/// A snapshot of sorted pairs with no repeated key loads back to its map.
pub proof fn lemma_snap_load_of_unique(pairs: Seq<(Seq<char>, Seq<char>)>)
    requires
        forall|i: int, j: int| 0 <= i < j < pairs.len() ==> (#[trigger] pairs[i]).0 != (
        #[trigger] pairs[j]).0,
    ensures
        snap_load(pairs) == Some(map_of::<String, String>(pairs)),
    decreases pairs.len(),
{
    if pairs.len() == 0 {
        assert(map_of::<String, String>(pairs) =~= Map::<Seq<char>, Seq<char>>::empty());
    } else {
        let dl = pairs.drop_last();
        assert forall|i: int, j: int| 0 <= i < j < dl.len() implies (#[trigger] dl[i]).0 != (
        #[trigger] dl[j]).0 by {
            assert(dl[i] == pairs[i]);
            assert(dl[j] == pairs[j]);
        }
        lemma_snap_load_of_unique(dl);
        lemma_map_of_dom::<String, String>(dl, pairs.last().0);
        assert(!map_of::<String, String>(dl).contains_key(pairs.last().0)) by {
            if has_key::<String, String>(dl, pairs.last().0) {
                let i = choose|i: int|
                    0 <= i < dl.len() && (#[trigger] dl[i]).0 == pairs.last().0;
                assert(pairs[i].0 == pairs[pairs.len() - 1].0);
            }
        }
    }
}

/// Apply one replayed write to the table, keeping every index consistent:
/// a pending insert over a present key becomes a value replacement.
fn replay_one<S: SecondaryIndex>(table: &mut Table<S>, key: &String, w: &Write) -> (r: Result<
    (),
    NodeError,
>)
    requires
        old(table).inv(),
    ensures
        final(table).inv(),
        final(table).names() == old(table).names(),
        final(table).primary.fan_out == old(table).primary.fan_out,
        (match r {
            Ok(_) => (w@ is Insert || old(table)@.contains_key(key@)) && final(table)@
                == apply_write_one(old(table)@, key@, w@),
            Err(e) => e == NodeError::NotFound && !(w@ is Insert) && !old(table)@.contains_key(
                key@,
            ) && *final(table) == *old(table),
        }),
        (r matches Err(_)) <==> (!(w@ is Insert) && !old(table)@.contains_key(key@)),
    {
    let present = match table.primary.find(key) {
        Some(_) => true,
        None => false,
    };
    match w {
        Write::Insert(v) => {
            if present {
                let w2 = Write::Update(v.clone());
                crate::transaction::apply_one(table, key, &w2);
            } else {
                let w2 = Write::Insert(v.clone());
                crate::transaction::apply_one(table, key, &w2);
            }
            Ok(())
        },
        Write::Update(v) => {
            if !present {
                return Err(NodeError::NotFound);
            }
            let w2 = Write::Update(v.clone());
            crate::transaction::apply_one(table, key, &w2);
            Ok(())
        },
        Write::Remove => {
            if !present {
                return Err(NodeError::NotFound);
            }
            crate::transaction::apply_one(table, key, &Write::Remove);
            Ok(())
        },
    }
}

/// The snapshot of a table: the full key/value sequence, in strictly
/// ascending key order; exactly the graph of the table's map.
pub fn dump<S: SecondaryIndex>(table: &Table<S>) -> (r: Vec<(String, String)>)
    requires
        table.inv(),
    ensures
        pairs_view::<String, String>(r@) == table.primary.entries(),
        sorted_entries::<String, String>(pairs_view::<String, String>(r@)),
        map_of::<String, String>(pairs_view::<String, String>(r@)) == table@,
{
    table.primary.collect()
}

/// Rebuild a table: an empty table with the given fresh indexes takes the
/// snapshot pairs (each key at most once) and then every log record in
/// order, with commit-apply semantics; pending inserts tolerate keys the
/// snapshot already absorbed. Any inapplicable entry aborts the load.
pub fn load<S: SecondaryIndex>(
    snapshot: Vec<(String, String)>,
    logs: Vec<Vec<(String, Write)>>,
    fan_out: usize,
    secondaries: Vec<(String, S)>,
) -> (r: Result<Table<S>, NodeError>)
    requires
        1 <= fan_out <= usize::MAX - 3,
        forall|i: int| 0 <= i < secondaries@.len() ==> (#[trigger] secondaries@[i].1).inv(),
        forall|i: int| 0 <= i < secondaries@.len() ==> (#[trigger] secondaries@[i].1).contents()
            == Map::<PrimitiveView, Set<Seq<char>>>::empty(),
        forall|i: int, j: int| 0 <= i < j < secondaries@.len() ==> (
        #[trigger] secondaries@[i].0)@ != (#[trigger] secondaries@[j].0)@,
    ensures
        (match r {
            Ok(t) => {
                &&& t.inv()
                &&& t.primary.fan_out == fan_out
                &&& (match snap_load(pairs_view::<String, String>(snapshot@)) {
                    Some(m) => replay_logs(m, logs_view(logs@)) == Some(t@),
                    None => false,
                })
            },
            Err(e) => {
                &&& (e == NodeError::Duplicated || e == NodeError::NotFound)
                &&& (match snap_load(pairs_view::<String, String>(snapshot@)) {
                    Some(m) => replay_logs(m, logs_view(logs@)) is None,
                    None => true,
                })
            },
        }),
    {
    let mut table = Table::<S>::with_secondary_indexes(fan_out, secondaries);
    let ghost spairs = pairs_view::<String, String>(snapshot@);
    let n = snapshot.len();
    let mut i: usize = 0;
    while i < n
        invariant
            table.inv(),
            table.primary.fan_out == fan_out,
            n == snapshot@.len(),
            spairs == pairs_view::<String, String>(snapshot@),
            spairs.len() == n,
            0 <= i <= n,
            snap_load(spairs.take(i as int)) == Some(table@),
        decreases n - i,
    {
        let present = match table.primary.find(&snapshot[i].0) {
            Some(_) => true,
            None => false,
        };
        if present {
            proof {
                assert(spairs.take(i as int + 1).drop_last() =~= spairs.take(i as int));
                assert(spairs.take(i as int + 1).last() == spairs[i as int]);
                lemma_snap_take_none(spairs, i as int + 1);
            }
            return Err(NodeError::Duplicated);
        }
        let w2 = Write::Insert(snapshot[i].1.clone());
        crate::transaction::apply_one(&mut table, &snapshot[i].0, &w2);
        proof {
            assert(spairs.take(i as int + 1).drop_last() =~= spairs.take(i as int));
            assert(spairs.take(i as int + 1).last() == spairs[i as int]);
        }
        i = i + 1;
    }
    proof {
        assert(spairs.take(n as int) =~= spairs);
    }
    let ghost m0 = table@;
    let ghost lviews = logs_view(logs@);
    let nl = logs.len();
    let mut li: usize = 0;
    while li < nl
        invariant
            table.inv(),
            table.primary.fan_out == fan_out,
            nl == logs@.len(),
            lviews == logs_view(logs@),
            lviews.len() == nl,
            0 <= li <= nl,
            snap_load(spairs) == Some(m0),
            spairs == pairs_view::<String, String>(snapshot@),
            replay_logs(m0, lviews.take(li as int)) == Some(table@),
        decreases nl - li,
    {
        let ghost mpre = table@;
        let ghost lv = lviews[li as int];
        let ne = logs[li].len();
        let mut ei: usize = 0;
        while ei < ne
            invariant
                table.inv(),
                table.primary.fan_out == fan_out,
                nl == logs@.len(),
                li < nl,
                lviews == logs_view(logs@),
                lv == lviews[li as int],
                ne == logs@[li as int]@.len(),
                lv.len() == ne,
                0 <= ei <= ne,
                replay_log(mpre, lv.take(ei as int)) == Some(table@),
                replay_logs(m0, lviews.take(li as int)) == Some(mpre),
                snap_load(spairs) == Some(m0),
                spairs == pairs_view::<String, String>(snapshot@),
            decreases ne - ei,
        {
            let e = &logs[li][ei];
            proof {
                assert((e.0@, e.1@) == lv[ei as int]);
            }
            let rr = replay_one(&mut table, &e.0, &e.1);
            proof {
                assert(lv.take(ei as int + 1).drop_last() =~= lv.take(ei as int));
                assert(lv.take(ei as int + 1).last() == lv[ei as int]);
            }
            match rr {
                Ok(_) => {},
                Err(err) => {
                    proof {
                        assert(replay_log(mpre, lv.take(ei as int + 1)) is None);
                        lemma_replay_take_none(mpre, lv, ei as int + 1);
                        assert(lviews.take(li as int + 1).drop_last() =~= lviews.take(li as int));
                        assert(lviews.take(li as int + 1).last() == lv);
                        assert(replay_logs(m0, lviews.take(li as int + 1)) is None);
                        lemma_replay_logs_take_none(m0, lviews, li as int + 1);
                    }
                    return Err(err);
                },
            }
            ei = ei + 1;
        }
        proof {
            assert(lv.take(ne as int) =~= lv);
            assert(lviews.take(li as int + 1).drop_last() =~= lviews.take(li as int));
            assert(lviews.take(li as int + 1).last() == lviews[li as int]);
        }
        li = li + 1;
    }
    proof {
        assert(lviews.take(nl as int) =~= lviews);
    }
    Ok(table)
}

/// A failed prefix dooms the whole snapshot load.
proof fn lemma_snap_take_none(pairs: Seq<(Seq<char>, Seq<char>)>, i: int)
    requires
        0 <= i <= pairs.len(),
        snap_load(pairs.take(i)) is None,
    ensures
        snap_load(pairs) is None,
    decreases pairs.len() - i,
{
    if i == pairs.len() {
        assert(pairs.take(i) =~= pairs);
    } else {
        assert(pairs.take(i + 1).drop_last() =~= pairs.take(i));
        lemma_snap_take_none(pairs, i + 1);
    }
}

/// A failed prefix dooms the whole log replay.
proof fn lemma_replay_take_none(m: Map<Seq<char>, Seq<char>>, l: Seq<(Seq<char>, WriteView)>, i: int)
    requires
        0 <= i <= l.len(),
        replay_log(m, l.take(i)) is None,
    ensures
        replay_log(m, l) is None,
    decreases l.len() - i,
{
    if i == l.len() {
        assert(l.take(i) =~= l);
    } else {
        assert(l.take(i + 1).drop_last() =~= l.take(i));
        lemma_replay_take_none(m, l, i + 1);
    }
}

/// A failed prefix dooms the whole replay of a run of logs.
proof fn lemma_replay_logs_take_none(
    m: Map<Seq<char>, Seq<char>>,
    logs: Seq<Seq<(Seq<char>, WriteView)>>,
    i: int,
)
    requires
        0 <= i <= logs.len(),
        replay_logs(m, logs.take(i)) is None,
    ensures
        replay_logs(m, logs) is None,
    decreases logs.len() - i,
{
    if i == logs.len() {
        assert(logs.take(i) =~= logs);
    } else {
        assert(logs.take(i + 1).drop_last() =~= logs.take(i));
        lemma_replay_logs_take_none(m, logs, i + 1);
    }
}

/// The round trip of persistence: a table's snapshot is the sorted pair
/// sequence of its map, its keys repeat nowhere, and loading it with no log
/// records rebuilds exactly that map.
pub proof fn lemma_dump_load_round_trip(
    pairs: Seq<(Seq<char>, Seq<char>)>,
    m: Map<Seq<char>, Seq<char>>,
)
    requires
        sorted_entries::<String, String>(pairs),
        map_of::<String, String>(pairs) == m,
    ensures
        snap_load(pairs) == Some(m),
        replay_logs(m, Seq::<Seq<(Seq<char>, WriteView)>>::empty()) == Some(m),
{
    assert forall|i: int, j: int| 0 <= i < j < pairs.len() implies (#[trigger] pairs[i]).0 != (
    #[trigger] pairs[j]).0 by {
        crate::order::lemma_lex_lt_trichotomy(pairs[i].0, pairs[j].0);
    }
    lemma_snap_load_of_unique(pairs);
}

/// Two well-formed tables over the same map are observationally equal: the
/// same snapshot and, for every index, the same reverse sets.
pub proof fn lemma_same_map_same_observation<S: SecondaryIndex>(t1: Table<S>, t2: Table<S>)
    requires
        t1.inv(),
        t2.inv(),
        t1@ == t2@,
    ensures
        t1.primary.entries() == t2.primary.entries(),
        forall|i: int, j: int|
            0 <= i < t1.secondaries@.len() && 0 <= j < t2.secondaries@.len() ==> (
            #[trigger] t1.secondaries@[i].1).contents() == (
            #[trigger] t2.secondaries@[j].1).contents(),
{
    crate::node::lemma_entries_of_sorted::<String, String>(t1.primary.root.children@);
    crate::node::lemma_entries_of_sorted::<String, String>(t2.primary.root.children@);
    lemma_sorted_entries_unique::<String, String>(t1.primary.entries(), t2.primary.entries());
}

/// Replaying a removal-free log a second time changes nothing: every entry
/// it holds already carries the value the first replay installed.
pub proof fn lemma_replay_idempotent(
    m: Map<Seq<char>, Seq<char>>,
    l: Seq<(Seq<char>, WriteView)>,
    m2: Map<Seq<char>, Seq<char>>,
)
    requires
        crate::transaction::wlist_unique(l),
        forall|j: int| 0 <= j < l.len() ==> !((#[trigger] l[j]).1 is Remove),
        replay_log(m, l) == Some(m2),
    ensures
        replay_log(m2, l) == Some(m2),
    decreases l.len(),
{
    if l.len() == 0 {
    } else {
        let dl = l.drop_last();
        let k = l.last().0;
        let w = l.last().1;
        let m1 = replay_log(m, dl).unwrap();
        // the final map holds the last entry's value under its key
        assert(m2 == apply_write_one(m1, k, w));
        assert(m2.contains_key(k) && m2[k] == crate::transaction::write_value(w));
        // the earlier entries replay to the same final map shifted by one:
        // first show the second replay of the prefix keeps m2
        lemma_replay_prefix_idempotent(m, l, m2, dl.len() as int);
        assert(replay_log(m2, dl) == Some(m2));
        assert(apply_write_one(m2, k, w) =~= m2);
    }
}

/// Every entry of a removal-free, duplicate-free log that replayed into
/// `m2` is already present in `m2` with its value, so replaying any prefix
/// of it over `m2` keeps `m2`.
proof fn lemma_replay_prefix_idempotent(
    m: Map<Seq<char>, Seq<char>>,
    l: Seq<(Seq<char>, WriteView)>,
    m2: Map<Seq<char>, Seq<char>>,
    i: int,
)
    requires
        crate::transaction::wlist_unique(l),
        forall|j: int| 0 <= j < l.len() ==> !((#[trigger] l[j]).1 is Remove),
        replay_log(m, l) == Some(m2),
        0 <= i <= l.len(),
    ensures
        replay_log(m2, l.take(i)) == Some(m2),
    decreases i,
{
    if i == 0 {
        assert(l.take(0) =~= Seq::<(Seq<char>, WriteView)>::empty());
    } else {
        lemma_replay_prefix_idempotent(m, l, m2, i - 1);
        assert(l.take(i).drop_last() =~= l.take(i - 1));
        assert(l.take(i).last() == l[i - 1]);
        let k = l[i - 1].0;
        let w = l[i - 1].1;
        lemma_replay_final_holds(m, l, m2, i - 1);
        assert(m2.contains_key(k) && m2[k] == crate::transaction::write_value(w));
        assert(apply_write_one(m2, k, w) =~= m2);
    }
}

/// After a removal-free, duplicate-free log replays into `m2`, the map
/// holds each entry's value under its key.
proof fn lemma_replay_final_holds(
    m: Map<Seq<char>, Seq<char>>,
    l: Seq<(Seq<char>, WriteView)>,
    m2: Map<Seq<char>, Seq<char>>,
    j: int,
)
    requires
        crate::transaction::wlist_unique(l),
        forall|j2: int| 0 <= j2 < l.len() ==> !((#[trigger] l[j2]).1 is Remove),
        replay_log(m, l) == Some(m2),
        0 <= j < l.len(),
    ensures
        m2.contains_key(l[j].0),
        m2[l[j].0] == crate::transaction::write_value(l[j].1),
    decreases l.len(),
{
    let dl = l.drop_last();
    let m1 = replay_log(m, dl).unwrap();
    if j == l.len() - 1 {
        assert(m2 == apply_write_one(m1, l.last().0, l.last().1));
    } else {
        assert forall|j2: int| 0 <= j2 < dl.len() implies !((#[trigger] dl[j2]).1 is Remove) by {
            assert(dl[j2] == l[j2]);
        }
        assert(dl[j] == l[j]);
        lemma_replay_final_holds(m, dl, m1, j);
        assert(l[j].0 != l[l.len() - 1].0);
        assert(m2 == apply_write_one(m1, l.last().0, l.last().1));
    }
}

} // verus!
