//! The guarantees this layer is built for, each stated and proved over the
//! model: crash atomicity of `save`, the save/load round trip, the
//! corruption fallback chain, the retention invariant, and the scheduling
//! gate.

use vstd::prelude::*;
use vstd::multiset::Multiset;
use crate::json::json_valid;
use crate::model::{
    BackupSnap,
    DiskModel,
    latest_index,
    lemma_latest_is_max,
    load_result,
    default_doc,
    backup_due,
    snapshot_at,
    rotation_ok,
    sorted_newest_first,
    dominates_all,
    min_int,
    BACKUP_KEEP,
    BACKUP_MIN_INTERVAL_SECS,
};

verus! {

/// Crash atomicity of `save`. Every step of a save leaves the primary file
/// either untouched or already holding the full new text (the scheduler
/// and the temporary write never touch it; the rename replaces it in one
/// step — see the ensures of `ensure_periodic_backup`, `write_temp` and
/// `commit_temp`). So on any state `c` a crash can leave behind, a load
/// returns either the pre-save document or the new one, never a partial
/// value — provided the primary file was well-formed (or absent) when the
/// save began.
pub proof fn lemma_save_atomic(s0: DiskModel, c: DiskModel, doc: Seq<char>)
    requires
        json_valid(doc),
        s0.primary matches Option::Some(p) ==> json_valid(p),
        c.primary == s0.primary || c.primary == Option::Some(doc),
    ensures
        load_result(c) == load_result(s0) || load_result(c) == doc,
{
}

/// Round trip: a load on any state whose primary file holds a well-formed
/// text `doc` — in particular the state a successful `save` of `doc`
/// leaves behind — returns exactly `doc`.
pub proof fn lemma_round_trip(d: DiskModel, doc: Seq<char>)
    requires
        json_valid(doc),
        d.primary == Option::Some(doc),
    ensures
        load_result(d) == doc,
{
}

/// Corruption fallback: when the primary file's text does not parse and
/// the newest backup's does, a load returns the newest backup's text.
pub proof fn lemma_corruption_fallback(d: DiskModel)
    requires
        d.primary matches Option::Some(p) && !json_valid(p),
        latest_index(d.backups) matches Option::Some(i) && json_valid(d.backups[i].content),
    ensures
        load_result(d) == d.backups[latest_index(d.backups)->0].content,
{
}

/// Double corruption: when the primary file's text does not parse and no
/// backup helps (none exists, or the newest one does not parse either), a
/// load returns the default document. The engine's `load` additionally
/// guarantees the disk is left untouched in this case.
pub proof fn lemma_double_corruption(d: DiskModel)
    requires
        d.primary matches Option::Some(p) && !json_valid(p),
        match latest_index(d.backups) {
            Option::None => true,
            Option::Some(i) => !json_valid(d.backups[i].content),
        },
    ensures
        load_result(d) == default_doc(),
{
}

/// Retention, the count: a backup event at time `now` (snapshot plus
/// sweep) leaves exactly `min(n + 1, 7)` backups, where `n` is how many
/// there were before. From an empty directory, `N` backup events
/// therefore leave `min(N, 7)`.
pub proof fn lemma_retention_count(d0: DiskModel, d1: DiskModel, now: u64)
    requires
        rotation_ok(d0.backups.push(snapshot_at(d0, now)), d1.backups, BACKUP_KEEP as int),
    ensures
        d1.backups.len() == min_int(d0.backups.len() as int + 1, BACKUP_KEEP as int),
{
}

/// One backup-creation event: at time `now` the scheduler found a
/// snapshot due, copied the primary file into the backup set, and ran the
/// retention sweep — the relation `ensure_periodic_backup` establishes
/// between the states before and after when a backup is due.
pub open spec fn backup_event(d0: DiskModel, d1: DiskModel, now: u64) -> bool {
    &&& backup_due(d0, now)
    &&& rotation_ok(d0.backups.push(snapshot_at(d0, now)), d1.backups, BACKUP_KEEP as int)
}

/// Retention over a whole history: starting from an empty backup
/// directory, any sequence of `N` backup-creation events leaves exactly
/// `min(N, 7)` backups.
pub proof fn lemma_retention_trace(disks: Seq<DiskModel>, times: Seq<u64>)
    requires
        disks.len() == times.len() + 1,
        disks[0].backups.len() == 0,
        forall|k: int| 0 <= k < times.len() ==> #[trigger] backup_event(
            disks[k],
            disks[k + 1],
            times[k],
        ),
    ensures
        disks.last().backups.len() == min_int(times.len() as int, BACKUP_KEEP as int),
    decreases times.len(),
{
    if times.len() > 0 {
        lemma_retention_trace(disks.drop_last(), times.drop_last());
        let n = times.len() as int;
        assert(backup_event(disks[n - 1], disks[n], times[n - 1]));
        lemma_retention_count(disks[n - 1], disks[n], times[n - 1]);
    }
}

/// Retention, the survivors: whatever the sweep discarded is no more
/// recent than anything it kept — the retained snapshots are exactly the
/// most recently created ones.
pub proof fn lemma_rotation_keeps_newest(
    before: Seq<BackupSnap>,
    after: Seq<BackupSnap>,
    keep: int,
)
    requires
        rotation_ok(before, after, keep),
    ensures
        after.len() == min_int(before.len() as int, keep),
        forall|x: BackupSnap|
            #![trigger before.to_multiset().count(x)]
            before.to_multiset().count(x) > after.to_multiset().count(x) ==> (forall|i: int|
                0 <= i < after.len() ==> #[trigger] after[i].stamp >= x.stamp),
{
    broadcast use vstd::multiset::group_multiset_axioms;

    let dropped = choose|dropped: Multiset<BackupSnap>|
        after.to_multiset().add(dropped) == before.to_multiset() && dominates_all(after, dropped);
    assert forall|x: BackupSnap|
        before.to_multiset().count(x) > after.to_multiset().count(x) implies (forall|i: int|
        0 <= i < after.len() ==> #[trigger] after[i].stamp >= x.stamp) by {
        assert(dropped.count(x) > 0);
        assert forall|i: int| 0 <= i < after.len() implies #[trigger] after[i].stamp >= x.stamp by {
            assert(dominates_all(after, dropped));
        }
    }
}

/// The stamps of a backup set, in order.
pub open spec fn stamps_of(s: Seq<BackupSnap>) -> Seq<u64> {
    s.map_values(|b: BackupSnap| b.stamp)
}

/// No two members of the set share a stamp.
pub open spec fn distinct_stamps(s: Seq<BackupSnap>) -> bool {
    forall|i: int, j: int| 0 <= i < j < s.len() ==> s[i].stamp != s[j].stamp
}

/// A newest-first sequence without stamp ties is determined by its
/// members: two such sequences holding the same multiset are equal.
pub proof fn lemma_sorted_distinct_same_multiset(s1: Seq<BackupSnap>, s2: Seq<BackupSnap>)
    requires
        sorted_newest_first(s1),
        sorted_newest_first(s2),
        distinct_stamps(s1),
        s1.to_multiset() == s2.to_multiset(),
    ensures
        s1 == s2,
    decreases s1.len(),
{
    broadcast use vstd::multiset::group_multiset_axioms;
    broadcast use vstd::seq_lib::group_to_multiset_ensures;

    assert(s1.len() == s1.to_multiset().len());
    assert(s2.len() == s2.to_multiset().len());
    if s1.len() == 0 {
        assert(s1 =~= s2);
    } else {
        assert(s1.to_multiset().contains(s1[0]));
        assert(s2.contains(s1[0]));
        let k = choose|k: int| 0 <= k < s2.len() && s2[k] == s1[0];
        assert(s2.to_multiset().contains(s2[0]));
        assert(s1.contains(s2[0]));
        let j = choose|j: int| 0 <= j < s1.len() && s1[j] == s2[0];
        assert(s2[0].stamp >= s2[k].stamp);
        assert(s1[0].stamp >= s1[j].stamp);
        assert(s1[0].stamp == s2[0].stamp);
        assert(j == 0);
        assert(s1[0] == s2[0]);

        let t1 = s1.remove(0);
        let t2 = s2.remove(0);
        assert(t1.to_multiset() == s1.to_multiset().remove(s1[0]));
        assert(t2.to_multiset() == s2.to_multiset().remove(s2[0]));
        assert(t1 =~= s1.subrange(1, s1.len() as int));
        assert(t2 =~= s2.subrange(1, s2.len() as int));
        assert(sorted_newest_first(t1));
        assert(sorted_newest_first(t2));
        assert(distinct_stamps(t1));
        lemma_sorted_distinct_same_multiset(t1, t2);
        assert forall|i: int| 0 <= i < s1.len() implies s1[i] == s2[i] by {
            if i > 0 {
                assert(t1[i - 1] == s1[i]);
                assert(t2[i - 1] == s2[i]);
            }
        }
        assert(s1 =~= s2);
    }
}

/// The exact shape of one backup event on a well-formed backup set
/// (newest first, no stamp ties, nothing stamped at or after `now`, at
/// most 7 members): the new snapshot takes the front, and when the set
/// was full the oldest member — and only it — leaves.
pub proof fn lemma_backup_event_shape(d0: DiskModel, d1: DiskModel, now: u64)
    requires
        backup_event(d0, d1, now),
        sorted_newest_first(d0.backups),
        distinct_stamps(d0.backups),
        d0.backups.len() <= BACKUP_KEEP as int,
        forall|i: int| 0 <= i < d0.backups.len() ==> #[trigger] d0.backups[i].stamp < now,
    ensures
        d0.backups.len() < BACKUP_KEEP as int ==> d1.backups == seq![snapshot_at(d0, now)]
            + d0.backups,
        d0.backups.len() == BACKUP_KEEP as int ==> d1.backups == seq![snapshot_at(d0, now)]
            + d0.backups.drop_last(),
{
    broadcast use vstd::multiset::group_multiset_axioms;
    broadcast use vstd::seq_lib::group_to_multiset_ensures;
    broadcast use vstd::seq_lib::lemma_multiset_commutative;

    let prev = d0.backups;
    let snap = snapshot_at(d0, now);
    let before = prev.push(snap);
    let after = d1.backups;
    let dropped = choose|dropped: Multiset<BackupSnap>|
        after.to_multiset().add(dropped) == before.to_multiset() && dominates_all(after, dropped);

    assert(before[before.len() - 1] == snap);
    assert(distinct_stamps(before));
    assert(before.no_duplicates());
    before.lemma_multiset_has_no_duplicates();

    assert(before.to_multiset().len() == before.len());
    assert(after.to_multiset().len() == after.len());
    assert(after.len() + dropped.len() == before.len());

    assert(seq![snap].to_multiset() =~= Multiset::<BackupSnap>::empty().insert(snap)) by {
        assert(seq![snap] =~= Seq::<BackupSnap>::empty().push(snap));
        assert(Seq::<BackupSnap>::empty().to_multiset().len() == 0);
        assert(Seq::<BackupSnap>::empty().to_multiset() =~= Multiset::<BackupSnap>::empty());
    }

    if prev.len() < BACKUP_KEEP as int {
        assert(dropped.len() == 0);
        assert(dropped =~= Multiset::<BackupSnap>::empty()) by {
            if exists|v: BackupSnap| dropped.count(v) > 0 {
                let v = choose|v: BackupSnap| dropped.count(v) > 0;
                assert(dropped.count(v) <= dropped.len());
            }
        }
        assert(after.to_multiset() =~= before.to_multiset());

        let ex = seq![snap] + prev;
        assert(ex.to_multiset() =~= before.to_multiset());
        assert(sorted_newest_first(ex));
        assert(distinct_stamps(ex));
        lemma_sorted_distinct_same_multiset(ex, after);
    } else {
        let e = prev.last();
        assert(before[prev.len() - 1] == e);
        assert(before.contains(e));
        assert(before.to_multiset().count(e) == 1);
        assert(dropped.len() == 1);

        // Only the oldest member can have been discarded: anything else
        // still outranks a surviving copy of the oldest, against the
        // sweep's guarantee that survivors dominate the discarded.
        if dropped.count(e) == 0 {
            assert(after.to_multiset().count(e) == 1);
            assert(after.contains(e));
            let ke = choose|ke: int| 0 <= ke < after.len() && after[ke] == e;
            let x = dropped.choose();
            assert(dropped.count(x) > 0);
            assert(before.to_multiset().count(x) > 0);
            assert(before.contains(x));
            let jx = choose|jx: int| 0 <= jx < before.len() && before[jx] == x;
            assert(x != e);
            assert(jx != prev.len() - 1);
            assert(x.stamp > e.stamp);
            assert(after[ke].stamp >= x.stamp);
            assert(false);
        }
        assert(dropped =~= dropped.remove(e).insert(e));
        assert(dropped.len() == dropped.remove(e).len() + 1);
        assert(dropped.remove(e) =~= Multiset::<BackupSnap>::empty()) by {
            if exists|v: BackupSnap| dropped.remove(e).count(v) > 0 {
                let v = choose|v: BackupSnap| dropped.remove(e).count(v) > 0;
                assert(dropped.remove(e).count(v) <= dropped.remove(e).len());
            }
        }
        assert(dropped =~= Multiset::<BackupSnap>::empty().insert(e));

        let ex = seq![snap] + prev.drop_last();
        assert(prev =~= prev.drop_last().push(e));
        assert(prev.to_multiset() == prev.drop_last().to_multiset().insert(e));
        assert(before.to_multiset() == prev.to_multiset().insert(snap));
        assert(ex.to_multiset() == seq![snap].to_multiset().add(prev.drop_last().to_multiset()));
        assert forall|v: BackupSnap|
            after.to_multiset().count(v) == ex.to_multiset().count(v) by {
            assert(after.to_multiset().count(v) + dropped.count(v) == before.to_multiset().count(
                v,
            ));
            assert(dropped.count(v) == Multiset::<BackupSnap>::empty().insert(e).count(v));
        }
        assert(after.to_multiset() =~= ex.to_multiset());
        assert(sorted_newest_first(ex));
        assert(distinct_stamps(ex));
        lemma_sorted_distinct_same_multiset(ex, after);
    }
}

/// The event times a whole history leaves snapshots of: the most recent
/// `min(N, 7)`, newest first.
pub open spec fn recent_window(times: Seq<u64>) -> Seq<u64> {
    let m = min_int(times.len() as int, BACKUP_KEEP as int);
    times.subrange(times.len() - m, times.len() as int).reverse()
}

/// Retention over a whole history, the survivors: with strictly
/// increasing event times, any `N` backup-creation events starting from
/// an empty backup directory leave exactly the snapshots of the
/// `min(N, 7)` most recent events, newest first.
pub proof fn lemma_retention_trace_newest(disks: Seq<DiskModel>, times: Seq<u64>)
    requires
        disks.len() == times.len() + 1,
        disks[0].backups.len() == 0,
        forall|k: int| 0 <= k < times.len() ==> #[trigger] backup_event(
            disks[k],
            disks[k + 1],
            times[k],
        ),
        forall|a: int, b: int| 0 <= a < b < times.len() ==> times[a] < times[b],
    ensures
        sorted_newest_first(disks.last().backups),
        distinct_stamps(disks.last().backups),
        stamps_of(disks.last().backups) == recent_window(times),
    decreases times.len(),
{
    if times.len() == 0 {
        assert(stamps_of(disks.last().backups) =~= recent_window(times));
    } else {
        let n = times.len() as int;
        let pd = disks.drop_last();
        let pt = times.drop_last();
        assert forall|k: int| 0 <= k < pt.len() implies #[trigger] backup_event(
            pd[k],
            pd[k + 1],
            pt[k],
        ) by {
            assert(backup_event(disks[k], disks[k + 1], times[k]));
        }
        lemma_retention_trace_newest(pd, pt);
        let d0 = disks[n - 1];
        let d1 = disks[n];
        assert(pd.last() == d0);
        let t = times[n - 1];
        assert(backup_event(d0, d1, t));
        let w0 = recent_window(pt);
        let m0 = min_int(pt.len() as int, BACKUP_KEEP as int);
        assert(stamps_of(d0.backups) == w0);
        assert(stamps_of(d0.backups).len() == d0.backups.len());
        assert(w0.len() == m0);
        assert(d0.backups.len() == m0);
        assert forall|i: int| 0 <= i < d0.backups.len() implies #[trigger] d0.backups[i].stamp
            < t by {
            assert(d0.backups[i].stamp == w0[i]);
            assert(w0[i] == pt[pt.len() - 1 - i]);
            assert(pt[pt.len() - 1 - i] == times[n - 2 - i]);
        }
        lemma_backup_event_shape(d0, d1, t);
        let snap = snapshot_at(d0, t);

        assert forall|i: int| 0 <= i < d1.backups.len() implies #[trigger] d1.backups[i].stamp
            == times[n - 1 - i] by {
            if i == 0 {
                assert(d1.backups[0] == snap);
            } else {
                assert(d1.backups[i] == d0.backups[i - 1]);
                assert(d0.backups[i - 1].stamp == w0[i - 1]);
                assert(w0[i - 1] == pt[pt.len() - 1 - (i - 1)]);
            }
        }
        assert(d1.backups.len() == min_int(n, BACKUP_KEEP as int));
        assert forall|i: int, j: int| 0 <= i < j < d1.backups.len() implies d1.backups[i].stamp
            > d1.backups[j].stamp by {
            assert(d1.backups[i].stamp == times[n - 1 - i]);
            assert(d1.backups[j].stamp == times[n - 1 - j]);
        }
        assert(stamps_of(d1.backups) =~= recent_window(times)) by {
            assert forall|i: int| 0 <= i < d1.backups.len() implies stamps_of(d1.backups)[i]
                == recent_window(times)[i] by {
                assert(recent_window(times)[i] == times[n - 1 - i]);
                assert(stamps_of(d1.backups)[i] == d1.backups[i].stamp);
            }
        }
        assert(disks.last() == d1);
    }
}

/// The scheduling gate: a save at time `t0` that took a snapshot leaves a
/// backup set whose newest stamp is `t0` (assuming no backup was stamped
/// in the future), so a second save at any `t1` within the minimum
/// interval finds a fresh-enough backup and takes no snapshot — two saves
/// less than 23.5 hours apart produce exactly one new backup file.
pub proof fn lemma_scheduling_gate(d0: DiskModel, d1: DiskModel, t0: u64, t1: u64)
    requires
        d0.primary is Some,
        forall|j: int| 0 <= j < d0.backups.len() ==> #[trigger] d0.backups[j].stamp <= t0,
        rotation_ok(d0.backups.push(snapshot_at(d0, t0)), d1.backups, BACKUP_KEEP as int),
        t0 <= t1,
        t1 - t0 < BACKUP_MIN_INTERVAL_SECS,
    ensures
        !backup_due(d1, t1),
{
    broadcast use vstd::multiset::group_multiset_axioms;
    broadcast use vstd::seq_lib::group_to_multiset_ensures;

    let before = d0.backups.push(snapshot_at(d0, t0));
    let after = d1.backups;
    let snap = snapshot_at(d0, t0);
    let dropped = choose|dropped: Multiset<BackupSnap>|
        after.to_multiset().add(dropped) == before.to_multiset() && dominates_all(after, dropped);
    assert(after.len() >= 1);

    // Every survivor's stamp is at most t0: it is a member of the set the
    // sweep started from.
    assert forall|i: int| 0 <= i < after.len() implies #[trigger] after[i].stamp <= t0 by {
        assert(after.to_multiset().count(after[i]) > 0);
        assert(before.to_multiset().count(after[i]) > 0);
        assert(before.contains(after[i]));
        let j = choose|j: int| 0 <= j < before.len() && before[j] == after[i];
        if j < d0.backups.len() {
            assert(before[j] == d0.backups[j]);
        } else {
            assert(before[j] == snap);
        }
    }

    // Some survivor's stamp is exactly t0: the fresh snapshot either
    // survived, or everything kept is at least as recent as it.
    assert(before[before.len() - 1] == snap);
    assert(before.contains(snap));
    assert(before.to_multiset().count(snap) > 0);
    if after.to_multiset().count(snap) > 0 {
        assert(after.contains(snap));
    } else {
        assert(dropped.count(snap) > 0);
        assert(dominates_all(after, dropped));
        assert(after[0].stamp >= snap.stamp);
        assert(after[0].stamp == t0);
    }

    lemma_latest_is_max(after);
    let m: int = latest_index(after)->0;
    if after.contains(snap) {
        let k = choose|k: int| 0 <= k < after.len() && after[k] == snap;
        assert(after[m].stamp >= after[k].stamp);
    }
    assert(after[m].stamp == t0);
}

} // verus!
