//! The backup directory manager and scheduler: finding the newest snapshot,
//! the retention sweep, and the time-gated decision to take a new snapshot.
//! The caller performs the mirrored directory operations; every decision and
//! every resulting state is made here, over the modelled state.

use vstd::prelude::*;
use crate::model::{
    BackupFile,
    BackupSnap,
    Disk,
    backup_views,
    latest_index,
    lemma_latest_is_max,
    lemma_backup_views_push,
    lemma_backup_views_remove,
    sorted_newest_first,
    dominates_all,
    rotation_ok,
    min_int,
    backup_due,
    snapshot_at,
    BACKUP_KEEP,
    BACKUP_MIN_INTERVAL_SECS,
};

verus! {

/// Scans the backup set and returns the index of the entry with the
/// greatest stamp (the first such entry when stamps tie), or `None` when
/// the set is empty — the scan never fails, it degrades to "no backups".
#[verifier::loop_isolation(false)]
pub fn latest_backup(backups: &Vec<BackupFile>) -> (r: Option<usize>)
    ensures
        r is Some <==> backups@.len() > 0,
        r matches Option::Some(i) ==> i < backups@.len() && latest_index(backup_views(backups@))
            == Option::Some(i as int),
{
    let ghost bv = backup_views(backups@);
    let mut best: Option<usize> = Option::None;
    let mut k: usize = 0;
    while k < backups.len()
        invariant
            k <= backups.len(),
            best is Some <==> k > 0,
            best matches Option::Some(i) ==> i < k && latest_index(bv.take(k as int))
                == Option::Some(i as int),
        decreases backups.len() - k,
    {
        proof {
            assert(bv.take(k as int + 1).drop_last() =~= bv.take(k as int));
        }
        match best {
            Option::None => {
                best = Option::Some(k);
            },
            Option::Some(i) => {
                if backups[k].stamp > backups[i].stamp {
                    best = Option::Some(k);
                }
            },
        }
        k = k + 1;
    }
    proof {
        assert(bv.take(backups@.len() as int) =~= bv);
    }
    best
}

/// The retention sweep: keeps the `keep` most recent snapshots (ordered
/// newest first) and returns the discarded ones, which the caller deletes
/// file by file — each removal independent, so one failure cannot abort
/// the rest.
#[verifier::loop_isolation(false)]
pub fn rotate_backups(backups: &mut Vec<BackupFile>, keep: usize) -> (dropped: Vec<BackupFile>)
    ensures
        backup_views(final(backups)@).len() == min_int(old(backups)@.len() as int, keep as int),
        sorted_newest_first(backup_views(final(backups)@)),
        backup_views(final(backups)@).to_multiset().add(backup_views(dropped@).to_multiset())
            == backup_views(old(backups)@).to_multiset(),
        dominates_all(backup_views(final(backups)@), backup_views(dropped@).to_multiset()),
        rotation_ok(backup_views(old(backups)@), backup_views(final(backups)@), keep as int),
{
    broadcast use vstd::seq_lib::group_to_multiset_ensures;
    broadcast use vstd::multiset::group_multiset_axioms;

    let ghost orig = backup_views(old(backups)@);
    let mut kept: Vec<BackupFile> = Vec::new();
    proof {
        assert(backup_views(kept@) =~= Seq::<BackupSnap>::empty());
        assert(backup_views(kept@).to_multiset().add(backup_views(backups@).to_multiset())
            =~= orig.to_multiset());
    }
    while kept.len() < keep && backups.len() > 0
        invariant
            kept@.len() <= keep,
            kept@.len() + backups@.len() == orig.len(),
            backup_views(kept@).to_multiset().add(backup_views(backups@).to_multiset())
                == orig.to_multiset(),
            sorted_newest_first(backup_views(kept@)),
            dominates_all(backup_views(kept@), backup_views(backups@).to_multiset()),
        decreases backups.len(),
    {
        let ghost pre = backups@;
        let ghost prev_kept = kept@;
        match latest_backup(backups) {
            Option::Some(i) => {
                proof {
                    lemma_latest_is_max(backup_views(pre));
                }
                let b = backups.remove(i);
                kept.push(b);
                proof {
                    let pm = backup_views(pre);
                    let km = backup_views(prev_kept);
                    lemma_backup_views_remove(pre, i as int);
                    lemma_backup_views_push(prev_kept, b);
                    assert(pm.to_multiset().contains(pm[i as int]));
                    assert(backup_views(kept@).to_multiset().add(
                        backup_views(backups@).to_multiset(),
                    ) =~= orig.to_multiset());
                    assert forall|x: BackupSnap| pm.to_multiset().count(x) > 0 implies pm[
                        i as int
                    ].stamp >= x.stamp by {
                        assert(pm.contains(x));
                        let j = choose|j: int| 0 <= j < pm.len() && pm[j] == x;
                        assert(pm[j].stamp <= pm[i as int].stamp);
                    }
                    assert(sorted_newest_first(backup_views(kept@)));
                    assert(dominates_all(
                        backup_views(kept@),
                        backup_views(backups@).to_multiset(),
                    ));
                }
            },
            Option::None => {
                proof {
                    assert(false);
                }
            },
        }
    }
    core::mem::swap(backups, &mut kept);
    proof {
        let after = backup_views(final(backups)@);
        let rest = backup_views(kept@).to_multiset();
        assert(after.to_multiset().add(rest) == orig.to_multiset());
        assert(rotation_ok(orig, after, keep as int));
    }
    kept
}

/// The decimal digit characters of `n`, most significant first.
pub open spec fn dec_digits(n: nat) -> Seq<char>
    decreases n,
{
    if n < 10 {
        seq![digit_char(n)]
    } else {
        dec_digits(n / 10).push(digit_char(n % 10))
    }
}

pub open spec fn digit_char(d: nat) -> char {
    if d == 0 {
        '0'
    } else if d == 1 {
        '1'
    } else if d == 2 {
        '2'
    } else if d == 3 {
        '3'
    } else if d == 4 {
        '4'
    } else if d == 5 {
        '5'
    } else if d == 6 {
        '6'
    } else if d == 7 {
        '7'
    } else if d == 8 {
        '8'
    } else {
        '9'
    }
}

fn digit_str(d: u64) -> (r: &'static str)
    requires
        d < 10,
    ensures
        r@ == seq![digit_char(d as nat)],
{
    proof {
        reveal_strlit("0");
        reveal_strlit("1");
        reveal_strlit("2");
        reveal_strlit("3");
        reveal_strlit("4");
        reveal_strlit("5");
        reveal_strlit("6");
        reveal_strlit("7");
        reveal_strlit("8");
        reveal_strlit("9");
    }
    let r = if d == 0 {
        "0"
    } else if d == 1 {
        "1"
    } else if d == 2 {
        "2"
    } else if d == 3 {
        "3"
    } else if d == 4 {
        "4"
    } else if d == 5 {
        "5"
    } else if d == 6 {
        "6"
    } else if d == 7 {
        "7"
    } else if d == 8 {
        "8"
    } else {
        "9"
    };
    proof {
        assert(r@ =~= seq![digit_char(d as nat)]);
    }
    r
}

fn dec_string(n: u64) -> (r: String)
    ensures
        r@ == dec_digits(n as nat),
    decreases n,
{
    if n < 10 {
        digit_str(n).to_owned()
    } else {
        let mut s = dec_string(n / 10);
        s.append(digit_str(n % 10));
        proof {
            assert(s@ =~= dec_digits(n as nat));
        }
        s
    }
}

/// What a backup created at `stamp` is named: the primary file's base
/// name, the creation time in epoch seconds, and the extension the
/// directory scan recognises.
pub open spec fn backup_name(stamp: nat) -> Seq<char> {
    "rocky-"@ + dec_digits(stamp) + ".json"@
}

/// The file name for a backup snapshot stamped `stamp`.
pub fn backup_file_name(stamp: u64) -> (r: String)
    ensures
        r@ == backup_name(stamp as nat),
{
    let mut s = "rocky-".to_owned();
    s.append(dec_string(stamp).as_str());
    s.append(".json");
    proof {
        assert(s@ =~= backup_name(stamp as nat));
    }
    s
}

/// The backup scheduler: takes a snapshot of the primary file when one is
/// due at time `now` (no backup yet, or the newest one older than the
/// minimum interval, or stamped in the future), then runs the retention
/// sweep. A no-op when the primary file does not exist — there is nothing
/// to protect. Returns the snapshots the sweep discarded.
pub fn ensure_periodic_backup(d: &mut Disk, now: u64) -> (dropped: Vec<BackupFile>)
    ensures
        final(d)@.primary == old(d)@.primary,
        final(d)@.temp == old(d)@.temp,
        !backup_due(old(d)@, now) ==> final(d)@ == old(d)@ && dropped@.len() == 0,
        backup_due(old(d)@, now) ==> rotation_ok(
            old(d)@.backups.push(snapshot_at(old(d)@, now)),
            final(d)@.backups,
            BACKUP_KEEP as int,
        ),
        backup_due(old(d)@, now) ==> final(d)@.backups.to_multiset().add(
            backup_views(dropped@).to_multiset(),
        ) == old(d)@.backups.push(snapshot_at(old(d)@, now)).to_multiset() && dominates_all(
            final(d)@.backups,
            backup_views(dropped@).to_multiset(),
        ),
{
    let content: String;
    match &d.primary {
        Option::Some(p) => {
            content = p.clone();
        },
        Option::None => {
            return Vec::new();
        },
    }
    let mut should: bool = true;
    match latest_backup(&d.backups) {
        Option::Some(i) => {
            let last: u64 = d.backups[i].stamp;
            if last <= now && now - last < BACKUP_MIN_INTERVAL_SECS {
                should = false;
            }
        },
        Option::None => {},
    }
    if !should {
        return Vec::new();
    }
    let ghost before = d.backups@;
    d.backups.push(BackupFile { stamp: now, content });
    proof {
        lemma_backup_views_push(before, BackupFile { stamp: now, content: d.backups@.last().content });
        assert(backup_views(d.backups@) =~= old(d)@.backups.push(snapshot_at(old(d)@, now)));
    }
    rotate_backups(&mut d.backups, BACKUP_KEEP)
}

} // verus!
