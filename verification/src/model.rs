//! The data model: a snapshot of the filesystem state this layer owns
//! (primary document file, temporary sibling used by atomic writes, and the
//! backup set), together with the specification functions that the engine's
//! contracts are stated over.

use vstd::prelude::*;
use vstd::multiset::Multiset;
use crate::json::json_valid;

verus! {

/// Number of backup snapshots the retention sweep keeps.
pub const BACKUP_KEEP: usize = 7;

/// Minimum age, in seconds, of the newest backup before a new snapshot is
/// taken: deliberately just under 24 hours so daily use reliably produces
/// one backup per calendar day.
pub const BACKUP_MIN_INTERVAL_SECS: u64 = 24 * 60 * 60 - 30 * 60;

/// One backup snapshot: an immutable copy of a past primary file's text,
/// stamped with its creation time (seconds-resolution epoch). The stamp
/// doubles as the file's identity and its modification time.
pub struct BackupFile {
    pub stamp: u64,
    pub content: String,
}

/// Mathematical image of a [`BackupFile`]: the text as a sequence of
/// characters.
pub struct BackupSnap {
    pub stamp: u64,
    pub content: Seq<char>,
}

impl View for BackupFile {
    type V = BackupSnap;

    open spec fn view(&self) -> BackupSnap {
        BackupSnap { stamp: self.stamp, content: self.content@ }
    }
}

/// The filesystem state this layer owns: the primary document file (absent
/// or present with some text), the temporary sibling that atomic writes go
/// through, and the backup directory's snapshots in arbitrary order.
pub struct Disk {
    pub primary: Option<String>,
    pub temp: Option<String>,
    pub backups: Vec<BackupFile>,
}

/// Mathematical image of a [`Disk`].
pub struct DiskModel {
    pub primary: Option<Seq<char>>,
    pub temp: Option<Seq<char>>,
    pub backups: Seq<BackupSnap>,
}

pub open spec fn opt_text_view(o: Option<String>) -> Option<Seq<char>> {
    match o {
        Option::None => Option::None,
        Option::Some(s) => Option::Some(s@),
    }
}

pub open spec fn backup_views(s: Seq<BackupFile>) -> Seq<BackupSnap> {
    s.map_values(|b: BackupFile| b@)
}

impl View for Disk {
    type V = DiskModel;

    open spec fn view(&self) -> DiskModel {
        DiskModel {
            primary: opt_text_view(self.primary),
            temp: opt_text_view(self.temp),
            backups: backup_views(self.backups@),
        }
    }
}

impl Disk {
    /// A freshly created data directory: no primary file, no temporary
    /// file, no backups.
    pub fn empty() -> (d: Disk)
        ensures
            d@.primary is None,
            d@.temp is None,
            d@.backups == Seq::<BackupSnap>::empty(),
    {
        let d = Disk { primary: Option::None, temp: Option::None, backups: Vec::new() };
        proof {
            assert(backup_views(d.backups@) =~= Seq::<BackupSnap>::empty());
        }
        d
    }
}

/// Index of the backup a directory scan reports as newest: the first entry
/// carrying the greatest stamp, `None` on an empty set.
pub open spec fn latest_index(bs: Seq<BackupSnap>) -> Option<int>
    decreases bs.len(),
{
    if bs.len() == 0 {
        Option::None
    } else {
        match latest_index(bs.drop_last()) {
            Option::None => Option::Some(bs.len() - 1),
            Option::Some(i) => {
                if bs.last().stamp > bs[i].stamp {
                    Option::Some(bs.len() - 1)
                } else {
                    Option::Some(i)
                }
            },
        }
    }
}

/// Every stamp in the set is at most `bs[latest_index(bs)].stamp`.
pub proof fn lemma_latest_is_max(bs: Seq<BackupSnap>)
    requires
        bs.len() > 0,
    ensures
        latest_index(bs) is Some,
        0 <= latest_index(bs)->0 < bs.len(),
        forall|j: int| 0 <= j < bs.len() ==> #[trigger] bs[j].stamp <= bs[latest_index(bs)->0].stamp,
    decreases bs.len(),
{
    if bs.len() == 1 {
        assert(latest_index(bs.drop_last()) == Option::<int>::None);
        assert(latest_index(bs) == Option::Some(0int));
    } else {
        let sub = bs.drop_last();
        lemma_latest_is_max(sub);
        let p = latest_index(sub)->0;
        assert(forall|j: int| 0 <= j < sub.len() ==> sub[j] == bs[j]);
        if bs.last().stamp > bs[p].stamp {
            assert(latest_index(bs) == Option::Some(bs.len() - 1));
        } else {
            assert(latest_index(bs) == Option::Some(p));
        }
    }
}

pub proof fn lemma_backup_views_remove(s: Seq<BackupFile>, i: int)
    requires
        0 <= i < s.len(),
    ensures
        backup_views(s.remove(i)) == backup_views(s).remove(i),
{
    assert(backup_views(s.remove(i)) =~= backup_views(s).remove(i));
}

pub proof fn lemma_backup_views_push(s: Seq<BackupFile>, b: BackupFile)
    ensures
        backup_views(s.push(b)) == backup_views(s).push(b@),
{
    assert(backup_views(s.push(b)) =~= backup_views(s).push(b@));
}

/// Every member of the sequence is at least as recent as every member of
/// the multiset.
pub open spec fn dominates_all(s: Seq<BackupSnap>, m: Multiset<BackupSnap>) -> bool {
    forall|i: int, x: BackupSnap|
        #![trigger s[i], m.count(x)]
        0 <= i < s.len() && m.count(x) > 0 ==> s[i].stamp >= x.stamp
}

/// Whether a backup snapshot is due at time `now`: the primary file exists
/// and either no backup does, or the newest backup is no younger than the
/// minimum interval (a newest backup stamped in the future also triggers
/// one, matching a clock that moved backwards).
pub open spec fn backup_due(d: DiskModel, now: u64) -> bool {
    &&& d.primary is Some
    &&& match latest_index(d.backups) {
        Option::None => true,
        Option::Some(i) => !(d.backups[i].stamp <= now && now - d.backups[i].stamp
            < BACKUP_MIN_INTERVAL_SECS),
    }
}

/// The snapshot a backup event at time `now` adds: a copy of the primary
/// file's text, stamped `now`.
pub open spec fn snapshot_at(d: DiskModel, now: u64) -> BackupSnap
    recommends
        d.primary is Some,
{
    BackupSnap { stamp: now, content: d.primary->0 }
}

/// Stamps never increase along the sequence: newest first.
pub open spec fn sorted_newest_first(s: Seq<BackupSnap>) -> bool {
    forall|i: int, j: int| 0 <= i < j < s.len() ==> s[i].stamp >= s[j].stamp
}

pub open spec fn min_int(a: int, b: int) -> int {
    if a < b {
        a
    } else {
        b
    }
}

/// What a retention sweep leaves behind: `after` is a selection of
/// `min(|before|, keep)` members of `before` (counted with multiplicity),
/// ordered newest first, and every survivor is at least as recent as every
/// discarded member.
pub open spec fn rotation_ok(before: Seq<BackupSnap>, after: Seq<BackupSnap>, keep: int) -> bool {
    &&& after.len() == min_int(before.len() as int, keep)
    &&& sorted_newest_first(after)
    &&& exists|dropped: Multiset<BackupSnap>|
        #[trigger] after.to_multiset().add(dropped) == before.to_multiset() && dominates_all(
            after,
            dropped,
        )
}

/// What `load` returns on a given filesystem state: the primary file's text
/// when it exists and parses; otherwise the newest backup's text when that
/// exists and parses; otherwise the default document.
pub open spec fn load_result(d: DiskModel) -> Seq<char> {
    match d.primary {
        Option::None => default_doc(),
        Option::Some(p) => {
            if json_valid(p) {
                p
            } else {
                match latest_index(d.backups) {
                    Option::Some(i) => {
                        if json_valid(d.backups[i].content) {
                            d.backups[i].content
                        } else {
                            default_doc()
                        }
                    },
                    Option::None => default_doc(),
                }
            }
        },
    }
}

/// The default document: version tag 1 and empty application-defined
/// collections, in the pretty-printed form the primary file is seeded with.
pub open spec fn default_doc() -> Seq<char> {
    "{\n  \"days\": [],\n  \"goals\": [],\n  \"version\": 1\n}"@
}

} // verus!
