//! The atomic persistence engine: load with corruption fallback, and save
//! as write-to-temporary followed by an atomic rename. Each step is a
//! function of its own so the caller can mirror it onto the real
//! filesystem one operation at a time; the temporary file is never a
//! source for reads, which is what makes the replace atomic to readers.

use vstd::prelude::*;
use vstd::string::StringExecFns;
use crate::json::{json_valid, json_text_valid};
use crate::model::{
    BackupFile,
    Disk,
    backup_due,
    snapshot_at,
    rotation_ok,
    load_result,
    default_doc,
    BACKUP_KEEP,
};
use crate::backups::{latest_backup, ensure_periodic_backup};

verus! {

/// The default document's text: version tag 1 and empty application-defined
/// collections, pretty-printed exactly as the primary file is seeded.
pub fn default_doc_text() -> (r: String)
    ensures
        r@ == default_doc(),
{
    "{\n  \"days\": [],\n  \"goals\": [],\n  \"version\": 1\n}".to_owned()
}

/// Writes the full serialized content to the temporary sibling of the
/// primary file. The primary file and the backup set are untouched: a
/// crash after this step leaves the old document canonical.
pub fn write_temp(d: &mut Disk, content: &str)
    ensures
        final(d)@.primary == old(d)@.primary,
        final(d)@.backups == old(d)@.backups,
        final(d)@.temp == Option::Some(content@),
{
    d.temp = Option::Some(content.to_owned());
}

/// The atomic rename of the temporary file onto the primary path: the
/// primary file now holds exactly the temporary file's content, in one
/// step — no state in between ever exists.
pub fn commit_temp(d: &mut Disk)
    requires
        old(d)@.temp is Some,
    ensures
        final(d)@.primary == old(d)@.temp,
        final(d)@.temp is None,
        final(d)@.backups == old(d)@.backups,
{
    let mut t: Option<String> = Option::None;
    core::mem::swap(&mut t, &mut d.temp);
    d.primary = t;
}

/// Atomic replace of the primary file's content: write the temporary
/// sibling in full, then rename it onto the primary path.
pub fn safe_write(d: &mut Disk, content: &str)
    ensures
        final(d)@.primary == Option::Some(content@),
        final(d)@.temp is None,
        final(d)@.backups == old(d)@.backups,
{
    write_temp(d, content);
    commit_temp(d);
}

/// Saves a document: first gives the scheduler its chance to snapshot the
/// current primary file, then atomically replaces the primary content.
/// Returns the backups the retention sweep discarded, for the caller to
/// delete. When the saved text is valid JSON, a load on the resulting
/// state returns exactly it.
pub fn save(d: &mut Disk, now: u64, content: &str) -> (dropped: Vec<BackupFile>)
    ensures
        final(d)@.primary == Option::Some(content@),
        final(d)@.temp is None,
        !backup_due(old(d)@, now) ==> final(d)@.backups == old(d)@.backups && dropped@.len()
            == 0,
        backup_due(old(d)@, now) ==> rotation_ok(
            old(d)@.backups.push(snapshot_at(old(d)@, now)),
            final(d)@.backups,
            BACKUP_KEEP as int,
        ),
        json_valid(content@) ==> load_result(final(d)@) == content@,
{
    let dropped = ensure_periodic_backup(d, now);
    safe_write(d, content);
    dropped
}

/// Loads the document. A missing primary file is seeded with the default
/// document, which is returned — a load always leaves a primary file
/// behind. A primary file that fails to parse falls back to the newest
/// backup; if that fails too (or none exists) the default document is
/// returned WITHOUT touching the disk, so a possibly recoverable corrupt
/// primary file is preserved as evidence.
pub fn load(d: &mut Disk) -> (r: String)
    ensures
        r@ == load_result(old(d)@),
        old(d)@.primary is None ==> final(d)@.primary == Option::Some(default_doc())
            && final(d)@.temp == old(d)@.temp && final(d)@.backups == old(d)@.backups,
        old(d)@.primary is Some ==> *final(d) == *old(d),
{
    let primary_text: Option<String> = match &d.primary {
        Option::Some(p) => Option::Some(p.clone()),
        Option::None => Option::None,
    };
    match primary_text {
        Option::None => {
            let doc = default_doc_text();
            d.primary = Option::Some(doc.clone());
            doc
        },
        Option::Some(p) => {
            if json_text_valid(p.as_str()) {
                p
            } else {
                match latest_backup(&d.backups) {
                    Option::Some(i) => {
                        let c = d.backups[i].content.clone();
                        if json_text_valid(c.as_str()) {
                            c
                        } else {
                            default_doc_text()
                        }
                    },
                    Option::None => default_doc_text(),
                }
            }
        },
    }
}

/// Formats one log line: the timestamp, a separator, the message, and a
/// trailing newline — append-only plumbing, but the one format the log
/// file ever holds.
pub fn log_record(timestamp: &str, message: &str) -> (r: String)
    ensures
        r@ == timestamp@ + " | "@ + message@ + "\n"@,
{
    let mut r = timestamp.to_owned();
    r.append(" | ");
    r.append(message);
    r.append("\n");
    r
}

} // verus!
