use rocky_persist::backups::{backup_file_name, ensure_periodic_backup, latest_backup, rotate_backups};
use rocky_persist::engine::{commit_temp, default_doc_text, load, log_record, save, write_temp};
use rocky_persist::model::{BackupFile, Disk};

fn backup(stamp: u64, content: &str) -> BackupFile {
    BackupFile { stamp, content: content.to_string() }
}

fn disk(primary: Option<&str>, backups: Vec<BackupFile>) -> Disk {
    Disk { primary: primary.map(|s| s.to_string()), temp: None, backups }
}

#[test]
fn missing_file_bootstrap() {
    let mut d = Disk::empty();
    let doc = load(&mut d);
    assert_eq!(doc, default_doc_text());
    assert_eq!(d.primary.as_deref(), Some(default_doc_text().as_str()));
    let v: serde_json::Value = serde_json::from_str(&doc).expect("default document parses");
    assert_eq!(v["version"], serde_json::Value::from(1));
    assert_eq!(v["days"], serde_json::Value::Array(vec![]));
    assert_eq!(v["goals"], serde_json::Value::Array(vec![]));
}

#[test]
fn default_text_matches_serde_pretty() {
    let mut m = serde_json::Map::new();
    m.insert("version".to_string(), serde_json::Value::from(1));
    m.insert("days".to_string(), serde_json::Value::Array(vec![]));
    m.insert("goals".to_string(), serde_json::Value::Array(vec![]));
    let pretty = serde_json::to_string_pretty(&serde_json::Value::Object(m)).unwrap();
    assert_eq!(default_doc_text(), pretty);
}

#[test]
fn round_trip() {
    let mut d = disk(Some("{\"version\": 3}"), vec![]);
    let new_doc = "{\n  \"version\": 4,\n  \"days\": [1]\n}";
    save(&mut d, 1_700_000_000, new_doc);
    let loaded = load(&mut d);
    assert_eq!(loaded, new_doc);
}

#[test]
fn corruption_fallback() {
    let mut d = disk(
        Some("this is { not json"),
        vec![backup(100, "{\"version\": 2, \"days\": []}")],
    );
    let loaded = load(&mut d);
    assert_eq!(loaded, "{\"version\": 2, \"days\": []}");
    // The corrupt primary file is preserved as evidence.
    assert_eq!(d.primary.as_deref(), Some("this is { not json"));
}

#[test]
fn corruption_fallback_picks_newest_backup() {
    let mut d = disk(
        Some("###"),
        vec![backup(50, "{\"version\": 1}"), backup(90, "{\"version\": 9}"), backup(70, "{\"version\": 7}")],
    );
    let loaded = load(&mut d);
    assert_eq!(loaded, "{\"version\": 9}");
}

#[test]
fn double_corruption_returns_default_without_writing() {
    let mut d = disk(Some("oops"), vec![backup(10, "also not json {")]);
    let loaded = load(&mut d);
    assert_eq!(loaded, default_doc_text());
    assert_eq!(d.primary.as_deref(), Some("oops"));
    assert_eq!(d.backups.len(), 1);
    assert_eq!(d.backups[0].content, "also not json {");
}

#[test]
fn atomicity_crash_between_steps() {
    let old_doc = "{\"version\": 1, \"days\": [\"a\"]}";
    let new_doc = "{\"version\": 1, \"days\": [\"a\", \"b\"]}";
    let mut d = disk(Some(old_doc), vec![]);
    // Crash after the temporary file is fully written but before the
    // rename: a load still sees the old document.
    write_temp(&mut d, new_doc);
    let mut probe = disk(d.primary.as_deref(), vec![]);
    probe.temp = d.temp.clone();
    assert_eq!(load(&mut probe), old_doc);
    // After the rename, a load sees the new document.
    commit_temp(&mut d);
    assert_eq!(load(&mut d), new_doc);
}

#[test]
fn latest_backup_none_on_empty() {
    let v: Vec<BackupFile> = vec![];
    assert_eq!(latest_backup(&v), None);
}

#[test]
fn latest_backup_first_of_tied_stamps() {
    let v = vec![backup(4, "a"), backup(7, "b"), backup(7, "c"), backup(2, "d")];
    assert_eq!(latest_backup(&v), Some(1));
}

#[test]
fn rotate_keeps_newest_sorted() {
    let mut v = vec![backup(5, "e"), backup(1, "a"), backup(9, "i"), backup(3, "c")];
    let dropped = rotate_backups(&mut v, 2);
    let kept: Vec<u64> = v.iter().map(|b| b.stamp).collect();
    assert_eq!(kept, vec![9, 5]);
    let mut gone: Vec<u64> = dropped.iter().map(|b| b.stamp).collect();
    gone.sort();
    assert_eq!(gone, vec![1, 3]);
}

#[test]
fn rotate_keeps_all_when_few() {
    let mut v = vec![backup(5, "e"), backup(1, "a")];
    let dropped = rotate_backups(&mut v, 7);
    assert_eq!(v.len(), 2);
    assert!(dropped.is_empty());
}

#[test]
fn retention_seven_of_ten() {
    let day = 90_000u64; // a bit over the minimum interval
    let mut d = disk(Some("{\"version\": 1}"), vec![]);
    for k in 0..10u64 {
        let dropped = ensure_periodic_backup(&mut d, 1_000_000 + k * day);
        assert_eq!(dropped.len(), if k < 7 { 0 } else { 1 });
    }
    assert_eq!(d.backups.len(), 7);
    let stamps: Vec<u64> = d.backups.iter().map(|b| b.stamp).collect();
    let expect: Vec<u64> = (3..10u64).rev().map(|k| 1_000_000 + k * day).collect();
    assert_eq!(stamps, expect);
}

#[test]
fn scheduling_gate_one_backup_for_two_close_saves() {
    let t0 = 1_700_000_000u64;
    let mut d = disk(Some("{\"version\": 1}"), vec![]);
    save(&mut d, t0, "{\"version\": 2}");
    assert_eq!(d.backups.len(), 1);
    assert_eq!(d.backups[0].stamp, t0);
    assert_eq!(d.backups[0].content, "{\"version\": 1}");
    // One hour later: well inside the 23.5 h gate, no second snapshot.
    save(&mut d, t0 + 3600, "{\"version\": 3}");
    assert_eq!(d.backups.len(), 1);
    assert_eq!(d.backups[0].stamp, t0);
    assert_eq!(d.primary.as_deref(), Some("{\"version\": 3}"));
}

#[test]
fn backup_due_again_after_interval() {
    let t0 = 1_700_000_000u64;
    let gate: u64 = 24 * 60 * 60 - 30 * 60;
    let mut d = disk(Some("{\"version\": 1}"), vec![backup(t0, "{\"version\": 0}")]);
    save(&mut d, t0 + gate - 1, "{\"version\": 2}");
    assert_eq!(d.backups.len(), 1);
    save(&mut d, t0 + gate, "{\"version\": 3}");
    assert_eq!(d.backups.len(), 2);
}

#[test]
fn no_backup_when_primary_missing() {
    let mut d = Disk::empty();
    let dropped = ensure_periodic_backup(&mut d, 1_700_000_000);
    assert!(dropped.is_empty());
    assert!(d.backups.is_empty());
}

#[test]
fn save_leaves_no_temp_file() {
    let mut d = disk(Some("{\"version\": 1}"), vec![]);
    save(&mut d, 42, "{\"version\": 2}");
    assert!(d.temp.is_none());
    assert_eq!(d.primary.as_deref(), Some("{\"version\": 2}"));
}

#[test]
fn backup_file_names() {
    assert_eq!(backup_file_name(1_700_000_000), "rocky-1700000000.json");
    assert_eq!(backup_file_name(0), "rocky-0.json");
    assert_eq!(backup_file_name(7), "rocky-7.json");
    assert_eq!(backup_file_name(84_600), "rocky-84600.json");
    assert_eq!(backup_file_name(u64::MAX), format!("rocky-{}.json", u64::MAX));
}

#[test]
fn log_record_format() {
    let line = log_record("2024-01-02 03:04:05", "hello world");
    assert_eq!(line, "2024-01-02 03:04:05 | hello world\n");
}
