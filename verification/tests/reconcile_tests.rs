use fadenote::model::{AppInfo, FileInfo, IndexFile, NoteEntry, NoteStatus};
use fadenote::ops::{add_note, new_note_entry, restore_note};
use fadenote::reconcile::{rebuild_index, reconcile_index, ScannedNote};
use fadenote::TTL_MILLIS;

const DAY: i64 = 86400000;

fn scan_of(id: &str, created_at: i64, path: &str) -> ScannedNote {
    ScannedNote {
        id: id.as_bytes().to_vec(),
        created_at,
        relative_path: path.as_bytes().to_vec(),
    }
}

fn plain_entry(id: &str, expire_at: Option<i64>, pinned: bool) -> NoteEntry {
    NoteEntry {
        id: id.as_bytes().to_vec(),
        created_at: 1000,
        last_active_at: 1000,
        expire_at,
        cached_preview: None,
        status: NoteStatus::Active,
        archived_at: None,
        window: None,
        pinned,
        file: FileInfo { relative_path: format!("notes/d/{}.md", id).into_bytes() },
    }
}

fn plain_index(notes: Vec<NoteEntry>) -> IndexFile {
    IndexFile {
        version: 2,
        app: AppInfo { name: b"FadeNote".to_vec(), created_at: 0, rebuild_at: None },
        notes,
    }
}

fn assert_same_entry(a: &NoteEntry, b: &NoteEntry) {
    assert_eq!(a.id, b.id);
    assert_eq!(a.created_at, b.created_at);
    assert_eq!(a.last_active_at, b.last_active_at);
    assert_eq!(a.expire_at, b.expire_at);
    assert_eq!(a.cached_preview, b.cached_preview);
    assert_eq!(a.status, b.status);
    assert_eq!(a.archived_at, b.archived_at);
    assert_eq!(a.window, b.window);
    assert_eq!(a.pinned, b.pinned);
    assert_eq!(a.file.relative_path, b.file.relative_path);
}

#[test]
fn reconcile_discovers_new_files_without_forcing_expiry() {
    let mut index = plain_index(vec![]);
    let scanned = vec![scan_of("n1", 500, "notes/d/n1.md")];
    reconcile_index(&mut index, &scanned, &None, 600);
    assert_eq!(index.notes.len(), 1);
    let e = &index.notes[0];
    assert_eq!(e.id, b"n1".to_vec());
    assert_eq!(e.created_at, 500);
    assert_eq!(e.last_active_at, 500);
    assert_eq!(e.expire_at, None);
    assert_eq!(e.archived_at, None);
    assert_eq!(e.status, NoteStatus::Active);
    assert!(!e.pinned);
}

#[test]
fn reconcile_never_duplicates_distinct_ids() {
    let mut index = plain_index(vec![plain_entry("a", None, false)]);
    let scanned = vec![
        scan_of("a", 1, "notes/d/a.md"),
        scan_of("b", 2, "notes/d/b.md"),
        scan_of("c", 3, "notes/d/c.md"),
    ];
    reconcile_index(&mut index, &scanned, &None, 10);
    assert_eq!(index.notes.len(), 3);
    for i in 0..index.notes.len() {
        for j in 0..i {
            assert_ne!(index.notes[i].id, index.notes[j].id);
        }
    }
}

#[test]
fn duplicate_embedded_ids_first_occurrence_wins() {
    let mut index = plain_index(vec![]);
    let scanned = vec![
        scan_of("dup", 100, "notes/d/first.md"),
        scan_of("dup", 200, "notes/d/second.md"),
    ];
    reconcile_index(&mut index, &scanned, &None, 300);
    assert_eq!(index.notes.len(), 1);
    assert_eq!(index.notes[0].created_at, 100);
    assert_eq!(index.notes[0].file.relative_path, b"notes/d/first.md".to_vec());
}

#[test]
fn reconcile_retains_entry_whose_file_is_missing() {
    let mut index = plain_index(vec![plain_entry("ghost", None, false)]);
    reconcile_index(&mut index, &vec![], &None, 10);
    assert_eq!(index.notes.len(), 1);
    assert_eq!(index.notes[0].id, b"ghost".to_vec());
}

#[test]
fn reconcile_is_idempotent_at_the_same_time() {
    let mut index = plain_index(vec![
        plain_entry("a", Some(50), false),
        plain_entry("b", None, true),
    ]);
    let scanned = vec![scan_of("c", 5, "notes/d/c.md")];
    let now = 100;
    reconcile_index(&mut index, &scanned, &None, now);
    let first_pass: Vec<NoteEntry> = index.notes.clone();
    let version = index.version;
    let rebuild_at = index.app.rebuild_at;
    reconcile_index(&mut index, &scanned, &None, now);
    assert_eq!(index.version, version);
    assert_eq!(index.app.rebuild_at, rebuild_at);
    assert_eq!(index.notes.len(), first_pass.len());
    for (a, b) in index.notes.iter().zip(first_pass.iter()) {
        assert_same_entry(a, b);
    }
}

#[test]
fn reconcile_leaves_rebuild_at_untouched() {
    let mut index = plain_index(vec![]);
    index.app.rebuild_at = Some(777);
    reconcile_index(&mut index, &vec![scan_of("x", 1, "p.md")], &None, 10);
    assert_eq!(index.app.rebuild_at, Some(777));
}

#[test]
fn reconcile_repairs_missing_id_and_path() {
    let mut damaged = plain_entry("x", None, false);
    damaged.id = Vec::new();
    damaged.file.relative_path = Vec::new();
    let mut index = plain_index(vec![damaged]);
    reconcile_index(&mut index, &vec![], &None, 10);
    // a fresh identifier is drawn: 36 characters, never empty
    assert_eq!(index.notes[0].id.len(), 36);
    let path = String::from_utf8(index.notes[0].file.relative_path.clone()).unwrap();
    let id = String::from_utf8(index.notes[0].id.clone()).unwrap();
    assert_eq!(path, format!("notes/unknown/{}.md", id));
}

#[test]
fn reconcile_clears_leftover_expiry_on_archived_entry() {
    // a damaged pair loaded from disk: archived yet still carrying an
    // expiry; reconciliation repairs it to satisfy the data model
    let mut damaged = plain_entry("a", Some(7), false);
    damaged.archived_at = Some(3);
    let mut index = plain_index(vec![damaged]);
    reconcile_index(&mut index, &vec![], &None, 10);
    assert_eq!(index.notes[0].archived_at, Some(3));
    assert_eq!(index.notes[0].expire_at, None);
    assert_eq!(index.notes[0].status, NoteStatus::Archived);
}

#[test]
fn rebuild_clears_leftover_expiry_on_archived_entry() {
    // the same damaged pair in the salvaged snapshot: the rebuilt entry
    // keeps the archival but not the expiry
    let mut damaged = plain_entry("a", Some(7), false);
    damaged.archived_at = Some(3);
    let prior = plain_index(vec![damaged]);
    let rebuilt = rebuild_index(&Some(prior), &vec![scan_of("a", 1, "p.md")], 10);
    assert_eq!(rebuilt.notes[0].archived_at, Some(3));
    assert_eq!(rebuilt.notes[0].expire_at, None);
    assert_eq!(rebuilt.notes[0].status, NoteStatus::Archived);
}

#[test]
fn reappeared_note_keeps_snapshot_lifecycle() {
    // a note that briefly vanished from the index but whose id the
    // last-known-good snapshot still knows does not come back to life
    let mut gone = plain_entry("z", None, true);
    gone.archived_at = Some(42);
    let snapshot = Some(plain_index(vec![gone]));
    let mut index = plain_index(vec![]);
    let scanned = vec![scan_of("z", 7, "notes/d/z.md")];
    reconcile_index(&mut index, &scanned, &snapshot, 100);
    assert_eq!(index.notes.len(), 1);
    assert_eq!(index.notes[0].archived_at, Some(42));
    assert!(index.notes[0].pinned);
    assert_eq!(index.notes[0].status, NoteStatus::Archived);
    assert_eq!(index.notes[0].created_at, 7);
}

#[test]
fn rebuild_preserves_pinned_history() {
    // a pinned, active entry in the salvaged snapshot, and a matching file
    // on disk: the rebuilt entry keeps the pin and the lifecycle
    let prior = plain_index(vec![NoteEntry { pinned: true, ..plain_entry("n1", Some(123), true) }]);
    let scanned = vec![scan_of("n1", 999, "notes/d/n1.md")];
    let rebuilt = rebuild_index(&Some(prior), &scanned, 5000);
    assert_eq!(rebuilt.notes.len(), 1);
    let e = &rebuilt.notes[0];
    assert_eq!(e.id, b"n1".to_vec());
    assert!(e.pinned);
    assert_eq!(e.archived_at, None);
    assert_eq!(e.expire_at, Some(123));
    assert_eq!(e.created_at, 1000);
    assert_eq!(e.last_active_at, 1000);
}

#[test]
fn rebuild_stamps_rebuild_at_and_version() {
    let rebuilt = rebuild_index(&None, &vec![scan_of("a", 7, "p.md")], 4242);
    assert_eq!(rebuilt.version, 2);
    assert_eq!(rebuilt.app.rebuild_at, Some(4242));
    assert_eq!(rebuilt.app.created_at, 4242);
    assert_eq!(rebuilt.notes.len(), 1);
    assert_eq!(rebuilt.notes[0].expire_at, None);
    assert_eq!(rebuilt.notes[0].created_at, 7);
}

#[test]
fn rebuild_keeps_app_creation_time_from_snapshot() {
    let mut prior = plain_index(vec![]);
    prior.app.created_at = 11;
    let rebuilt = rebuild_index(&Some(prior), &vec![], 22);
    assert_eq!(rebuilt.app.created_at, 11);
    assert_eq!(rebuilt.app.rebuild_at, Some(22));
}

#[test]
fn rebuild_never_duplicates_ids_from_disk() {
    let scanned = vec![
        scan_of("a", 1, "one.md"),
        scan_of("a", 2, "two.md"),
        scan_of("b", 3, "three.md"),
    ];
    let rebuilt = rebuild_index(&None, &scanned, 9);
    assert_eq!(rebuilt.notes.len(), 2);
    assert_ne!(rebuilt.notes[0].id, rebuilt.notes[1].id);
}

#[test]
fn create_then_expire_then_restore_scenario() {
    // create a note with its seven-day time-to-live
    let t0: i64 = 1_700_000_000_000;
    let mut index = plain_index(vec![]);
    let entry = new_note_entry(b"a".to_vec(), t0, b"notes/d/a.md".to_vec(), None);
    add_note(&mut index, entry);
    // an immediate pass leaves it active
    reconcile_index(&mut index, &vec![scan_of("a", t0, "notes/d/a.md")], &None, t0);
    assert_eq!(index.notes[0].status, NoteStatus::Active);
    assert_eq!(index.notes[0].expire_at, Some(t0 + TTL_MILLIS));
    // eight days later the pass archives it and clears the expiry
    let t8 = t0 + 8 * DAY;
    reconcile_index(&mut index, &vec![scan_of("a", t0, "notes/d/a.md")], &None, t8);
    assert_eq!(index.notes[0].status, NoteStatus::Archived);
    assert_eq!(index.notes[0].archived_at, Some(t8));
    assert_eq!(index.notes[0].expire_at, None);
    // an explicit restore brings it back with a fresh time-to-live
    let t9 = t8 + 1000;
    assert_eq!(restore_note(&mut index, &b"a".to_vec(), t9), Ok(()));
    assert_eq!(index.notes[0].status, NoteStatus::Active);
    assert_eq!(index.notes[0].archived_at, None);
    assert_eq!(index.notes[0].expire_at, Some(t9 + TTL_MILLIS));
}
