use fadenote::lifecycle::{apply_expire_pass, archive_note, internal_restore_note, is_expired_check};
use fadenote::model::{
    derive_status, find_note, has_unexpired_notes, is_active, is_archived, list_active,
    list_archived, AppInfo, FileInfo, IndexFile, NoteEntry, NoteStatus,
};
use fadenote::ops::{
    empty_index, is_first_launch, new_note_entry, save_note_update, set_note_pinned,
    touch_activity, update_note_window, IndexLoadOutcome,
};
use fadenote::model::WindowInfo;
use fadenote::{NoteError, TTL_MILLIS};

const DAY: i64 = 86400000;

fn entry_with(id: &str, expire_at: Option<i64>, pinned: bool) -> NoteEntry {
    NoteEntry {
        id: id.as_bytes().to_vec(),
        created_at: 1000,
        last_active_at: 1000,
        expire_at,
        cached_preview: None,
        status: NoteStatus::Active,
        archived_at: None,
        window: None,
        pinned,
        file: FileInfo { relative_path: format!("notes/d/{}.md", id).into_bytes() },
    }
}

fn index_with(notes: Vec<NoteEntry>) -> IndexFile {
    IndexFile {
        version: 2,
        app: AppInfo { name: b"FadeNote".to_vec(), created_at: 0, rebuild_at: None },
        notes,
    }
}

#[test]
fn expired_check_is_strictly_past() {
    let e = entry_with("a", Some(5000), false);
    assert!(!is_expired_check(&e, 4999));
    assert!(!is_expired_check(&e, 5000));
    assert!(is_expired_check(&e, 5001));
}

#[test]
fn expired_check_without_expiry_is_false() {
    let e = entry_with("a", None, false);
    assert!(!is_expired_check(&e, i64::MAX));
}

#[test]
fn pinned_entry_never_expires() {
    let e = entry_with("a", Some(1), true);
    assert!(!is_expired_check(&e, i64::MAX));
}

#[test]
fn expire_pass_archives_overdue_entry() {
    let mut index = index_with(vec![entry_with("a", Some(5000), false)]);
    apply_expire_pass(&mut index, 6000);
    assert_eq!(index.notes[0].archived_at, Some(6000));
    assert_eq!(index.notes[0].expire_at, None);
    assert_eq!(index.notes[0].status, NoteStatus::Archived);
}

#[test]
fn expire_pass_leaves_pinned_entry_active() {
    // pin immunity: expiry strictly in the past, but pinned
    let mut index = index_with(vec![entry_with("a", Some(5000), true)]);
    apply_expire_pass(&mut index, 6000);
    assert_eq!(index.notes[0].archived_at, None);
    assert_eq!(index.notes[0].expire_at, Some(5000));
}

#[test]
fn expire_pass_clears_expiry_on_archival() {
    // archival clears expiry, on every archived entry
    let mut index = index_with(vec![
        entry_with("a", Some(10), false),
        entry_with("b", Some(20), false),
    ]);
    apply_expire_pass(&mut index, 100);
    for e in &index.notes {
        assert!(e.archived_at.is_some());
        assert_eq!(e.expire_at, None);
    }
}

#[test]
fn archive_note_stamps_and_clears() {
    let mut e = entry_with("a", Some(5000), false);
    archive_note(&mut e, 7777);
    assert_eq!(e.archived_at, Some(7777));
    assert_eq!(e.expire_at, None);
    assert_eq!(e.status, NoteStatus::Archived);
    assert!(is_archived(&e));
    assert!(!is_active(&e));
}

#[test]
fn restore_grants_fresh_ttl() {
    let mut e = entry_with("a", None, false);
    e.archived_at = Some(50);
    internal_restore_note(&mut e, 9000);
    assert_eq!(e.archived_at, None);
    assert_eq!(e.last_active_at, 9000);
    assert_eq!(e.expire_at, Some(9000 + TTL_MILLIS));
    assert_eq!(e.status, NoteStatus::Active);
}

#[test]
fn derive_status_follows_archived_at() {
    let mut e = entry_with("a", None, false);
    e.archived_at = Some(1);
    derive_status(&mut e);
    assert_eq!(e.status, NoteStatus::Archived);
    e.archived_at = None;
    derive_status(&mut e);
    assert_eq!(e.status, NoteStatus::Active);
}

#[test]
fn find_note_first_match() {
    let index = index_with(vec![entry_with("a", None, false), entry_with("b", None, false)]);
    assert_eq!(find_note(&index, &b"b".to_vec()), Some(1));
    assert_eq!(find_note(&index, &b"c".to_vec()), None);
}

#[test]
fn listing_splits_by_archival() {
    let mut archived = entry_with("b", None, false);
    archived.archived_at = Some(9);
    let index = index_with(vec![entry_with("a", None, false), archived]);
    let active = list_active(&index);
    let gone = list_archived(&index);
    assert_eq!(active.len(), 1);
    assert_eq!(active[0].id, b"a".to_vec());
    assert_eq!(gone.len(), 1);
    assert_eq!(gone[0].id, b"b".to_vec());
    assert!(has_unexpired_notes(&index));
}

#[test]
fn touch_activity_refreshes_and_guards() {
    let mut index = index_with(vec![entry_with("a", Some(2000), false)]);
    assert_eq!(touch_activity(&mut index, &b"a".to_vec(), 5000), Ok(()));
    assert_eq!(index.notes[0].last_active_at, 5000);
    assert_eq!(index.notes[0].expire_at, Some(5000 + TTL_MILLIS));
    assert_eq!(
        touch_activity(&mut index, &b"zz".to_vec(), 5000),
        Err(NoteError::NotFound)
    );
    index.notes[0].archived_at = Some(6000);
    assert_eq!(
        touch_activity(&mut index, &b"a".to_vec(), 7000),
        Err(NoteError::ArchivedConflict)
    );
}

#[test]
fn set_note_pinned_toggles_only_the_pin() {
    let mut index = index_with(vec![entry_with("a", Some(2000), false)]);
    assert_eq!(set_note_pinned(&mut index, &b"a".to_vec(), true), Ok(()));
    assert!(index.notes[0].pinned);
    assert_eq!(index.notes[0].expire_at, Some(2000));
    assert_eq!(
        set_note_pinned(&mut index, &b"x".to_vec(), true),
        Err(NoteError::NotFound)
    );
}

#[test]
fn restore_note_on_archived_entry() {
    let mut index = index_with(vec![entry_with("a", None, false)]);
    index.notes[0].archived_at = Some(10);
    assert_eq!(fadenote::ops::restore_note(&mut index, &b"a".to_vec(), 500), Ok(()));
    assert_eq!(index.notes[0].archived_at, None);
    assert_eq!(index.notes[0].expire_at, Some(500 + TTL_MILLIS));
    assert_eq!(index.notes[0].last_active_at, 500);
}

#[test]
fn restore_note_on_active_entry_is_a_no_op() {
    let mut index = index_with(vec![entry_with("a", Some(77), false)]);
    assert_eq!(fadenote::ops::restore_note(&mut index, &b"a".to_vec(), 500), Ok(()));
    assert_eq!(index.notes[0].expire_at, Some(77));
    assert_eq!(index.notes[0].last_active_at, 1000);
}

#[test]
fn update_note_window_sets_payload() {
    let mut index = index_with(vec![entry_with("a", None, false)]);
    let w = WindowInfo { x: 1, y: 2, width: 3, height: 4 };
    assert_eq!(update_note_window(&mut index, &b"a".to_vec(), w), Ok(()));
    assert_eq!(index.notes[0].window, Some(w));
    assert_eq!(
        update_note_window(&mut index, &b"x".to_vec(), w),
        Err(NoteError::NotFound)
    );
}

#[test]
fn save_note_update_rebuilds_content_and_refreshes_entry() {
    let mut index = index_with(vec![entry_with("a", Some(2000), false)]);
    let existing = b"---\nid: a\ncreatedAt: t0\n---\nold body".to_vec();
    let body = b"new body".to_vec();
    let r = save_note_update(&mut index, &b"a".to_vec(), &existing, &body, 9000, &b"fb".to_vec());
    assert_eq!(
        String::from_utf8(r.unwrap()).unwrap(),
        "---\nid: a\ncreatedAt: t0\n---\nnew body"
    );
    assert_eq!(index.notes[0].last_active_at, 9000);
    assert_eq!(index.notes[0].expire_at, Some(9000 + TTL_MILLIS));
    assert_eq!(index.notes[0].cached_preview, Some(b"new body".to_vec()));
}

#[test]
fn save_note_update_uses_fallback_created_at() {
    let mut index = index_with(vec![entry_with("a", None, false)]);
    let existing = b"---\nid: a\n---\nold".to_vec();
    let r = save_note_update(
        &mut index,
        &b"a".to_vec(),
        &existing,
        &b"x".to_vec(),
        1,
        &b"fallback-time".to_vec(),
    );
    assert_eq!(
        String::from_utf8(r.unwrap()).unwrap(),
        "---\nid: a\ncreatedAt: fallback-time\n---\nx"
    );
}

#[test]
fn save_note_update_reports_parse_failure() {
    let mut index = index_with(vec![entry_with("a", None, false)]);
    let existing = b"no header at all".to_vec();
    let r = save_note_update(&mut index, &b"a".to_vec(), &existing, &b"x".to_vec(), 1, &b"t".to_vec());
    assert_eq!(r, Err(NoteError::ParseFailure));
}

#[test]
fn new_note_entry_gets_ttl_at_creation() {
    let e = new_note_entry(b"n".to_vec(), 10_000, b"notes/d/n.md".to_vec(), None);
    assert_eq!(e.expire_at, Some(10_000 + 604800000));
    assert_eq!(e.created_at, 10_000);
    assert_eq!(e.last_active_at, 10_000);
    assert_eq!(e.archived_at, None);
    assert!(!e.pinned);
    assert_eq!(e.status, NoteStatus::Active);
}

#[test]
fn ttl_is_seven_days() {
    assert_eq!(TTL_MILLIS, 7 * DAY);
}

#[test]
fn empty_index_shape() {
    let idx = empty_index(42);
    assert_eq!(idx.version, 2);
    assert_eq!(idx.app.created_at, 42);
    assert_eq!(idx.app.rebuild_at, None);
    assert_eq!(idx.app.name, b"FadeNote".to_vec());
    assert!(idx.notes.is_empty());
}

#[test]
fn first_launch_decision() {
    assert!(is_first_launch(&IndexLoadOutcome::Missing, true));
    assert!(is_first_launch(&IndexLoadOutcome::EmptyFile, false));
    assert!(is_first_launch(&IndexLoadOutcome::Malformed, false));
    let empty = empty_index(0);
    assert!(is_first_launch(&IndexLoadOutcome::Parsed(empty), false));
    let empty2 = empty_index(0);
    assert!(!is_first_launch(&IndexLoadOutcome::Parsed(empty2), true));
    let full = index_with(vec![entry_with("a", None, false)]);
    assert!(!is_first_launch(&IndexLoadOutcome::Parsed(full), false));
}
