//! Operations on the index: activity refresh, pinning, restore, window
//! placement, content save, and note creation. Every operation is a pure
//! load–mutate step on the in-memory index; the caller persists the result.

use vstd::prelude::*;

use crate::codec;
use crate::lifecycle::spec_restore;
use crate::model::{
    clone_bytes, find_note, AppInfo, AppInfoV, FileInfo, FileInfoV, IndexFile, IndexFileV,
    NoteEntry, NoteEntryV, NoteStatus, WindowInfo,
};
use crate::{NoteError, TTL_MILLIS};

verus! {

/// First position at or after `i` of an entry carrying `id`, or the length.
pub open spec fn find_from(notes: Seq<NoteEntryV>, id: Seq<u8>, i: int) -> int
    decreases notes.len() - i,
        when 0 <= i <= notes.len()
{
    if i >= notes.len() {
        notes.len() as int
    } else if notes[i].id == id {
        i
    } else {
        find_from(notes, id, i + 1)
    }
}

/// First position of an entry carrying `id`, or the length.
pub open spec fn spec_find(notes: Seq<NoteEntryV>, id: Seq<u8>) -> int {
    find_from(notes, id, 0)
}

/// Properties of `find_from`: it lands on the first match.
pub proof fn lemma_find_from_props(notes: Seq<NoteEntryV>, id: Seq<u8>, i: int)
    requires
        0 <= i <= notes.len(),
    ensures
        i <= find_from(notes, id, i) <= notes.len(),
        find_from(notes, id, i) < notes.len() ==> notes[find_from(notes, id, i)].id == id,
        forall|j: int| i <= j < find_from(notes, id, i) ==> notes[j].id != id,
    decreases notes.len() - i,
{
    if i < notes.len() && notes[i].id != id {
        lemma_find_from_props(notes, id, i + 1);
    }
}

/// Any position with the properties of `find_from` is `find_from`.
pub proof fn lemma_find_from_from_props(notes: Seq<NoteEntryV>, id: Seq<u8>, i: int, e: int)
    requires
        0 <= i <= e <= notes.len(),
        e < notes.len() ==> notes[e].id == id,
        forall|j: int| i <= j < e ==> notes[j].id != id,
    ensures
        find_from(notes, id, i) == e,
{
    lemma_find_from_props(notes, id, i);
    let r = find_from(notes, id, i);
    if r < e {
        assert(notes[r].id != id);
    }
    if e < r {
        assert(notes[e].id != id);
    }
}

/// Replace the entry at `i`, touching nothing else.
pub(crate) fn set_entry(index: &mut IndexFile, i: usize, e: NoteEntry)
    requires
        i < old(index).notes.len(),
    ensures
        final(index)@ == (IndexFileV {
            notes: old(index)@.notes.update(i as int, e@),
            ..old(index)@
        }),
{
    let ghost prevec = index.notes@;
    let ghost ee = e;
    let ghost ev = e@;
    index.notes[i] = e;
    proof {
        assert(index.notes@ == prevec.update(i as int, ee));
        assert forall|j: int| 0 <= j < index@.notes.len() implies index@.notes[j] == old(
            index,
        )@.notes.update(i as int, ev)[j] by {
            if j != i {
                assert(index.notes@[j] == prevec[j]);
            }
        }
        assert(index@.notes =~= old(index)@.notes.update(i as int, ev));
        assert(index@ =~= (IndexFileV {
            notes: old(index)@.notes.update(i as int, ev),
            ..old(index)@
        }));
    }
}

/// An entry after an activity refresh: activity stamped, a fresh
/// time-to-live granted, everything else untouched.
pub open spec fn spec_touch_entry(e: NoteEntryV, now: i64) -> NoteEntryV {
    NoteEntryV { last_active_at: now, expire_at: Some((now + TTL_MILLIS) as i64), ..e }
}

/// Refresh the activity of the note carrying `id`: stamp `last_active_at`
/// and grant a fresh time-to-live. An archived note is read-only and is
/// refused; an unknown id is reported as such. Nothing else changes.
pub fn touch_activity(index: &mut IndexFile, id: &Vec<u8>, now: i64) -> (r: Result<(), NoteError>)
    requires
        now + TTL_MILLIS <= i64::MAX,
    ensures
        match r {
            Ok(_) => {
                let i = spec_find(old(index)@.notes, id@);
                &&& old(index)@.has_id(id@)
                &&& old(index)@.notes[i].archived_at.is_none()
                &&& final(index)@ == (IndexFileV {
                    notes: old(index)@.notes.update(
                        i,
                        spec_touch_entry(old(index)@.notes[i], now),
                    ),
                    ..old(index)@
                })
            },
            Err(NoteError::NotFound) => !old(index)@.has_id(id@) && final(index)@ == old(index)@,
            Err(NoteError::ArchivedConflict) => {
                let i = spec_find(old(index)@.notes, id@);
                &&& old(index)@.has_id(id@)
                &&& old(index)@.notes[i].archived_at.is_some()
                &&& final(index)@ == old(index)@
            },
            Err(NoteError::ParseFailure) => false,
        },
{
    match find_note(index, id) {
        None => Err(NoteError::NotFound),
        Some(i) => {
            proof {
                lemma_find_from_from_props(index@.notes, id@, 0, i as int);
                assert(index@.notes[i as int].id == id@);
            }
            if index.notes[i].archived_at.is_some() {
                Err(NoteError::ArchivedConflict)
            } else {
                let mut e = index.notes[i].clone();
                e.last_active_at = now;
                e.expire_at = Some(now + TTL_MILLIS);
                proof {
                    assert(e@ =~= spec_touch_entry(old(index)@.notes[i as int], now));
                }
                set_entry(index, i, e);
                Ok(())
            }
        },
    }
}

/// Set or clear the pin of the note carrying `id`. Pinning is orthogonal to
/// the lifecycle: no timestamp moves. An unknown id is reported as such.
pub fn set_note_pinned(index: &mut IndexFile, id: &Vec<u8>, pinned: bool) -> (r: Result<
    (),
    NoteError,
>)
    ensures
        match r {
            Ok(_) => {
                let i = spec_find(old(index)@.notes, id@);
                &&& old(index)@.has_id(id@)
                &&& final(index)@ == (IndexFileV {
                    notes: old(index)@.notes.update(
                        i,
                        (NoteEntryV { pinned, ..old(index)@.notes[i] }),
                    ),
                    ..old(index)@
                })
            },
            Err(NoteError::NotFound) => !old(index)@.has_id(id@) && final(index)@ == old(index)@,
            Err(_) => false,
        },
{
    match find_note(index, id) {
        None => Err(NoteError::NotFound),
        Some(i) => {
            proof {
                lemma_find_from_from_props(index@.notes, id@, 0, i as int);
                assert(index@.notes[i as int].id == id@);
            }
            let mut e = index.notes[i].clone();
            e.pinned = pinned;
            proof {
                assert(e@ =~= (NoteEntryV { pinned, ..old(index)@.notes[i as int] }));
            }
            set_entry(index, i, e);
            Ok(())
        },
    }
}

/// Restore the note carrying `id` if it is archived: back to Active, with
/// fresh activity and a fresh time-to-live. Restoring an already active
/// note is a no-op, not an error. An unknown id is reported as such.
pub fn restore_note(index: &mut IndexFile, id: &Vec<u8>, now: i64) -> (r: Result<(), NoteError>)
    requires
        now + TTL_MILLIS <= i64::MAX,
    ensures
        match r {
            Ok(_) => {
                let i = spec_find(old(index)@.notes, id@);
                &&& old(index)@.has_id(id@)
                &&& (old(index)@.notes[i].archived_at.is_some() ==> final(index)@ == (IndexFileV {
                    notes: old(index)@.notes.update(i, spec_restore(old(index)@.notes[i], now)),
                    ..old(index)@
                }))
                &&& (old(index)@.notes[i].archived_at.is_none() ==> final(index)@ == old(index)@)
            },
            Err(NoteError::NotFound) => !old(index)@.has_id(id@) && final(index)@ == old(index)@,
            Err(_) => false,
        },
{
    match find_note(index, id) {
        None => Err(NoteError::NotFound),
        Some(i) => {
            proof {
                lemma_find_from_from_props(index@.notes, id@, 0, i as int);
                assert(index@.notes[i as int].id == id@);
            }
            if index.notes[i].archived_at.is_some() {
                let mut e = index.notes[i].clone();
                crate::lifecycle::internal_restore_note(&mut e, now);
                set_entry(index, i, e);
                Ok(())
            } else {
                Ok(())
            }
        },
    }
}

/// Record the window placement of the note carrying `id`, creating the
/// payload if the entry had none. An unknown id is reported as such.
pub fn update_note_window(index: &mut IndexFile, id: &Vec<u8>, window: WindowInfo) -> (r: Result<
    (),
    NoteError,
>)
    ensures
        match r {
            Ok(_) => {
                let i = spec_find(old(index)@.notes, id@);
                &&& old(index)@.has_id(id@)
                &&& final(index)@ == (IndexFileV {
                    notes: old(index)@.notes.update(
                        i,
                        (NoteEntryV { window: Some(window), ..old(index)@.notes[i] }),
                    ),
                    ..old(index)@
                })
            },
            Err(NoteError::NotFound) => !old(index)@.has_id(id@) && final(index)@ == old(index)@,
            Err(_) => false,
        },
{
    match find_note(index, id) {
        None => Err(NoteError::NotFound),
        Some(i) => {
            proof {
                lemma_find_from_from_props(index@.notes, id@, 0, i as int);
                assert(index@.notes[i as int].id == id@);
            }
            let mut e = index.notes[i].clone();
            e.window = Some(window);
            proof {
                assert(e@ =~= (NoteEntryV { window: Some(window), ..old(index)@.notes[i as int] }));
            }
            set_entry(index, i, e);
            Ok(())
        },
    }
}

/// The creation timestamp a save keeps: the one embedded in the existing
/// file content, or the caller's fallback when the header lacks one.
pub open spec fn spec_saved_created_at(existing: Seq<u8>, fallback: Seq<u8>) -> Seq<u8> {
    match codec::spec_parse_field(existing, codec::key_created_at()) {
        Some(v) => v,
        None => fallback,
    }
}

/// An entry after its body was saved: activity stamped, a fresh
/// time-to-live, and the preview recomputed from the new body.
pub open spec fn spec_saved_entry(e: NoteEntryV, body: Seq<u8>, now: i64) -> NoteEntryV {
    NoteEntryV {
        last_active_at: now,
        expire_at: Some((now + TTL_MILLIS) as i64),
        cached_preview: codec::spec_first_line_preview(body, 0),
        ..e
    }
}

/// Save a new body for the note carrying `id`: the result is the full file
/// content to write (canonical header rebuilt from the id and creation
/// timestamp embedded in the existing content, the caller's fallback
/// timestamp standing in when the header lacks one), and the entry's
/// activity, expiry and preview are refreshed. An archived note is
/// read-only and is refused; existing content without an embedded id is a
/// parse failure; an unknown id is reported as such.
pub fn save_note_update(
    index: &mut IndexFile,
    id: &Vec<u8>,
    existing_content: &Vec<u8>,
    body: &Vec<u8>,
    now: i64,
    fallback_created_at: &Vec<u8>,
) -> (r: Result<Vec<u8>, NoteError>)
    requires
        now + TTL_MILLIS <= i64::MAX,
    ensures
        match r {
            Ok(content) => {
                let i = spec_find(old(index)@.notes, id@);
                &&& old(index)@.has_id(id@)
                &&& old(index)@.notes[i].archived_at.is_none()
                &&& codec::spec_parse_field(existing_content@, codec::key_id()).is_some()
                &&& content@ == codec::spec_build_content(
                    codec::spec_parse_field(existing_content@, codec::key_id()).unwrap(),
                    spec_saved_created_at(existing_content@, fallback_created_at@),
                    body@,
                )
                &&& final(index)@ == (IndexFileV {
                    notes: old(index)@.notes.update(
                        i,
                        spec_saved_entry(old(index)@.notes[i], body@, now),
                    ),
                    ..old(index)@
                })
            },
            Err(NoteError::NotFound) => !old(index)@.has_id(id@) && final(index)@ == old(index)@,
            Err(NoteError::ArchivedConflict) => {
                let i = spec_find(old(index)@.notes, id@);
                &&& old(index)@.has_id(id@)
                &&& old(index)@.notes[i].archived_at.is_some()
                &&& final(index)@ == old(index)@
            },
            Err(NoteError::ParseFailure) => {
                let i = spec_find(old(index)@.notes, id@);
                &&& old(index)@.has_id(id@)
                &&& old(index)@.notes[i].archived_at.is_none()
                &&& codec::spec_parse_field(existing_content@, codec::key_id()).is_none()
                &&& final(index)@ == old(index)@
            },
        },
{
    match find_note(index, id) {
        None => Err(NoteError::NotFound),
        Some(i) => {
            proof {
                lemma_find_from_from_props(index@.notes, id@, 0, i as int);
                assert(index@.notes[i as int].id == id@);
            }
            if index.notes[i].archived_at.is_some() {
                return Err(NoteError::ArchivedConflict);
            }
            let existing_id = match codec::parse_id_from_content(existing_content) {
                Some(v) => v,
                None => {
                    return Err(NoteError::ParseFailure);
                },
            };
            let created_at = match codec::extract_created_at_from_content(existing_content) {
                Some(v) => v,
                None => clone_bytes(fallback_created_at),
            };
            let content = codec::build_full_content(&existing_id, &created_at, body);
            let preview = codec::extract_first_line_preview(body);
            let mut e = index.notes[i].clone();
            e.last_active_at = now;
            e.expire_at = Some(now + TTL_MILLIS);
            e.cached_preview = preview;
            proof {
                assert(e@ =~= spec_saved_entry(old(index)@.notes[i as int], body@, now));
            }
            set_entry(index, i, e);
            Ok(content)
        },
    }
}

/// A freshly created entry: active, unpinned, with activity equal to its
/// creation time and an expiry one time-to-live later.
pub open spec fn spec_new_entry(
    id: Seq<u8>,
    created_at: i64,
    relative_path: Seq<u8>,
    window: Option<WindowInfo>,
) -> NoteEntryV {
    NoteEntryV {
        id: id,
        created_at: created_at,
        last_active_at: created_at,
        expire_at: Some((created_at + TTL_MILLIS) as i64),
        cached_preview: None,
        status: NoteStatus::Active,
        archived_at: None,
        window: window,
        pinned: false,
        file: FileInfoV { relative_path: relative_path },
    }
}

/// Build the entry for a note created now, with the time-to-live assigned
/// at creation.
pub fn new_note_entry(
    id: Vec<u8>,
    created_at: i64,
    relative_path: Vec<u8>,
    window: Option<WindowInfo>,
) -> (r: NoteEntry)
    requires
        created_at + TTL_MILLIS <= i64::MAX,
    ensures
        r@ == spec_new_entry(id@, created_at, relative_path@, window),
{
    let r = NoteEntry {
        id,
        created_at,
        last_active_at: created_at,
        expire_at: Some(created_at + TTL_MILLIS),
        cached_preview: None,
        status: NoteStatus::Active,
        archived_at: None,
        window,
        pinned: false,
        file: FileInfo { relative_path },
    };
    proof {
        assert(r@ =~= spec_new_entry(r.id@, created_at, r.file.relative_path@, r.window));
    }
    r
}

/// Append an entry whose id is not yet taken, touching nothing else. The
/// freshness of the id is the caller's to establish (an unverified caller
/// tests it with `find_note` first), and in return id uniqueness is kept.
pub fn add_note(index: &mut IndexFile, entry: NoteEntry)
    requires
        !old(index)@.has_id(entry@.id),
    ensures
        final(index)@ == (IndexFileV { notes: old(index)@.notes.push(entry@), ..old(index)@ }),
        old(index)@.ids_unique() ==> final(index)@.ids_unique(),
{
    let ghost prevec = index.notes@;
    let ghost ee = entry;
    let ghost ev = entry@;
    index.notes.push(entry);
    proof {
        assert(index.notes@ == prevec.push(ee));
        assert forall|j: int| 0 <= j < index@.notes.len() implies index@.notes[j] == old(
            index,
        )@.notes.push(ev)[j] by {
            if j < prevec.len() {
                assert(index.notes@[j] == prevec[j]);
            } else {
                assert(index.notes@[j] == ee);
            }
        }
        assert(index@.notes =~= old(index)@.notes.push(ev));
        assert(index@ =~= (IndexFileV { notes: old(index)@.notes.push(ev), ..old(index)@ }));
        if old(index)@.ids_unique() {
            assert forall|a: int, b: int|
                0 <= a < b < index@.notes.len() implies index@.notes[a].id
                != index@.notes[b].id by {
                if b == index@.notes.len() - 1 {
                    if old(index)@.notes[a].id == ev.id {
                        assert(old(index)@.has_id(ev.id));
                    }
                }
            }
        }
    }
}

/// The application's name as it is stamped into the index document.
pub open spec fn app_name() -> Seq<u8> {
    seq!['F' as u8, 'a' as u8, 'd' as u8, 'e' as u8, 'N' as u8, 'o' as u8, 't' as u8, 'e' as u8]
}

/// The application's name, as bytes.
pub fn app_name_vec() -> (r: Vec<u8>)
    ensures
        r@ == app_name(),
{
    let mut v: Vec<u8> = Vec::new();
    v.push('F' as u8);
    v.push('a' as u8);
    v.push('d' as u8);
    v.push('e' as u8);
    v.push('N' as u8);
    v.push('o' as u8);
    v.push('t' as u8);
    v.push('e' as u8);
    proof {
        assert(v@ =~= app_name());
    }
    v
}

/// The current schema version of the index document.
pub const INDEX_VERSION: u32 = 2;

/// A fresh, empty index document created at `now`.
pub fn empty_index(now: i64) -> (r: IndexFile)
    ensures
        r@ == (IndexFileV {
            version: INDEX_VERSION,
            app: AppInfoV { name: app_name(), created_at: now, rebuild_at: None },
            notes: Seq::empty(),
        }),
{
    let r = IndexFile {
        version: INDEX_VERSION,
        app: AppInfo { name: app_name_vec(), created_at: now, rebuild_at: None },
        notes: Vec::new(),
    };
    proof {
        assert(r@.notes =~= Seq::<NoteEntryV>::empty());
        assert(r@ =~= (IndexFileV {
            version: INDEX_VERSION,
            app: AppInfoV { name: app_name(), created_at: now, rebuild_at: None },
            notes: Seq::empty(),
        }));
    }
    r
}

/// How the persisted index document was found at startup.
pub enum IndexLoadOutcome {
    /// No index document exists.
    Missing,
    /// The document exists but holds nothing.
    EmptyFile,
    /// The document exists but does not parse.
    Malformed,
    /// The document parsed.
    Parsed(IndexFile),
}

/// First launch: no usable index document, and, when the document parsed
/// but lists no notes, no note file on disk either.
pub open spec fn spec_first_launch(outcome: IndexLoadOutcome, has_note_file: bool) -> bool {
    match outcome {
        IndexLoadOutcome::Parsed(idx) => idx@.notes.len() == 0 && !has_note_file,
        _ => true,
    }
}

/// Decide whether this is the application's first launch, from how the
/// index document loaded and whether any note file exists on disk.
pub fn is_first_launch(outcome: &IndexLoadOutcome, has_note_file: bool) -> (r: bool)
    ensures
        r == spec_first_launch(*outcome, has_note_file),
{
    match outcome {
        IndexLoadOutcome::Parsed(idx) => idx.notes.len() == 0 && !has_note_file,
        _ => true,
    }
}

} // verus!
