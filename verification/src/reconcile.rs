//! Reconciliation engine and rebuild path: merging a fresh directory scan
//! into the persisted index, the normalization of damaged fields, and the
//! reconstruction of the whole index from disk when the persisted one is
//! unusable.

use vstd::prelude::*;

use crate::lifecycle::{apply_expire_pass, spec_expire_pass};
use crate::model::{
    bytes_eq, clone_bytes, derive_status, find_note, spec_derive_entry, status_of, AppInfo,
    AppInfoV, FileInfo, FileInfoV, IndexFile, IndexFileV, NoteEntry, NoteEntryV, NoteStatus,
};
use crate::ops::{
    add_note, app_name, app_name_vec, lemma_find_from_from_props, set_entry, spec_find,
    INDEX_VERSION,
};

verus! {

/// One observation of the directory scanner: a note file's embedded id, its
/// filesystem creation time, and its path relative to the notes root.
pub struct ScannedNote {
    pub id: Vec<u8>,
    pub created_at: i64,
    pub relative_path: Vec<u8>,
}

#[verifier::ext_equal]
pub struct ScannedNoteV {
    pub id: Seq<u8>,
    pub created_at: i64,
    pub relative_path: Seq<u8>,
}

impl View for ScannedNote {
    type V = ScannedNoteV;

    open spec fn view(&self) -> ScannedNoteV {
        ScannedNoteV {
            id: self.id@,
            created_at: self.created_at,
            relative_path: self.relative_path@,
        }
    }
}

impl DeepView for ScannedNote {
    type V = ScannedNoteV;

    open spec fn deep_view(&self) -> ScannedNoteV {
        self.view()
    }
}

/// Relies on uuid::Uuid::new_v4 and its hyphenated rendering through
/// Display: a fresh random identifier of exactly 36 ASCII characters
/// (hex digits and hyphens). Nothing is assumed about which identifier
/// comes back.
#[verifier::external_body]
fn fresh_id() -> (r: Vec<u8>)
    ensures
        r@.len() == 36,
{
    uuid::Uuid::new_v4().to_string().into_bytes()
}

/// Relies on chrono::Local::now and DateTime::timestamp_millis: the current
/// clock reading as milliseconds since the Unix epoch. Nothing is assumed
/// about its value.
#[verifier::external_body]
fn now_millis() -> i64 {
    chrono::Local::now().timestamp_millis()
}

/// Whether some entry of the sequence carries `id`.
pub open spec fn seq_has_id(notes: Seq<NoteEntryV>, id: Seq<u8>) -> bool {
    exists|j: int| 0 <= j < notes.len() && #[trigger] notes[j].id == id
}

/// No two entries of the sequence share an id.
pub open spec fn seq_ids_unique(notes: Seq<NoteEntryV>) -> bool {
    forall|i: int, j: int| 0 <= i < j < notes.len() ==> notes[i].id != notes[j].id
}

/// Every entry of the sequence has a nonempty id.
pub open spec fn ids_nonempty(notes: Seq<NoteEntryV>) -> bool {
    forall|i: int| 0 <= i < notes.len() ==> (#[trigger] notes[i].id).len() > 0
}

/// Whether some entry carries `id`.
fn contains_id(notes: &Vec<NoteEntry>, id: &Vec<u8>) -> (r: bool)
    ensures
        r == seq_has_id(notes.deep_view(), id@),
{
    let mut i: usize = 0;
    while i < notes.len()
        invariant
            i <= notes.len(),
            forall|j: int| 0 <= j < i ==> notes.deep_view()[j].id != id@,
        decreases notes.len() - i,
    {
        if bytes_eq(&notes[i].id, id) {
            proof {
                assert(notes.deep_view()[i as int].id == id@);
            }
            return true;
        }
        i += 1;
    }
    false
}

/// The entry synthesized for a note file discovered by a scan. Its
/// lifecycle fields (`archived_at`, `expire_at`, `pinned`) come from the
/// last-known-good snapshot when it still knows the id, so that a note that
/// briefly vanished and reappeared does not come back to life; with no
/// prior record the entry is freshly active with no expiry forced on it (a
/// time-to-live is assigned only at explicit creation).
pub open spec fn spec_discovered_entry(s: ScannedNoteV, prior: Option<NoteEntryV>) -> NoteEntryV {
    match prior {
        Some(p) => NoteEntryV {
            id: s.id,
            created_at: s.created_at,
            last_active_at: s.created_at,
            expire_at: if p.archived_at.is_some() {
                None
            } else {
                p.expire_at
            },
            cached_preview: None,
            status: status_of(p.archived_at),
            archived_at: p.archived_at,
            window: None,
            pinned: p.pinned,
            file: FileInfoV { relative_path: s.relative_path },
        },
        None => NoteEntryV {
            id: s.id,
            created_at: s.created_at,
            last_active_at: s.created_at,
            expire_at: None,
            cached_preview: None,
            status: NoteStatus::Active,
            archived_at: None,
            window: None,
            pinned: false,
            file: FileInfoV { relative_path: s.relative_path },
        },
    }
}

/// Merging a scan into an entry sequence, observation by observation: an
/// observation whose id is nonempty and not yet present is appended as a
/// discovered entry; every other observation is ignored. Existing entries
/// are never dropped, however stale.
pub open spec fn spec_merge(
    notes: Seq<NoteEntryV>,
    scanned: Seq<ScannedNoteV>,
    snapshot: Option<IndexFileV>,
) -> Seq<NoteEntryV>
    decreases scanned.len(),
{
    if scanned.len() == 0 {
        notes
    } else {
        let prev = spec_merge(notes, scanned.drop_last(), snapshot);
        let s = scanned.last();
        if s.id.len() > 0 && !seq_has_id(prev, s.id) {
            prev.push(spec_discovered_entry(s, prior_entry(snapshot, s.id)))
        } else {
            prev
        }
    }
}

/// Build one discovered entry from a scanned file and its prior record in
/// the snapshot.
fn discovered_entry(s: &ScannedNote, pe: Option<&NoteEntry>) -> (r: NoteEntry)
    ensures
        r@ == spec_discovered_entry(
            s@,
            match pe {
                Some(p) => Some(p@),
                None => None,
            },
        ),
{
    match pe {
        Some(p) => {
            let r = NoteEntry {
                id: clone_bytes(&s.id),
                created_at: s.created_at,
                last_active_at: s.created_at,
                expire_at: if p.archived_at.is_some() {
                    None
                } else {
                    p.expire_at
                },
                cached_preview: None,
                status: if p.archived_at.is_some() {
                    NoteStatus::Archived
                } else {
                    NoteStatus::Active
                },
                archived_at: p.archived_at,
                window: None,
                pinned: p.pinned,
                file: FileInfo { relative_path: clone_bytes(&s.relative_path) },
            };
            proof {
                assert(r@ =~= spec_discovered_entry(s@, Some(p@)));
            }
            r
        },
        None => {
            let r = NoteEntry {
                id: clone_bytes(&s.id),
                created_at: s.created_at,
                last_active_at: s.created_at,
                expire_at: None,
                cached_preview: None,
                status: NoteStatus::Active,
                archived_at: None,
                window: None,
                pinned: false,
                file: FileInfo { relative_path: clone_bytes(&s.relative_path) },
            };
            proof {
                assert(r@ =~= spec_discovered_entry(s@, None));
            }
            r
        },
    }
}

/// Look the id up in the snapshot: its first entry carrying the id, if any.
fn snapshot_entry<'a>(snapshot: &'a Option<IndexFile>, id: &Vec<u8>) -> (r: Option<&'a NoteEntry>)
    ensures
        (match r {
            Some(p) => Some(p@),
            None => None,
        }) == prior_entry(snapshot.deep_view(), id@),
{
    match snapshot {
        Some(pidx) => {
            match find_note(pidx, id) {
                Some(j) => {
                    proof {
                        lemma_find_from_from_props(pidx@.notes, id@, 0, j as int);
                    }
                    Some(&pidx.notes[j])
                },
                None => {
                    proof {
                        assert forall|k: int|
                            0 <= k < pidx@.notes.len() implies pidx@.notes[k].id != id@ by {
                            if pidx@.notes[k].id == id@ {
                                assert(pidx@.has_id(id@));
                            }
                        }
                        lemma_find_from_from_props(
                            pidx@.notes,
                            id@,
                            0,
                            pidx@.notes.len() as int,
                        );
                    }
                    None
                },
            }
        },
        None => None,
    }
}

/// Merge a scan into the index: append a discovered entry for every
/// observation whose id is new, carrying lifecycle state from the snapshot
/// where the id is known there, and drop nothing.
pub fn merge_scanned(index: &mut IndexFile, scanned: &Vec<ScannedNote>, snapshot: &Option<IndexFile>)
    ensures
        final(index)@.version == old(index)@.version,
        final(index)@.app == old(index)@.app,
        final(index)@.notes == spec_merge(
            old(index)@.notes,
            scanned.deep_view(),
            snapshot.deep_view(),
        ),
{
    let ghost snapv = snapshot.deep_view();
    let n = scanned.len();
    proof {
        assert(scanned.deep_view().take(0) =~= Seq::<ScannedNoteV>::empty());
    }
    let mut i: usize = 0;
    while i < n
        invariant
            i <= n,
            n == scanned.len(),
            snapv == snapshot.deep_view(),
            index@.version == old(index)@.version,
            index@.app == old(index)@.app,
            index@.notes == spec_merge(old(index)@.notes, scanned.deep_view().take(i as int), snapv),
        decreases n - i,
    {
        proof {
            assert(scanned.deep_view().take(i as int + 1).drop_last() =~= scanned.deep_view().take(
                i as int,
            ));
            assert(scanned.deep_view().take(i as int + 1).last() == scanned.deep_view()[i as int]);
        }
        if scanned[i].id.len() > 0 {
            if !contains_id(&index.notes, &scanned[i].id) {
                let pe = snapshot_entry(snapshot, &scanned[i].id);
                let entry = discovered_entry(&scanned[i], pe);
                proof {
                    assert(entry@ == spec_discovered_entry(
                        scanned.deep_view()[i as int],
                        prior_entry(snapv, scanned.deep_view()[i as int].id),
                    ));
                    if index@.has_id(entry@.id) {
                        let w = choose|j: int|
                            0 <= j < index@.notes.len() && #[trigger] index@.notes[j].id
                                == entry@.id;
                        assert(seq_has_id(index@.notes, entry@.id));
                    }
                }
                add_note(index, entry);
            }
        }
        i += 1;
    }
    proof {
        assert(scanned.deep_view().take(n as int) =~= scanned.deep_view());
    }
}

/// `notes/unknown/`, where an entry whose backing path was lost is pointed.
pub open spec fn unknown_path_prefix() -> Seq<u8> {
    seq![
        'n' as u8,
        'o' as u8,
        't' as u8,
        'e' as u8,
        's' as u8,
        '/' as u8,
        'u' as u8,
        'n' as u8,
        'k' as u8,
        'n' as u8,
        'o' as u8,
        'w' as u8,
        'n' as u8,
        '/' as u8,
    ]
}

/// `.md`, the note file suffix.
pub open spec fn md_suffix() -> Seq<u8> {
    seq!['.' as u8, 'm' as u8, 'd' as u8]
}

/// The stand-in path for an entry whose backing path was lost.
pub open spec fn path_for_unknown(id: Seq<u8>) -> Seq<u8> {
    unknown_path_prefix() + id + md_suffix()
}

/// An entry normalized under a chosen id: the id installed, an empty
/// backing path replaced by the stand-in path, and a leftover expiry on an
/// archived entry cleared (an archived entry carries no expiry); everything
/// else untouched.
pub open spec fn spec_normalize_entry(e: NoteEntryV, id: Seq<u8>) -> NoteEntryV {
    NoteEntryV {
        id: id,
        expire_at: if e.archived_at.is_some() {
            None
        } else {
            e.expire_at
        },
        file: FileInfoV {
            relative_path: if e.file.relative_path.len() > 0 {
                e.file.relative_path
            } else {
                path_for_unknown(id)
            },
        },
        ..e
    }
}

/// How a normalized entry relates to the original: an entry with an id
/// keeps it; one without gets some fresh 36-character id.
pub open spec fn entry_normalized(o: NoteEntryV, n: NoteEntryV) -> bool {
    if o.id.len() > 0 {
        n == spec_normalize_entry(o, o.id)
    } else {
        n.id.len() == 36 && n == spec_normalize_entry(o, n.id)
    }
}

/// The stand-in path for an entry whose backing path was lost, as bytes.
fn path_for_unknown_vec(id: &Vec<u8>) -> (r: Vec<u8>)
    ensures
        r@ == path_for_unknown(id@),
{
    let mut v: Vec<u8> = Vec::new();
    v.push('n' as u8);
    v.push('o' as u8);
    v.push('t' as u8);
    v.push('e' as u8);
    v.push('s' as u8);
    v.push('/' as u8);
    v.push('u' as u8);
    v.push('n' as u8);
    v.push('k' as u8);
    v.push('n' as u8);
    v.push('o' as u8);
    v.push('w' as u8);
    v.push('n' as u8);
    v.push('/' as u8);
    proof {
        assert(v@ =~= unknown_path_prefix());
    }
    let mut k: usize = 0;
    while k < id.len()
        invariant
            k <= id.len(),
            v@ == unknown_path_prefix() + id@.subrange(0, k as int),
        decreases id.len() - k,
    {
        v.push(id[k]);
        proof {
            assert(v@ =~= unknown_path_prefix() + id@.subrange(0, k as int + 1));
        }
        k += 1;
    }
    proof {
        assert(id@.subrange(0, id@.len() as int) =~= id@);
    }
    v.push('.' as u8);
    v.push('m' as u8);
    v.push('d' as u8);
    proof {
        assert(v@ =~= path_for_unknown(id@));
    }
    v
}

/// Repair entries that break the data model's invariants, in place: an
/// entry without an id receives a fresh one, an entry without a backing
/// path is pointed at the stand-in path, and an archived entry with a
/// leftover expiry has the expiry cleared. Entries that are whole are left
/// exactly as they are.
pub fn normalize_index(index: &mut IndexFile)
    ensures
        final(index)@.version == old(index)@.version,
        final(index)@.app == old(index)@.app,
        final(index)@.notes.len() == old(index)@.notes.len(),
        forall|j: int|
            0 <= j < old(index)@.notes.len() ==> entry_normalized(
                old(index)@.notes[j],
                final(index)@.notes[j],
            ),
        final(index)@.entries_nonempty(),
        forall|j: int|
            0 <= j < final(index)@.notes.len() ==> (
            #[trigger] final(index)@.notes[j]).archived_without_expiry(),
        ids_nonempty(old(index)@.notes) ==> final(index)@.notes == old(index)@.notes.map_values(
            |e: NoteEntryV| spec_normalize_entry(e, e.id),
        ),
{
    let n = index.notes.len();
    let mut i: usize = 0;
    while i < n
        invariant
            i <= n,
            n == index.notes.len(),
            index@.version == old(index)@.version,
            index@.app == old(index)@.app,
            index@.notes.len() == old(index)@.notes.len(),
            forall|j: int|
                0 <= j < i ==> entry_normalized(old(index)@.notes[j], index@.notes[j]),
            forall|j: int|
                0 <= j < i ==> (#[trigger] index@.notes[j]).fields_nonempty(),
            forall|j: int|
                0 <= j < i ==> (#[trigger] index@.notes[j]).archived_without_expiry(),
            forall|j: int| i <= j < n ==> index@.notes[j] == old(index)@.notes[j],
        decreases n - i,
    {
        let ghost pre = index@.notes;
        let ghost o = old(index)@.notes[i as int];
        let mut e = index.notes[i].clone();
        if e.id.len() == 0 {
            e.id = fresh_id();
        }
        if e.file.relative_path.len() == 0 {
            e.file.relative_path = path_for_unknown_vec(&e.id);
        }
        if e.archived_at.is_some() {
            e.expire_at = None;
        }
        proof {
            assert(e@ =~= spec_normalize_entry(o, e.id@));
        }
        set_entry(index, i, e);
        proof {
            assert(index@.notes.len() == index.notes@.len());
            assert forall|j: int| 0 <= j < i + 1 implies entry_normalized(
                old(index)@.notes[j],
                index@.notes[j],
            ) && (#[trigger] index@.notes[j]).fields_nonempty() && (
            #[trigger] index@.notes[j]).archived_without_expiry() by {
                if j < i {
                    assert(index@.notes[j] == pre[j]);
                } else {
                    assert(index@.notes[j] == pre.update(i as int, index@.notes[i as int])[j]);
                }
            }
        }
        i += 1;
    }
    proof {
        if ids_nonempty(old(index)@.notes) {
            assert forall|j: int| 0 <= j < n implies index@.notes[j] == spec_normalize_entry(
                old(index)@.notes[j],
                old(index)@.notes[j].id,
            ) by {
                assert(old(index)@.notes[j].id.len() > 0);
            }
            assert(index@.notes =~= old(index)@.notes.map_values(
                |e: NoteEntryV| spec_normalize_entry(e, e.id),
            ));
        }
    }
}

/// The whole sequence with every entry's status rederived.
pub open spec fn spec_derive_all(notes: Seq<NoteEntryV>) -> Seq<NoteEntryV> {
    notes.map_values(|e: NoteEntryV| spec_derive_entry(e))
}

/// Rederive every entry's status from its `archived_at` — the very last
/// step before the index is handed back, so the stored status can never
/// drift from the authoritative field.
pub fn derive_all_statuses(index: &mut IndexFile)
    ensures
        final(index)@.version == old(index)@.version,
        final(index)@.app == old(index)@.app,
        final(index)@.notes == spec_derive_all(old(index)@.notes),
{
    let n = index.notes.len();
    let mut i: usize = 0;
    while i < n
        invariant
            i <= n,
            n == index.notes.len(),
            index@.version == old(index)@.version,
            index@.app == old(index)@.app,
            index@.notes.len() == old(index)@.notes.len(),
            forall|j: int| 0 <= j < i ==> index@.notes[j] == spec_derive_entry(old(index)@.notes[j]),
            forall|j: int| i <= j < n ==> index@.notes[j] == old(index)@.notes[j],
        decreases n - i,
    {
        let ghost pre = index@.notes;
        let mut e = index.notes[i].clone();
        derive_status(&mut e);
        set_entry(index, i, e);
        proof {
            assert(index@.notes.len() == index.notes@.len());
            assert forall|j: int| 0 <= j < i + 1 implies index@.notes[j] == spec_derive_entry(
                old(index)@.notes[j],
            ) by {
                assert(index@.notes[j] == pre.update(i as int, index@.notes[i as int])[j]);
                if j < i {
                    assert(index@.notes[j] == pre[j]);
                }
            }
        }
        i += 1;
    }
    proof {
        assert(index@.notes =~= spec_derive_all(old(index)@.notes));
    }
}

/// One reconciliation pass over an index whose entries all carry ids: merge
/// the scan in, run the expire pass, repair entries against the data
/// model's invariants, and rederive every status. The application header
/// and the schema version are left untouched; in particular `rebuild_at`
/// is never stamped here.
pub open spec fn spec_reconcile(
    idx: IndexFileV,
    scanned: Seq<ScannedNoteV>,
    snapshot: Option<IndexFileV>,
    now: i64,
) -> IndexFileV {
    let merged = spec_merge(idx.notes, scanned, snapshot);
    let expired = spec_expire_pass(merged, now);
    let normalized = expired.map_values(|e: NoteEntryV| spec_normalize_entry(e, e.id));
    IndexFileV { version: idx.version, app: idx.app, notes: spec_derive_all(normalized) }
}

/// How one output entry of reconciliation relates to the merged-and-expired
/// entry it came from: normalized under its own id, or under some fresh
/// 36-character id if it had none, and with its status rederived.
pub open spec fn entry_reconciled(o: NoteEntryV, n: NoteEntryV) -> bool {
    if o.id.len() > 0 {
        n == spec_derive_entry(spec_normalize_entry(o, o.id))
    } else {
        n.id.len() == 36 && n == spec_derive_entry(spec_normalize_entry(o, n.id))
    }
}

/// What reconciliation guarantees for any input index, also one with
/// damaged (empty) ids, for which fresh ids are drawn.
pub open spec fn reconciled_from(
    idx: IndexFileV,
    scanned: Seq<ScannedNoteV>,
    snapshot: Option<IndexFileV>,
    now: i64,
    out: IndexFileV,
) -> bool {
    let stepped = spec_expire_pass(spec_merge(idx.notes, scanned, snapshot), now);
    &&& out.version == idx.version
    &&& out.app == idx.app
    &&& out.notes.len() == stepped.len()
    &&& forall|i: int| 0 <= i < stepped.len() ==> entry_reconciled(stepped[i], out.notes[i])
}

/// Reconcile the index against a fresh scan at `now`: merge newly
/// discovered notes in (never dropping an entry whose file went missing),
/// archive what expired, repair damaged fields, and rederive every status.
pub fn reconcile_index(
    index: &mut IndexFile,
    scanned: &Vec<ScannedNote>,
    snapshot: &Option<IndexFile>,
    now: i64,
)
    ensures
        reconciled_from(old(index)@, scanned.deep_view(), snapshot.deep_view(), now, final(index)@),
        final(index)@.entries_nonempty(),
        forall|i: int|
            0 <= i < final(index)@.notes.len() ==> (
            #[trigger] final(index)@.notes[i]).archived_without_expiry(),
        forall|i: int|
            0 <= i < final(index)@.notes.len() ==> (
            #[trigger] final(index)@.notes[i]).status_consistent(),
        ids_nonempty(old(index)@.notes) ==> final(index)@ == spec_reconcile(
            old(index)@,
            scanned.deep_view(),
            snapshot.deep_view(),
            now,
        ),
{
    let ghost snapv = snapshot.deep_view();
    merge_scanned(index, scanned, snapshot);
    apply_expire_pass(index, now);
    let ghost stepped = index@.notes;
    normalize_index(index);
    let ghost normalized = index@.notes;
    derive_all_statuses(index);
    proof {
        assert forall|i: int| 0 <= i < stepped.len() implies entry_reconciled(
            stepped[i],
            index@.notes[i],
        ) by {
            assert(entry_normalized(stepped[i], normalized[i]));
            assert(index@.notes[i] == spec_derive_entry(normalized[i]));
        }
        assert forall|i: int| 0 <= i < index@.notes.len() implies (
        #[trigger] index@.notes[i]).fields_nonempty() && index@.notes[i].archived_without_expiry()
            && index@.notes[i].status_consistent() by {
            assert(normalized[i].fields_nonempty());
            assert(normalized[i].archived_without_expiry());
            assert(index@.notes[i] == spec_derive_entry(normalized[i]));
        }
        if ids_nonempty(old(index)@.notes) {
            lemma_merge_ids_nonempty(old(index)@.notes, scanned.deep_view(), snapv);
            assert forall|i: int| 0 <= i < stepped.len() implies index@.notes[i]
                == spec_reconcile(old(index)@, scanned.deep_view(), snapv, now).notes[i] by {
                let merged = spec_merge(old(index)@.notes, scanned.deep_view(), snapv);
                assert(stepped[i] == crate::lifecycle::spec_expire_entry(merged[i], now));
                assert(stepped[i].id == merged[i].id);
                assert(stepped[i].id.len() > 0);
                assert(normalized[i] == spec_normalize_entry(stepped[i], stepped[i].id));
            }
            assert(index@.notes =~= spec_reconcile(
                old(index)@,
                scanned.deep_view(),
                snapv,
                now,
            ).notes);
            assert(index@ =~= spec_reconcile(old(index)@, scanned.deep_view(), snapv, now));
        }
    }
}

/// Merging never empties an id: if every entry of the index has one, every
/// entry of the merged sequence has one.
pub proof fn lemma_merge_ids_nonempty(
    notes: Seq<NoteEntryV>,
    scanned: Seq<ScannedNoteV>,
    snapshot: Option<IndexFileV>,
)
    requires
        ids_nonempty(notes),
    ensures
        ids_nonempty(spec_merge(notes, scanned, snapshot)),
    decreases scanned.len(),
{
    if scanned.len() > 0 {
        lemma_merge_ids_nonempty(notes, scanned.drop_last(), snapshot);
    }
}

/// Reconcile against the caller's scan using the current clock, and hand
/// the clock reading back so the caller can persist matching timestamps.
pub fn reconcile_index_now(
    index: &mut IndexFile,
    scanned: &Vec<ScannedNote>,
    snapshot: &Option<IndexFile>,
) -> (now: i64)
    ensures
        reconciled_from(old(index)@, scanned.deep_view(), snapshot.deep_view(), now, final(index)@),
        final(index)@.entries_nonempty(),
        forall|i: int|
            0 <= i < final(index)@.notes.len() ==> (
            #[trigger] final(index)@.notes[i]).archived_without_expiry(),
        forall|i: int|
            0 <= i < final(index)@.notes.len() ==> (
            #[trigger] final(index)@.notes[i]).status_consistent(),
        ids_nonempty(old(index)@.notes) ==> final(index)@ == spec_reconcile(
            old(index)@,
            scanned.deep_view(),
            snapshot.deep_view(),
            now,
        ),
{
    let now = now_millis();
    reconcile_index(index, scanned, snapshot, now);
    now
}

/// The prior record carried forward for a rebuilt id: the first entry of
/// the salvaged snapshot carrying it, if any.
pub open spec fn prior_entry(prior: Option<IndexFileV>, id: Seq<u8>) -> Option<NoteEntryV> {
    match prior {
        Some(p) => {
            let i = spec_find(p.notes, id);
            if i < p.notes.len() {
                Some(p.notes[i])
            } else {
                None
            }
        },
        None => None,
    }
}

/// The entry a rebuild synthesizes for one scanned file: lifecycle history
/// (creation, activity, expiry, archival, pin) carried forward from the
/// salvaged snapshot when the id matches, a fresh active entry with no
/// expiry otherwise. A rebuild never assigns a time-to-live of its own.
pub open spec fn spec_rebuild_entry(s: ScannedNoteV, prior: Option<NoteEntryV>) -> NoteEntryV {
    match prior {
        Some(p) => NoteEntryV {
            id: s.id,
            created_at: p.created_at,
            last_active_at: p.last_active_at,
            expire_at: if p.archived_at.is_some() {
                None
            } else {
                p.expire_at
            },
            cached_preview: None,
            status: status_of(p.archived_at),
            archived_at: p.archived_at,
            window: None,
            pinned: p.pinned,
            file: FileInfoV { relative_path: s.relative_path },
        },
        None => NoteEntryV {
            id: s.id,
            created_at: s.created_at,
            last_active_at: s.created_at,
            expire_at: None,
            cached_preview: None,
            status: NoteStatus::Active,
            archived_at: None,
            window: None,
            pinned: false,
            file: FileInfoV { relative_path: s.relative_path },
        },
    }
}

/// The entry sequence a rebuild produces: one entry per scanned file with a
/// nonempty id, first occurrence winning when two files embed the same id.
pub open spec fn spec_rebuild_notes(
    scanned: Seq<ScannedNoteV>,
    prior: Option<IndexFileV>,
) -> Seq<NoteEntryV>
    decreases scanned.len(),
{
    if scanned.len() == 0 {
        Seq::empty()
    } else {
        let prev = spec_rebuild_notes(scanned.drop_last(), prior);
        let s = scanned.last();
        if s.id.len() > 0 && !seq_has_id(prev, s.id) {
            prev.push(spec_rebuild_entry(s, prior_entry(prior, s.id)))
        } else {
            prev
        }
    }
}

/// The index a rebuild produces: current schema version, the application's
/// creation time carried from the snapshot when one parsed, `rebuild_at`
/// stamped with the rebuild time — the only path that ever stamps it.
pub open spec fn spec_rebuild(
    prior: Option<IndexFileV>,
    scanned: Seq<ScannedNoteV>,
    now: i64,
) -> IndexFileV {
    IndexFileV {
        version: INDEX_VERSION,
        app: AppInfoV {
            name: app_name(),
            created_at: match prior {
                Some(p) => p.app.created_at,
                None => now,
            },
            rebuild_at: Some(now),
        },
        notes: spec_rebuild_notes(scanned, prior),
    }
}

/// Build one rebuilt entry from a scanned file and its prior record.
fn rebuild_entry(s: &ScannedNote, pe: Option<&NoteEntry>) -> (r: NoteEntry)
    ensures
        r@ == spec_rebuild_entry(
            s@,
            match pe {
                Some(p) => Some(p@),
                None => None,
            },
        ),
{
    match pe {
        Some(p) => {
            let r = NoteEntry {
                id: clone_bytes(&s.id),
                created_at: p.created_at,
                last_active_at: p.last_active_at,
                expire_at: if p.archived_at.is_some() {
                    None
                } else {
                    p.expire_at
                },
                cached_preview: None,
                status: if p.archived_at.is_some() {
                    NoteStatus::Archived
                } else {
                    NoteStatus::Active
                },
                archived_at: p.archived_at,
                window: None,
                pinned: p.pinned,
                file: FileInfo { relative_path: clone_bytes(&s.relative_path) },
            };
            proof {
                assert(r@ =~= spec_rebuild_entry(s@, Some(p@)));
            }
            r
        },
        None => {
            let r = NoteEntry {
                id: clone_bytes(&s.id),
                created_at: s.created_at,
                last_active_at: s.created_at,
                expire_at: None,
                cached_preview: None,
                status: NoteStatus::Active,
                archived_at: None,
                window: None,
                pinned: false,
                file: FileInfo { relative_path: clone_bytes(&s.relative_path) },
            };
            proof {
                assert(r@ =~= spec_rebuild_entry(s@, None));
            }
            r
        },
    }
}

/// Rebuild the index from the directory scan, treating the tree as ground
/// truth but carrying lifecycle history forward from the salvaged snapshot
/// for every id it can still match. Stamps `rebuild_at`; assigns no expiry.
pub fn rebuild_index(prior: &Option<IndexFile>, scanned: &Vec<ScannedNote>, now: i64) -> (r:
    IndexFile)
    ensures
        r@ == spec_rebuild(prior.deep_view(), scanned.deep_view(), now),
        forall|i: int|
            0 <= i < r@.notes.len() ==> (#[trigger] r@.notes[i]).archived_without_expiry(),
        forall|i: int|
            0 <= i < r@.notes.len() ==> (#[trigger] r@.notes[i]).status_consistent(),
{
    let ghost priorv = prior.deep_view();
    let app_created_at = match prior {
        Some(p) => p.app.created_at,
        None => now,
    };
    let mut notes: Vec<NoteEntry> = Vec::new();
    let n = scanned.len();
    proof {
        assert(scanned.deep_view().take(0) =~= Seq::<ScannedNoteV>::empty());
        assert(notes.deep_view() =~= Seq::<NoteEntryV>::empty());
    }
    let mut i: usize = 0;
    while i < n
        invariant
            i <= n,
            n == scanned.len(),
            priorv == prior.deep_view(),
            notes.deep_view() == spec_rebuild_notes(scanned.deep_view().take(i as int), priorv),
        decreases n - i,
    {
        proof {
            assert(scanned.deep_view().take(i as int + 1).drop_last() =~= scanned.deep_view().take(
                i as int,
            ));
            assert(scanned.deep_view().take(i as int + 1).last() == scanned.deep_view()[i as int]);
        }
        if scanned[i].id.len() > 0 {
            if !contains_id(&notes, &scanned[i].id) {
                let ghost sv = scanned.deep_view()[i as int];
                let pe = snapshot_entry(prior, &scanned[i].id);
                let ghost pre = notes.deep_view();
                let entry = rebuild_entry(&scanned[i], pe);
                proof {
                    assert(entry@ == spec_rebuild_entry(sv, prior_entry(priorv, sv.id)));
                }
                notes.push(entry);
                proof {
                    assert(notes.deep_view() =~= pre.push(
                        spec_rebuild_entry(sv, prior_entry(priorv, sv.id)),
                    ));
                }
            }
        }
        i += 1;
    }
    proof {
        assert(scanned.deep_view().take(n as int) =~= scanned.deep_view());
    }
    let r = IndexFile {
        version: INDEX_VERSION,
        app: AppInfo { name: app_name_vec(), created_at: app_created_at, rebuild_at: Some(now) },
        notes,
    };
    proof {
        assert(r@ =~= spec_rebuild(priorv, scanned.deep_view(), now));
        lemma_rebuild_notes_invariants(scanned.deep_view(), priorv);
    }
    r
}

/// After a merge, every scanned observation with a nonempty id is present.
pub proof fn lemma_merge_adds_scanned(
    notes: Seq<NoteEntryV>,
    scanned: Seq<ScannedNoteV>,
    snapshot: Option<IndexFileV>,
    k: int,
)
    requires
        0 <= k < scanned.len(),
        scanned[k].id.len() > 0,
    ensures
        seq_has_id(spec_merge(notes, scanned, snapshot), scanned[k].id),
    decreases scanned.len(),
{
    let prev = spec_merge(notes, scanned.drop_last(), snapshot);
    let s = scanned.last();
    if k < scanned.len() - 1 {
        lemma_merge_adds_scanned(notes, scanned.drop_last(), snapshot, k);
        let w = choose|j: int| 0 <= j < prev.len() && #[trigger] prev[j].id == scanned[k].id;
        assert(spec_merge(notes, scanned, snapshot)[w].id == scanned[k].id);
    } else {
        if seq_has_id(prev, s.id) {
            let w = choose|j: int| 0 <= j < prev.len() && #[trigger] prev[j].id == s.id;
            assert(spec_merge(notes, scanned, snapshot)[w].id == s.id);
        } else {
            assert(spec_merge(notes, scanned, snapshot)[prev.len() as int].id == s.id);
        }
    }
}

/// A merge against a scan whose every id is already present changes nothing.
pub proof fn lemma_merge_identity(
    notes: Seq<NoteEntryV>,
    scanned: Seq<ScannedNoteV>,
    snapshot: Option<IndexFileV>,
)
    requires
        forall|k: int|
            0 <= k < scanned.len() && (#[trigger] scanned[k].id).len() > 0 ==> seq_has_id(
                notes,
                scanned[k].id,
            ),
    ensures
        spec_merge(notes, scanned, snapshot) == notes,
    decreases scanned.len(),
{
    if scanned.len() > 0 {
        lemma_merge_identity(notes, scanned.drop_last(), snapshot);
        let s = scanned.last();
        if s.id.len() > 0 {
            assert(scanned[scanned.len() - 1].id == s.id);
            assert(seq_has_id(notes, s.id));
        }
    }
}

/// Merging never introduces a duplicate id.
pub proof fn lemma_merge_unique(
    notes: Seq<NoteEntryV>,
    scanned: Seq<ScannedNoteV>,
    snapshot: Option<IndexFileV>,
)
    requires
        seq_ids_unique(notes),
    ensures
        seq_ids_unique(spec_merge(notes, scanned, snapshot)),
    decreases scanned.len(),
{
    if scanned.len() > 0 {
        lemma_merge_unique(notes, scanned.drop_last(), snapshot);
        let prev = spec_merge(notes, scanned.drop_last(), snapshot);
        let s = scanned.last();
        if s.id.len() > 0 && !seq_has_id(prev, s.id) {
            let m = prev.push(spec_discovered_entry(s, prior_entry(snapshot, s.id)));
            assert forall|i: int, j: int| 0 <= i < j < m.len() implies m[i].id != m[j].id by {
                if j == prev.len() {
                    if m[i].id == s.id {
                        assert(prev[i].id == s.id);
                    }
                }
            }
        }
    }
}

/// No duplication: reconciliation of an index with unique ids never
/// produces two entries sharing an id, whatever the scan holds.
pub proof fn lemma_reconcile_no_duplication(
    idx: IndexFileV,
    scanned: Seq<ScannedNoteV>,
    snapshot: Option<IndexFileV>,
    now: i64,
)
    requires
        idx.ids_unique(),
    ensures
        spec_reconcile(idx, scanned, snapshot, now).ids_unique(),
{
    assert(seq_ids_unique(idx.notes));
    lemma_merge_unique(idx.notes, scanned, snapshot);
    let merged = spec_merge(idx.notes, scanned, snapshot);
    let out = spec_reconcile(idx, scanned, snapshot, now).notes;
    assert forall|i: int| 0 <= i < merged.len() implies #[trigger] out[i].id == merged[i].id by {
    }
    assert forall|i: int, j: int| 0 <= i < j < out.len() implies out[i].id != out[j].id by {
        assert(out[i].id == merged[i].id && out[j].id == merged[j].id);
    }
}

/// No duplication on the rebuild path: the rebuilt entry sequence never
/// holds two entries sharing an id, even when files on disk do.
pub proof fn lemma_rebuild_no_duplication(scanned: Seq<ScannedNoteV>, prior: Option<IndexFileV>)
    ensures
        seq_ids_unique(spec_rebuild_notes(scanned, prior)),
    decreases scanned.len(),
{
    if scanned.len() > 0 {
        lemma_rebuild_no_duplication(scanned.drop_last(), prior);
        let prev = spec_rebuild_notes(scanned.drop_last(), prior);
        let s = scanned.last();
        if s.id.len() > 0 && !seq_has_id(prev, s.id) {
            let m = prev.push(spec_rebuild_entry(s, prior_entry(prior, s.id)));
            assert forall|i: int, j: int| 0 <= i < j < m.len() implies m[i].id != m[j].id by {
                if j == prev.len() {
                    if m[i].id == s.id {
                        assert(prev[i].id == s.id);
                    }
                }
            }
        }
    }
}

/// Reconciliation idempotence: a second reconciliation against the same
/// scan at the same time changes nothing at all.
pub proof fn lemma_reconcile_idempotent(
    idx: IndexFileV,
    scanned: Seq<ScannedNoteV>,
    snapshot: Option<IndexFileV>,
    snapshot2: Option<IndexFileV>,
    now: i64,
)
    requires
        ids_nonempty(idx.notes),
    ensures
        spec_reconcile(spec_reconcile(idx, scanned, snapshot, now), scanned, snapshot2, now)
            == spec_reconcile(idx, scanned, snapshot, now),
{
    let r = spec_reconcile(idx, scanned, snapshot, now);
    let merged = spec_merge(idx.notes, scanned, snapshot);
    let expired = spec_expire_pass(merged, now);
    let normalized = expired.map_values(|e: NoteEntryV| spec_normalize_entry(e, e.id));
    lemma_merge_ids_nonempty(idx.notes, scanned, snapshot);
    // every entry of the first result keeps the merged entry's id and has
    // settled lifecycle fields
    assert forall|i: int| 0 <= i < merged.len() implies {
        &&& (#[trigger] r.notes[i]).id == merged[i].id
        &&& r.notes[i].id.len() > 0
        &&& r.notes[i].file.relative_path.len() > 0
        &&& r.notes[i].archived_at == expired[i].archived_at
        &&& r.notes[i].expire_at == (if expired[i].archived_at.is_some() {
            None::<i64>
        } else {
            expired[i].expire_at
        })
        &&& r.notes[i].pinned == expired[i].pinned
        &&& r.notes[i].status == status_of(r.notes[i].archived_at)
    } by {
        assert(normalized[i] == spec_normalize_entry(expired[i], expired[i].id));
        assert(r.notes[i] == spec_derive_entry(normalized[i]));
    }
    // the second merge finds every scanned id already present, whatever
    // snapshot it is handed
    assert forall|k: int|
        0 <= k < scanned.len() && (#[trigger] scanned[k].id).len() > 0 implies seq_has_id(
        r.notes,
        scanned[k].id,
    ) by {
        lemma_merge_adds_scanned(idx.notes, scanned, snapshot, k);
        let w = choose|j: int| 0 <= j < merged.len() && #[trigger] merged[j].id == scanned[k].id;
        assert(r.notes[w].id == scanned[k].id);
    }
    lemma_merge_identity(r.notes, scanned, snapshot2);
    // the second expire pass has nothing left to archive
    let expired2 = spec_expire_pass(r.notes, now);
    assert forall|i: int| 0 <= i < r.notes.len() implies #[trigger] expired2[i] == r.notes[i] by {
        assert(expired[i] == crate::lifecycle::spec_expire_entry(merged[i], now));
    }
    assert(expired2 =~= r.notes);
    // the second normalization finds nothing to repair
    let normalized2 = r.notes.map_values(|e: NoteEntryV| spec_normalize_entry(e, e.id));
    assert forall|i: int| 0 <= i < r.notes.len() implies #[trigger] normalized2[i]
        == r.notes[i] by {
        assert(spec_normalize_entry(r.notes[i], r.notes[i].id) =~= r.notes[i]);
    }
    assert(normalized2 =~= r.notes);
    // the second status derivation confirms every status
    assert forall|i: int| 0 <= i < r.notes.len() implies #[trigger] spec_derive_all(r.notes)[i]
        == r.notes[i] by {
        assert(spec_derive_entry(r.notes[i]) =~= r.notes[i]);
    }
    assert(spec_derive_all(r.notes) =~= r.notes);
    assert(spec_reconcile(r, scanned, snapshot2, now) =~= r);
}

/// What a rebuilt entry carries: its prior record's whole lifecycle when
/// the snapshot knows the id, a fresh active state otherwise.
pub open spec fn carried_forward(p: Option<NoteEntryV>, n: NoteEntryV) -> bool {
    match p {
        Some(p) => {
            &&& n.created_at == p.created_at
            &&& n.last_active_at == p.last_active_at
            &&& n.expire_at == (if p.archived_at.is_some() {
                None
            } else {
                p.expire_at
            })
            &&& n.archived_at == p.archived_at
            &&& n.pinned == p.pinned
        },
        None => {
            &&& n.archived_at.is_none()
            &&& n.expire_at.is_none()
            &&& !n.pinned
        },
    }
}

/// Every rebuilt entry carries the lifecycle of its id's prior record.
pub proof fn lemma_rebuild_notes_carry(scanned: Seq<ScannedNoteV>, prior: Option<IndexFileV>)
    ensures
        forall|j: int|
            0 <= j < spec_rebuild_notes(scanned, prior).len() ==> carried_forward(
                prior_entry(prior, spec_rebuild_notes(scanned, prior)[j].id),
                #[trigger] spec_rebuild_notes(scanned, prior)[j],
            ),
    decreases scanned.len(),
{
    if scanned.len() > 0 {
        lemma_rebuild_notes_carry(scanned.drop_last(), prior);
        let prev = spec_rebuild_notes(scanned.drop_last(), prior);
        let s = scanned.last();
        if s.id.len() > 0 && !seq_has_id(prev, s.id) {
            let m = prev.push(spec_rebuild_entry(s, prior_entry(prior, s.id)));
            assert forall|j: int| 0 <= j < m.len() implies carried_forward(
                prior_entry(prior, m[j].id),
                #[trigger] m[j],
            ) by {
                if j < prev.len() {
                    assert(m[j] == prev[j]);
                } else {
                    assert(m[j] == spec_rebuild_entry(s, prior_entry(prior, s.id)));
                }
            }
        }
    }
}

/// Every rebuilt entry satisfies the data model's invariants: consistent
/// status and no expiry while archived.
pub proof fn lemma_rebuild_notes_invariants(scanned: Seq<ScannedNoteV>, prior: Option<IndexFileV>)
    ensures
        forall|j: int|
            0 <= j < spec_rebuild_notes(scanned, prior).len() ==> (#[trigger] spec_rebuild_notes(
                scanned,
                prior,
            )[j]).archived_without_expiry(),
        forall|j: int|
            0 <= j < spec_rebuild_notes(scanned, prior).len() ==> (#[trigger] spec_rebuild_notes(
                scanned,
                prior,
            )[j]).status_consistent(),
    decreases scanned.len(),
{
    if scanned.len() > 0 {
        lemma_rebuild_notes_invariants(scanned.drop_last(), prior);
        let prev = spec_rebuild_notes(scanned.drop_last(), prior);
        let s = scanned.last();
        if s.id.len() > 0 && !seq_has_id(prev, s.id) {
            let m = prev.push(spec_rebuild_entry(s, prior_entry(prior, s.id)));
            assert forall|j: int| 0 <= j < m.len() implies (
            #[trigger] m[j]).archived_without_expiry() && m[j].status_consistent() by {
                if j < prev.len() {
                    assert(m[j] == prev[j]);
                } else {
                    assert(m[j] == spec_rebuild_entry(s, prior_entry(prior, s.id)));
                }
            }
        }
    }
}

/// After a rebuild, every scanned observation with a nonempty id is present.
pub proof fn lemma_rebuild_notes_has(
    scanned: Seq<ScannedNoteV>,
    prior: Option<IndexFileV>,
    k: int,
)
    requires
        0 <= k < scanned.len(),
        scanned[k].id.len() > 0,
    ensures
        seq_has_id(spec_rebuild_notes(scanned, prior), scanned[k].id),
    decreases scanned.len(),
{
    let prev = spec_rebuild_notes(scanned.drop_last(), prior);
    let s = scanned.last();
    if k < scanned.len() - 1 {
        lemma_rebuild_notes_has(scanned.drop_last(), prior, k);
        let w = choose|j: int| 0 <= j < prev.len() && #[trigger] prev[j].id == scanned[k].id;
        assert(spec_rebuild_notes(scanned, prior)[w].id == scanned[k].id);
    } else {
        if seq_has_id(prev, s.id) {
            let w = choose|j: int| 0 <= j < prev.len() && #[trigger] prev[j].id == s.id;
            assert(spec_rebuild_notes(scanned, prior)[w].id == s.id);
        } else {
            assert(spec_rebuild_notes(scanned, prior)[prev.len() as int].id == s.id);
        }
    }
}

/// Rebuild preserves history: for every scanned file whose embedded id the
/// salvaged snapshot still knows, the rebuilt index holds an entry with
/// that id whose creation, activity, expiry, archival and pin state are the
/// snapshot's, not reset ones.
pub proof fn lemma_rebuild_preserves_history(
    prior: IndexFileV,
    scanned: Seq<ScannedNoteV>,
    now: i64,
    k: int,
)
    requires
        0 <= k < scanned.len(),
        scanned[k].id.len() > 0,
    ensures
        ({
            let notes = spec_rebuild(Some(prior), scanned, now).notes;
            exists|j: int|
                0 <= j < notes.len() && (#[trigger] notes[j].id) == scanned[k].id
                    && carried_forward(prior_entry(Some(prior), scanned[k].id), notes[j])
        }),
{
    lemma_rebuild_notes_has(scanned, Some(prior), k);
    lemma_rebuild_notes_carry(scanned, Some(prior));
    let notes = spec_rebuild(Some(prior), scanned, now).notes;
    let w = choose|j: int| 0 <= j < notes.len() && #[trigger] notes[j].id == scanned[k].id;
    assert(carried_forward(prior_entry(Some(prior), scanned[k].id), notes[w]));
}

/// Rebuild the index using the current clock, handing the clock reading
/// back so the caller can persist matching timestamps.
pub fn rebuild_index_now(prior: &Option<IndexFile>, scanned: &Vec<ScannedNote>) -> (r: (
    IndexFile,
    i64,
))
    ensures
        r.0@ == spec_rebuild(prior.deep_view(), scanned.deep_view(), r.1),
        forall|i: int|
            0 <= i < r.0@.notes.len() ==> (#[trigger] r.0@.notes[i]).archived_without_expiry(),
        forall|i: int|
            0 <= i < r.0@.notes.len() ==> (#[trigger] r.0@.notes[i]).status_consistent(),
{
    let now = now_millis();
    let r = rebuild_index(prior, scanned, now);
    (r, now)
}

} // verus!
