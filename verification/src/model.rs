//! Data model of the index document: application info, note entries and the
//! index itself, together with their mathematical views and the basic
//! queries over them.
//!
//! Timestamps are milliseconds since the Unix epoch; text (ids, paths,
//! previews, note content) is handled as UTF-8 bytes throughout.

use vstd::prelude::*;

verus! {

/// Lifecycle state of a note. It is always derived from `archived_at`,
/// never set independently.
#[derive(Clone, Copy, PartialEq, Eq, Structural, Debug)]
pub enum NoteStatus {
    Active,
    Archived,
}

/// Window placement payload. The engine never interprets it; the caller
/// packs its geometry (for instance the bit patterns of its coordinates)
/// and gets the same values back.
#[derive(Clone, Copy, PartialEq, Eq, Structural, Debug)]
pub struct WindowInfo {
    pub x: u64,
    pub y: u64,
    pub width: u64,
    pub height: u64,
}

/// Location of the backing text file, relative to the notes root.
#[derive(Debug)]
pub struct FileInfo {
    pub relative_path: Vec<u8>,
}

#[verifier::ext_equal]
pub struct FileInfoV {
    pub relative_path: Seq<u8>,
}

/// Application-level header of the index document.
#[derive(Debug)]
pub struct AppInfo {
    pub name: Vec<u8>,
    /// Set once when the index is first created, immutable afterwards.
    pub created_at: i64,
    /// Stamped only by the rebuild path, untouched by ordinary reconciliation.
    pub rebuild_at: Option<i64>,
}

#[verifier::ext_equal]
pub struct AppInfoV {
    pub name: Seq<u8>,
    pub created_at: i64,
    pub rebuild_at: Option<i64>,
}

/// One cached record of a note: identity, timing and lifecycle state.
#[derive(Debug)]
pub struct NoteEntry {
    pub id: Vec<u8>,
    pub created_at: i64,
    pub last_active_at: i64,
    /// Absent means the note never expires.
    pub expire_at: Option<i64>,
    /// Advisory first-line preview of the body.
    pub cached_preview: Option<Vec<u8>>,
    /// Derived from `archived_at`; see `derive_status`.
    pub status: NoteStatus,
    /// Presence is the sole source of truth for archival.
    pub archived_at: Option<i64>,
    pub window: Option<WindowInfo>,
    /// A pinned note is exempt from expiration regardless of `expire_at`.
    pub pinned: bool,
    pub file: FileInfo,
}

#[verifier::ext_equal]
pub struct NoteEntryV {
    pub id: Seq<u8>,
    pub created_at: i64,
    pub last_active_at: i64,
    pub expire_at: Option<i64>,
    pub cached_preview: Option<Seq<u8>>,
    pub status: NoteStatus,
    pub archived_at: Option<i64>,
    pub window: Option<WindowInfo>,
    pub pinned: bool,
    pub file: FileInfoV,
}

/// The whole persisted index document.
pub struct IndexFile {
    pub version: u32,
    pub app: AppInfo,
    pub notes: Vec<NoteEntry>,
}

#[verifier::ext_equal]
pub struct IndexFileV {
    pub version: u32,
    pub app: AppInfoV,
    pub notes: Seq<NoteEntryV>,
}

impl View for FileInfo {
    type V = FileInfoV;

    open spec fn view(&self) -> FileInfoV {
        FileInfoV { relative_path: self.relative_path@ }
    }
}

impl DeepView for FileInfo {
    type V = FileInfoV;

    open spec fn deep_view(&self) -> FileInfoV {
        self.view()
    }
}

impl View for AppInfo {
    type V = AppInfoV;

    open spec fn view(&self) -> AppInfoV {
        AppInfoV { name: self.name@, created_at: self.created_at, rebuild_at: self.rebuild_at }
    }
}

impl DeepView for AppInfo {
    type V = AppInfoV;

    open spec fn deep_view(&self) -> AppInfoV {
        self.view()
    }
}

impl View for NoteEntry {
    type V = NoteEntryV;

    open spec fn view(&self) -> NoteEntryV {
        NoteEntryV {
            id: self.id@,
            created_at: self.created_at,
            last_active_at: self.last_active_at,
            expire_at: self.expire_at,
            cached_preview: self.cached_preview.deep_view(),
            status: self.status,
            archived_at: self.archived_at,
            window: self.window,
            pinned: self.pinned,
            file: self.file@,
        }
    }
}

impl DeepView for NoteEntry {
    type V = NoteEntryV;

    open spec fn deep_view(&self) -> NoteEntryV {
        self.view()
    }
}

impl View for IndexFile {
    type V = IndexFileV;

    open spec fn view(&self) -> IndexFileV {
        IndexFileV { version: self.version, app: self.app@, notes: self.notes.deep_view() }
    }
}

impl DeepView for IndexFile {
    type V = IndexFileV;

    open spec fn deep_view(&self) -> IndexFileV {
        self.view()
    }
}

/// Copy a byte string.
pub fn clone_bytes(v: &Vec<u8>) -> (r: Vec<u8>)
    ensures
        r@ == v@,
{
    let r = v.clone();
    proof {
        assert forall|i: int| 0 <= i < v@.len() implies r@[i] == v@[i] by {
            assert(cloned::<u8>(v[i], r[i]));
        }
        assert(r@ =~= v@);
    }
    r
}

/// Copy an optional byte string.
pub fn clone_opt_bytes(v: &Option<Vec<u8>>) -> (r: Option<Vec<u8>>)
    ensures
        r.deep_view() == v.deep_view(),
{
    match v {
        Some(b) => Some(clone_bytes(b)),
        None => None,
    }
}

impl Clone for FileInfo {
    fn clone(&self) -> (r: Self)
        ensures
            r@ == self@,
    {
        FileInfo { relative_path: clone_bytes(&self.relative_path) }
    }
}

impl Clone for AppInfo {
    fn clone(&self) -> (r: Self)
        ensures
            r@ == self@,
    {
        AppInfo {
            name: clone_bytes(&self.name),
            created_at: self.created_at,
            rebuild_at: self.rebuild_at,
        }
    }
}

impl Clone for NoteEntry {
    fn clone(&self) -> (r: Self)
        ensures
            r@ == self@,
    {
        let r = NoteEntry {
            id: clone_bytes(&self.id),
            created_at: self.created_at,
            last_active_at: self.last_active_at,
            expire_at: self.expire_at,
            cached_preview: clone_opt_bytes(&self.cached_preview),
            status: self.status,
            archived_at: self.archived_at,
            window: self.window,
            pinned: self.pinned,
            file: self.file.clone(),
        };
        proof {
            assert(r@ =~= self@);
        }
        r
    }
}

/// The status a given `archived_at` field dictates.
pub open spec fn status_of(archived_at: Option<i64>) -> NoteStatus {
    if archived_at.is_some() {
        NoteStatus::Archived
    } else {
        NoteStatus::Active
    }
}

impl NoteEntryV {
    /// The stored status agrees with the authoritative `archived_at` field.
    pub open spec fn status_consistent(self) -> bool {
        self.status == status_of(self.archived_at)
    }

    /// An archived entry carries no expiry.
    pub open spec fn archived_without_expiry(self) -> bool {
        self.archived_at.is_some() ==> self.expire_at.is_none()
    }

    /// The fields the scan-merge and rebuild paths must keep nonempty.
    pub open spec fn fields_nonempty(self) -> bool {
        self.id.len() > 0 && self.file.relative_path.len() > 0
    }
}

impl IndexFileV {
    /// No two entries share an id.
    pub open spec fn ids_unique(self) -> bool {
        forall|i: int, j: int|
            0 <= i < j < self.notes.len() ==> self.notes[i].id != self.notes[j].id
    }

    /// Some entry carries the given id.
    pub open spec fn has_id(self, id: Seq<u8>) -> bool {
        exists|i: int| 0 <= i < self.notes.len() && #[trigger] self.notes[i].id == id
    }

    /// Every entry has a nonempty id and backing path.
    pub open spec fn entries_nonempty(self) -> bool {
        forall|i: int| 0 <= i < self.notes.len() ==> #[trigger] self.notes[i].fields_nonempty()
    }
}

/// Whether the entry is archived: `archived_at` present.
pub fn is_archived(entry: &NoteEntry) -> (r: bool)
    ensures
        r == entry@.archived_at.is_some(),
{
    entry.archived_at.is_some()
}

/// Whether the entry is active: `archived_at` absent.
pub fn is_active(entry: &NoteEntry) -> (r: bool)
    ensures
        r == entry@.archived_at.is_none(),
{
    entry.archived_at.is_none()
}

/// An entry with its `status` field recomputed from `archived_at`.
pub open spec fn spec_derive_entry(e: NoteEntryV) -> NoteEntryV {
    NoteEntryV { status: status_of(e.archived_at), ..e }
}

/// Recompute the derived `status` field from `archived_at`, leaving every
/// other field as it was.
pub fn derive_status(entry: &mut NoteEntry)
    ensures
        final(entry)@ == spec_derive_entry(old(entry)@),
{
    entry.status = if entry.archived_at.is_some() {
        NoteStatus::Archived
    } else {
        NoteStatus::Active
    };
    proof {
        assert(entry@ =~= (NoteEntryV {
            status: status_of(old(entry)@.archived_at),
            ..old(entry)@
        }));
    }
}

/// Compare two byte strings for equality.
pub fn bytes_eq(a: &Vec<u8>, b: &Vec<u8>) -> (r: bool)
    ensures
        r == (a@ == b@),
{
    if a.len() != b.len() {
        return false;
    }
    let mut i: usize = 0;
    while i < a.len()
        invariant
            i <= a.len(),
            a.len() == b.len(),
            forall|k: int| 0 <= k < i ==> a@[k] == b@[k],
        decreases a.len() - i,
    {
        if a[i] != b[i] {
            return false;
        }
        i += 1;
    }
    proof {
        assert(a@ =~= b@);
    }
    true
}

/// Position of the first entry carrying `id`, if any.
pub fn find_note(index: &IndexFile, id: &Vec<u8>) -> (r: Option<usize>)
    ensures
        match r {
            Some(i) => i < index@.notes.len() && index@.notes[i as int].id == id@ && (forall|j: int|
                0 <= j < i ==> index@.notes[j].id != id@),
            None => !index@.has_id(id@),
        },
{
    let mut i: usize = 0;
    while i < index.notes.len()
        invariant
            i <= index.notes.len(),
            forall|j: int| 0 <= j < i ==> index@.notes[j].id != id@,
        decreases index.notes.len() - i,
    {
        if bytes_eq(&index.notes[i].id, id) {
            return Some(i);
        }
        i += 1;
    }
    None
}

/// The subsequence of active entries, in index order.
pub open spec fn active_entries(s: Seq<NoteEntryV>) -> Seq<NoteEntryV>
    decreases s.len(),
{
    if s.len() == 0 {
        Seq::empty()
    } else if s.last().archived_at.is_none() {
        active_entries(s.drop_last()).push(s.last())
    } else {
        active_entries(s.drop_last())
    }
}

/// The subsequence of archived entries, in index order.
pub open spec fn archived_entries(s: Seq<NoteEntryV>) -> Seq<NoteEntryV>
    decreases s.len(),
{
    if s.len() == 0 {
        Seq::empty()
    } else if s.last().archived_at.is_some() {
        archived_entries(s.drop_last()).push(s.last())
    } else {
        archived_entries(s.drop_last())
    }
}

/// All entries whose `archived_at` is absent, in index order.
pub fn list_active(index: &IndexFile) -> (r: Vec<NoteEntry>)
    ensures
        r.deep_view() == active_entries(index@.notes),
{
    let mut r: Vec<NoteEntry> = Vec::new();
    proof {
        assert(index@.notes.take(0) =~= Seq::<NoteEntryV>::empty());
        assert(r.deep_view() =~= Seq::<NoteEntryV>::empty());
    }
    let mut i: usize = 0;
    while i < index.notes.len()
        invariant
            i <= index.notes.len(),
            r.deep_view() == active_entries(index@.notes.take(i as int)),
        decreases index.notes.len() - i,
    {
        let ghost pre = r.deep_view();
        proof {
            assert(index@.notes.take(i as int + 1).drop_last() =~= index@.notes.take(i as int));
            assert(index@.notes.take(i as int + 1).last() == index@.notes[i as int]);
        }
        if index.notes[i].archived_at.is_none() {
            let e = index.notes[i].clone();
            r.push(e);
            proof {
                assert(r.deep_view() =~= pre.push(index@.notes[i as int]));
            }
        }
        i += 1;
    }
    proof {
        assert(index@.notes.take(index.notes.len() as int) =~= index@.notes);
    }
    r
}

/// All entries whose `archived_at` is present, in index order.
pub fn list_archived(index: &IndexFile) -> (r: Vec<NoteEntry>)
    ensures
        r.deep_view() == archived_entries(index@.notes),
{
    let mut r: Vec<NoteEntry> = Vec::new();
    proof {
        assert(index@.notes.take(0) =~= Seq::<NoteEntryV>::empty());
        assert(r.deep_view() =~= Seq::<NoteEntryV>::empty());
    }
    let mut i: usize = 0;
    while i < index.notes.len()
        invariant
            i <= index.notes.len(),
            r.deep_view() == archived_entries(index@.notes.take(i as int)),
        decreases index.notes.len() - i,
    {
        let ghost pre = r.deep_view();
        proof {
            assert(index@.notes.take(i as int + 1).drop_last() =~= index@.notes.take(i as int));
            assert(index@.notes.take(i as int + 1).last() == index@.notes[i as int]);
        }
        if index.notes[i].archived_at.is_some() {
            let e = index.notes[i].clone();
            r.push(e);
            proof {
                assert(r.deep_view() =~= pre.push(index@.notes[i as int]));
            }
        }
        i += 1;
    }
    proof {
        assert(index@.notes.take(index.notes.len() as int) =~= index@.notes);
    }
    r
}

/// Whether any entry is active.
pub fn has_unexpired_notes(index: &IndexFile) -> (r: bool)
    ensures
        r == (exists|j: int|
            0 <= j < index@.notes.len() && (#[trigger] index@.notes[j].archived_at).is_none()),
{
    let mut i: usize = 0;
    while i < index.notes.len()
        invariant
            i <= index.notes.len(),
            forall|j: int| 0 <= j < i ==> (#[trigger] index@.notes[j].archived_at).is_some(),
        decreases index.notes.len() - i,
    {
        if index.notes[i].archived_at.is_none() {
            proof {
                assert(index@.notes[i as int].archived_at.is_none());
            }
            return true;
        }
        i += 1;
    }
    false
}

} // verus!
