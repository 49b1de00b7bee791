//! Lifecycle state machine: Active and Archived, the expire pass that moves
//! eligible entries from Active to Archived, and the explicit restore that
//! moves them back.

use vstd::prelude::*;

use crate::model::{IndexFile, NoteEntry, NoteEntryV, NoteStatus};
use crate::TTL_MILLIS;

verus! {

/// Whether the expire pass considers the entry overdue: never while pinned,
/// never without an expiry, otherwise exactly when the expiry lies strictly
/// in the past.
pub open spec fn spec_is_expired(e: NoteEntryV, now: i64) -> bool {
    &&& !e.pinned
    &&& e.expire_at.is_some()
    &&& e.expire_at.unwrap() < now
}

/// Whether the entry is overdue at `now`.
pub fn is_expired_check(entry: &NoteEntry, now: i64) -> (r: bool)
    ensures
        r == spec_is_expired(entry@, now),
{
    if entry.pinned {
        return false;
    }
    match entry.expire_at {
        Some(t) => t < now,
        None => false,
    }
}

/// The archival transition: stamp `archived_at`, clear `expire_at`, and
/// keep the stored status in step with the authoritative field; everything
/// else is untouched.
pub open spec fn spec_archive(e: NoteEntryV, now: i64) -> NoteEntryV {
    NoteEntryV {
        archived_at: Some(now),
        expire_at: None,
        status: NoteStatus::Archived,
        ..e
    }
}

/// Archive the entry at `now`. The sole way any code here moves an entry
/// out of the Active state.
pub fn archive_note(entry: &mut NoteEntry, now: i64)
    ensures
        final(entry)@ == spec_archive(old(entry)@, now),
{
    entry.archived_at = Some(now);
    entry.expire_at = None;
    entry.status = NoteStatus::Archived;
    proof {
        assert(entry@ =~= spec_archive(old(entry)@, now));
    }
}

/// What the expire pass does to one entry: an active, unpinned entry whose
/// expiry lies strictly in the past is archived; every other entry is left
/// exactly as it is.
pub open spec fn spec_expire_entry(e: NoteEntryV, now: i64) -> NoteEntryV {
    if e.archived_at.is_none() && spec_is_expired(e, now) {
        spec_archive(e, now)
    } else {
        e
    }
}

/// The expire pass over a whole entry sequence.
pub open spec fn spec_expire_pass(notes: Seq<NoteEntryV>, now: i64) -> Seq<NoteEntryV> {
    notes.map_values(|e: NoteEntryV| spec_expire_entry(e, now))
}

/// Run the expire pass over every entry of the index.
pub fn apply_expire_pass(index: &mut IndexFile, now: i64)
    ensures
        final(index)@.version == old(index)@.version,
        final(index)@.app == old(index)@.app,
        final(index)@.notes == spec_expire_pass(old(index)@.notes, now),
{
    let n = index.notes.len();
    let mut i: usize = 0;
    while i < n
        invariant
            i <= n,
            n == index.notes.len(),
            index@.version == old(index)@.version,
            index@.app == old(index)@.app,
            index@.notes.len() == old(index)@.notes.len(),
            forall|j: int|
                0 <= j < i ==> index@.notes[j] == spec_expire_entry(old(index)@.notes[j], now),
            forall|j: int| i <= j < n ==> index@.notes[j] == old(index)@.notes[j],
        decreases n - i,
    {
        let ghost pre = index@.notes;
        let ghost prevec = index.notes@;
        let eligible = index.notes[i].archived_at.is_none() && is_expired_check(
            &index.notes[i],
            now,
        );
        if eligible {
            let mut e = index.notes[i].clone();
            archive_note(&mut e, now);
            index.notes[i] = e;
            proof {
                assert(index.notes@ == prevec.update(i as int, e));
                assert forall|j: int| 0 <= j < n && j != i implies index@.notes[j] == pre[j] by {
                    assert(index.notes@[j] == prevec[j]);
                }
            }
        }
        proof {
            assert forall|j: int| 0 <= j < i + 1 implies index@.notes[j] == spec_expire_entry(
                old(index)@.notes[j],
                now,
            ) by {
                if j == i {
                    let o = old(index)@.notes[j];
                    assert(pre[j] == o);
                    if eligible {
                        assert(index@.notes[j] == spec_archive(o, now));
                        assert(o.archived_at.is_none() && spec_is_expired(o, now));
                    } else {
                        assert(index@.notes[j] == pre[j]);
                        assert(!(o.archived_at.is_none() && spec_is_expired(o, now)));
                    }
                } else {
                    assert(index@.notes[j] == pre[j]);
                }
            }
        }
        i += 1;
    }
    proof {
        assert(index@.notes =~= spec_expire_pass(old(index)@.notes, now));
    }
}

/// The restore transition: clear `archived_at`, refresh activity, grant a
/// fresh time-to-live, and keep the stored status in step with the
/// authoritative field.
pub open spec fn spec_restore(e: NoteEntryV, now: i64) -> NoteEntryV {
    NoteEntryV {
        archived_at: None,
        last_active_at: now,
        expire_at: Some((now + TTL_MILLIS) as i64),
        status: NoteStatus::Active,
        ..e
    }
}

/// Restore the entry at `now`: back to Active with a fresh expiry.
pub fn internal_restore_note(entry: &mut NoteEntry, now: i64)
    requires
        now + TTL_MILLIS <= i64::MAX,
    ensures
        final(entry)@ == spec_restore(old(entry)@, now),
{
    entry.archived_at = None;
    entry.last_active_at = now;
    entry.expire_at = Some(now + TTL_MILLIS);
    entry.status = NoteStatus::Active;
    proof {
        assert(entry@ =~= spec_restore(old(entry)@, now));
    }
}

/// Pin immunity: the expire pass leaves a pinned active entry active, no
/// matter its expiry.
pub proof fn lemma_pin_immunity(e: NoteEntryV, now: i64)
    requires
        e.pinned,
        e.archived_at.is_none(),
    ensures
        spec_expire_entry(e, now).archived_at.is_none(),
        spec_expire_entry(e, now) == e,
{
}

/// Archival clears expiry: whenever the expire pass moves an entry from
/// Active to Archived, the entry comes out without an expiry.
pub proof fn lemma_archival_clears_expiry(e: NoteEntryV, now: i64)
    requires
        e.archived_at.is_none(),
        spec_expire_entry(e, now).archived_at.is_some(),
    ensures
        spec_expire_entry(e, now).expire_at.is_none(),
{
}

} // verus!
