//! The sync engine: three-phase reconciliation of external library state
//! into the local store.
//!
//! Phase 1 upserts the metadata delta (the external record always wins).
//! Phase 2 diffs a full `(persistent id, rating, bpm)` snapshot against the
//! store, because the external change marker does not cover those fields,
//! and writes only the records that differ. Phase 3 diffs the full playlist
//! snapshot: playlists gone externally are deleted locally, membership is
//! filtered to known tracks, and a playlist is rewritten only when name,
//! folder flag, parent or ordered membership differ.
//!
//! A [`SyncFlag`] gives compare-and-set mutual exclusion between a full
//! import and an incremental pass: the full import fails when the flag is
//! held, the incremental pass silently reports zero changes.

use vstd::prelude::*;

use crate::db::apply_field_update;
use crate::db::Database;
use crate::db::StoreView;
use crate::find::find_playlist_by_pid;
use crate::find::lemma_find_playlist_by_pid;
use crate::find::lemma_find_playlist_by_pid_is;
use crate::find::lemma_find_playlist_by_pid_none;
use crate::find::find_track_by_pid;
use crate::find::lemma_find_track_by_pid;
use crate::find::lemma_find_track_by_pid_is;
use crate::find::lemma_find_track_by_pid_none;
use crate::db::merge_track;
use crate::db::normalize_playlist;
use crate::db::entry_as_playlist;
use crate::db::playlist_up_to_date;
use crate::db::playlist_pids;
use crate::db::lemma_playlist_pids;
use crate::db::remove_playlists_spec;
use crate::db::removed_names_spec;
use crate::db::seq_contains_str;
use crate::db::upsert_playlist_spec;
use crate::db::upsert_track_spec;
use crate::model::Playlist;
use crate::model::PlaylistSnapshotEntry;
use crate::model::PlaylistSnapshotEntryView;
use crate::model::PlaylistView;
use crate::model::SnapshotEntry;
use crate::model::SnapshotEntryView;
use crate::model::SyncResult;
use crate::model::Track;
use crate::model::TrackView;

verus! {

/// Mutual exclusion between sync passes, with compare-and-set semantics:
/// `try_acquire` reports whether the flag was free and always leaves it
/// held, so both the fail-if-running and the skip-if-running policy can be
/// built on it.
pub struct SyncFlag {
    busy: bool,
}

impl SyncFlag {
    pub closed spec fn is_busy(&self) -> bool {
        self.busy
    }

    pub fn new() -> (r: SyncFlag)
        ensures
            !r.is_busy(),
    {
        SyncFlag { busy: false }
    }

    /// Reads the flag without taking it, for cheap early skips; mutual
    /// exclusion itself still rests on `try_acquire`.
    pub fn is_held(&self) -> (r: bool)
        ensures
            r == self.is_busy(),
    {
        self.busy
    }

    /// Takes the flag; reports whether it was free before the call.
    pub fn try_acquire(&mut self) -> (r: bool)
        ensures
            r == !old(self).is_busy(),
            final(self).is_busy(),
    {
        let was = self.busy;
        self.busy = true;
        !was
    }

    /// Releases the flag.
    pub fn release(&mut self)
        ensures
            !final(self).is_busy(),
    {
        self.busy = false;
    }
}

/// Phase 1 as a fold: upsert each delta record in order.
pub open spec fn apply_delta(tracks: Seq<TrackView>, next_id: int, delta: Seq<TrackView>) -> (
    Seq<TrackView>,
    int,
)
    decreases delta.len(),
{
    if delta.len() == 0 {
        (tracks, next_id)
    } else {
        let step = upsert_track_spec(tracks, next_id, delta[0]);
        apply_delta(step.0, step.1, delta.drop_first())
    }
}

/// Phase 1 — metadata delta. Every externally changed track is upserted
/// into the store keyed by persistent identifier; the count reported is the
/// number of delta records, as every one is written.
pub fn sync_metadata_delta(db: &mut Database, changed: &Vec<Track>) -> (n: usize)
    requires
        old(db).wf(),
        old(db)@.next_track_id + changed@.len() <= i64::MAX,
    ensures
        final(db).wf(),
        (final(db)@.tracks, final(db)@.next_track_id) == apply_delta(
            old(db)@.tracks,
            old(db)@.next_track_id,
            changed.deep_view(),
        ),
        final(db)@ == (StoreView {
            tracks: final(db)@.tracks,
            next_track_id: final(db)@.next_track_id,
            ..old(db)@
        }),
        n == changed@.len(),
    {
        let ghost delta = changed.deep_view();
        let mut i: usize = 0;
        proof {
            assert(delta.skip(0) =~= delta);
        }
        while i < changed.len()
            invariant
                i <= delta.len(),
                delta == changed.deep_view(),
                delta.len() == changed@.len(),
                db.wf(),
                db@.next_track_id + (delta.len() - i) <= i64::MAX,
                apply_delta(old(db)@.tracks, old(db)@.next_track_id, delta) == apply_delta(
                    db@.tracks,
                    db@.next_track_id,
                    delta.skip(i as int),
                ),
                db@ == (StoreView {
                    tracks: db@.tracks,
                    next_track_id: db@.next_track_id,
                    ..old(db)@
                }),
            decreases delta.len() - i,
        {
            let ghost suffix = delta.skip(i as int);
            proof {
                assert(suffix[0] == delta[i as int]);
                assert(delta[i as int] == changed@[i as int]@);
                assert(suffix.drop_first() =~= delta.skip(i + 1));
            }
            db.insert_track(&changed[i]);
            i = i + 1;
        }
        proof {
            assert(delta.skip(delta.len() as int) =~= Seq::<TrackView>::empty());
        }
        changed.len()
    }

/// One snapshot record applied to the store's tracks, together with how
/// many records it changed (one or none).
pub open spec fn apply_entry(tracks: Seq<TrackView>, e: SnapshotEntryView) -> (
    Seq<TrackView>,
    int,
) {
    apply_field_update(tracks, e.persistent_id, e.rating, e.bpm)
}

/// Phase 2 as a fold over the snapshot.
pub open spec fn apply_snapshot(tracks: Seq<TrackView>, entries: Seq<SnapshotEntryView>) -> (
    Seq<TrackView>,
    int,
)
    decreases entries.len(),
{
    if entries.len() == 0 {
        (tracks, 0)
    } else {
        let step = apply_entry(tracks, entries[0]);
        let rest = apply_snapshot(step.0, entries.drop_first());
        (rest.0, step.1 + rest.1)
    }
}

/// Phase 2 — snapshot diff for untracked fields. For every snapshot record
/// whose persistent identifier the store knows, rating and BPM are written
/// exactly when at least one of the two differs; the count is the number of
/// records written.
pub fn sync_snapshot_fields(db: &mut Database, snapshot: &Vec<SnapshotEntry>) -> (n: usize)
    requires
        old(db).wf(),
    ensures
        final(db).wf(),
        final(db)@.tracks == apply_snapshot(old(db)@.tracks, snapshot.deep_view()).0,
        n as int == apply_snapshot(old(db)@.tracks, snapshot.deep_view()).1,
        n <= snapshot@.len(),
        final(db)@ == (StoreView { tracks: final(db)@.tracks, ..old(db)@ }),
    {
        let ghost entries = snapshot.deep_view();
        let mut i: usize = 0;
        let mut n: usize = 0;
        proof {
            assert(entries.skip(0) =~= entries);
        }
        while i < snapshot.len()
            invariant
                i <= entries.len(),
                entries == snapshot.deep_view(),
                entries.len() == snapshot@.len(),
                n <= i,
                db.wf(),
                apply_snapshot(old(db)@.tracks, entries) == (
                    apply_snapshot(db@.tracks, entries.skip(i as int)).0,
                    n + apply_snapshot(db@.tracks, entries.skip(i as int)).1,
                ),
                db@ == (StoreView { tracks: db@.tracks, ..old(db)@ }),
            decreases entries.len() - i,
        {
            let ghost suffix = entries.skip(i as int);
            proof {
                assert(suffix[0] == entries[i as int]);
                assert(entries[i as int] == snapshot@[i as int]@);
                assert(suffix.drop_first() =~= entries.skip(i + 1));
            }
            let e = &snapshot[i];
            let changed = db.update_rating_bpm(e.persistent_id.as_str(), e.rating, e.bpm);
            if changed {
                n = n + 1;
            }
            i = i + 1;
        }
        proof {
            assert(entries.skip(entries.len() as int) =~= Seq::<SnapshotEntryView>::empty());
        }
        n
    }

/// The persistent identifiers named by a playlist snapshot, in order.
pub open spec fn snapshot_pids(entries: Seq<PlaylistSnapshotEntryView>) -> Seq<Seq<char>>
    decreases entries.len(),
{
    if entries.len() == 0 {
        Seq::empty()
    } else {
        seq![entries[0].persistent_id] + snapshot_pids(entries.drop_first())
    }
}

pub proof fn lemma_snapshot_pids(entries: Seq<PlaylistSnapshotEntryView>)
    ensures
        snapshot_pids(entries).len() == entries.len(),
        forall|k: int| 0 <= k < entries.len() ==> #[trigger] snapshot_pids(entries)[k]
            == entries[k].persistent_id,
    decreases entries.len(),
{
    if entries.len() > 0 {
        lemma_snapshot_pids(entries.drop_first());
        assert forall|k: int| 0 <= k < entries.len() implies #[trigger] snapshot_pids(entries)[k]
            == entries[k].persistent_id by {
            if k > 0 {
                assert(snapshot_pids(entries)[k] == snapshot_pids(entries.drop_first())[k - 1]);
                assert(entries.drop_first()[k - 1] == entries[k]);
            }
        }
    }
}

/// The locally stored identifiers that the snapshot no longer names: these
/// playlists disappeared externally and are deleted locally.
pub open spec fn absent_pids(pids: Seq<Seq<char>>, spids: Seq<Seq<char>>) -> Seq<Seq<char>>
    decreases pids.len(),
{
    if pids.len() == 0 {
        Seq::empty()
    } else {
        let rest = absent_pids(pids.drop_first(), spids);
        if seq_contains_str(spids, pids[0]) {
            rest
        } else {
            seq![pids[0]] + rest
        }
    }
}

/// One playlist snapshot record applied to the store: nothing when the
/// stored playlist already equals the record's stored form, an upsert
/// counted as one change otherwise.
pub open spec fn apply_playlist_entry(
    ps: Seq<PlaylistView>,
    next_id: int,
    e: PlaylistSnapshotEntryView,
    tracks: Seq<TrackView>,
) -> (Seq<PlaylistView>, int, int) {
    let p = entry_as_playlist(e);
    if playlist_up_to_date(ps, p, tracks) {
        (ps, next_id, 0)
    } else {
        let u = upsert_playlist_spec(ps, next_id, p, tracks);
        (u.0, u.1, 1)
    }
}

/// The upsert half of phase 3 as a fold over the snapshot.
pub open spec fn apply_playlist_snapshot(
    ps: Seq<PlaylistView>,
    next_id: int,
    entries: Seq<PlaylistSnapshotEntryView>,
    tracks: Seq<TrackView>,
) -> (Seq<PlaylistView>, int, int)
    decreases entries.len(),
{
    if entries.len() == 0 {
        (ps, next_id, 0)
    } else {
        let step = apply_playlist_entry(ps, next_id, entries[0], tracks);
        let rest = apply_playlist_snapshot(step.0, step.1, entries.drop_first(), tracks);
        (rest.0, rest.1, step.2 + rest.2)
    }
}

/// All of phase 3: locally stored playlists absent from the snapshot are
/// deleted, then every snapshot record that differs from its stored form is
/// upserted; the count totals deletions and upserts.
pub open spec fn phase3_spec(
    ps: Seq<PlaylistView>,
    next_id: int,
    entries: Seq<PlaylistSnapshotEntryView>,
    tracks: Seq<TrackView>,
) -> (Seq<PlaylistView>, int, int) {
    let dels = absent_pids(playlist_pids(ps), snapshot_pids(entries));
    let remaining = remove_playlists_spec(ps, dels);
    let after = apply_playlist_snapshot(remaining, next_id, entries, tracks);
    (after.0, after.1, removed_names_spec(ps, dels).len() + after.2)
}

/// Phase 3 — playlist graph diff.
pub fn sync_playlists(db: &mut Database, snapshot: &Vec<PlaylistSnapshotEntry>) -> (n: usize)
    requires
        old(db).wf(),
        old(db)@.next_playlist_id + snapshot@.len() <= i64::MAX,
        old(db)@.playlists.len() + snapshot@.len() <= usize::MAX,
    ensures
        final(db).wf(),
        (final(db)@.playlists, final(db)@.next_playlist_id) == (
            phase3_spec(
                old(db)@.playlists,
                old(db)@.next_playlist_id,
                snapshot.deep_view(),
                old(db)@.tracks,
            ).0,
            phase3_spec(
                old(db)@.playlists,
                old(db)@.next_playlist_id,
                snapshot.deep_view(),
                old(db)@.tracks,
            ).1,
        ),
        n as int == phase3_spec(
            old(db)@.playlists,
            old(db)@.next_playlist_id,
            snapshot.deep_view(),
            old(db)@.tracks,
        ).2,
        final(db)@ == (StoreView {
            playlists: final(db)@.playlists,
            next_playlist_id: final(db)@.next_playlist_id,
            ..old(db)@
        }),
    {
        let ghost entries = snapshot.deep_view();
        let ghost spids = snapshot_pids(entries);
        let local_pids = db.get_playlist_pids();
        let ghost lpids = local_pids.deep_view();

        // collect the locally stored identifiers the snapshot no longer names
        let mut deleted: Vec<String> = Vec::new();
        let mut i: usize = 0;
        proof {
            assert(lpids.skip(0) =~= lpids);
        }
        while i < local_pids.len()
            invariant
                i <= lpids.len(),
                lpids == local_pids.deep_view(),
                lpids.len() == local_pids@.len(),
                spids == snapshot_pids(entries),
                entries == snapshot.deep_view(),
                entries.len() == snapshot@.len(),
                absent_pids(lpids, spids) == deleted.deep_view() + absent_pids(
                    lpids.skip(i as int),
                    spids,
                ),
            decreases lpids.len() - i,
        {
            let ghost suffix = lpids.skip(i as int);
            proof {
                assert(suffix[0] == lpids[i as int]);
                assert(lpids[i as int] == local_pids@[i as int]@);
                assert(suffix.drop_first() =~= lpids.skip(i + 1));
            }
            let mut listed = false;
            let mut k: usize = 0;
            while k < snapshot.len()
                invariant
                    k <= entries.len(),
                    entries == snapshot.deep_view(),
                    entries.len() == snapshot@.len(),
                    i < lpids.len(),
                    lpids == local_pids.deep_view(),
                    lpids.len() == local_pids@.len(),
                    lpids[i as int] == local_pids@[i as int]@,
                    listed == exists|j: int|
                        0 <= j < k && (#[trigger] entries[j]).persistent_id == lpids[i as int],
                decreases entries.len() - k,
            {
                proof {
                    assert(entries[k as int] == snapshot@[k as int]@);
                }
                if crate::strutil::str_eq(
                    snapshot[k].persistent_id.as_str(),
                    local_pids[i].as_str(),
                ) {
                    listed = true;
                }
                k = k + 1;
            }
            proof {
                lemma_snapshot_pids(entries);
                if listed {
                    let j = choose|j: int|
                        0 <= j < entries.len() && (#[trigger] entries[j]).persistent_id == lpids[
                        i as int];
                    assert(spids[j] == lpids[i as int]);
                    assert(seq_contains_str(spids, lpids[i as int]));
                } else {
                    if seq_contains_str(spids, lpids[i as int]) {
                        let j = choose|j: int|
                            0 <= j < spids.len() && #[trigger] spids[j] == lpids[i as int];
                        assert(entries[j].persistent_id == lpids[i as int]);
                    }
                }
            }
            if !listed {
                let ghost bd = deleted.deep_view();
                deleted.push(local_pids[i].clone());
                proof {
                    assert(deleted.deep_view() =~= bd.push(lpids[i as int]));
                    assert(bd.push(lpids[i as int]) =~= bd + seq![lpids[i as int]]);
                    assert(deleted.deep_view() + absent_pids(lpids.skip(i + 1), spids) =~= bd + (
                    seq![lpids[i as int]] + absent_pids(lpids.skip(i + 1), spids)));
                }
            }
            i = i + 1;
        }
        proof {
            assert(lpids.skip(lpids.len() as int) =~= Seq::<Seq<char>>::empty());
            assert(deleted.deep_view() + Seq::<Seq<char>>::empty() =~= deleted.deep_view());
        }

        // delete them, then upsert every record that differs
        let names = db.remove_playlists_by_persistent_ids(&deleted);
        let mut n: usize = names.len();
        proof {
            assert(names.deep_view().len() == names@.len());
            crate::db::lemma_removed_split(old(db)@.playlists, deleted.deep_view());
        }
        let ghost after_del = db@.playlists;
        let mut k: usize = 0;
        proof {
            assert(entries.skip(0) =~= entries);
        }
        while k < snapshot.len()
            invariant
                k <= entries.len(),
                entries == snapshot.deep_view(),
                entries.len() == snapshot@.len(),
                db.wf(),
                db@.tracks == old(db)@.tracks,
                old(db)@.playlists.len() + entries.len() <= usize::MAX,
                n <= old(db)@.playlists.len() + k,
                db@.next_playlist_id + (entries.len() - k) <= i64::MAX,
                apply_playlist_snapshot(after_del, old(db)@.next_playlist_id, entries, old(db)@.tracks)
                    == (
                    apply_playlist_snapshot(
                        db@.playlists,
                        db@.next_playlist_id,
                        entries.skip(k as int),
                        old(db)@.tracks,
                    ).0,
                    apply_playlist_snapshot(
                        db@.playlists,
                        db@.next_playlist_id,
                        entries.skip(k as int),
                        old(db)@.tracks,
                    ).1,
                    n - names.deep_view().len() + apply_playlist_snapshot(
                        db@.playlists,
                        db@.next_playlist_id,
                        entries.skip(k as int),
                        old(db)@.tracks,
                    ).2,
                ),
                db@ == (StoreView {
                    playlists: db@.playlists,
                    next_playlist_id: db@.next_playlist_id,
                    ..old(db)@
                }),
                names.deep_view().len() <= n,
            decreases entries.len() - k,
        {
            let ghost suffix = entries.skip(k as int);
            proof {
                assert(suffix[0] == entries[k as int]);
                assert(entries[k as int] == snapshot@[k as int]@);
                assert(suffix.drop_first() =~= entries.skip(k + 1));
            }
            let e = &snapshot[k];
            if !db.playlist_matches_entry(e) {
                let p = crate::model::Playlist {
                    id: 0,
                    persistent_id: e.persistent_id.clone(),
                    parent_persistent_id: crate::model::clone_opt_string(&e.parent_persistent_id),
                    name: e.name.clone(),
                    is_folder: e.is_folder,
                    track_ids: Some(crate::model::clone_string_vec(&e.track_ids)),
                };
                proof {
                    assert(p@ == entry_as_playlist(entries[k as int]));
                }
                db.insert_playlist(&p);
                n = n + 1;
            }
            k = k + 1;
        }
        proof {
            assert(entries.skip(entries.len() as int) =~= Seq::<
                PlaylistSnapshotEntryView,
            >::empty());
        }
        n
    }

/// The views of an optional delta.
pub open spec fn opt_tracks_view(o: Option<Vec<Track>>) -> Option<Seq<TrackView>> {
    match o {
        Some(v) => Some(v.deep_view()),
        None => None,
    }
}

pub open spec fn opt_fields_view(o: Option<Vec<SnapshotEntry>>) -> Option<
    Seq<SnapshotEntryView>,
> {
    match o {
        Some(v) => Some(v.deep_view()),
        None => None,
    }
}

pub open spec fn opt_lists_view(o: Option<Vec<PlaylistSnapshotEntry>>) -> Option<
    Seq<PlaylistSnapshotEntryView>,
> {
    match o {
        Some(v) => Some(v.deep_view()),
        None => None,
    }
}

/// One full incremental sync pass over the store: phase 1 where the delta
/// was fetched, phase 2 where the field snapshot was fetched, phase 3 where
/// the playlist snapshot was fetched (`None` marks a gateway failure, which
/// skips that phase and never blocks the next). Results: the new store, the
/// track-change count, and the playlist-change count.
pub open spec fn sync_pass_spec(
    v: StoreView,
    changed: Option<Seq<TrackView>>,
    fields: Option<Seq<SnapshotEntryView>>,
    lists: Option<Seq<PlaylistSnapshotEntryView>>,
) -> (StoreView, int, int) {
    let p1 = match changed {
        Some(d) => {
            let s = apply_delta(v.tracks, v.next_track_id, d);
            (s.0, s.1, d.len() as int)
        },
        None => (v.tracks, v.next_track_id, 0),
    };
    let p2 = match fields {
        Some(es) => apply_snapshot(p1.0, es),
        None => (p1.0, 0),
    };
    let p3 = match lists {
        Some(ls) => phase3_spec(v.playlists, v.next_playlist_id, ls, p2.0),
        None => (v.playlists, v.next_playlist_id, 0),
    };
    (
        StoreView {
            tracks: p2.0,
            next_track_id: p1.1,
            playlists: p3.0,
            next_playlist_id: p3.1,
            ..v
        },
        p1.2 + p2.1,
        p3.2,
    )
}

/// An incremental sync pass: skipped with a zero result while another pass
/// holds the flag, otherwise the three phases run in order — a phase whose
/// snapshot the gateway failed to deliver (`None`) is skipped without
/// blocking the rest — and the flag is released.
pub fn sync_recent_changes(
    db: &mut Database,
    flag: &mut SyncFlag,
    changed: Option<Vec<Track>>,
    field_snapshot: Option<Vec<SnapshotEntry>>,
    playlist_snapshot: Option<Vec<PlaylistSnapshotEntry>>,
) -> (r: SyncResult)
    requires
        old(db).wf(),
        (match changed {
            Some(c) => old(db)@.next_track_id + c@.len() <= i64::MAX && c@.len() + (
            match field_snapshot {
                Some(f) => f@.len(),
                None => 0,
            }) <= usize::MAX,
            None => true,
        }),
        (match playlist_snapshot {
            Some(p) => old(db)@.next_playlist_id + p@.len() <= i64::MAX && old(
                db,
            )@.playlists.len() + p@.len() <= usize::MAX,
            None => true,
        }),
    ensures
        final(db).wf(),
        old(flag).is_busy() ==> final(db)@ == old(db)@ && r.tracks_updated == 0
            && r.playlists_updated == 0 && final(flag).is_busy(),
        !old(flag).is_busy() ==> !final(flag).is_busy() && final(db)@ == sync_pass_spec(
            old(db)@,
            opt_tracks_view(changed),
            opt_fields_view(field_snapshot),
            opt_lists_view(playlist_snapshot),
        ).0 && r.tracks_updated as int == sync_pass_spec(
            old(db)@,
            opt_tracks_view(changed),
            opt_fields_view(field_snapshot),
            opt_lists_view(playlist_snapshot),
        ).1 && r.playlists_updated as int == sync_pass_spec(
            old(db)@,
            opt_tracks_view(changed),
            opt_fields_view(field_snapshot),
            opt_lists_view(playlist_snapshot),
        ).2,
{
    if !flag.try_acquire() {
        return SyncResult { tracks_updated: 0, playlists_updated: 0 };
    }
    let mut tracks_updated: usize = 0;
    match &changed {
        Some(c) => {
            tracks_updated = sync_metadata_delta(db, c);
        },
        None => {},
    }
    match &field_snapshot {
        Some(f) => {
            let n2 = sync_snapshot_fields(db, f);
            tracks_updated = tracks_updated + n2;
        },
        None => {},
    }
    let mut playlists_updated: usize = 0;
    match &playlist_snapshot {
        Some(p) => {
            playlists_updated = sync_playlists(db, p);
        },
        None => {},
    }
    flag.release();
    SyncResult { tracks_updated, playlists_updated }
}

/// A full import: refused outright while a sync pass holds the flag,
/// otherwise every fetched track and playlist is upserted, the flag is
/// released, and the number of imported tracks is returned.
pub fn import_from_external(
    db: &mut Database,
    flag: &mut SyncFlag,
    tracks: &Vec<Track>,
    playlists: &Vec<Playlist>,
) -> (r: Result<usize, ()>)
    requires
        old(db).wf(),
        old(db)@.next_track_id + tracks@.len() <= i64::MAX,
        old(db)@.next_playlist_id + playlists@.len() <= i64::MAX,
    ensures
        final(db).wf(),
        (r is Err) == old(flag).is_busy(),
        old(flag).is_busy() ==> final(db)@ == old(db)@ && final(flag).is_busy(),
        !old(flag).is_busy() ==> !final(flag).is_busy() && r == Result::<usize, ()>::Ok(
            tracks.len(),
        ) && final(db)@ == apply_import(old(db)@, tracks.deep_view(), playlists.deep_view()),
{
    if !flag.try_acquire() {
        return Err(());
    }
    let n = sync_metadata_delta(db, tracks);
    let ghost mid = db@;
    let ghost lists = playlists.deep_view();
    let mut i: usize = 0;
    proof {
        assert(lists.skip(0) =~= lists);
    }
    while i < playlists.len()
        invariant
            i <= lists.len(),
            lists == playlists.deep_view(),
            lists.len() == playlists@.len(),
            db.wf(),
            db@.next_playlist_id + (lists.len() - i) <= i64::MAX,
            db@.tracks == mid.tracks,
            apply_playlists(mid, lists) == apply_playlists(db@, lists.skip(i as int)),
            db@ == (StoreView {
                playlists: db@.playlists,
                next_playlist_id: db@.next_playlist_id,
                ..mid
            }),
        decreases lists.len() - i,
    {
        let ghost suffix = lists.skip(i as int);
        proof {
            assert(suffix[0] == lists[i as int]);
            assert(lists[i as int] == playlists@[i as int]@);
            assert(suffix.drop_first() =~= lists.skip(i + 1));
        }
        db.insert_playlist(&playlists[i]);
        i = i + 1;
    }
    proof {
        assert(lists.skip(lists.len() as int) =~= Seq::<PlaylistView>::empty());
    }
    flag.release();
    Ok(n)
}

/// Playlists folded into the store by upsert.
pub open spec fn apply_playlists(v: StoreView, lists: Seq<PlaylistView>) -> StoreView
    decreases lists.len(),
{
    if lists.len() == 0 {
        v
    } else {
        let u = upsert_playlist_spec(v.playlists, v.next_playlist_id, lists[0], v.tracks);
        apply_playlists(
            StoreView { playlists: u.0, next_playlist_id: u.1, ..v },
            lists.drop_first(),
        )
    }
}

/// A full import as one step: the track delta applied, then every playlist
/// upserted against the updated tracks.
pub open spec fn apply_import(
    v: StoreView,
    tracks: Seq<TrackView>,
    playlists: Seq<PlaylistView>,
) -> StoreView {
    let p1 = apply_delta(v.tracks, v.next_track_id, tracks);
    apply_playlists(
        StoreView { tracks: p1.0, next_track_id: p1.1, ..v },
        playlists,
    )
}

/// Delta and snapshot records address each track at most once, and always
/// through a non-empty identifier.
pub open spec fn delta_pids_ok(delta: Seq<TrackView>) -> bool {
    &&& forall|k: int| 0 <= k < delta.len() ==> (#[trigger] delta[k]).persistent_id.len() > 0
    &&& forall|a: int, b: int|
        0 <= a < b < delta.len() ==> (#[trigger] delta[a]).persistent_id != (
        #[trigger] delta[b]).persistent_id
}

pub open spec fn entry_pids_ok(entries: Seq<SnapshotEntryView>) -> bool {
    forall|a: int, b: int|
        0 <= a < b < entries.len() ==> (#[trigger] entries[a]).persistent_id != (
        #[trigger] entries[b]).persistent_id
}

/// The finder by persistent identifier reads nothing but the identifiers.
proof fn lemma_find_pid_same(a: Seq<TrackView>, b: Seq<TrackView>, pid: Seq<char>)
    requires
        a.len() == b.len(),
        forall|i: int|
            0 <= i < a.len() ==> (#[trigger] a[i]).persistent_id == (
            #[trigger] b[i]).persistent_id,
    ensures
        find_track_by_pid(a, pid) == find_track_by_pid(b, pid),
    decreases a.len(),
{
    if a.len() > 0 {
        assert forall|i: int|
            0 <= i < a.drop_first().len() implies (#[trigger] a.drop_first()[i]).persistent_id
            == (#[trigger] b.drop_first()[i]).persistent_id by {
            assert(a.drop_first()[i] == a[i + 1]);
            assert(b.drop_first()[i] == b[i + 1]);
        }
        lemma_find_pid_same(a.drop_first(), b.drop_first(), pid);
    }
}

/// One field-snapshot record changes at most one track's rating and BPM,
/// and never a persistent identifier, id, or any other field.
proof fn lemma_entry_frame(tracks: Seq<TrackView>, e: SnapshotEntryView)
    ensures
        ({
            let r = apply_entry(tracks, e).0;
            &&& r.len() == tracks.len()
            &&& forall|i: int|
                0 <= i < tracks.len() ==> (#[trigger] r[i]).persistent_id
                    == tracks[i].persistent_id
            &&& forall|i: int|
                0 <= i < tracks.len() && find_track_by_pid(tracks, e.persistent_id) != Some(i)
                    ==> #[trigger] r[i] == tracks[i]
            &&& forall|i: int|
                0 <= i < tracks.len() && find_track_by_pid(tracks, e.persistent_id) == Some(i)
                    ==> #[trigger] r[i] == (TrackView {
                    rating: e.rating,
                    bpm: e.bpm,
                    ..tracks[i]
                })
        }),
{
    lemma_find_track_by_pid(tracks, e.persistent_id);
}

/// What a full field-snapshot pass does, track by track.
proof fn lemma_snapshot_pointwise(tracks: Seq<TrackView>, entries: Seq<SnapshotEntryView>)
    requires
        entry_pids_ok(entries),
    ensures
        ({
            let r = apply_snapshot(tracks, entries).0;
            &&& r.len() == tracks.len()
            &&& forall|i: int|
                0 <= i < tracks.len() ==> (#[trigger] r[i]).persistent_id
                    == tracks[i].persistent_id
            &&& forall|i: int|
                0 <= i < tracks.len() && (forall|k: int|
                    0 <= k < entries.len() ==> find_track_by_pid(
                        tracks,
                        (#[trigger] entries[k]).persistent_id,
                    ) != Some(i)) ==> #[trigger] r[i] == tracks[i]
            &&& forall|i: int, k: int|
                0 <= i < tracks.len() && 0 <= k < entries.len() && find_track_by_pid(
                    tracks,
                    (#[trigger] entries[k]).persistent_id,
                ) == Some(i) ==> #[trigger] r[i] == (TrackView {
                    rating: entries[k].rating,
                    bpm: entries[k].bpm,
                    ..tracks[i]
                })
        }),
    decreases entries.len(),
{
    if entries.len() > 0 {
        let e0 = entries[0];
        let t1 = apply_entry(tracks, e0).0;
        let rest = entries.drop_first();
        lemma_entry_frame(tracks, e0);
        assert(entry_pids_ok(rest)) by {
            assert(forall|k: int| 0 <= k < rest.len() ==> rest[k] == entries[k + 1]);
        }
        lemma_snapshot_pointwise(t1, rest);
        let r = apply_snapshot(tracks, entries).0;
        assert(r == apply_snapshot(t1, rest).0);
        lemma_find_track_by_pid(tracks, e0.persistent_id);
        // identifiers never move, so later lookups agree with the starting store
        assert forall|p: Seq<char>| true implies find_track_by_pid(t1, p) == find_track_by_pid(
            tracks,
            p,
        ) by {
            lemma_find_pid_same(t1, tracks, p);
        }
        assert forall|i: int|
            0 <= i < tracks.len() && (forall|k: int|
                0 <= k < entries.len() ==> find_track_by_pid(
                    tracks,
                    (#[trigger] entries[k]).persistent_id,
                ) != Some(i)) implies #[trigger] r[i] == tracks[i] by {
            assert(find_track_by_pid(tracks, entries[0].persistent_id) != Some(i));
            assert(t1[i] == tracks[i]);
            assert forall|k: int| 0 <= k < rest.len() implies find_track_by_pid(
                t1,
                (#[trigger] rest[k]).persistent_id,
            ) != Some(i) by {
                assert(rest[k] == entries[k + 1]);
            }
        }
        assert forall|i: int, k: int|
            0 <= i < tracks.len() && 0 <= k < entries.len() && find_track_by_pid(
                tracks,
                (#[trigger] entries[k]).persistent_id,
            ) == Some(i) implies #[trigger] r[i] == (TrackView {
            rating: entries[k].rating,
            bpm: entries[k].bpm,
            ..tracks[i]
        }) by {
            if k == 0 {
                assert(t1[i] == (TrackView { rating: e0.rating, bpm: e0.bpm, ..tracks[i] }));
                assert forall|k2: int| 0 <= k2 < rest.len() implies find_track_by_pid(
                    t1,
                    (#[trigger] rest[k2]).persistent_id,
                ) != Some(i) by {
                    assert(rest[k2] == entries[k2 + 1]);
                    if find_track_by_pid(tracks, entries[k2 + 1].persistent_id) == Some(i) {
                        lemma_find_track_by_pid(tracks, entries[k2 + 1].persistent_id);
                        assert(tracks[i].persistent_id == entries[k2 + 1].persistent_id);
                        assert(tracks[i].persistent_id == entries[0].persistent_id);
                        assert(false);
                    }
                }
                assert(r[i] == t1[i]);
            } else {
                assert(entries[k] == rest[k - 1]);
                if find_track_by_pid(tracks, entries[0].persistent_id) == Some(i) {
                    lemma_find_track_by_pid(tracks, entries[k].persistent_id);
                    assert(tracks[i].persistent_id == entries[k].persistent_id);
                    assert(tracks[i].persistent_id == entries[0].persistent_id);
                    assert(false);
                }
                assert(t1[i] == tracks[i]);
                assert(r[i] == (TrackView {
                    rating: entries[k].rating,
                    bpm: entries[k].bpm,
                    ..t1[i]
                }));
            }
        }
    }
}

/// A snapshot record already reflected in the store.
pub open spec fn entry_satisfied(tracks: Seq<TrackView>, e: SnapshotEntryView) -> bool {
    match find_track_by_pid(tracks, e.persistent_id) {
        Some(i) => tracks[i].rating == e.rating && tracks[i].bpm == e.bpm,
        None => true,
    }
}

/// A pass over an already-reflected snapshot writes nothing.
proof fn lemma_snapshot_noop(tracks: Seq<TrackView>, entries: Seq<SnapshotEntryView>)
    requires
        forall|k: int| 0 <= k < entries.len() ==> entry_satisfied(tracks, #[trigger] entries[k]),
    ensures
        apply_snapshot(tracks, entries) == (tracks, 0int),
    decreases entries.len(),
{
    if entries.len() > 0 {
        assert(entry_satisfied(tracks, entries[0]));
        assert(apply_entry(tracks, entries[0]) == (tracks, 0int));
        assert(forall|k: int|
            0 <= k < entries.drop_first().len() ==> entries.drop_first()[k] == entries[k + 1]);
        lemma_snapshot_noop(tracks, entries.drop_first());
    }
}

/// Sync phase 2 idempotence: running the field-snapshot diff twice with no
/// intervening external change leaves the store as after the first run and
/// writes zero records the second time.
pub proof fn lemma_phase2_idempotent(tracks: Seq<TrackView>, entries: Seq<SnapshotEntryView>)
    requires
        entry_pids_ok(entries),
    ensures
        apply_snapshot(apply_snapshot(tracks, entries).0, entries) == (
            apply_snapshot(tracks, entries).0,
            0int,
        ),
{
    let f = apply_snapshot(tracks, entries).0;
    lemma_snapshot_pointwise(tracks, entries);
    assert forall|k: int| 0 <= k < entries.len() implies entry_satisfied(
        f,
        #[trigger] entries[k],
    ) by {
        lemma_find_pid_same(f, tracks, entries[k].persistent_id);
        match find_track_by_pid(tracks, entries[k].persistent_id) {
            Some(i) => {
                lemma_find_track_by_pid(tracks, entries[k].persistent_id);
                assert(f[i] == (TrackView {
                    rating: entries[k].rating,
                    bpm: entries[k].bpm,
                    ..tracks[i]
                }));
            },
            None => {},
        }
    }
    lemma_snapshot_noop(f, entries);
}


/// A delta that never names `p` neither moves nor changes the record found
/// under `p`.
proof fn lemma_delta_untouched(
    tracks: Seq<TrackView>,
    next_id: int,
    delta: Seq<TrackView>,
    p: Seq<char>,
)
    requires
        p.len() > 0,
        forall|k: int| 0 <= k < delta.len() ==> (#[trigger] delta[k]).persistent_id != p,
    ensures
        ({
            let r = apply_delta(tracks, next_id, delta).0;
            match find_track_by_pid(tracks, p) {
                Some(j) => find_track_by_pid(r, p) == Some(j) && r[j] == tracks[j],
                None => find_track_by_pid(r, p) is None,
            }
        }),
    decreases delta.len(),
{
    if delta.len() > 0 {
        let d0 = delta[0];
        let step = upsert_track_spec(tracks, next_id, d0);
        let t1 = step.0;
        lemma_find_track_by_pid(tracks, p);
        lemma_find_track_by_pid(tracks, d0.persistent_id);
        // the single upsert keeps the record under p in place
        if d0.persistent_id.len() > 0 && find_track_by_pid(tracks, d0.persistent_id) is Some {
            let i0 = find_track_by_pid(tracks, d0.persistent_id)->Some_0;
            assert(t1 == tracks.update(i0, merge_track(tracks[i0], d0)));
            match find_track_by_pid(tracks, p) {
                Some(j) => {
                    assert(tracks[j].persistent_id == p);
                    assert(tracks[i0].persistent_id == d0.persistent_id);
                    assert(i0 != j);
                    assert(t1[j] == tracks[j]);
                    assert forall|x: int| 0 <= x < j implies (#[trigger] t1[x]).persistent_id
                        != p by {
                        assert(t1[x].persistent_id == tracks[x].persistent_id);
                    }
                    lemma_find_track_by_pid_is(t1, p, j);
                },
                None => {
                    assert forall|x: int| 0 <= x < t1.len() implies (
                    #[trigger] t1[x]).persistent_id != p by {
                        assert(t1[x].persistent_id == tracks[x].persistent_id);
                    }
                    lemma_find_track_by_pid_none(t1, p);
                },
            }
        } else {
            let appended = TrackView { id: next_id, ..d0 };
            assert(t1 == tracks.push(appended));
            match find_track_by_pid(tracks, p) {
                Some(j) => {
                    assert(tracks[j].persistent_id == p);
                    assert(t1[j] == tracks[j]);
                    assert forall|x: int| 0 <= x < j implies (#[trigger] t1[x]).persistent_id
                        != p by {
                        assert(t1[x] == tracks[x]);
                    }
                    lemma_find_track_by_pid_is(t1, p, j);
                },
                None => {
                    assert forall|x: int| 0 <= x < t1.len() implies (
                    #[trigger] t1[x]).persistent_id != p by {
                        if x < tracks.len() {
                            assert(t1[x] == tracks[x]);
                        } else {
                            assert(t1[x] == appended);
                            assert(appended.persistent_id == d0.persistent_id);
                        }
                    }
                    lemma_find_track_by_pid_none(t1, p);
                },
            }
        }
        assert(forall|k: int|
            0 <= k < delta.drop_first().len() ==> delta.drop_first()[k] == delta[k + 1]);
        lemma_delta_untouched(t1, step.1, delta.drop_first(), p);
        match find_track_by_pid(tracks, p) {
            Some(j) => {
                assert(find_track_by_pid(t1, p) == Some(j) && t1[j] == tracks[j]);
            },
            None => {},
        }
    }
}

/// After a delta pass, every delta record is present under its identifier,
/// fully merged, so upserting it again changes nothing.
proof fn lemma_delta_complete(tracks: Seq<TrackView>, next_id: int, delta: Seq<TrackView>)
    requires
        delta_pids_ok(delta),
    ensures
        ({
            let r = apply_delta(tracks, next_id, delta).0;
            forall|k: int|
                0 <= k < delta.len() ==> match find_track_by_pid(
                    r,
                    (#[trigger] delta[k]).persistent_id,
                ) {
                    Some(j) => 0 <= j < r.len() && merge_track(r[j], delta[k]) == r[j],
                    None => false,
                }
        }),
    decreases delta.len(),
{
    if delta.len() > 0 {
        let d0 = delta[0];
        let step = upsert_track_spec(tracks, next_id, d0);
        let t1 = step.0;
        let rest = delta.drop_first();
        assert(forall|k: int| 0 <= k < rest.len() ==> rest[k] == delta[k + 1]);
        lemma_delta_complete(t1, step.1, rest);
        let r = apply_delta(tracks, next_id, delta).0;
        assert(r == apply_delta(t1, step.1, rest).0);
        // the first record lands merged in the single-step store
        lemma_find_track_by_pid(tracks, d0.persistent_id);
        let ghost j0: int = if find_track_by_pid(tracks, d0.persistent_id) is Some {
            find_track_by_pid(tracks, d0.persistent_id)->Some_0
        } else {
            tracks.len() as int
        };
        if find_track_by_pid(tracks, d0.persistent_id) is Some {
            assert(t1 == tracks.update(j0, merge_track(tracks[j0], d0)));
            assert(t1[j0].persistent_id == d0.persistent_id);
            assert forall|x: int| 0 <= x < j0 implies (#[trigger] t1[x]).persistent_id
                != d0.persistent_id by {
                assert(t1[x].persistent_id == tracks[x].persistent_id);
            }
            lemma_find_track_by_pid_is(t1, d0.persistent_id, j0);
            assert(merge_track(t1[j0], d0) == t1[j0]);
        } else {
            let appended = TrackView { id: next_id, ..d0 };
            assert(t1 == tracks.push(appended));
            assert(t1[j0] == appended);
            assert forall|x: int| 0 <= x < j0 implies (#[trigger] t1[x]).persistent_id
                != d0.persistent_id by {
                assert(t1[x] == tracks[x]);
            }
            lemma_find_track_by_pid_is(t1, d0.persistent_id, j0);
            assert(merge_track(t1[j0], d0) == t1[j0]);
        }
        // and the remaining records never touch it
        assert forall|k: int| 0 <= k < rest.len() implies (#[trigger] rest[k]).persistent_id
            != d0.persistent_id by {
            assert(rest[k] == delta[k + 1]);
        }
        lemma_delta_untouched(t1, step.1, rest, d0.persistent_id);
        assert(find_track_by_pid(r, d0.persistent_id) == Some(j0) && r[j0] == t1[j0]);
        assert forall|k: int| 0 <= k < delta.len() implies match find_track_by_pid(
            r,
            (#[trigger] delta[k]).persistent_id,
        ) {
            Some(j) => 0 <= j < r.len() && merge_track(r[j], delta[k]) == r[j],
            None => false,
        } by {
            if k == 0 {
                lemma_find_track_by_pid(r, delta[0].persistent_id);
                assert(merge_track(r[j0], delta[0]) == r[j0]);
            } else {
                assert(delta[k] == rest[k - 1]);
            }
        }
    }
}

/// Re-upserting records that are already fully merged changes nothing.
proof fn lemma_delta_noop(tracks: Seq<TrackView>, next_id: int, delta: Seq<TrackView>)
    requires
        forall|k: int|
            0 <= k < delta.len() ==> match find_track_by_pid(
                tracks,
                (#[trigger] delta[k]).persistent_id,
            ) {
                Some(j) => 0 <= j < tracks.len() && merge_track(tracks[j], delta[k]) == tracks[j],
                None => false,
            },
        forall|k: int| 0 <= k < delta.len() ==> (#[trigger] delta[k]).persistent_id.len() > 0,
    ensures
        apply_delta(tracks, next_id, delta) == (tracks, next_id),
    decreases delta.len(),
{
    if delta.len() > 0 {
        let d0 = delta[0];
        let j = find_track_by_pid(tracks, d0.persistent_id)->Some_0;
        assert(upsert_track_spec(tracks, next_id, d0).0 == tracks.update(
            j,
            merge_track(tracks[j], d0),
        ));
        assert(tracks.update(j, merge_track(tracks[j], d0)) =~= tracks);
        assert(forall|k: int|
            0 <= k < delta.drop_first().len() ==> delta.drop_first()[k] == delta[k + 1]);
        lemma_delta_noop(tracks, next_id, delta.drop_first());
    }
}

/// Sync phase 1 idempotence: applying the same metadata delta a second
/// time leaves the store exactly as after the first application.
pub proof fn lemma_phase1_idempotent(tracks: Seq<TrackView>, next_id: int, delta: Seq<TrackView>)
    requires
        delta_pids_ok(delta),
    ensures
        apply_delta(
            apply_delta(tracks, next_id, delta).0,
            apply_delta(tracks, next_id, delta).1,
            delta,
        ) == apply_delta(tracks, next_id, delta),
{
    let r = apply_delta(tracks, next_id, delta);
    lemma_delta_complete(tracks, next_id, delta);
    lemma_delta_noop(r.0, r.1, delta);
}

/// Playlist order sensitivity: an external reordering of a playlist's
/// member list — same members, different order — with every other field
/// unchanged is detected by the playlist diff and counted as exactly one
/// change, because stored and incoming membership are compared as ordered
/// sequences.
pub proof fn lemma_playlist_order_sensitive(
    ps: Seq<PlaylistView>,
    next_id: int,
    e: PlaylistSnapshotEntryView,
    tracks: Seq<TrackView>,
    i: int,
)
    requires
        find_playlist_by_pid(ps, e.persistent_id) == Some(i),
        0 <= i < ps.len(),
        !e.is_folder,
        ps[i].track_ids != Some(crate::db::filter_known(e.track_ids, tracks)),
    ensures
        !playlist_up_to_date(ps, entry_as_playlist(e), tracks),
        apply_playlist_entry(ps, next_id, e, tracks).2 == 1,
{
    let p = entry_as_playlist(e);
    if playlist_up_to_date(ps, p, tracks) {
        assert(ps[i] == normalize_playlist(p, ps[i].id, tracks));
        assert(normalize_playlist(p, ps[i].id, tracks).track_ids == Some(
            crate::db::filter_known(e.track_ids, tracks),
        ));
        assert(false);
    }
}

/// The counterpart: a snapshot record that matches the stored playlist in
/// name, folder flag, parent, and ordered membership is not counted and
/// changes nothing.
pub proof fn lemma_playlist_unchanged_not_counted(
    ps: Seq<PlaylistView>,
    next_id: int,
    e: PlaylistSnapshotEntryView,
    tracks: Seq<TrackView>,
    i: int,
)
    requires
        find_playlist_by_pid(ps, e.persistent_id) == Some(i),
        0 <= i < ps.len(),
        ps[i] == normalize_playlist(entry_as_playlist(e), ps[i].id, tracks),
    ensures
        apply_playlist_entry(ps, next_id, e, tracks) == (ps, next_id, 0int),
{
}

/// Playlist snapshot records address each playlist at most once, always
/// through a non-empty identifier.
pub open spec fn list_pids_ok(entries: Seq<PlaylistSnapshotEntryView>) -> bool {
    &&& forall|k: int| 0 <= k < entries.len() ==> (#[trigger] entries[k]).persistent_id.len() > 0
    &&& forall|a: int, b: int|
        0 <= a < b < entries.len() ==> (#[trigger] entries[a]).persistent_id != (
        #[trigger] entries[b]).persistent_id
}

/// The playlist finder reads nothing but the identifiers.
proof fn lemma_find_playlist_pid_same(a: Seq<PlaylistView>, b: Seq<PlaylistView>, pid: Seq<char>)
    requires
        a.len() == b.len(),
        forall|i: int|
            0 <= i < a.len() ==> (#[trigger] a[i]).persistent_id == (
            #[trigger] b[i]).persistent_id,
    ensures
        find_playlist_by_pid(a, pid) == find_playlist_by_pid(b, pid),
    decreases a.len(),
{
    if a.len() > 0 {
        assert forall|i: int|
            0 <= i < a.drop_first().len() implies (#[trigger] a.drop_first()[i]).persistent_id
            == (#[trigger] b.drop_first()[i]).persistent_id by {
            assert(a.drop_first()[i] == a[i + 1]);
            assert(b.drop_first()[i] == b[i + 1]);
        }
        lemma_find_playlist_pid_same(a.drop_first(), b.drop_first(), pid);
    }
}

/// Deletion and names with an empty deletion list change nothing.
proof fn lemma_remove_playlists_none(ps: Seq<PlaylistView>, dels: Seq<Seq<char>>)
    requires
        dels.len() == 0,
    ensures
        remove_playlists_spec(ps, dels) == ps,
        removed_names_spec(ps, dels).len() == 0,
    decreases ps.len(),
{
    if ps.len() > 0 {
        lemma_remove_playlists_none(ps.drop_first(), dels);
        assert(!seq_contains_str(dels, ps[0].persistent_id));
        assert(seq![ps[0]] + ps.drop_first() =~= ps);
    }
}

/// When every local identifier is named by the snapshot, nothing is absent.
proof fn lemma_absent_pids_none(lpids: Seq<Seq<char>>, spids: Seq<Seq<char>>)
    requires
        forall|k: int| 0 <= k < lpids.len() ==> seq_contains_str(spids, #[trigger] lpids[k]),
    ensures
        absent_pids(lpids, spids).len() == 0,
    decreases lpids.len(),
{
    if lpids.len() > 0 {
        assert(seq_contains_str(spids, lpids[0]));
        assert(forall|k: int|
            0 <= k < lpids.drop_first().len() ==> lpids.drop_first()[k] == lpids[k + 1]);
        lemma_absent_pids_none(lpids.drop_first(), spids);
    }
}

/// Every surviving playlist of a deletion carries an identifier outside
/// the deletion list.
proof fn lemma_remove_playlists_members(ps: Seq<PlaylistView>, dels: Seq<Seq<char>>)
    ensures
        forall|i: int|
            0 <= i < remove_playlists_spec(ps, dels).len() ==> !seq_contains_str(
                dels,
                (#[trigger] remove_playlists_spec(ps, dels)[i]).persistent_id,
            ) && seq_contains_str(
                playlist_pids(ps),
                remove_playlists_spec(ps, dels)[i].persistent_id,
            ),
    decreases ps.len(),
{
    lemma_playlist_pids(ps);
    if ps.len() > 0 {
        lemma_remove_playlists_members(ps.drop_first(), dels);
        lemma_playlist_pids(ps.drop_first());
        let rest = remove_playlists_spec(ps.drop_first(), dels);
        let r = remove_playlists_spec(ps, dels);
        assert forall|i: int| 0 <= i < r.len() implies !seq_contains_str(
            dels,
            (#[trigger] r[i]).persistent_id,
        ) && seq_contains_str(playlist_pids(ps), r[i].persistent_id) by {
            if seq_contains_str(dels, ps[0].persistent_id) {
                assert(r[i] == rest[i]);
                let w = choose|w: int|
                    0 <= w < ps.drop_first().len() && #[trigger] playlist_pids(
                        ps.drop_first(),
                    )[w] == rest[i].persistent_id;
                assert(playlist_pids(ps)[w + 1] == ps[w + 1].persistent_id);
                assert(ps.drop_first()[w] == ps[w + 1]);
                assert(seq_contains_str(playlist_pids(ps), rest[i].persistent_id));
            } else {
                if i == 0 {
                    assert(r[0] == ps[0]);
                    assert(playlist_pids(ps)[0] == ps[0].persistent_id);
                } else {
                    assert(r[i] == rest[i - 1]);
                    let w = choose|w: int|
                        0 <= w < ps.drop_first().len() && #[trigger] playlist_pids(
                            ps.drop_first(),
                        )[w] == rest[i - 1].persistent_id;
                    assert(playlist_pids(ps)[w + 1] == ps[w + 1].persistent_id);
                    assert(ps.drop_first()[w] == ps[w + 1]);
                    assert(seq_contains_str(playlist_pids(ps), rest[i - 1].persistent_id));
                }
            }
        }
    }
}

/// What is absent: exactly the local identifiers the snapshot does not
/// name.
proof fn lemma_absent_pids_members(lpids: Seq<Seq<char>>, spids: Seq<Seq<char>>, p: Seq<char>)
    ensures
        seq_contains_str(absent_pids(lpids, spids), p) == (seq_contains_str(lpids, p)
            && !seq_contains_str(spids, p)),
    decreases lpids.len(),
{
    if lpids.len() > 0 {
        lemma_absent_pids_members(lpids.drop_first(), spids, p);
        let rest = absent_pids(lpids.drop_first(), spids);
        let r = absent_pids(lpids, spids);
        assert(forall|k: int|
            0 <= k < lpids.drop_first().len() ==> lpids.drop_first()[k] == lpids[k + 1]);
        if seq_contains_str(spids, lpids[0]) {
            assert(r == rest);
            if seq_contains_str(r, p) {
                assert(seq_contains_str(lpids.drop_first(), p));
                let w = choose|w: int|
                    0 <= w < lpids.drop_first().len() && lpids.drop_first()[w] == p;
                assert(lpids[w + 1] == p);
            }
            if seq_contains_str(lpids, p) && !seq_contains_str(spids, p) {
                let w = choose|w: int| 0 <= w < lpids.len() && lpids[w] == p;
                assert(w != 0);
                assert(lpids.drop_first()[w - 1] == p);
                assert(seq_contains_str(lpids.drop_first(), p));
            }
        } else {
            assert(r == seq![lpids[0]] + rest);
            assert(r[0] == lpids[0]);
            if seq_contains_str(r, p) {
                let y = choose|y: int| 0 <= y < r.len() && r[y] == p;
                if y == 0 {
                    assert(p == lpids[0]);
                    assert(lpids[0] == lpids[0]);
                } else {
                    assert(r[y] == rest[y - 1]);
                    assert(seq_contains_str(rest, p));
                    let w = choose|w: int|
                        0 <= w < lpids.drop_first().len() && lpids.drop_first()[w] == p;
                    assert(lpids[w + 1] == p);
                }
            }
            if seq_contains_str(lpids, p) && !seq_contains_str(spids, p) {
                let w = choose|w: int| 0 <= w < lpids.len() && lpids[w] == p;
                if w == 0 {
                    assert(r[0] == p);
                } else {
                    assert(lpids.drop_first()[w - 1] == p);
                    assert(seq_contains_str(rest, p));
                    let y = choose|y: int| 0 <= y < rest.len() && rest[y] == p;
                    assert(r[y + 1] == p);
                }
            }
        }
    }
}


/// Snapshot records that never name `q` neither move nor change the
/// playlist found under `q`.
proof fn lemma_lists_untouched(
    ps: Seq<PlaylistView>,
    next_id: int,
    entries: Seq<PlaylistSnapshotEntryView>,
    tracks: Seq<TrackView>,
    q: Seq<char>,
)
    requires
        q.len() > 0,
        forall|k: int| 0 <= k < entries.len() ==> (#[trigger] entries[k]).persistent_id != q,
    ensures
        ({
            let r = apply_playlist_snapshot(ps, next_id, entries, tracks).0;
            match find_playlist_by_pid(ps, q) {
                Some(j) => find_playlist_by_pid(r, q) == Some(j) && r[j] == ps[j],
                None => find_playlist_by_pid(r, q) is None,
            }
        }),
    decreases entries.len(),
{
    if entries.len() > 0 {
        let e0 = entries[0];
        let p0 = entry_as_playlist(e0);
        let step = apply_playlist_entry(ps, next_id, e0, tracks);
        let t1 = step.0;
        lemma_find_playlist_by_pid(ps, q);
        lemma_find_playlist_by_pid(ps, p0.persistent_id);
        if playlist_up_to_date(ps, p0, tracks) {
            assert(t1 == ps);
        } else if find_playlist_by_pid(ps, p0.persistent_id) is Some {
            let i0 = find_playlist_by_pid(ps, p0.persistent_id)->Some_0;
            assert(t1 == ps.update(i0, normalize_playlist(p0, ps[i0].id, tracks)));
            match find_playlist_by_pid(ps, q) {
                Some(j) => {
                    assert(ps[j].persistent_id == q);
                    assert(ps[i0].persistent_id == p0.persistent_id);
                    assert(i0 != j);
                    assert(t1[j] == ps[j]);
                    assert forall|x: int| 0 <= x < j implies (#[trigger] t1[x]).persistent_id
                        != q by {
                        assert(t1[x].persistent_id == ps[x].persistent_id);
                    }
                    lemma_find_playlist_by_pid_is(t1, q, j);
                },
                None => {
                    assert forall|x: int| 0 <= x < t1.len() implies (
                    #[trigger] t1[x]).persistent_id != q by {
                        assert(t1[x].persistent_id == ps[x].persistent_id);
                    }
                    lemma_find_playlist_by_pid_none(t1, q);
                },
            }
        } else {
            let appended = normalize_playlist(p0, next_id, tracks);
            assert(t1 == ps.push(appended));
            match find_playlist_by_pid(ps, q) {
                Some(j) => {
                    assert(ps[j].persistent_id == q);
                    assert(t1[j] == ps[j]);
                    assert forall|x: int| 0 <= x < j implies (#[trigger] t1[x]).persistent_id
                        != q by {
                        assert(t1[x] == ps[x]);
                    }
                    lemma_find_playlist_by_pid_is(t1, q, j);
                },
                None => {
                    assert forall|x: int| 0 <= x < t1.len() implies (
                    #[trigger] t1[x]).persistent_id != q by {
                        if x < ps.len() {
                            assert(t1[x] == ps[x]);
                        } else {
                            assert(t1[x] == appended);
                        }
                    }
                    lemma_find_playlist_by_pid_none(t1, q);
                },
            }
        }
        assert(forall|k: int|
            0 <= k < entries.drop_first().len() ==> entries.drop_first()[k] == entries[k + 1]);
        lemma_lists_untouched(t1, step.1, entries.drop_first(), tracks, q);
    }
}

/// After the upsert half of phase 3, every snapshot record's stored form
/// stands in the store, so upserting it again changes nothing.
proof fn lemma_lists_complete(
    ps: Seq<PlaylistView>,
    next_id: int,
    entries: Seq<PlaylistSnapshotEntryView>,
    tracks: Seq<TrackView>,
)
    requires
        list_pids_ok(entries),
    ensures
        ({
            let r = apply_playlist_snapshot(ps, next_id, entries, tracks).0;
            forall|k: int|
                0 <= k < entries.len() ==> playlist_up_to_date(
                    r,
                    entry_as_playlist(#[trigger] entries[k]),
                    tracks,
                )
        }),
    decreases entries.len(),
{
    if entries.len() > 0 {
        let e0 = entries[0];
        let p0 = entry_as_playlist(e0);
        let step = apply_playlist_entry(ps, next_id, e0, tracks);
        let t1 = step.0;
        let rest = entries.drop_first();
        assert(forall|k: int| 0 <= k < rest.len() ==> rest[k] == entries[k + 1]);
        lemma_lists_complete(t1, step.1, rest, tracks);
        let r = apply_playlist_snapshot(ps, next_id, entries, tracks).0;
        assert(r == apply_playlist_snapshot(t1, step.1, rest, tracks).0);
        // the first record's stored form stands in the single-step store
        lemma_find_playlist_by_pid(ps, p0.persistent_id);
        assert(playlist_up_to_date(t1, p0, tracks)) by {
            if playlist_up_to_date(ps, p0, tracks) {
            } else if find_playlist_by_pid(ps, p0.persistent_id) is Some {
                let i0 = find_playlist_by_pid(ps, p0.persistent_id)->Some_0;
                assert(t1 == ps.update(i0, normalize_playlist(p0, ps[i0].id, tracks)));
                assert(t1[i0].persistent_id == p0.persistent_id);
                assert forall|x: int| 0 <= x < i0 implies (#[trigger] t1[x]).persistent_id
                    != p0.persistent_id by {
                    assert(t1[x].persistent_id == ps[x].persistent_id);
                }
                lemma_find_playlist_by_pid_is(t1, p0.persistent_id, i0);
                assert(t1[i0] == normalize_playlist(p0, t1[i0].id, tracks));
            } else {
                let i0 = ps.len() as int;
                let appended = normalize_playlist(p0, next_id, tracks);
                assert(t1 == ps.push(appended));
                assert(t1[i0] == appended);
                assert forall|x: int| 0 <= x < i0 implies (#[trigger] t1[x]).persistent_id
                    != p0.persistent_id by {
                    assert(t1[x] == ps[x]);
                }
                lemma_find_playlist_by_pid_is(t1, p0.persistent_id, i0);
                assert(t1[i0] == normalize_playlist(p0, t1[i0].id, tracks));
            }
        }
        // and the remaining records never touch it
        assert forall|k: int| 0 <= k < rest.len() implies (#[trigger] rest[k]).persistent_id
            != p0.persistent_id by {
            assert(rest[k] == entries[k + 1]);
        }
        lemma_lists_untouched(t1, step.1, rest, tracks, p0.persistent_id);
        assert(playlist_up_to_date(r, p0, tracks)) by {
            let j = find_playlist_by_pid(t1, p0.persistent_id)->Some_0;
            lemma_find_playlist_by_pid(t1, p0.persistent_id);
            assert(find_playlist_by_pid(r, p0.persistent_id) == Some(j) && r[j] == t1[j]);
        }
        assert forall|k: int| 0 <= k < entries.len() implies playlist_up_to_date(
            r,
            entry_as_playlist(#[trigger] entries[k]),
            tracks,
        ) by {
            if k > 0 {
                assert(entries[k] == rest[k - 1]);
            }
        }
    }
}

/// Re-upserting records whose stored forms already stand changes nothing.
proof fn lemma_lists_noop(
    ps: Seq<PlaylistView>,
    next_id: int,
    entries: Seq<PlaylistSnapshotEntryView>,
    tracks: Seq<TrackView>,
)
    requires
        forall|k: int|
            0 <= k < entries.len() ==> playlist_up_to_date(
                ps,
                entry_as_playlist(#[trigger] entries[k]),
                tracks,
            ),
    ensures
        apply_playlist_snapshot(ps, next_id, entries, tracks) == (ps, next_id, 0int),
    decreases entries.len(),
{
    if entries.len() > 0 {
        assert(playlist_up_to_date(ps, entry_as_playlist(entries[0]), tracks));
        assert(apply_playlist_entry(ps, next_id, entries[0], tracks) == (ps, next_id, 0int));
        assert(forall|k: int|
            0 <= k < entries.drop_first().len() ==> entries.drop_first()[k] == entries[k + 1]);
        lemma_lists_noop(ps, next_id, entries.drop_first(), tracks);
    }
}

/// Sync phase 3 idempotence: with the snapshot unchanged, a second
/// playlist-diff pass deletes nothing, rewrites nothing, and reports zero
/// changes.
pub proof fn lemma_phase3_idempotent(
    ps: Seq<PlaylistView>,
    next_id: int,
    entries: Seq<PlaylistSnapshotEntryView>,
    tracks: Seq<TrackView>,
)
    requires
        list_pids_ok(entries),
    ensures
        phase3_spec(
            phase3_spec(ps, next_id, entries, tracks).0,
            phase3_spec(ps, next_id, entries, tracks).1,
            entries,
            tracks,
        ) == (
            phase3_spec(ps, next_id, entries, tracks).0,
            phase3_spec(ps, next_id, entries, tracks).1,
            0int,
        ),
{
    let spids = snapshot_pids(entries);
    let dels = absent_pids(playlist_pids(ps), spids);
    let remaining = remove_playlists_spec(ps, dels);
    let f = apply_playlist_snapshot(remaining, next_id, entries, tracks);
    lemma_snapshot_pids(entries);
    // every playlist left after the first pass is named by the snapshot
    assert forall|i: int| 0 <= i < f.0.len() implies seq_contains_str(
        spids,
        (#[trigger] f.0[i]).persistent_id,
    ) by {
        lemma_lists_survivors(remaining, next_id, entries, tracks, i);
        lemma_remove_playlists_members(ps, dels);
        if i < remaining.len() {
            if f.0[i].persistent_id == remaining[i].persistent_id {
                lemma_absent_pids_members(
                    playlist_pids(ps),
                    spids,
                    remaining[i].persistent_id,
                );
            }
        }
    }
    // so the second pass deletes nothing
    lemma_playlist_pids(f.0);
    assert forall|k: int| 0 <= k < playlist_pids(f.0).len() implies seq_contains_str(
        spids,
        #[trigger] playlist_pids(f.0)[k],
    ) by {
        assert(playlist_pids(f.0)[k] == f.0[k].persistent_id);
    }
    lemma_absent_pids_none(playlist_pids(f.0), spids);
    let dels2 = absent_pids(playlist_pids(f.0), spids);
    lemma_remove_playlists_none(f.0, dels2);
    // and rewrites nothing
    lemma_lists_complete(remaining, next_id, entries, tracks);
    lemma_lists_noop(f.0, f.1, entries, tracks);
}

/// Each playlist after the upsert half either survived from the input or
/// was appended with an identifier named by the snapshot.
proof fn lemma_lists_survivors(
    ps: Seq<PlaylistView>,
    next_id: int,
    entries: Seq<PlaylistSnapshotEntryView>,
    tracks: Seq<TrackView>,
    i: int,
)
    requires
        0 <= i < apply_playlist_snapshot(ps, next_id, entries, tracks).0.len(),
    ensures
        ({
            let r = apply_playlist_snapshot(ps, next_id, entries, tracks).0;
            (i < ps.len() && r[i].persistent_id == ps[i].persistent_id) || seq_contains_str(
                snapshot_pids(entries),
                r[i].persistent_id,
            )
        }),
    decreases entries.len(),
{
    lemma_snapshot_pids(entries);
    if entries.len() == 0 {
    } else {
        let e0 = entries[0];
        let p0 = entry_as_playlist(e0);
        let step = apply_playlist_entry(ps, next_id, e0, tracks);
        let t1 = step.0;
        let rest = entries.drop_first();
        let r = apply_playlist_snapshot(ps, next_id, entries, tracks).0;
        assert(r == apply_playlist_snapshot(t1, step.1, rest, tracks).0);
        lemma_lists_survivors(t1, step.1, rest, tracks, i);
        lemma_snapshot_pids(rest);
        assert(forall|k: int| 0 <= k < rest.len() ==> rest[k] == entries[k + 1]);
        if i < t1.len() && r[i].persistent_id == t1[i].persistent_id {
            lemma_find_playlist_by_pid(ps, p0.persistent_id);
            if playlist_up_to_date(ps, p0, tracks) {
                assert(t1 == ps);
            } else if find_playlist_by_pid(ps, p0.persistent_id) is Some {
                let i0 = find_playlist_by_pid(ps, p0.persistent_id)->Some_0;
                assert(t1 == ps.update(i0, normalize_playlist(p0, ps[i0].id, tracks)));
                if i == i0 {
                    assert(t1[i].persistent_id == p0.persistent_id);
                    assert(snapshot_pids(entries)[0] == p0.persistent_id);
                } else {
                    assert(t1[i] == ps[i]);
                }
            } else {
                if i < ps.len() {
                    assert(t1[i] == ps[i]);
                } else {
                    assert(t1[i] == normalize_playlist(p0, next_id, tracks));
                    assert(snapshot_pids(entries)[0] == p0.persistent_id);
                }
            }
        } else {
            // inherited from the recursive half: named by the tail
            let w = choose|w: int|
                0 <= w < snapshot_pids(rest).len() && #[trigger] snapshot_pids(rest)[w]
                    == r[i].persistent_id;
            assert(snapshot_pids(rest)[w] == rest[w].persistent_id);
            assert(rest[w] == entries[w + 1]);
            assert(snapshot_pids(entries)[w + 1] == entries[w + 1].persistent_id);
        }
    }
}

/// A delta and a field snapshot drawn from one external state agree on
/// rating and BPM wherever they name the same track.
pub open spec fn delta_snapshot_consistent(
    delta: Seq<TrackView>,
    entries: Seq<SnapshotEntryView>,
) -> bool {
    forall|k: int, j: int|
        0 <= k < delta.len() && 0 <= j < entries.len() && (#[trigger] delta[k]).persistent_id
            == (#[trigger] entries[j]).persistent_id ==> delta[k].rating == entries[j].rating
            && delta[k].bpm == entries[j].bpm
}

/// Sync idempotence for a whole pass: with all three snapshots fetched
/// from one unchanged external state, a second pass leaves the store
/// exactly as the first left it, writes no field records and no playlist
/// records, and re-reports only the delta's record count.
pub proof fn lemma_sync_pass_idempotent(
    v: StoreView,
    delta: Seq<TrackView>,
    entries: Seq<SnapshotEntryView>,
    lists: Seq<PlaylistSnapshotEntryView>,
)
    requires
        delta_pids_ok(delta),
        entry_pids_ok(entries),
        list_pids_ok(lists),
        delta_snapshot_consistent(delta, entries),
    ensures
        ({
            let first = sync_pass_spec(v, Some(delta), Some(entries), Some(lists));
            let second = sync_pass_spec(first.0, Some(delta), Some(entries), Some(lists));
            second.0 == first.0 && second.1 == delta.len() && second.2 == 0
        }),
{
    let t0 = v.tracks;
    let n0 = v.next_track_id;
    let p1 = apply_delta(t0, n0, delta);
    let t1 = p1.0;
    let t2 = apply_snapshot(t1, entries).0;
    lemma_delta_complete(t0, n0, delta);
    lemma_snapshot_pointwise(t1, entries);
    // the field diff never moves a record the delta wrote, and under
    // consistency never changes one either
    assert forall|k: int| 0 <= k < delta.len() implies match find_track_by_pid(
        t2,
        (#[trigger] delta[k]).persistent_id,
    ) {
        Some(j) => 0 <= j < t2.len() && merge_track(t2[j], delta[k]) == t2[j],
        None => false,
    } by {
        lemma_find_pid_same(t2, t1, delta[k].persistent_id);
        match find_track_by_pid(t1, delta[k].persistent_id) {
            Some(j) => {
                assert(merge_track(t1[j], delta[k]) == t1[j]);
                lemma_find_track_by_pid(t1, delta[k].persistent_id);
                assert(t1[j].persistent_id == delta[k].persistent_id);
                if exists|i: int|
                    0 <= i < entries.len() && find_track_by_pid(
                        t1,
                        (#[trigger] entries[i]).persistent_id,
                    ) == Some(j) {
                    let i = choose|i: int|
                        0 <= i < entries.len() && find_track_by_pid(
                            t1,
                            (#[trigger] entries[i]).persistent_id,
                        ) == Some(j);
                    lemma_find_track_by_pid(t1, entries[i].persistent_id);
                    assert(t1[j].persistent_id == entries[i].persistent_id);
                    assert(delta[k].persistent_id == entries[i].persistent_id);
                    assert(entries[i].rating == delta[k].rating);
                    assert(entries[i].bpm == delta[k].bpm);
                    assert(t1[j].rating == delta[k].rating);
                    assert(t1[j].bpm == delta[k].bpm);
                    assert(t2[j] == (TrackView {
                        rating: entries[i].rating,
                        bpm: entries[i].bpm,
                        ..t1[j]
                    }));
                    assert(t2[j] == t1[j]);
                } else {
                    assert(forall|i: int|
                        0 <= i < entries.len() ==> find_track_by_pid(
                            t1,
                            (#[trigger] entries[i]).persistent_id,
                        ) != Some(j));
                    assert(t2[j] == t1[j]);
                }
                assert(merge_track(t2[j], delta[k]) == t2[j]);
            },
            None => {
                assert(false);
            },
        }
    }
    lemma_delta_noop(t2, p1.1, delta);
    lemma_phase2_idempotent(t1, entries);
    lemma_phase3_idempotent(v.playlists, v.next_playlist_id, lists, t2);
}

} // verus!
