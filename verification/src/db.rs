//! The local track/playlist store: the cache of canonical state, keyed by
//! each record's stable external persistent identifier.
//!
//! The store is a plain in-memory structure with exact contracts; callers
//! that want the contents on disk persist a copy themselves. Invariants:
//! record ids are unique and below the next-id counter, persistent
//! identifiers are unique among non-empty values, and folder playlists have
//! empty membership.

use vstd::prelude::*;

use crate::find::find_track_by_pid;
use crate::find::find_track_by_id;
use crate::find::find_playlist_by_pid;
use crate::find::find_playlist_by_id;
use crate::find::lemma_find_track_by_pid;
use crate::find::lemma_find_track_by_pid_is;
use crate::find::lemma_find_track_by_pid_none;
use crate::find::lemma_find_track_by_id;
use crate::find::lemma_find_track_by_id_is;
use crate::find::lemma_find_track_by_id_none;
use crate::find::lemma_find_playlist_by_pid;
use crate::find::lemma_find_playlist_by_pid_is;
use crate::find::lemma_find_playlist_by_pid_none;
use crate::find::lemma_find_playlist_by_id_is;
use crate::find::lemma_find_playlist_by_id_none;
use crate::model::Playlist;
use crate::model::PlaylistView;
use crate::model::PlaylistInfo;
use crate::model::PlaylistSnapshotEntry;
use crate::model::PlaylistSnapshotEntryView;
use crate::model::Track;
use crate::model::TrackView;
use crate::model::Tag;
use crate::model::TagView;
use crate::model::TagGroup;
use crate::model::TagGroupView;
use crate::strutil::str_eq;
use crate::strutil::str_eq_ci;
use crate::strutil::lower;
use crate::strutil::lex_le;
use crate::strutil::lex_le_ci;
use crate::strutil::lemma_lex_total;
use crate::strutil::lemma_lex_trans;
use crate::codec::decoded_tags;
use crate::strutil::str_vec_eq;
use crate::model::clone_opt_string;
use crate::model::opt_view;

verus! {

/// The mathematical contents of the store.
pub struct StoreView {
    pub tracks: Seq<TrackView>,
    pub playlists: Seq<PlaylistView>,
    pub tags: Seq<TagView>,
    pub tag_groups: Seq<TagGroupView>,
    pub next_track_id: int,
    pub next_playlist_id: int,
    pub next_tag_id: int,
    pub next_group_id: int,
}

/// The local store.
pub struct Database {
    tracks: Vec<Track>,
    playlists: Vec<Playlist>,
    tags: Vec<Tag>,
    tag_groups: Vec<TagGroup>,
    next_track_id: i64,
    next_playlist_id: i64,
    next_tag_id: i64,
    next_group_id: i64,
}

impl View for Database {
    type V = StoreView;

    closed spec fn view(&self) -> StoreView {
        StoreView {
            tracks: self.tracks.deep_view(),
            playlists: self.playlists.deep_view(),
            tags: self.tags.deep_view(),
            tag_groups: self.tag_groups.deep_view(),
            next_track_id: self.next_track_id as int,
            next_playlist_id: self.next_playlist_id as int,
            next_tag_id: self.next_tag_id as int,
            next_group_id: self.next_group_id as int,
        }
    }
}

/// Track-store well-formedness: unique ids below the counter, and unique
/// non-empty persistent identifiers.
pub open spec fn tracks_wf(tracks: Seq<TrackView>, next_id: int) -> bool {
    &&& next_id >= 1
    &&& forall|i: int, j: int|
        0 <= i < j < tracks.len() ==> #[trigger] tracks[i].id != #[trigger] tracks[j].id
    &&& forall|i: int| 0 <= i < tracks.len() ==> 0 < #[trigger] tracks[i].id < next_id
    &&& forall|i: int, j: int|
        0 <= i < j < tracks.len() && #[trigger] tracks[i].persistent_id.len() > 0
            ==> tracks[i].persistent_id != #[trigger] tracks[j].persistent_id
}

/// Playlist-store well-formedness: unique ids below the counter, unique
/// non-empty persistent identifiers, membership always present, and empty
/// membership for folders.
pub open spec fn playlists_wf(ps: Seq<PlaylistView>, next_id: int) -> bool {
    &&& next_id >= 1
    &&& forall|i: int, j: int|
        0 <= i < j < ps.len() ==> #[trigger] ps[i].id != #[trigger] ps[j].id
    &&& forall|i: int| 0 <= i < ps.len() ==> 0 < #[trigger] ps[i].id < next_id
    &&& forall|i: int, j: int|
        0 <= i < j < ps.len() && #[trigger] ps[i].persistent_id.len() > 0 ==> ps[i].persistent_id
            != #[trigger] ps[j].persistent_id
    &&& forall|i: int| 0 <= i < ps.len() ==> (#[trigger] ps[i].track_ids) is Some
    &&& forall|i: int|
        0 <= i < ps.len() && #[trigger] ps[i].is_folder ==> ps[i].track_ids == Some(
            Seq::<Seq<char>>::empty(),
        )
}

pub open spec fn store_wf(v: StoreView) -> bool {
    &&& tracks_wf(v.tracks, v.next_track_id)
    &&& playlists_wf(v.playlists, v.next_playlist_id)
    &&& v.next_tag_id >= 1
    &&& v.next_group_id >= 1
}

/// A field update that touches neither ids nor persistent identifiers
/// preserves track-store well-formedness.
pub proof fn lemma_tracks_wf_pointwise(a: Seq<TrackView>, b: Seq<TrackView>, na: int, nb: int)
    requires
        tracks_wf(a, na),
        b.len() == a.len(),
        na <= nb,
        forall|i: int|
            0 <= i < a.len() ==> (#[trigger] b[i]).id == a[i].id && b[i].persistent_id
                == a[i].persistent_id,
    ensures
        tracks_wf(b, nb),
{
    assert forall|i: int, j: int| 0 <= i < j < b.len() implies #[trigger] b[i].id
        != #[trigger] b[j].id by {
        assert(a[i].id != a[j].id);
    }
    assert forall|i: int| 0 <= i < b.len() implies 0 < #[trigger] b[i].id < nb by {
        assert(0 < a[i].id < na);
    }
    assert forall|i: int, j: int|
        0 <= i < j < b.len() && #[trigger] b[i].persistent_id.len() > 0 implies b[i].persistent_id
        != #[trigger] b[j].persistent_id by {
        assert(a[i].persistent_id.len() > 0);
        assert(a[i].persistent_id != a[j].persistent_id);
    }
}

/// An upserted track takes every externally sourced field from the incoming
/// record, keeping only the local id and the local `missing` flag.
pub open spec fn merge_track(cur: TrackView, t: TrackView) -> TrackView {
    TrackView { id: cur.id, missing: cur.missing, ..t }
}

/// Insert-or-replace keyed by persistent identifier: a known non-empty
/// identifier updates that record in place (the external record wins); an
/// unknown or empty one appends a fresh record under the next local id.
pub open spec fn upsert_track_spec(tracks: Seq<TrackView>, next_id: int, t: TrackView) -> (
    Seq<TrackView>,
    int,
) {
    if t.persistent_id.len() > 0 {
        match find_track_by_pid(tracks, t.persistent_id) {
            Some(i) => (tracks.update(i, merge_track(tracks[i], t)), next_id),
            None => (tracks.push(TrackView { id: next_id, ..t }), next_id + 1),
        }
    } else {
        (tracks.push(TrackView { id: next_id, ..t }), next_id + 1)
    }
}

impl Database {
    pub open spec fn wf(&self) -> bool {
        store_wf(self@)
    }

    /// An empty store.
    pub fn new() -> (r: Database)
        ensures
            r.wf(),
            r@.tracks.len() == 0,
            r@.playlists.len() == 0,
            r@.tags.len() == 0,
            r@.tag_groups.len() == 0,
            r@.next_track_id == 1,
            r@.next_playlist_id == 1,
            r@.next_tag_id == 1,
            r@.next_group_id == 1,
    {
        let r = Database {
            tracks: Vec::new(),
            playlists: Vec::new(),
            tags: Vec::new(),
            tag_groups: Vec::new(),
            next_track_id: 1,
            next_playlist_id: 1,
            next_tag_id: 1,
            next_group_id: 1,
        };
        proof {
            assert(r@.tracks =~= Seq::<TrackView>::empty());
            assert(r@.playlists =~= Seq::<PlaylistView>::empty());
            assert(r@.tags =~= Seq::<TagView>::empty());
            assert(r@.tag_groups =~= Seq::<TagGroupView>::empty());
        }
        r
    }

    /// Index of the track with this persistent identifier, if any.
    fn find_track_pid(&self, pid: &str) -> (r: Option<usize>)
        ensures
            match r {
                Some(i) => 0 <= i < self@.tracks.len() && find_track_by_pid(self@.tracks, pid@)
                    == Some(i as int),
                None => find_track_by_pid(self@.tracks, pid@) is None,
            },
    {
        let mut i: usize = 0;
        while i < self.tracks.len()
            invariant
                i <= self@.tracks.len(),
                self@.tracks.len() == self.tracks@.len(),
                forall|j: int| 0 <= j < i ==> (#[trigger] self@.tracks[j]).persistent_id != pid@,
            decreases self@.tracks.len() - i,
        {
            proof {
                assert(self@.tracks[i as int] == self.tracks@[i as int]@);
            }
            if str_eq(self.tracks[i].persistent_id.as_str(), pid) {
                proof {
                    lemma_find_track_by_pid_is(self@.tracks, pid@, i as int);
                }
                return Some(i);
            }
            i = i + 1;
        }
        proof {
            lemma_find_track_by_pid_none(self@.tracks, pid@);
        }
        None
    }

    /// Index of the track with this local id, if any.
    fn find_track_id(&self, id: i64) -> (r: Option<usize>)
        ensures
            match r {
                Some(i) => 0 <= i < self@.tracks.len() && find_track_by_id(self@.tracks, id as int)
                    == Some(i as int),
                None => find_track_by_id(self@.tracks, id as int) is None,
            },
    {
        let mut i: usize = 0;
        while i < self.tracks.len()
            invariant
                i <= self@.tracks.len(),
                self@.tracks.len() == self.tracks@.len(),
                forall|j: int| 0 <= j < i ==> (#[trigger] self@.tracks[j]).id != id as int,
            decreases self@.tracks.len() - i,
        {
            proof {
                assert(self@.tracks[i as int] == self.tracks@[i as int]@);
            }
            if self.tracks[i].id == id {
                proof {
                    lemma_find_track_by_id_is(self@.tracks, id as int, i as int);
                }
                return Some(i);
            }
            i = i + 1;
        }
        proof {
            lemma_find_track_by_id_none(self@.tracks, id as int);
        }
        None
    }

    /// Upserts a track keyed by its persistent identifier: a record already
    /// known under the same non-empty identifier is overwritten field by
    /// field (the external record wins), keeping its local id and its local
    /// `missing` flag; otherwise the track is added under a fresh id.
    pub fn insert_track(&mut self, track: &Track)
        requires
            old(self).wf(),
            old(self)@.next_track_id < i64::MAX,
        ensures
            final(self).wf(),
            (final(self)@.tracks, final(self)@.next_track_id) == upsert_track_spec(
                old(self)@.tracks,
                old(self)@.next_track_id,
                track@,
            ),
            final(self)@ == (StoreView {
                tracks: final(self)@.tracks,
                next_track_id: final(self)@.next_track_id,
                ..old(self)@
            }),
    {
        let found = if !track.persistent_id.as_str().is_empty() {
            self.find_track_pid(track.persistent_id.as_str())
        } else {
            None
        };
        match found {
            Some(i) => {
                let ghost before = self@.tracks;
                let slot = &mut self.tracks[i];
                let id = slot.id;
                let missing = slot.missing;
                *slot = track.duplicate();
                slot.id = id;
                slot.missing = missing;
                proof {
                    lemma_find_track_by_pid(before, track@.persistent_id);
                    assert(before[i as int].persistent_id == track@.persistent_id);
                    assert(self@.tracks =~= before.update(
                        i as int,
                        merge_track(before[i as int], track@),
                    ));
                    lemma_tracks_wf_pointwise(
                        before,
                        self@.tracks,
                        old(self)@.next_track_id,
                        self@.next_track_id,
                    );
                }
            },
            None => {
                let ghost before = self@.tracks;
                let mut t = track.duplicate();
                t.id = self.next_track_id;
                self.tracks.push(t);
                self.next_track_id = self.next_track_id + 1;
                proof {
                    assert(self@.tracks =~= before.push(
                        (TrackView { id: old(self)@.next_track_id, ..track@ }),
                    ));
                    if track@.persistent_id.len() > 0 {
                        lemma_find_track_by_pid(before, track@.persistent_id);
                    }
                    let nb = self@.next_track_id;
                    let b = self@.tracks;
                    assert forall|x: int, y: int| 0 <= x < y < b.len() implies #[trigger] b[x].id
                        != #[trigger] b[y].id by {
                        if y < before.len() {
                            assert(before[x].id != before[y].id);
                        } else {
                            assert(0 < before[x].id < old(self)@.next_track_id);
                        }
                    }
                    assert forall|x: int| 0 <= x < b.len() implies 0 < #[trigger] b[x].id
                        < nb by {
                        if x < before.len() {
                            assert(0 < before[x].id < old(self)@.next_track_id);
                        }
                    }
                    assert forall|x: int, y: int|
                        0 <= x < y < b.len() && #[trigger] b[x].persistent_id.len() > 0 implies b[
                        x].persistent_id != #[trigger] b[y].persistent_id by {
                        if y < before.len() {
                            assert(before[x].persistent_id.len() > 0);
                            assert(before[x].persistent_id != before[y].persistent_id);
                        } else {
                            if track@.persistent_id.len() > 0 {
                                assert(before[x].persistent_id != track@.persistent_id);
                            }
                        }
                    }
                    assert(tracks_wf(b, nb));
                }
            },
        }
    }

    /// The track with this local id, if any.
    pub fn get_track(&self, id: i64) -> (r: Option<Track>)
        ensures
            match find_track_by_id(self@.tracks, id as int) {
                Some(i) => r matches Some(t) && t@ == self@.tracks[i],
                None => r is None,
            },
    {
        match self.find_track_id(id) {
            Some(i) => Some(self.tracks[i].duplicate()),
            None => None,
        }
    }

    /// Writes a track's comment, grouping and modification timestamp, keyed
    /// by its local id; any other record is untouched.
    pub fn update_track(&mut self, track: &Track)
        requires
            old(self).wf(),
        ensures
            final(self).wf(),
            final(self)@ == (StoreView { tracks: final(self)@.tracks, ..old(self)@ }),
            final(self)@.tracks.len() == old(self)@.tracks.len(),
            forall|i: int|
                0 <= i < old(self)@.tracks.len() ==> #[trigger] final(self)@.tracks[i] == (
                if old(self)@.tracks[i].id == track@.id {
                    TrackView {
                        comment_raw: track@.comment_raw,
                        grouping_raw: track@.grouping_raw,
                        modified_date: track@.modified_date,
                        ..old(self)@.tracks[i]
                    }
                } else {
                    old(self)@.tracks[i]
                }),
    {
        match self.find_track_id(track.id) {
            Some(i) => {
                let slot = &mut self.tracks[i];
                slot.comment_raw = clone_opt_string(&track.comment_raw);
                slot.grouping_raw = clone_opt_string(&track.grouping_raw);
                slot.modified_date = track.modified_date;
                proof {
                    lemma_find_track_by_id(old(self)@.tracks, track@.id);
                    lemma_tracks_wf_pointwise(
                        old(self)@.tracks,
                        self@.tracks,
                        old(self)@.next_track_id,
                        self@.next_track_id,
                    );
                }
            },
            None => {
                proof {
                    lemma_find_track_by_id(old(self)@.tracks, track@.id);
                }
            },
        }
    }

    /// Overwrites a track's comment field, keyed by its local id.
    pub fn update_track_metadata(&mut self, id: i64, comment: &str)
        requires
            old(self).wf(),
        ensures
            final(self).wf(),
            final(self)@ == (StoreView { tracks: final(self)@.tracks, ..old(self)@ }),
            final(self)@.tracks.len() == old(self)@.tracks.len(),
            forall|i: int|
                0 <= i < old(self)@.tracks.len() ==> #[trigger] final(self)@.tracks[i] == (
                if old(self)@.tracks[i].id == id {
                    TrackView { comment_raw: Some(comment@), ..old(self)@.tracks[i] }
                } else {
                    old(self)@.tracks[i]
                }),
    {
        match self.find_track_id(id) {
            Some(i) => {
                let slot = &mut self.tracks[i];
                slot.comment_raw = Some(comment.to_owned());
                proof {
                    lemma_find_track_by_id(old(self)@.tracks, id as int);
                    lemma_tracks_wf_pointwise(
                        old(self)@.tracks,
                        self@.tracks,
                        old(self)@.next_track_id,
                        self@.next_track_id,
                    );
                }
            },
            None => {
                proof {
                    lemma_find_track_by_id(old(self)@.tracks, id as int);
                }
            },
        }
    }

    /// Writes a track's rating, keyed by its local id.
    pub fn update_track_rating(&mut self, id: i64, rating: u32)
        requires
            old(self).wf(),
            rating <= 100,
        ensures
            final(self).wf(),
            final(self)@ == (StoreView { tracks: final(self)@.tracks, ..old(self)@ }),
            final(self)@.tracks.len() == old(self)@.tracks.len(),
            forall|i: int|
                0 <= i < old(self)@.tracks.len() ==> #[trigger] final(self)@.tracks[i] == (
                if old(self)@.tracks[i].id == id {
                    TrackView { rating: rating as int, ..old(self)@.tracks[i] }
                } else {
                    old(self)@.tracks[i]
                }),
    {
        match self.find_track_id(id) {
            Some(i) => {
                let slot = &mut self.tracks[i];
                slot.rating = rating as i64;
                proof {
                    lemma_find_track_by_id(old(self)@.tracks, id as int);
                    lemma_tracks_wf_pointwise(
                        old(self)@.tracks,
                        self@.tracks,
                        old(self)@.next_track_id,
                        self@.next_track_id,
                    );
                }
            },
            None => {
                proof {
                    lemma_find_track_by_id(old(self)@.tracks, id as int);
                }
            },
        }
    }

    /// All tracks, in store order.
    pub fn get_all_tracks(&self) -> (r: Vec<Track>)
        ensures
            r.deep_view() == self@.tracks,
    {
        let mut r: Vec<Track> = Vec::new();
        let mut i: usize = 0;
        while i < self.tracks.len()
            invariant
                i <= self@.tracks.len(),
                self@.tracks.len() == self.tracks@.len(),
                r@.len() == i,
                forall|j: int| 0 <= j < i ==> (#[trigger] r@[j])@ == self@.tracks[j],
            decreases self@.tracks.len() - i,
        {
            proof {
                assert(self@.tracks[i as int] == self.tracks@[i as int]@);
            }
            r.push(self.tracks[i].duplicate());
            i = i + 1;
        }
        proof {
            assert forall|j: int| 0 <= j < r.deep_view().len() implies r.deep_view()[j]
                == self@.tracks[j] by {
                assert(r.deep_view()[j] == r@[j]@);
            }
            assert(r.deep_view() =~= self@.tracks);
        }
        r
    }

    /// The persistent identifier of the track with this local id.
    pub fn get_track_persistent_id(&self, id: i64) -> (r: Option<String>)
        ensures
            match find_track_by_id(self@.tracks, id as int) {
                Some(i) => r matches Some(s) && s@ == self@.tracks[i].persistent_id,
                None => r is None,
            },
    {
        match self.find_track_id(id) {
            Some(i) => Some(self.tracks[i].persistent_id.clone()),
            None => None,
        }
    }

    /// The file path of the track with this local id.
    pub fn get_track_path(&self, id: i64) -> (r: Option<String>)
        ensures
            match find_track_by_id(self@.tracks, id as int) {
                Some(i) => r matches Some(s) && s@ == self@.tracks[i].file_path,
                None => r is None,
            },
    {
        match self.find_track_id(id) {
            Some(i) => Some(self.tracks[i].file_path.clone()),
            None => None,
        }
    }

    /// Repoints a track's file path, keyed by its local id.
    pub fn update_track_path(&mut self, id: i64, path: &str)
        requires
            old(self).wf(),
        ensures
            final(self).wf(),
            final(self)@ == (StoreView { tracks: final(self)@.tracks, ..old(self)@ }),
            final(self)@.tracks.len() == old(self)@.tracks.len(),
            forall|i: int|
                0 <= i < old(self)@.tracks.len() ==> #[trigger] final(self)@.tracks[i] == (
                if old(self)@.tracks[i].id == id {
                    TrackView { file_path: path@, ..old(self)@.tracks[i] }
                } else {
                    old(self)@.tracks[i]
                }),
    {
        match self.find_track_id(id) {
            Some(i) => {
                let slot = &mut self.tracks[i];
                slot.file_path = path.to_owned();
                proof {
                    lemma_find_track_by_id(old(self)@.tracks, id as int);
                    lemma_tracks_wf_pointwise(
                        old(self)@.tracks,
                        self@.tracks,
                        old(self)@.next_track_id,
                        self@.next_track_id,
                    );
                }
            },
            None => {
                proof {
                    lemma_find_track_by_id(old(self)@.tracks, id as int);
                }
            },
        }
    }

    /// Index of the playlist with this persistent identifier, if any.
    fn find_playlist_pid(&self, pid: &str) -> (r: Option<usize>)
        ensures
            match r {
                Some(i) => 0 <= i < self@.playlists.len() && find_playlist_by_pid(
                    self@.playlists,
                    pid@,
                ) == Some(i as int),
                None => find_playlist_by_pid(self@.playlists, pid@) is None,
            },
    {
        let mut i: usize = 0;
        while i < self.playlists.len()
            invariant
                i <= self@.playlists.len(),
                self@.playlists.len() == self.playlists@.len(),
                forall|j: int|
                    0 <= j < i ==> (#[trigger] self@.playlists[j]).persistent_id != pid@,
            decreases self@.playlists.len() - i,
        {
            proof {
                assert(self@.playlists[i as int] == self.playlists@[i as int]@);
            }
            if str_eq(self.playlists[i].persistent_id.as_str(), pid) {
                proof {
                    lemma_find_playlist_by_pid_is(self@.playlists, pid@, i as int);
                }
                return Some(i);
            }
            i = i + 1;
        }
        proof {
            lemma_find_playlist_by_pid_none(self@.playlists, pid@);
        }
        None
    }

    /// Index of the playlist with this local id, if any.
    fn find_playlist_id(&self, id: i64) -> (r: Option<usize>)
        ensures
            match r {
                Some(i) => 0 <= i < self@.playlists.len() && find_playlist_by_id(
                    self@.playlists,
                    id as int,
                ) == Some(i as int),
                None => find_playlist_by_id(self@.playlists, id as int) is None,
            },
    {
        let mut i: usize = 0;
        while i < self.playlists.len()
            invariant
                i <= self@.playlists.len(),
                self@.playlists.len() == self.playlists@.len(),
                forall|j: int| 0 <= j < i ==> (#[trigger] self@.playlists[j]).id != id as int,
            decreases self@.playlists.len() - i,
        {
            proof {
                assert(self@.playlists[i as int] == self.playlists@[i as int]@);
            }
            if self.playlists[i].id == id {
                proof {
                    lemma_find_playlist_by_id_is(self@.playlists, id as int, i as int);
                }
                return Some(i);
            }
            i = i + 1;
        }
        proof {
            lemma_find_playlist_by_id_none(self@.playlists, id as int);
        }
        None
    }

    /// Is any track stored under this persistent identifier?
    pub fn has_track_pid(&self, pid: &str) -> (r: bool)
        ensures
            r == (find_track_by_pid(self@.tracks, pid@) is Some),
    {
        match self.find_track_pid(pid) {
            Some(_) => true,
            None => false,
        }
    }

    /// A membership list filtered down to tracks the store knows, in order.
    fn filter_known_exec(&self, ids: &Vec<String>) -> (r: Vec<String>)
        ensures
            r.deep_view() == filter_known(ids.deep_view(), self@.tracks),
    {
        let ghost all = ids.deep_view();
        let mut r: Vec<String> = Vec::new();
        let mut i: usize = 0;
        proof {
            assert(all.skip(0) =~= all);
        }
        while i < ids.len()
            invariant
                i <= all.len(),
                all == ids.deep_view(),
                all.len() == ids@.len(),
                filter_known(all, self@.tracks) == r.deep_view() + filter_known(
                    all.skip(i as int),
                    self@.tracks,
                ),
            decreases all.len() - i,
        {
            let ghost suffix = all.skip(i as int);
            proof {
                assert(suffix[0] == all[i as int]);
                assert(all[i as int] == ids@[i as int]@);
                assert(suffix.drop_first() =~= all.skip(i + 1));
            }
            match self.find_track_pid(ids[i].as_str()) {
                Some(_) => {
                    let ghost before = r.deep_view();
                    r.push(ids[i].clone());
                    proof {
                        assert(r.deep_view() =~= before.push(all[i as int]));
                        assert(before.push(all[i as int]) =~= before + seq![all[i as int]]);
                        assert(r.deep_view() + filter_known(all.skip(i + 1), self@.tracks)
                            =~= before + (seq![all[i as int]] + filter_known(
                            all.skip(i + 1),
                            self@.tracks,
                        )));
                    }
                },
                None => {},
            }
            i = i + 1;
        }
        proof {
            assert(all.skip(all.len() as int) =~= Seq::<Seq<char>>::empty());
            assert(r.deep_view() + Seq::<Seq<char>>::empty() =~= r.deep_view());
        }
        r
    }

    /// Upserts a playlist keyed by its persistent identifier: name, folder
    /// flag, parent and membership are replaced (membership filtered to
    /// known tracks, folders held empty); a known identifier keeps its
    /// local id, an unknown one gets a fresh id.
    pub fn insert_playlist(&mut self, playlist: &Playlist)
        requires
            old(self).wf(),
            old(self)@.next_playlist_id < i64::MAX,
        ensures
            final(self).wf(),
            (final(self)@.playlists, final(self)@.next_playlist_id) == upsert_playlist_spec(
                old(self)@.playlists,
                old(self)@.next_playlist_id,
                playlist@,
                old(self)@.tracks,
            ),
            final(self)@ == (StoreView {
                playlists: final(self)@.playlists,
                next_playlist_id: final(self)@.next_playlist_id,
                ..old(self)@
            }),
    {
        let members: Vec<String> = if playlist.is_folder {
            Vec::new()
        } else {
            match &playlist.track_ids {
                Some(v) => self.filter_known_exec(v),
                None => {
                    let r: Vec<String> = Vec::new();
                    proof {
                        assert(r.deep_view() =~= Seq::<Seq<char>>::empty());
                    }
                    r
                },
            }
        };
        proof {
            if playlist.is_folder {
                assert(members.deep_view() =~= Seq::<Seq<char>>::empty());
            }
        }
        match self.find_playlist_pid(playlist.persistent_id.as_str()) {
            Some(i) => {
                let ghost before = self@.playlists;
                let kept_id = self.playlists[i].id;
                let slot = &mut self.playlists[i];
                slot.persistent_id = playlist.persistent_id.clone();
                slot.parent_persistent_id = clone_opt_string(&playlist.parent_persistent_id);
                slot.name = playlist.name.clone();
                slot.is_folder = playlist.is_folder;
                slot.track_ids = Some(members);
                proof {
                    lemma_find_playlist_by_pid(before, playlist@.persistent_id);
                    assert(before[i as int].persistent_id == playlist@.persistent_id);
                    assert(self@.playlists =~= before.update(
                        i as int,
                        normalize_playlist(playlist@, before[i as int].id, old(self)@.tracks),
                    ));
                    lemma_playlists_wf_pointwise(
                        before,
                        self@.playlists,
                        old(self)@.next_playlist_id,
                        self@.next_playlist_id,
                    );
                }
            },
            None => {
                let ghost before = self@.playlists;
                let p = Playlist {
                    id: self.next_playlist_id,
                    persistent_id: playlist.persistent_id.clone(),
                    parent_persistent_id: clone_opt_string(&playlist.parent_persistent_id),
                    name: playlist.name.clone(),
                    is_folder: playlist.is_folder,
                    track_ids: Some(members),
                };
                self.playlists.push(p);
                self.next_playlist_id = self.next_playlist_id + 1;
                proof {
                    assert(self@.playlists =~= before.push(
                        normalize_playlist(
                            playlist@,
                            old(self)@.next_playlist_id,
                            old(self)@.tracks,
                        ),
                    ));
                    lemma_find_playlist_by_pid(before, playlist@.persistent_id);
                    let nb = self@.next_playlist_id;
                    let b = self@.playlists;
                    assert forall|x: int, y: int| 0 <= x < y < b.len() implies #[trigger] b[x].id
                        != #[trigger] b[y].id by {
                        if y < before.len() {
                            assert(before[x].id != before[y].id);
                        } else {
                            assert(0 < before[x].id < old(self)@.next_playlist_id);
                        }
                    }
                    assert forall|x: int| 0 <= x < b.len() implies 0 < #[trigger] b[x].id
                        < nb by {
                        if x < before.len() {
                            assert(0 < before[x].id < old(self)@.next_playlist_id);
                        }
                    }
                    assert forall|x: int, y: int|
                        0 <= x < y < b.len() && #[trigger] b[x].persistent_id.len() > 0 implies b[
                        x].persistent_id != #[trigger] b[y].persistent_id by {
                        if y < before.len() {
                            assert(before[x].persistent_id.len() > 0);
                            assert(before[x].persistent_id != before[y].persistent_id);
                        } else {
                            assert(before[x].persistent_id != playlist@.persistent_id);
                        }
                    }
                    assert forall|x: int| 0 <= x < b.len() implies (#[trigger] b[x].track_ids)
                        is Some by {
                        if x < before.len() {
                            assert(before[x].track_ids is Some);
                        }
                    }
                    assert forall|x: int|
                        0 <= x < b.len() && #[trigger] b[x].is_folder implies b[x].track_ids
                        == Some(Seq::<Seq<char>>::empty()) by {
                        if x < before.len() {
                            assert(before[x].is_folder ==> before[x].track_ids == Some(
                                Seq::<Seq<char>>::empty(),
                            ));
                        }
                    }
                    assert(playlists_wf(b, nb));
                }
            },
        }
    }

    /// All playlists, in store order, handed out without their membership
    /// loaded.
    pub fn get_playlists(&self) -> (r: Vec<Playlist>)
        ensures
            r.deep_view().len() == self@.playlists.len(),
            forall|i: int|
                0 <= i < self@.playlists.len() ==> #[trigger] r.deep_view()[i] == (PlaylistView {
                    track_ids: None,
                    ..self@.playlists[i]
                }),
    {
        let mut r: Vec<Playlist> = Vec::new();
        let mut i: usize = 0;
        while i < self.playlists.len()
            invariant
                i <= self@.playlists.len(),
                self@.playlists.len() == self.playlists@.len(),
                r@.len() == i,
                forall|j: int|
                    0 <= j < i ==> (#[trigger] r@[j])@ == (PlaylistView {
                        track_ids: None,
                        ..self@.playlists[j]
                    }),
            decreases self@.playlists.len() - i,
        {
            proof {
                assert(self@.playlists[i as int] == self.playlists@[i as int]@);
            }
            let src = &self.playlists[i];
            r.push(
                Playlist {
                    id: src.id,
                    persistent_id: src.persistent_id.clone(),
                    parent_persistent_id: clone_opt_string(&src.parent_persistent_id),
                    name: src.name.clone(),
                    is_folder: src.is_folder,
                    track_ids: None,
                },
            );
            i = i + 1;
        }
        proof {
            assert forall|j: int| 0 <= j < self@.playlists.len() implies #[trigger] r.deep_view()[
            j] == (PlaylistView { track_ids: None, ..self@.playlists[j] }) by {
                assert(r.deep_view()[j] == r@[j]@);
            }
        }
        r
    }

    /// The persistent identifier of the playlist with this local id.
    pub fn get_playlist_persistent_id(&self, id: i64) -> (r: Option<String>)
        ensures
            match find_playlist_by_id(self@.playlists, id as int) {
                Some(i) => r matches Some(s) && s@ == self@.playlists[i].persistent_id,
                None => r is None,
            },
    {
        match self.find_playlist_id(id) {
            Some(i) => Some(self.playlists[i].persistent_id.clone()),
            None => None,
        }
    }

    /// The local track ids of a playlist's members, in playlist order,
    /// skipping members the store does not know.
    pub fn get_playlist_track_ids(&self, playlist_id: i64) -> (r: Vec<i64>)
        requires
            self.wf(),
        ensures
            match find_playlist_by_id(self@.playlists, playlist_id as int) {
                Some(i) => ids_view(r@) == member_track_ids(
                    self@.playlists[i].track_ids->Some_0,
                    self@.tracks,
                ),
                None => ids_view(r@) == Seq::<int>::empty(),
            },
    {
        let mut r: Vec<i64> = Vec::new();
        let found = self.find_playlist_id(playlist_id);
        match found {
            Some(i) => {
                proof {
                    assert(self@.playlists[i as int] == self.playlists@[i as int]@);
                }
                match &self.playlists[i].track_ids {
                    Some(ids) => {
                        let ghost all = ids.deep_view();
                        let mut k: usize = 0;
                        proof {
                            assert(all.skip(0) =~= all);
                        }
                        while k < ids.len()
                            invariant
                                k <= all.len(),
                                all == ids.deep_view(),
                                all.len() == ids@.len(),
                                member_track_ids(all, self@.tracks) == ids_view(r@)
                                    + member_track_ids(all.skip(k as int), self@.tracks),
                            decreases all.len() - k,
                        {
                            let ghost suffix = all.skip(k as int);
                            proof {
                                assert(suffix[0] == all[k as int]);
                                assert(all[k as int] == ids@[k as int]@);
                                assert(suffix.drop_first() =~= all.skip(k + 1));
                            }
                            match self.find_track_pid(ids[k].as_str()) {
                                Some(j) => {
                                    proof {
                                        assert(self@.tracks[j as int] == self.tracks@[j as int]@);
                                    }
                                    let ghost before = ids_view(r@);
                                    r.push(self.tracks[j].id);
                                    proof {
                                        assert(ids_view(r@) =~= before.push(
                                            self@.tracks[j as int].id,
                                        ));
                                        assert(before.push(self@.tracks[j as int].id) =~= before
                                            + seq![self@.tracks[j as int].id]);
                                        assert(ids_view(r@) + member_track_ids(
                                            all.skip(k + 1),
                                            self@.tracks,
                                        ) =~= before + (seq![self@.tracks[j as int].id]
                                            + member_track_ids(all.skip(k + 1), self@.tracks)));
                                    }
                                },
                                None => {},
                            }
                            k = k + 1;
                        }
                        proof {
                            assert(all.skip(all.len() as int) =~= Seq::<Seq<char>>::empty());
                            assert(ids_view(r@) + Seq::<int>::empty() =~= ids_view(r@));
                        }
                    },
                    None => {
                        proof {
                            assert(self@.playlists[i as int].track_ids is Some);
                            assert(false);
                        }
                    },
                }
            },
            None => {
                proof {
                    assert(ids_view(r@) =~= Seq::<int>::empty());
                }
            },
        }
        r
    }

    /// Appends a track to a playlist's membership, at the end, unless the
    /// playlist is unknown or a folder, the track is unknown, or the track
    /// is already a member.
    pub fn add_track_to_playlist_db(&mut self, playlist_id: i64, track_id: i64)
        requires
            old(self).wf(),
        ensures
            final(self).wf(),
            final(self)@ == (StoreView { playlists: final(self)@.playlists, ..old(self)@ }),
            final(self)@.playlists.len() == old(self)@.playlists.len(),
            forall|i: int|
                0 <= i < old(self)@.playlists.len() ==> #[trigger] final(self)@.playlists[i] == (
                match (find_playlist_by_id(old(self)@.playlists, playlist_id as int),
                find_track_by_id(old(self)@.tracks, track_id as int)) {
                    (Some(pi), Some(tj)) => {
                        let p = old(self)@.playlists[i];
                        let pid = old(self)@.tracks[tj].persistent_id;
                        if i == pi && !p.is_folder && !seq_contains_str(
                            p.track_ids->Some_0,
                            pid,
                        ) {
                            PlaylistView { track_ids: Some(p.track_ids->Some_0.push(pid)), ..p }
                        } else {
                            p
                        }
                    },
                    _ => old(self)@.playlists[i],
                }),
    {
        let pi = match self.find_playlist_id(playlist_id) {
            Some(pi) => pi,
            None => {
                return ;
            },
        };
        let tj = match self.find_track_id(track_id) {
            Some(tj) => tj,
            None => {
                return ;
            },
        };
        proof {
            assert(self@.playlists[pi as int] == self.playlists@[pi as int]@);
            assert(self@.tracks[tj as int] == self.tracks@[tj as int]@);
        }
        if self.playlists[pi].is_folder {
            return ;
        }
        let pid = self.tracks[tj].persistent_id.clone();
        let ghost before = self@.playlists;
        let slot = &mut self.playlists[pi];
        match &mut slot.track_ids {
            Some(ids) => {
                let mut member = false;
                let mut k: usize = 0;
                while k < ids.len()
                    invariant
                        k <= ids@.len(),
                        pid@ == old(self)@.tracks[tj as int].persistent_id,
                        ids.deep_view() == before[pi as int].track_ids->Some_0,
                        member == exists|j: int|
                            0 <= j < k && #[trigger] ids.deep_view()[j] == pid@,
                    decreases ids@.len() - k,
                {
                    proof {
                        assert(ids.deep_view()[k as int] == ids@[k as int]@);
                    }
                    if str_eq(ids[k].as_str(), pid.as_str()) {
                        member = true;
                    }
                    k = k + 1;
                }
                if !member {
                    let ghost ms = ids.deep_view();
                    ids.push(pid);
                    proof {
                        assert(ids.deep_view() =~= ms.push(
                            old(self)@.tracks[tj as int].persistent_id,
                        ));
                    }
                } else {
                    proof {
                        assert(seq_contains_str(
                            before[pi as int].track_ids->Some_0,
                            old(self)@.tracks[tj as int].persistent_id,
                        ));
                    }
                }
            },
            None => {
                proof {
                    assert(before[pi as int].track_ids is Some);
                    assert(false);
                }
            },
        }
        proof {
            lemma_playlists_wf_pointwise(
                before,
                self@.playlists,
                old(self)@.next_playlist_id,
                self@.next_playlist_id,
            );
        }
    }

    /// Removes every occurrence of a track from a playlist's membership.
    pub fn remove_track_from_playlist(&mut self, playlist_id: i64, track_id: i64)
        requires
            old(self).wf(),
        ensures
            final(self).wf(),
            final(self)@ == (StoreView { playlists: final(self)@.playlists, ..old(self)@ }),
            final(self)@.playlists.len() == old(self)@.playlists.len(),
            forall|i: int|
                0 <= i < old(self)@.playlists.len() ==> #[trigger] final(self)@.playlists[i] == (
                match (find_playlist_by_id(old(self)@.playlists, playlist_id as int),
                find_track_by_id(old(self)@.tracks, track_id as int)) {
                    (Some(pi), Some(tj)) => {
                        let p = old(self)@.playlists[i];
                        if i == pi {
                            PlaylistView {
                                track_ids: Some(
                                    remove_str(
                                        p.track_ids->Some_0,
                                        old(self)@.tracks[tj].persistent_id,
                                    ),
                                ),
                                ..p
                            }
                        } else {
                            p
                        }
                    },
                    _ => old(self)@.playlists[i],
                }),
    {
        let pi = match self.find_playlist_id(playlist_id) {
            Some(pi) => pi,
            None => {
                return ;
            },
        };
        let tj = match self.find_track_id(track_id) {
            Some(tj) => tj,
            None => {
                return ;
            },
        };
        proof {
            assert(self@.playlists[pi as int] == self.playlists@[pi as int]@);
            assert(self@.tracks[tj as int] == self.tracks@[tj as int]@);
        }
        let pid = self.tracks[tj].persistent_id.clone();
        let ghost before = self@.playlists;
        let slot = &mut self.playlists[pi];
        match &mut slot.track_ids {
            Some(ids) => {
                let ghost all = ids.deep_view();
                let mut kept: Vec<String> = Vec::new();
                let mut k: usize = 0;
                proof {
                    assert(all.skip(0) =~= all);
                }
                while k < ids.len()
                    invariant
                        k <= all.len(),
                        all == ids.deep_view(),
                        all.len() == ids@.len(),
                        pid@ == old(self)@.tracks[tj as int].persistent_id,
                        remove_str(all, pid@) == kept.deep_view() + remove_str(
                            all.skip(k as int),
                            pid@,
                        ),
                    decreases all.len() - k,
                {
                    let ghost suffix = all.skip(k as int);
                    proof {
                        assert(suffix[0] == all[k as int]);
                        assert(all[k as int] == ids@[k as int]@);
                        assert(suffix.drop_first() =~= all.skip(k + 1));
                    }
                    if !str_eq(ids[k].as_str(), pid.as_str()) {
                        let ghost bk = kept.deep_view();
                        kept.push(ids[k].clone());
                        proof {
                            assert(kept.deep_view() =~= bk.push(all[k as int]));
                            assert(bk.push(all[k as int]) =~= bk + seq![all[k as int]]);
                            assert(kept.deep_view() + remove_str(all.skip(k + 1), pid@) =~= bk + (
                            seq![all[k as int]] + remove_str(all.skip(k + 1), pid@)));
                        }
                    }
                    k = k + 1;
                }
                proof {
                    assert(all.skip(all.len() as int) =~= Seq::<Seq<char>>::empty());
                    assert(kept.deep_view() + Seq::<Seq<char>>::empty() =~= kept.deep_view());
                }
                *ids = kept;
            },
            None => {
                proof {
                    assert(before[pi as int].track_ids is Some);
                    assert(false);
                }
            },
        }
        proof {
            if before[pi as int].is_folder {
                assert(before[pi as int].track_ids == Some(Seq::<Seq<char>>::empty()));
                assert(remove_str(Seq::<Seq<char>>::empty(), pid@) =~= Seq::<Seq<char>>::empty());
            }
            lemma_playlists_wf_pointwise(
                before,
                self@.playlists,
                old(self)@.next_playlist_id,
                self@.next_playlist_id,
            );
        }
    }

    /// Deletes every playlist whose persistent identifier is listed;
    /// returns the names of the deleted playlists, in store order.
    pub fn remove_playlists_by_persistent_ids(&mut self, pids: &Vec<String>) -> (names: Vec<
        String,
    >)
        requires
            old(self).wf(),
        ensures
            final(self).wf(),
            final(self)@ == (StoreView { playlists: final(self)@.playlists, ..old(self)@ }),
            final(self)@.playlists == remove_playlists_spec(
                old(self)@.playlists,
                pids.deep_view(),
            ),
            names.deep_view() == removed_names_spec(old(self)@.playlists, pids.deep_view()),
    {
        let ghost all = self@.playlists;
        let ghost dels = pids.deep_view();
        let mut kept: Vec<Playlist> = Vec::new();
        let mut names: Vec<String> = Vec::new();
        let mut i: usize = 0;
        proof {
            assert(all.skip(0) =~= all);
        }
        while i < self.playlists.len()
            invariant
                i <= all.len(),
                all == self@.playlists,
                dels == pids.deep_view(),
                all.len() == self.playlists@.len(),
                remove_playlists_spec(all, dels) == kept.deep_view() + remove_playlists_spec(
                    all.skip(i as int),
                    dels,
                ),
                removed_names_spec(all, dels) == names.deep_view() + removed_names_spec(
                    all.skip(i as int),
                    dels,
                ),
            decreases all.len() - i,
        {
            let ghost suffix = all.skip(i as int);
            proof {
                assert(suffix[0] == all[i as int]);
                assert(all[i as int] == self.playlists@[i as int]@);
                assert(suffix.drop_first() =~= all.skip(i + 1));
            }
            let mut listed = false;
            let mut k: usize = 0;
            while k < pids.len()
                invariant
                    k <= dels.len(),
                    dels == pids.deep_view(),
                    dels.len() == pids@.len(),
                    i < all.len(),
                    all == self@.playlists,
                    all.len() == self.playlists@.len(),
                    all[i as int] == self.playlists@[i as int]@,
                    listed == exists|j: int|
                        0 <= j < k && #[trigger] dels[j] == all[i as int].persistent_id,
                decreases dels.len() - k,
            {
                proof {
                    assert(dels[k as int] == pids@[k as int]@);
                }
                if str_eq(pids[k].as_str(), self.playlists[i].persistent_id.as_str()) {
                    listed = true;
                }
                k = k + 1;
            }
            if listed {
                proof {
                    assert(seq_contains_str(dels, all[i as int].persistent_id));
                }
                let ghost bn = names.deep_view();
                names.push(self.playlists[i].name.clone());
                proof {
                    assert(names.deep_view() =~= bn.push(all[i as int].name));
                    assert(bn.push(all[i as int].name) =~= bn + seq![all[i as int].name]);
                    assert(names.deep_view() + removed_names_spec(all.skip(i + 1), dels) =~= bn + (
                    seq![all[i as int].name] + removed_names_spec(all.skip(i + 1), dels)));
                }
            } else {
                proof {
                    assert(!seq_contains_str(dels, all[i as int].persistent_id));
                }
                let ghost bk = kept.deep_view();
                kept.push(self.playlists[i].duplicate());
                proof {
                    assert(kept.deep_view() =~= bk.push(all[i as int]));
                    assert(bk.push(all[i as int]) =~= bk + seq![all[i as int]]);
                    assert(kept.deep_view() + remove_playlists_spec(all.skip(i + 1), dels) =~= bk
                        + (seq![all[i as int]] + remove_playlists_spec(all.skip(i + 1), dels)));
                }
            }
            i = i + 1;
        }
        proof {
            assert(all.skip(all.len() as int) =~= Seq::<PlaylistView>::empty());
            assert(kept.deep_view() + Seq::<PlaylistView>::empty() =~= kept.deep_view());
            assert(names.deep_view() + Seq::<Seq<char>>::empty() =~= names.deep_view());
        }
        self.playlists = kept;
        proof {
            lemma_remove_playlists_wf(all, dels, old(self)@.next_playlist_id);
        }
        names
    }

    /// Writes a track's rating and BPM, keyed by its persistent identifier,
    /// exactly when at least one of the two differs from the stored value;
    /// reports whether a record changed.
    pub fn update_rating_bpm(&mut self, pid: &str, rating: i64, bpm: i64) -> (changed: bool)
        requires
            old(self).wf(),
        ensures
            final(self).wf(),
            final(self)@.tracks == apply_field_update(
                old(self)@.tracks,
                pid@,
                rating as int,
                bpm as int,
            ).0,
            changed == (apply_field_update(old(self)@.tracks, pid@, rating as int, bpm as int).1
                == 1),
            final(self)@ == (StoreView { tracks: final(self)@.tracks, ..old(self)@ }),
    {
        match self.find_track_pid(pid) {
            Some(i) => {
                proof {
                    assert(self@.tracks[i as int] == self.tracks@[i as int]@);
                }
                if self.tracks[i].rating != rating || self.tracks[i].bpm != bpm {
                    let ghost before = self@.tracks;
                    let slot = &mut self.tracks[i];
                    slot.rating = rating;
                    slot.bpm = bpm;
                    proof {
                        assert(self@.tracks =~= before.update(
                            i as int,
                            (TrackView {
                                rating: rating as int,
                                bpm: bpm as int,
                                ..before[i as int]
                            }),
                        ));
                        lemma_tracks_wf_pointwise(
                            before,
                            self@.tracks,
                            old(self)@.next_track_id,
                            self@.next_track_id,
                        );
                    }
                    true
                } else {
                    false
                }
            },
            None => false,
        }
    }

    /// The persistent identifiers of all playlists, in store order.
    pub fn get_playlist_pids(&self) -> (r: Vec<String>)
        ensures
            r.deep_view() == playlist_pids(self@.playlists),
    {
        let mut r: Vec<String> = Vec::new();
        let mut i: usize = 0;
        while i < self.playlists.len()
            invariant
                i <= self@.playlists.len(),
                self@.playlists.len() == self.playlists@.len(),
                r@.len() == i,
                forall|j: int| 0 <= j < i ==> (#[trigger] r@[j])@
                    == self@.playlists[j].persistent_id,
            decreases self@.playlists.len() - i,
        {
            proof {
                assert(self@.playlists[i as int] == self.playlists@[i as int]@);
            }
            r.push(self.playlists[i].persistent_id.clone());
            i = i + 1;
        }
        proof {
            lemma_playlist_pids(self@.playlists);
            assert forall|j: int| 0 <= j < r.deep_view().len() implies r.deep_view()[j]
                == playlist_pids(self@.playlists)[j] by {
                assert(r.deep_view()[j] == r@[j]@);
            }
            assert(r.deep_view() =~= playlist_pids(self@.playlists));
        }
        r
    }

    /// Would upserting this snapshot record change nothing: is the stored
    /// playlist under its identifier already equal in name, folder flag,
    /// parent, and ordered membership filtered to known tracks?
    pub fn playlist_matches_entry(&self, e: &PlaylistSnapshotEntry) -> (r: bool)
        requires
            self.wf(),
        ensures
            r == playlist_up_to_date(self@.playlists, entry_as_playlist(e@), self@.tracks),
    {
        let ghost p = entry_as_playlist(e@);
        let i = match self.find_playlist_pid(e.persistent_id.as_str()) {
            Some(i) => i,
            None => {
                return false;
            },
        };
        proof {
            assert(self@.playlists[i as int] == self.playlists@[i as int]@);
        }
        let ghost norm = normalize_playlist(p, self@.playlists[i as int].id, self@.tracks);
        let cur = &self.playlists[i];
        if !str_eq(cur.name.as_str(), e.name.as_str()) {
            return false;
        }
        if cur.is_folder != e.is_folder {
            return false;
        }
        if !crate::model::opt_str_eq(&cur.parent_persistent_id, &e.parent_persistent_id) {
            return false;
        }
        let want: Vec<String> = if e.is_folder {
            let w: Vec<String> = Vec::new();
            proof {
                assert(w.deep_view() =~= Seq::<Seq<char>>::empty());
            }
            w
        } else {
            self.filter_known_exec(&e.track_ids)
        };
        match &cur.track_ids {
            Some(have) => {
                let same = str_vec_eq(have, &want);
                proof {
                    lemma_find_playlist_by_pid(self@.playlists, e@.persistent_id);
                    if same {
                        assert(self@.playlists[i as int].persistent_id == norm.persistent_id);
                        assert(self@.playlists[i as int].name == norm.name);
                        assert(self@.playlists[i as int].parent_persistent_id
                            == norm.parent_persistent_id);
                        assert(self@.playlists[i as int].is_folder == norm.is_folder);
                        assert(self@.playlists[i as int].track_ids == norm.track_ids);
                        assert(self@.playlists[i as int] == norm);
                    } else {
                        assert(self@.playlists[i as int].track_ids != norm.track_ids);
                    }
                }
                same
            },
            None => {
                proof {
                    assert(self@.playlists[i as int].track_ids is Some);
                    assert(false);
                }
                false
            },
        }
    }

    /// Writes the provided fields of a track-info edit, keyed by the local
    /// id; absent fields are left untouched.
    pub fn update_track_info(
        &mut self,
        id: i64,
        title: &Option<String>,
        artist: &Option<String>,
        album: &Option<String>,
        bpm: Option<i64>,
        comment_raw: &Option<String>,
    )
        requires
            old(self).wf(),
        ensures
            final(self).wf(),
            final(self)@ == (StoreView { tracks: final(self)@.tracks, ..old(self)@ }),
            final(self)@.tracks.len() == old(self)@.tracks.len(),
            forall|i: int|
                0 <= i < old(self)@.tracks.len() ==> #[trigger] final(self)@.tracks[i] == (
                if old(self)@.tracks[i].id == id {
                    TrackView {
                        title: if opt_view(*title) is Some {
                            opt_view(*title)
                        } else {
                            old(self)@.tracks[i].title
                        },
                        artist: if opt_view(*artist) is Some {
                            opt_view(*artist)
                        } else {
                            old(self)@.tracks[i].artist
                        },
                        album: if opt_view(*album) is Some {
                            opt_view(*album)
                        } else {
                            old(self)@.tracks[i].album
                        },
                        bpm: match bpm {
                            Some(b) => b as int,
                            None => old(self)@.tracks[i].bpm,
                        },
                        comment_raw: if opt_view(*comment_raw) is Some {
                            opt_view(*comment_raw)
                        } else {
                            old(self)@.tracks[i].comment_raw
                        },
                        ..old(self)@.tracks[i]
                    }
                } else {
                    old(self)@.tracks[i]
                }),
    {
        match self.find_track_id(id) {
            Some(i) => {
                let slot = &mut self.tracks[i];
                match title {
                    Some(t) => {
                        slot.title = Some(t.clone());
                    },
                    None => {},
                }
                match artist {
                    Some(t) => {
                        slot.artist = Some(t.clone());
                    },
                    None => {},
                }
                match album {
                    Some(t) => {
                        slot.album = Some(t.clone());
                    },
                    None => {},
                }
                match bpm {
                    Some(b) => {
                        slot.bpm = b;
                    },
                    None => {},
                }
                match comment_raw {
                    Some(t) => {
                        slot.comment_raw = Some(t.clone());
                    },
                    None => {},
                }
                proof {
                    lemma_find_track_by_id(old(self)@.tracks, id as int);
                    lemma_tracks_wf_pointwise(
                        old(self)@.tracks,
                        self@.tracks,
                        old(self)@.next_track_id,
                        self@.next_track_id,
                    );
                }
            },
            None => {
                proof {
                    lemma_find_track_by_id(old(self)@.tracks, id as int);
                }
            },
        }
    }

    /// All tags, ordered by name ascending, compared case-insensitively as
    /// the store's uniqueness rule reads names; the result holds exactly
    /// the stored tags.
    pub fn get_all_tags(&self) -> (r: Vec<Tag>)
        ensures
            r.deep_view().to_multiset() == self@.tags.to_multiset(),
            forall|i: int, j: int|
                0 <= i < j < r.deep_view().len() ==> lex_le(
                    lower(#[trigger] r.deep_view()[i].name),
                    lower(#[trigger] r.deep_view()[j].name),
                ),
    {
        let ghost all = self@.tags;
        let mut r: Vec<Tag> = Vec::new();
        let mut i: usize = 0;
        proof {
            assert(all.subrange(0, 0) =~= Seq::<TagView>::empty());
            assert(r.deep_view() =~= Seq::<TagView>::empty());
            assert(Seq::<TagView>::empty().to_multiset() =~= Seq::<
                TagView,
            >::empty().to_multiset());
        }
        while i < self.tags.len()
            invariant
                i <= all.len(),
                all == self@.tags,
                all.len() == self.tags@.len(),
                r.deep_view().to_multiset() == all.subrange(0, i as int).to_multiset(),
                forall|a: int, b: int|
                    0 <= a < b < r.deep_view().len() ==> lex_le(
                        lower(#[trigger] r.deep_view()[a].name),
                        lower(#[trigger] r.deep_view()[b].name),
                    ),
            decreases all.len() - i,
        {
            proof {
                assert(all[i as int] == self.tags@[i as int]@);
            }
            let ghost x = all[i as int];
            let ghost before = r.deep_view();
            let tag = self.tags[i].duplicate();
            // find the insertion point: before the first entry that does
            // not sort at or below the new tag
            let mut p: usize = 0;
            while p < r.len() && lex_le_ci(r[p].name.as_str(), tag.name.as_str())
                invariant
                    p <= r@.len(),
                    before == r.deep_view(),
                    before.len() == r@.len(),
                    i < all.len(),
                    x == all[i as int],
                    tag@ == x,
                    forall|y: int| 0 <= y < p ==> lex_le(lower(#[trigger] before[y].name), lower(
                        x.name,
                    )),
                decreases r@.len() - p,
            {
                proof {
                    assert(r.deep_view()[p as int] == r@[p as int]@);
                }
                p = p + 1;
            }
            proof {
                if p < before.len() {
                    assert(before[p as int] == r@[p as int]@);
                    assert(!lex_le(lower(before[p as int].name), lower(x.name)));
                    lemma_lex_total(lower(before[p as int].name), lower(x.name));
                    assert(lex_le(lower(x.name), lower(before[p as int].name)));
                }
            }
            let ghost old_rv = r@;
            r.insert(p, tag);
            proof {
                old_rv.insert_ensures(p as int, r@[p as int]);
                let after = r.deep_view();
                assert(after.len() == before.len() + 1);
                assert forall|y: int| 0 <= y < after.len() implies #[trigger] after[y] == (if y
                    < p {
                    before[y]
                } else if y == p {
                    x
                } else {
                    before[y - 1]
                }) by {
                    assert(after[y] == r@[y]@);
                    if y < p {
                        assert(r@[y] == old_rv[y]);
                        assert(old_rv[y]@ == before[y]);
                    } else if y == p {
                        assert(r@[p as int]@ == x);
                    } else {
                        assert(r@[y] == old_rv[y - 1]);
                        assert(old_rv[y - 1]@ == before[y - 1]);
                    }
                }
                // contents: the new list is the old plus this tag
                assert(after =~= before.insert(p as int, x));
                vstd::seq_lib::to_multiset_insert(before, p as int, x);
                assert(all.subrange(0, i + 1) =~= all.subrange(0, i as int).push(x));
                vstd::seq_lib::to_multiset_build(all.subrange(0, i as int), x);
                // order: everything before the slot sorts at or below the
                // tag, everything after at or above
                assert forall|a: int, b: int| 0 <= a < b < after.len() implies lex_le(
                    lower(#[trigger] after[a].name),
                    lower(#[trigger] after[b].name),
                ) by {
                    if a == p {
                        assert(after[b] == before[b - 1]);
                        assert(b - 1 >= p);
                        if b - 1 == p {
                            assert(lex_le(lower(x.name), lower(before[p as int].name)));
                        } else {
                            assert(lex_le(
                                lower(before[p as int].name),
                                lower(before[b - 1].name),
                            ));
                            lemma_lex_trans(
                                lower(x.name),
                                lower(before[p as int].name),
                                lower(before[b - 1].name),
                            );
                        }
                    } else if b == p {
                        assert(after[a] == before[a]);
                        assert(lex_le(lower(before[a].name), lower(x.name)));
                    } else {
                        let ab: int = if a < p {
                            a
                        } else {
                            a - 1
                        };
                        let bb: int = if b < p {
                            b
                        } else {
                            b - 1
                        };
                        assert(after[a] == before[ab]);
                        assert(after[b] == before[bb]);
                        if ab < bb {
                            assert(lex_le(lower(before[ab].name), lower(before[bb].name)));
                        } else {
                            assert(ab == bb);
                        }
                    }
                }
            }
            i = i + 1;
        }
        proof {
            assert(all.subrange(0, all.len() as int) =~= all);
        }
        r
    }

    /// All tag groups, in store order; callers order by `position`.
    pub fn get_tag_groups(&self) -> (r: Vec<TagGroup>)
        ensures
            r.deep_view() == self@.tag_groups,
    {
        let mut r: Vec<TagGroup> = Vec::new();
        let mut i: usize = 0;
        while i < self.tag_groups.len()
            invariant
                i <= self@.tag_groups.len(),
                self@.tag_groups.len() == self.tag_groups@.len(),
                r@.len() == i,
                forall|j: int| 0 <= j < i ==> (#[trigger] r@[j])@ == self@.tag_groups[j],
            decreases self@.tag_groups.len() - i,
        {
            proof {
                assert(self@.tag_groups[i as int] == self.tag_groups@[i as int]@);
            }
            r.push(self.tag_groups[i].duplicate());
            i = i + 1;
        }
        proof {
            assert forall|j: int| 0 <= j < r.deep_view().len() implies r.deep_view()[j]
                == self@.tag_groups[j] by {
                assert(r.deep_view()[j] == r@[j]@);
            }
            assert(r.deep_view() =~= self@.tag_groups);
        }
        r
    }

    /// Creates a tag group under a fresh id, placed after every existing
    /// group (its position is one past the largest, saturating).
    pub fn create_tag_group(&mut self, name: &str) -> (r: TagGroup)
        requires
            old(self).wf(),
            old(self)@.next_group_id < i64::MAX,
        ensures
            final(self).wf(),
            final(self)@ == (StoreView {
                tag_groups: old(self)@.tag_groups.push(r@),
                next_group_id: old(self)@.next_group_id + 1,
                ..old(self)@
            }),
            r@.id == old(self)@.next_group_id,
            r@.name == name@,
            forall|j: int|
                0 <= j < old(self)@.tag_groups.len() ==> (#[trigger] old(
                    self,
                )@.tag_groups[j]).position < r@.position || r@.position == i64::MAX,
    {
        let mut max_pos: i64 = 0;
        let mut i: usize = 0;
        while i < self.tag_groups.len()
            invariant
                i <= self@.tag_groups.len(),
                self@.tag_groups.len() == self.tag_groups@.len(),
                max_pos >= 0,
                forall|j: int|
                    0 <= j < i ==> (#[trigger] self@.tag_groups[j]).position <= max_pos,
            decreases self@.tag_groups.len() - i,
        {
            proof {
                assert(self@.tag_groups[i as int] == self.tag_groups@[i as int]@);
            }
            if self.tag_groups[i].position > max_pos {
                max_pos = self.tag_groups[i].position;
            }
            i = i + 1;
        }
        let position = if max_pos < i64::MAX {
            max_pos + 1
        } else {
            i64::MAX
        };
        let g = TagGroup { id: self.next_group_id, name: name.to_owned(), position };
        let r = g.duplicate();
        let ghost before = self@.tag_groups;
        self.tag_groups.push(g);
        self.next_group_id = self.next_group_id + 1;
        proof {
            assert(self@.tag_groups =~= before.push(r@));
        }
        r
    }

    /// Renames a tag group, keyed by its id.
    pub fn update_tag_group(&mut self, id: i64, name: &str)
        requires
            old(self).wf(),
        ensures
            final(self).wf(),
            final(self)@ == (StoreView { tag_groups: final(self)@.tag_groups, ..old(self)@ }),
            final(self)@.tag_groups.len() == old(self)@.tag_groups.len(),
            forall|i: int|
                0 <= i < old(self)@.tag_groups.len() ==> #[trigger] final(self)@.tag_groups[i]
                    == (if old(self)@.tag_groups[i].id == id {
                    TagGroupView { name: name@, ..old(self)@.tag_groups[i] }
                } else {
                    old(self)@.tag_groups[i]
                }),
    {
        let mut i: usize = 0;
        while i < self.tag_groups.len()
            invariant
                i <= self.tag_groups@.len(),
                self@.tag_groups.len() == self.tag_groups@.len(),
                self@ == (StoreView { tag_groups: self@.tag_groups, ..old(self)@ }),
                old(self)@.tag_groups.len() == self@.tag_groups.len(),
                forall|j: int|
                    0 <= j < i ==> #[trigger] self@.tag_groups[j] == (if old(
                        self,
                    )@.tag_groups[j].id == id {
                        TagGroupView { name: name@, ..old(self)@.tag_groups[j] }
                    } else {
                        old(self)@.tag_groups[j]
                    }),
                forall|j: int|
                    i <= j < self@.tag_groups.len() ==> #[trigger] self@.tag_groups[j] == old(
                        self,
                    )@.tag_groups[j],
            decreases self.tag_groups@.len() - i,
        {
            proof {
                assert(self@.tag_groups[i as int] == self.tag_groups@[i as int]@);
            }
            let ghost snap = self@.tag_groups;
            if self.tag_groups[i].id == id {
                let slot = &mut self.tag_groups[i];
                slot.name = name.to_owned();
                proof {
                    assert(self@.tag_groups =~= snap.update(
                        i as int,
                        (TagGroupView { name: name@, ..snap[i as int] }),
                    ));
                }
            }
            i = i + 1;
        }
    }

    /// Deletes a tag group; tags assigned to it lose their assignment.
    pub fn delete_tag_group(&mut self, id: i64)
        requires
            old(self).wf(),
        ensures
            final(self).wf(),
            final(self)@ == (StoreView {
                tag_groups: final(self)@.tag_groups,
                tags: final(self)@.tags,
                ..old(self)@
            }),
            final(self)@.tag_groups == remove_group_spec(old(self)@.tag_groups, id as int),
            final(self)@.tags.len() == old(self)@.tags.len(),
            forall|i: int|
                0 <= i < old(self)@.tags.len() ==> #[trigger] final(self)@.tags[i] == (if old(
                    self,
                )@.tags[i].group_id == Some(id as int) {
                    TagView { group_id: None, ..old(self)@.tags[i] }
                } else {
                    old(self)@.tags[i]
                }),
    {
        let ghost before = self@.tag_groups;
        let mut kept: Vec<TagGroup> = Vec::new();
        let mut i: usize = 0;
        proof {
            assert(before.skip(0) =~= before);
        }
        while i < self.tag_groups.len()
            invariant
                i <= self.tag_groups@.len(),
                before == self@.tag_groups,
                before.len() == self.tag_groups@.len(),
                remove_group_spec(before, id as int) == kept.deep_view() + remove_group_spec(
                    before.skip(i as int),
                    id as int,
                ),
            decreases self.tag_groups@.len() - i,
        {
            let ghost suffix = before.skip(i as int);
            proof {
                assert(suffix[0] == before[i as int]);
                assert(before[i as int] == self.tag_groups@[i as int]@);
                assert(suffix.drop_first() =~= before.skip(i + 1));
            }
            if self.tag_groups[i].id != id {
                let ghost bk = kept.deep_view();
                kept.push(self.tag_groups[i].duplicate());
                proof {
                    assert(kept.deep_view() =~= bk.push(before[i as int]));
                    assert(bk.push(before[i as int]) =~= bk + seq![before[i as int]]);
                    assert(kept.deep_view() + remove_group_spec(before.skip(i + 1), id as int)
                        =~= bk + (seq![before[i as int]] + remove_group_spec(
                        before.skip(i + 1),
                        id as int,
                    )));
                }
            }
            i = i + 1;
        }
        proof {
            assert(before.skip(before.len() as int) =~= Seq::<TagGroupView>::empty());
            assert(kept.deep_view() + Seq::<TagGroupView>::empty() =~= kept.deep_view());
        }
        self.tag_groups = kept;
        let ghost mid_tags = self@.tags;
        let mut k: usize = 0;
        while k < self.tags.len()
            invariant
                k <= self.tags@.len(),
                mid_tags.len() == self.tags@.len(),
                mid_tags == old(self)@.tags,
                self@ == (StoreView { tag_groups: self@.tag_groups, tags: self@.tags, ..old(
                    self,
                )@ }),
                self@.tag_groups == remove_group_spec(before, id as int),
                self@.tags.len() == mid_tags.len(),
                forall|j: int|
                    0 <= j < k ==> #[trigger] self@.tags[j] == (if mid_tags[j].group_id == Some(
                        id as int,
                    ) {
                        TagView { group_id: None, ..mid_tags[j] }
                    } else {
                        mid_tags[j]
                    }),
                forall|j: int|
                    k <= j < self@.tags.len() ==> #[trigger] self@.tags[j] == mid_tags[j],
            decreases self.tags@.len() - k,
        {
            proof {
                assert(self@.tags[k as int] == self.tags@[k as int]@);
            }
            let ghost snap = self@.tags;
            let clear = match self.tags[k].group_id {
                Some(g) => g == id,
                None => false,
            };
            if clear {
                let slot = &mut self.tags[k];
                slot.group_id = None;
                proof {
                    assert(self@.tags =~= snap.update(
                        k as int,
                        (TagView { group_id: None, ..snap[k as int] }),
                    ));
                }
            }
            k = k + 1;
        }
    }

    /// Repositions the listed tag groups: the group with the k-th listed id
    /// takes position k; unlisted groups keep their positions.
    pub fn reorder_tag_groups(&mut self, ordered_ids: &Vec<i64>)
        requires
            old(self).wf(),
            ordered_ids@.len() <= i64::MAX,
        ensures
            final(self).wf(),
            final(self)@ == (StoreView { tag_groups: final(self)@.tag_groups, ..old(self)@ }),
            final(self)@.tag_groups == reorder_groups_spec(
                old(self)@.tag_groups,
                ids_view(ordered_ids@),
                0,
            ),
    {
        let ghost idv = ids_view(ordered_ids@);
        let mut k: usize = 0;
        while k < ordered_ids.len()
            invariant
                k <= idv.len(),
                idv == ids_view(ordered_ids@),
                idv.len() == ordered_ids@.len(),
                idv.len() <= i64::MAX,
                self.wf(),
                reorder_groups_spec(old(self)@.tag_groups, idv, 0) == reorder_groups_spec(
                    self@.tag_groups,
                    idv,
                    k as int,
                ),
                self@ == (StoreView { tag_groups: self@.tag_groups, ..old(self)@ }),
            decreases idv.len() - k,
        {
            proof {
                assert(idv[k as int] == ordered_ids@[k as int] as int);
            }
            let id = ordered_ids[k];
            let ghost prev = self@.tag_groups;
            let mut i: usize = 0;
            while i < self.tag_groups.len()
                invariant
                    i <= self.tag_groups@.len(),
                    prev.len() == self.tag_groups@.len(),
                    k <= idv.len(),
                    k < i64::MAX,
                    self@ == (StoreView { tag_groups: self@.tag_groups, ..old(self)@ }),
                    self@.tag_groups.len() == prev.len(),
                    forall|j: int|
                        0 <= j < i ==> #[trigger] self@.tag_groups[j] == (if prev[j].id
                            == id as int {
                            TagGroupView { position: k as int, ..prev[j] }
                        } else {
                            prev[j]
                        }),
                    forall|j: int|
                        i <= j < prev.len() ==> #[trigger] self@.tag_groups[j] == prev[j],
                decreases self.tag_groups@.len() - i,
            {
                proof {
                    assert(self@.tag_groups[i as int] == self.tag_groups@[i as int]@);
                }
                let ghost snap = self@.tag_groups;
                if self.tag_groups[i].id == id {
                    let slot = &mut self.tag_groups[i];
                    slot.position = k as i64;
                    proof {
                        assert(self@.tag_groups =~= snap.update(
                            i as int,
                            (TagGroupView { position: k as int, ..snap[i as int] }),
                        ));
                    }
                }
                i = i + 1;
            }
            proof {
                assert(self@.tag_groups =~= set_group_position(prev, id as int, k as int));
            }
            k = k + 1;
        }
    }

    /// Assigns a tag to a group, or clears the assignment, keyed by the
    /// tag's id.
    pub fn set_tag_group(&mut self, tag_id: i64, group_id: Option<i64>)
        requires
            old(self).wf(),
        ensures
            final(self).wf(),
            final(self)@ == (StoreView { tags: final(self)@.tags, ..old(self)@ }),
            final(self)@.tags.len() == old(self)@.tags.len(),
            forall|i: int|
                0 <= i < old(self)@.tags.len() ==> #[trigger] final(self)@.tags[i] == (if old(
                    self,
                )@.tags[i].id == tag_id {
                    TagView {
                        group_id: match group_id {
                            Some(g) => Some(g as int),
                            None => None,
                        },
                        ..old(self)@.tags[i]
                    }
                } else {
                    old(self)@.tags[i]
                }),
    {
        let mut i: usize = 0;
        while i < self.tags.len()
            invariant
                i <= self.tags@.len(),
                self@.tags.len() == self.tags@.len(),
                self@ == (StoreView { tags: self@.tags, ..old(self)@ }),
                old(self)@.tags.len() == self@.tags.len(),
                forall|j: int|
                    0 <= j < i ==> #[trigger] self@.tags[j] == (if old(self)@.tags[j].id == tag_id {
                        TagView {
                            group_id: match group_id {
                                Some(g) => Some(g as int),
                                None => None,
                            },
                            ..old(self)@.tags[j]
                        }
                    } else {
                        old(self)@.tags[j]
                    }),
                forall|j: int|
                    i <= j < self@.tags.len() ==> #[trigger] self@.tags[j] == old(self)@.tags[j],
            decreases self.tags@.len() - i,
        {
            proof {
                assert(self@.tags[i as int] == self.tags@[i as int]@);
            }
            let ghost snap = self@.tags;
            if self.tags[i].id == tag_id {
                let slot = &mut self.tags[i];
                slot.group_id = group_id;
                proof {
                    assert(self@.tags =~= snap.update(
                        i as int,
                        (TagView {
                            group_id: match group_id {
                                Some(g) => Some(g as int),
                                None => None,
                            },
                            ..snap[i as int]
                        }),
                    ));
                }
            }
            i = i + 1;
        }
    }

    /// Every tag occurrence across all tracks' decoded tag lists, in store
    /// order, duplicates included.
    pub fn get_all_occurrences(&self) -> (occ: Vec<String>)
        ensures
            occ.deep_view() == all_occurrences(self@.tracks),
    {
        let ghost tracksv = self@.tracks;
        let mut occ: Vec<String> = Vec::new();
        let mut i: usize = 0;
        proof {
            assert(tracksv.skip(0) =~= tracksv);
        }
        while i < self.tracks.len()
            invariant
                i <= tracksv.len(),
                tracksv == self@.tracks,
                tracksv.len() == self.tracks@.len(),
                all_occurrences(tracksv) == occ.deep_view() + all_occurrences(
                    tracksv.skip(i as int),
                ),
            decreases tracksv.len() - i,
        {
            let ghost suffix = tracksv.skip(i as int);
            proof {
                assert(suffix[0] == tracksv[i as int]);
                assert(tracksv[i as int] == self.tracks@[i as int]@);
                assert(suffix.drop_first() =~= tracksv.skip(i + 1));
            }
            let ghost base = occ.deep_view();
            match &self.tracks[i].comment_raw {
                Some(c) => {
                    let pieces = crate::codec::parse_tag_list(
                        crate::codec::split_comment(c.as_str()).1.as_str(),
                    );
                    let ghost tg = pieces.deep_view();
                    proof {
                        assert(tg == track_tags(tracksv[i as int]));
                    }
                    let mut t: usize = 0;
                    while t < pieces.len()
                        invariant
                            t <= tg.len(),
                            tg == pieces.deep_view(),
                            tg.len() == pieces@.len(),
                            occ.deep_view() == base + tg.subrange(0, t as int),
                        decreases tg.len() - t,
                    {
                        proof {
                            assert(tg[t as int] == pieces@[t as int]@);
                        }
                        occ.push(pieces[t].clone());
                        proof {
                            assert(occ.deep_view() =~= (base + tg.subrange(0, t as int)).push(
                                tg[t as int],
                            ));
                            assert((base + tg.subrange(0, t as int)).push(tg[t as int]) =~= base
                                + tg.subrange(0, t + 1));
                        }
                        t = t + 1;
                    }
                    proof {
                        assert(tg.subrange(0, tg.len() as int) =~= tg);
                        assert((base + tg) + all_occurrences(tracksv.skip(i + 1)) =~= base + (tg
                            + all_occurrences(tracksv.skip(i + 1))));
                    }
                },
                None => {
                    proof {
                        assert(track_tags(tracksv[i as int]) =~= Seq::<Seq<char>>::empty());
                        assert(base + Seq::<Seq<char>>::empty() =~= base);
                        assert(base + (Seq::<Seq<char>>::empty() + all_occurrences(
                            tracksv.skip(i + 1),
                        )) =~= base + all_occurrences(tracksv.skip(i + 1)));
                    }
                },
            }
            i = i + 1;
        }
        proof {
            assert(tracksv.skip(tracksv.len() as int) =~= Seq::<TrackView>::empty());
            assert(occ.deep_view() + Seq::<Seq<char>>::empty() =~= occ.deep_view());
        }
        occ
    }

    /// Recomputes the derived tag table by rescanning every track's decoded
    /// tag list: existing tags get fresh usage counts, and occurring names
    /// with no case-insensitive match yet are appended under fresh ids, in
    /// first-occurrence order and casing. Tags are derived, never the
    /// source of truth, so this full recompute is the only way they change.
    pub fn sync_tags(&mut self)
        requires
            old(self).wf(),
        ensures
            final(self).wf(),
            final(self)@ == (StoreView {
                tags: final(self)@.tags,
                next_tag_id: final(self)@.next_tag_id,
                ..old(self)@
            }),
            ({
                let occ = all_occurrences(old(self)@.tracks);
                occ.len() + old(self)@.next_tag_id <= i64::MAX ==> (
                    final(self)@.tags,
                    final(self)@.next_tag_id,
                ) == add_missing_tags(
                    retally(old(self)@.tags, occ),
                    old(self)@.next_tag_id,
                    occ,
                    occ,
                )
            }),
            all_occurrences(old(self)@.tracks).len() + old(self)@.next_tag_id > i64::MAX ==> (
            final(self)@.tags == old(self)@.tags && final(self)@.next_tag_id == old(
                self,
            )@.next_tag_id),
    {
        let occ = self.get_all_occurrences();
        let ghost occv = occ.deep_view();

        // keep the counters within the id space; otherwise leave the table be
        let headroom = i64::MAX - self.next_tag_id;
        if occ.len() as u64 > headroom as u64 {
            return ;
        }

        // first pass: recount every existing tag
        let ghost tags0 = self@.tags;
        let mut ti: usize = 0;
        while ti < self.tags.len()
            invariant
                ti <= tags0.len(),
                tags0.len() == self.tags@.len(),
                occv == occ.deep_view(),
                occv.len() < i64::MAX,
                self@ == (StoreView { tags: self@.tags, ..old(self)@ }),
                self@.tags.len() == tags0.len(),
                tags0 == old(self)@.tags,
                forall|j: int|
                    0 <= j < ti ==> #[trigger] self@.tags[j] == (TagView {
                        usage_count: count_ci(occv, tags0[j].name),
                        ..tags0[j]
                    }),
                forall|j: int| ti <= j < tags0.len() ==> #[trigger] self@.tags[j] == tags0[j],
            decreases tags0.len() - ti,
        {
            proof {
                assert(self@.tags[ti as int] == self.tags@[ti as int]@);
            }
            let cnt = count_ci_exec(&occ, self.tags[ti].name.as_str());
            let ghost snap = self@.tags;
            let slot = &mut self.tags[ti];
            slot.usage_count = cnt;
            proof {
                assert(self@.tags =~= snap.update(
                    ti as int,
                    (TagView { usage_count: cnt as int, ..snap[ti as int] }),
                ));
            }
            ti = ti + 1;
        }
        proof {
            assert(self@.tags =~= retally(tags0, occv));
        }

        // second pass: append every occurring name not yet present
        let ghost retallied = self@.tags;
        let mut k: usize = 0;
        proof {
            assert(occv.skip(0) =~= occv);
        }
        while k < occ.len()
            invariant
                k <= occv.len(),
                occv == occ.deep_view(),
                occv.len() == occ@.len(),
                occv.len() < i64::MAX,
                self.wf(),
                self@.next_tag_id + (occv.len() - k) <= i64::MAX,
                self@ == (StoreView {
                    tags: self@.tags,
                    next_tag_id: self@.next_tag_id,
                    ..old(self)@
                }),
                add_missing_tags(retallied, old(self)@.next_tag_id, occv, occv)
                    == add_missing_tags(
                    self@.tags,
                    self@.next_tag_id,
                    occv.skip(k as int),
                    occv,
                ),
            decreases occv.len() - k,
        {
            let ghost suffix = occv.skip(k as int);
            proof {
                assert(suffix[0] == occv[k as int]);
                assert(occv[k as int] == occ@[k as int]@);
                assert(suffix.drop_first() =~= occv.skip(k + 1));
            }
            let mut found = false;
            let mut j: usize = 0;
            while j < self.tags.len()
                invariant
                    j <= self.tags@.len(),
                    self@.tags.len() == self.tags@.len(),
                    k < occv.len(),
                    occv == occ.deep_view(),
                    occv[k as int] == occ@[k as int]@,
                    found == exists|x: int|
                        0 <= x < j && lower((#[trigger] self@.tags[x]).name) == lower(
                            occv[k as int],
                        ),
                decreases self.tags@.len() - j,
            {
                proof {
                    assert(self@.tags[j as int] == self.tags@[j as int]@);
                }
                if str_eq_ci(self.tags[j].name.as_str(), occ[k].as_str()) {
                    found = true;
                }
                j = j + 1;
            }
            if !found {
                let cnt = count_ci_exec(&occ, occ[k].as_str());
                let tag = Tag {
                    id: self.next_tag_id,
                    name: occ[k].clone(),
                    usage_count: cnt,
                    group_id: None,
                };
                let ghost tagv = tag@;
                let ghost prev = self@.tags;
                self.tags.push(tag);
                self.next_tag_id = self.next_tag_id + 1;
                proof {
                    assert(self@.tags =~= prev.push(tagv));
                }
            } else {
                proof {
                    assert(has_tag_named_ci(self@.tags, occv[k as int]));
                }
            }
            k = k + 1;
        }
        proof {
            assert(occv.skip(occv.len() as int) =~= Seq::<Seq<char>>::empty());
        }
    }

    /// The playlists whose membership contains the track with this local
    /// id, in store order.
    pub fn get_playlists_for_track(&self, track_id: i64) -> (r: Vec<PlaylistInfo>)
        requires
            self.wf(),
        ensures
            match find_track_by_id(self@.tracks, track_id as int) {
                Some(t) => ({
                    let picked = playlists_containing(
                        self@.playlists,
                        self@.tracks[t].persistent_id,
                    );
                    r@.len() == picked.len() && forall|j: int|
                        0 <= j < r@.len() ==> (#[trigger] r@[j]).id as int == picked[j].id
                            && r@[j].name@ == picked[j].name && r@[j].persistent_id@
                            == picked[j].persistent_id
                }),
                None => r@.len() == 0,
            },
    {
        let mut r: Vec<PlaylistInfo> = Vec::new();
        let t = match self.find_track_id(track_id) {
            Some(t) => t,
            None => {
                return r;
            },
        };
        proof {
            assert(self@.tracks[t as int] == self.tracks@[t as int]@);
        }
        let pid = self.tracks[t].persistent_id.clone();
        let ghost pidv = self@.tracks[t as int].persistent_id;
        let ghost ps = self@.playlists;
        let ghost mut picked = Seq::<PlaylistView>::empty();
        let mut i: usize = 0;
        proof {
            assert(ps.skip(0) =~= ps);
        }
        while i < self.playlists.len()
            invariant
                i <= ps.len(),
                self.wf(),
                ps == self@.playlists,
                ps.len() == self.playlists@.len(),
                pid@ == pidv,
                playlists_containing(ps, pidv) == picked + playlists_containing(
                    ps.skip(i as int),
                    pidv,
                ),
                r@.len() == picked.len(),
                forall|j: int|
                    0 <= j < r@.len() ==> (#[trigger] r@[j]).id as int == picked[j].id
                        && r@[j].name@ == picked[j].name && r@[j].persistent_id@
                        == picked[j].persistent_id,
            decreases ps.len() - i,
        {
            let ghost suffix = ps.skip(i as int);
            proof {
                assert(suffix[0] == ps[i as int]);
                assert(ps[i as int] == self.playlists@[i as int]@);
                assert(suffix.drop_first() =~= ps.skip(i + 1));
            }
            let is_member = match &self.playlists[i].track_ids {
                Some(ids) => {
                    let mut found = false;
                    let mut k: usize = 0;
                    while k < ids.len()
                        invariant
                            k <= ids@.len(),
                            i < ps.len(),
                            pid@ == pidv,
                            ids.deep_view() == ps[i as int].track_ids->Some_0,
                            found == exists|x: int|
                                0 <= x < k && #[trigger] ids.deep_view()[x] == pidv,
                        decreases ids@.len() - k,
                    {
                        proof {
                            assert(ids.deep_view()[k as int] == ids@[k as int]@);
                        }
                        if str_eq(ids[k].as_str(), pid.as_str()) {
                            found = true;
                        }
                        k = k + 1;
                    }
                    found
                },
                None => {
                    proof {
                        assert(ps[i as int].track_ids is Some);
                        assert(false);
                    }
                    false
                },
            };
            if is_member {
                proof {
                    assert(seq_contains_str(ps[i as int].track_ids->Some_0, pidv));
                }
                let ghost before = r@;
                r.push(
                    PlaylistInfo {
                        id: self.playlists[i].id,
                        persistent_id: self.playlists[i].persistent_id.clone(),
                        name: self.playlists[i].name.clone(),
                    },
                );
                proof {
                    let ghost prev = picked;
                    picked = picked.push(ps[i as int]);
                    assert(r@ =~= before.push(r@.last()));
                    assert(prev.push(ps[i as int]) =~= prev + seq![ps[i as int]]);
                }
            } else {
                proof {
                    assert(!seq_contains_str(ps[i as int].track_ids->Some_0, pidv));
                }
            }
            i = i + 1;
        }
        proof {
            assert(ps.skip(ps.len() as int) =~= Seq::<PlaylistView>::empty());
            assert(picked + Seq::<PlaylistView>::empty() =~= picked);
        }
        r
    }

    /// A reference to the playlist with this local id.
    pub fn get_playlist_info(&self, id: i64) -> (r: Option<PlaylistInfo>)
        ensures
            match find_playlist_by_id(self@.playlists, id as int) {
                Some(i) => r matches Some(p) && p.id as int == self@.playlists[i].id
                    && p.persistent_id@ == self@.playlists[i].persistent_id && p.name@
                    == self@.playlists[i].name,
                None => r is None,
            },
    {
        match self.find_playlist_id(id) {
            Some(i) => {
                proof {
                    assert(self@.playlists[i as int] == self.playlists@[i as int]@);
                }
                let p = &self.playlists[i];
                Some(
                    PlaylistInfo {
                        id: p.id,
                        persistent_id: p.persistent_id.clone(),
                        name: p.name.clone(),
                    },
                )
            },
            None => None,
        }
    }

    /// Room for `n` more track ids below the machine limit, so callers can
    /// test an insert batch's precondition before committing to it.
    pub fn can_accept_tracks(&self, n: usize) -> (r: bool)
        requires
            self.wf(),
        ensures
            r == (self@.next_track_id + n <= i64::MAX),
    {
        n as u64 <= (i64::MAX - self.next_track_id) as u64
    }

    /// Room for `n` more playlist ids below the machine limit.
    pub fn can_accept_playlists(&self, n: usize) -> (r: bool)
        requires
            self.wf(),
        ensures
            r == (self@.next_playlist_id + n <= i64::MAX),
    {
        n as u64 <= (i64::MAX - self.next_playlist_id) as u64
    }

    /// How many playlists the store holds.
    pub fn playlist_count(&self) -> (r: usize)
        ensures
            r == self@.playlists.len(),
    {
        self.playlists.len()
    }

    /// How many tracks the store holds.
    pub fn track_count(&self) -> (r: usize)
        ensures
            r == self@.tracks.len(),
    {
        self.tracks.len()
    }

    /// Sets or clears a track's file-missing flag, keyed by its local id.
    pub fn set_track_missing(&mut self, id: i64, missing: bool)
        requires
            old(self).wf(),
        ensures
            final(self).wf(),
            final(self)@ == (StoreView { tracks: final(self)@.tracks, ..old(self)@ }),
            final(self)@.tracks.len() == old(self)@.tracks.len(),
            forall|i: int|
                0 <= i < old(self)@.tracks.len() ==> #[trigger] final(self)@.tracks[i] == (
                if old(self)@.tracks[i].id == id {
                    TrackView { missing: missing, ..old(self)@.tracks[i] }
                } else {
                    old(self)@.tracks[i]
                }),
    {
        match self.find_track_id(id) {
            Some(i) => {
                let slot = &mut self.tracks[i];
                slot.missing = missing;
                proof {
                    lemma_find_track_by_id(old(self)@.tracks, id as int);
                    lemma_tracks_wf_pointwise(
                        old(self)@.tracks,
                        self@.tracks,
                        old(self)@.next_track_id,
                        self@.next_track_id,
                    );
                }
            },
            None => {
                proof {
                    lemma_find_track_by_id(old(self)@.tracks, id as int);
                }
            },
        }
    }
}

/// One external field record applied to the tracks: when the persistent
/// identifier is known and rating or BPM differ, both are written; the
/// second component is 1 when a record changed and 0 otherwise.
pub open spec fn apply_field_update(tracks: Seq<TrackView>, pid: Seq<char>, rating: int, bpm: int)
    -> (Seq<TrackView>, int) {
    match find_track_by_pid(tracks, pid) {
        Some(i) => if tracks[i].rating != rating || tracks[i].bpm != bpm {
            (tracks.update(i, TrackView { rating: rating, bpm: bpm, ..tracks[i] }), 1)
        } else {
            (tracks, 0)
        },
        None => (tracks, 0),
    }
}

/// The tags decoded from one track's comment field.
pub open spec fn track_tags(t: TrackView) -> Seq<Seq<char>> {
    match t.comment_raw {
        Some(c) => decoded_tags(c),
        None => Seq::empty(),
    }
}

/// Every tag occurrence across all tracks' decoded tag lists, in store
/// order.
pub open spec fn all_occurrences(tracks: Seq<TrackView>) -> Seq<Seq<char>>
    decreases tracks.len(),
{
    if tracks.len() == 0 {
        Seq::empty()
    } else {
        track_tags(tracks[0]) + all_occurrences(tracks.drop_first())
    }
}

/// How many occurrences fold (ASCII case) to the given name.
pub open spec fn count_ci(occ: Seq<Seq<char>>, name: Seq<char>) -> int
    decreases occ.len(),
{
    if occ.len() == 0 {
        0
    } else {
        (if lower(occ[0]) == lower(name) {
            1int
        } else {
            0int
        }) + count_ci(occ.drop_first(), name)
    }
}

/// Is a tag of this name (case-insensitively) already present?
pub open spec fn has_tag_named_ci(tags: Seq<TagView>, name: Seq<char>) -> bool {
    exists|j: int| 0 <= j < tags.len() && lower(tags[j].name) == lower(name)
}

/// Existing tags with their usage counts recomputed from the occurrences.
pub open spec fn retally(tags: Seq<TagView>, occ: Seq<Seq<char>>) -> Seq<TagView> {
    Seq::new(
        tags.len(),
        |i: int| TagView { usage_count: count_ci(occ, tags[i].name), ..tags[i] },
    )
}

/// Occurring names not yet present appended as new tags, first occurrence
/// first, keeping the casing of the first occurrence.
pub open spec fn add_missing_tags(
    tags: Seq<TagView>,
    next_id: int,
    occ: Seq<Seq<char>>,
    full: Seq<Seq<char>>,
) -> (Seq<TagView>, int)
    decreases occ.len(),
{
    if occ.len() == 0 {
        (tags, next_id)
    } else {
        if has_tag_named_ci(tags, occ[0]) {
            add_missing_tags(tags, next_id, occ.drop_first(), full)
        } else {
            add_missing_tags(
                tags.push(
                    TagView {
                        id: next_id,
                        name: occ[0],
                        usage_count: count_ci(full, occ[0]),
                        group_id: None,
                    },
                ),
                next_id + 1,
                occ.drop_first(),
                full,
            )
        }
    }
}

/// The tag groups that survive deleting one id.
pub open spec fn remove_group_spec(groups: Seq<TagGroupView>, id: int) -> Seq<TagGroupView>
    decreases groups.len(),
{
    if groups.len() == 0 {
        Seq::empty()
    } else {
        let rest = remove_group_spec(groups.drop_first(), id);
        if groups[0].id == id {
            rest
        } else {
            seq![groups[0]] + rest
        }
    }
}

/// The group with this id repositioned; every other group untouched.
pub open spec fn set_group_position(groups: Seq<TagGroupView>, id: int, pos: int) -> Seq<
    TagGroupView,
> {
    Seq::new(
        groups.len(),
        |i: int|
            if groups[i].id == id {
                TagGroupView { position: pos, ..groups[i] }
            } else {
                groups[i]
            },
    )
}

/// Groups repositioned by the listed ids, from index `k` on: the group
/// with the k-th listed id takes position k.
pub open spec fn reorder_groups_spec(groups: Seq<TagGroupView>, ids: Seq<int>, k: int) -> Seq<
    TagGroupView,
>
    decreases ids.len() - k,
{
    if k < 0 || k >= ids.len() {
        groups
    } else {
        reorder_groups_spec(set_group_position(groups, ids[k], k), ids, k + 1)
    }
}

/// Counts the occurrences folding (ASCII case) to `name`.
fn count_ci_exec(occ: &Vec<String>, name: &str) -> (cnt: i64)
    requires
        occ@.len() < i64::MAX,
    ensures
        cnt == count_ci(occ.deep_view(), name@),
{
    let ghost occv = occ.deep_view();
    let mut cnt: i64 = 0;
    let mut oi: usize = 0;
    proof {
        assert(occv.skip(0) =~= occv);
    }
    while oi < occ.len()
        invariant
            oi <= occv.len(),
            occv == occ.deep_view(),
            occv.len() == occ@.len(),
            occv.len() < i64::MAX,
            0 <= cnt <= oi,
            count_ci(occv, name@) == cnt + count_ci(occv.skip(oi as int), name@),
        decreases occv.len() - oi,
    {
        let ghost suffix = occv.skip(oi as int);
        proof {
            assert(suffix[0] == occv[oi as int]);
            assert(occv[oi as int] == occ@[oi as int]@);
            assert(suffix.drop_first() =~= occv.skip(oi + 1));
        }
        if str_eq_ci(occ[oi].as_str(), name) {
            cnt = cnt + 1;
        }
        oi = oi + 1;
    }
    proof {
        assert(occv.skip(occv.len() as int) =~= Seq::<Seq<char>>::empty());
    }
    cnt
}

/// Does the list contain this exact string?
pub open spec fn seq_contains_str(l: Seq<Seq<char>>, x: Seq<char>) -> bool {
    exists|k: int| 0 <= k < l.len() && l[k] == x
}

/// A membership list filtered down to identifiers the store knows, order
/// kept: an externally referenced track never imported locally must not
/// force a perpetual difference.
pub open spec fn filter_known(ids: Seq<Seq<char>>, tracks: Seq<TrackView>) -> Seq<Seq<char>>
    decreases ids.len(),
{
    if ids.len() == 0 {
        Seq::empty()
    } else {
        let rest = filter_known(ids.drop_first(), tracks);
        if find_track_by_pid(tracks, ids[0]) is Some {
            seq![ids[0]] + rest
        } else {
            rest
        }
    }
}

/// The stored form of an incoming playlist record: fresh or kept local id,
/// membership filtered to known tracks, and folders held to their empty
/// membership.
pub open spec fn normalize_playlist(p: PlaylistView, id: int, tracks: Seq<TrackView>)
    -> PlaylistView {
    PlaylistView {
        id: id,
        persistent_id: p.persistent_id,
        parent_persistent_id: p.parent_persistent_id,
        name: p.name,
        is_folder: p.is_folder,
        track_ids: if p.is_folder {
            Some(Seq::<Seq<char>>::empty())
        } else {
            Some(
                filter_known(
                    match p.track_ids {
                        Some(l) => l,
                        None => Seq::<Seq<char>>::empty(),
                    },
                    tracks,
                ),
            )
        },
    }
}

/// Insert-or-replace keyed by the playlist's persistent identifier.
pub open spec fn upsert_playlist_spec(
    ps: Seq<PlaylistView>,
    next_id: int,
    p: PlaylistView,
    tracks: Seq<TrackView>,
) -> (Seq<PlaylistView>, int) {
    match find_playlist_by_pid(ps, p.persistent_id) {
        Some(i) => (ps.update(i, normalize_playlist(p, ps[i].id, tracks)), next_id),
        None => (ps.push(normalize_playlist(p, next_id, tracks)), next_id + 1),
    }
}

/// A sequence of machine integers as mathematical integers.
pub open spec fn ids_view(s: Seq<i64>) -> Seq<int> {
    s.map_values(|x: i64| x as int)
}

/// Membership identifiers resolved to local track ids, unknown ones
/// skipped, order kept.
pub open spec fn member_track_ids(ids: Seq<Seq<char>>, tracks: Seq<TrackView>) -> Seq<int>
    decreases ids.len(),
{
    if ids.len() == 0 {
        Seq::empty()
    } else {
        let rest = member_track_ids(ids.drop_first(), tracks);
        match find_track_by_pid(tracks, ids[0]) {
            Some(j) => seq![tracks[j].id] + rest,
            None => rest,
        }
    }
}

/// A membership list with every occurrence of one identifier removed.
pub open spec fn remove_str(l: Seq<Seq<char>>, x: Seq<char>) -> Seq<Seq<char>>
    decreases l.len(),
{
    if l.len() == 0 {
        Seq::empty()
    } else {
        let rest = remove_str(l.drop_first(), x);
        if l[0] == x {
            rest
        } else {
            seq![l[0]] + rest
        }
    }
}

/// An external playlist snapshot record as a playlist value (local id not
/// yet assigned).
pub open spec fn entry_as_playlist(e: PlaylistSnapshotEntryView) -> PlaylistView {
    PlaylistView {
        id: 0,
        persistent_id: e.persistent_id,
        parent_persistent_id: e.parent_persistent_id,
        name: e.name,
        is_folder: e.is_folder,
        track_ids: Some(e.track_ids),
    }
}

/// The stored playlist under this record's identifier already equals the
/// record's stored form (name, folder flag, parent, and filtered ordered
/// membership), so an upsert would change nothing.
pub open spec fn playlist_up_to_date(
    ps: Seq<PlaylistView>,
    p: PlaylistView,
    tracks: Seq<TrackView>,
) -> bool {
    match find_playlist_by_pid(ps, p.persistent_id) {
        Some(i) => ps[i] == normalize_playlist(p, ps[i].id, tracks),
        None => false,
    }
}

/// The persistent identifiers of a playlist sequence, in order.
pub open spec fn playlist_pids(ps: Seq<PlaylistView>) -> Seq<Seq<char>>
    decreases ps.len(),
{
    if ps.len() == 0 {
        Seq::empty()
    } else {
        seq![ps[0].persistent_id] + playlist_pids(ps.drop_first())
    }
}

pub proof fn lemma_playlist_pids(ps: Seq<PlaylistView>)
    ensures
        playlist_pids(ps).len() == ps.len(),
        forall|k: int| 0 <= k < ps.len() ==> #[trigger] playlist_pids(ps)[k]
            == ps[k].persistent_id,
    decreases ps.len(),
{
    if ps.len() > 0 {
        lemma_playlist_pids(ps.drop_first());
        assert forall|k: int| 0 <= k < ps.len() implies #[trigger] playlist_pids(ps)[k]
            == ps[k].persistent_id by {
            if k > 0 {
                assert(playlist_pids(ps)[k] == playlist_pids(ps.drop_first())[k - 1]);
                assert(ps.drop_first()[k - 1] == ps[k]);
            }
        }
    }
}

/// The playlists whose membership names this identifier, in store order.
pub open spec fn playlists_containing(ps: Seq<PlaylistView>, pid: Seq<char>) -> Seq<PlaylistView>
    decreases ps.len(),
{
    if ps.len() == 0 {
        Seq::empty()
    } else {
        let rest = playlists_containing(ps.drop_first(), pid);
        if ps[0].track_ids matches Some(ids) && seq_contains_str(ids, pid) {
            seq![ps[0]] + rest
        } else {
            rest
        }
    }
}

/// The playlists that survive deleting every listed persistent identifier.
pub open spec fn remove_playlists_spec(ps: Seq<PlaylistView>, pids: Seq<Seq<char>>)
    -> Seq<PlaylistView>
    decreases ps.len(),
{
    if ps.len() == 0 {
        Seq::empty()
    } else {
        let rest = remove_playlists_spec(ps.drop_first(), pids);
        if seq_contains_str(pids, ps[0].persistent_id) {
            rest
        } else {
            seq![ps[0]] + rest
        }
    }
}

/// The names of the playlists that such a deletion removes.
pub open spec fn removed_names_spec(ps: Seq<PlaylistView>, pids: Seq<Seq<char>>) -> Seq<Seq<char>>
    decreases ps.len(),
{
    if ps.len() == 0 {
        Seq::empty()
    } else {
        let rest = removed_names_spec(ps.drop_first(), pids);
        if seq_contains_str(pids, ps[0].persistent_id) {
            seq![ps[0].name] + rest
        } else {
            rest
        }
    }
}

/// Deletion splits the playlists: survivors and removed names together
/// count the whole store.
pub proof fn lemma_removed_split(ps: Seq<PlaylistView>, pids: Seq<Seq<char>>)
    ensures
        removed_names_spec(ps, pids).len() + remove_playlists_spec(ps, pids).len() == ps.len(),
    decreases ps.len(),
{
    if ps.len() > 0 {
        lemma_removed_split(ps.drop_first(), pids);
    }
}

/// A field update that touches neither ids, persistent identifiers, folder
/// flags nor the folder-membership invariant preserves playlist-store
/// well-formedness.
pub proof fn lemma_playlists_wf_pointwise(
    a: Seq<PlaylistView>,
    b: Seq<PlaylistView>,
    na: int,
    nb: int,
)
    requires
        playlists_wf(a, na),
        b.len() == a.len(),
        na <= nb,
        forall|i: int|
            0 <= i < a.len() ==> (#[trigger] b[i]).id == a[i].id && b[i].persistent_id
                == a[i].persistent_id && b[i].track_ids is Some && (b[i].is_folder
                ==> b[i].track_ids == Some(Seq::<Seq<char>>::empty())),
    ensures
        playlists_wf(b, nb),
{
    assert forall|i: int, j: int| 0 <= i < j < b.len() implies #[trigger] b[i].id
        != #[trigger] b[j].id by {
        assert(a[i].id != a[j].id);
    }
    assert forall|i: int| 0 <= i < b.len() implies 0 < #[trigger] b[i].id < nb by {
        assert(0 < a[i].id < na);
    }
    assert forall|i: int, j: int|
        0 <= i < j < b.len() && #[trigger] b[i].persistent_id.len() > 0 implies b[i].persistent_id
        != #[trigger] b[j].persistent_id by {
        assert(a[i].persistent_id.len() > 0);
        assert(a[i].persistent_id != a[j].persistent_id);
    }
}

/// Deletion keeps well-formedness, and every survivor was present before.
pub proof fn lemma_remove_playlists_wf(ps: Seq<PlaylistView>, pids: Seq<Seq<char>>, n: int)
    requires
        playlists_wf(ps, n),
    ensures
        playlists_wf(remove_playlists_spec(ps, pids), n),
        forall|k: int|
            0 <= k < remove_playlists_spec(ps, pids).len() ==> exists|j: int|
                0 <= j < ps.len() && #[trigger] remove_playlists_spec(ps, pids)[k] == ps[j],
    decreases ps.len(),
{
    if ps.len() > 0 {
        let tail = ps.drop_first();
        assert forall|i: int, j: int| 0 <= i < j < tail.len() implies #[trigger] tail[i].id
            != #[trigger] tail[j].id by {
            assert(tail[i] == ps[i + 1]);
            assert(tail[j] == ps[j + 1]);
            assert(ps[i + 1].id != ps[j + 1].id);
        }
        assert forall|i: int| 0 <= i < tail.len() implies 0 < (#[trigger] tail[i]).id < n by {
            assert(tail[i] == ps[i + 1]);
        }
        assert forall|i: int, j: int|
            0 <= i < j < tail.len() && #[trigger] tail[i].persistent_id.len() > 0 implies tail[
            i].persistent_id != #[trigger] tail[j].persistent_id by {
            assert(tail[i] == ps[i + 1]);
            assert(tail[j] == ps[j + 1]);
            assert(ps[i + 1].persistent_id != ps[j + 1].persistent_id);
        }
        assert forall|i: int| 0 <= i < tail.len() implies (#[trigger] tail[i].track_ids)
            is Some by {
            assert(tail[i] == ps[i + 1]);
        }
        assert forall|i: int|
            0 <= i < tail.len() && #[trigger] tail[i].is_folder implies tail[i].track_ids == Some(
            Seq::<Seq<char>>::empty(),
        ) by {
            assert(tail[i] == ps[i + 1]);
        }
        lemma_remove_playlists_wf(tail, pids, n);
        let rest = remove_playlists_spec(tail, pids);
        if seq_contains_str(pids, ps[0].persistent_id) {
        } else {
            let r = seq![ps[0]] + rest;
            assert(remove_playlists_spec(ps, pids) == r);
            assert forall|k: int| 0 <= k < r.len() implies exists|j: int|
                0 <= j < ps.len() && #[trigger] r[k] == ps[j] by {
                if k == 0 {
                    assert(r[0] == ps[0]);
                } else {
                    assert(r[k] == rest[k - 1]);
                    let j = choose|j: int| 0 <= j < tail.len() && rest[k - 1] == tail[j];
                    assert(tail[j] == ps[j + 1]);
                    assert(r[k] == ps[j + 1]);
                }
            }
            assert forall|x: int, y: int| 0 <= x < y < r.len() implies #[trigger] r[x].id
                != #[trigger] r[y].id by {
                if x == 0 {
                    assert(r[y] == rest[y - 1]);
                    let j = choose|j: int| 0 <= j < tail.len() && rest[y - 1] == tail[j];
                    assert(tail[j] == ps[j + 1]);
                    assert(ps[0].id != ps[j + 1].id);
                } else {
                    assert(r[x] == rest[x - 1]);
                    assert(r[y] == rest[y - 1]);
                }
            }
            assert forall|x: int| 0 <= x < r.len() implies 0 < (#[trigger] r[x]).id < n by {
                if x > 0 {
                    assert(r[x] == rest[x - 1]);
                }
            }
            assert forall|x: int, y: int|
                0 <= x < y < r.len() && #[trigger] r[x].persistent_id.len() > 0 implies r[
                x].persistent_id != #[trigger] r[y].persistent_id by {
                if x == 0 {
                    assert(r[y] == rest[y - 1]);
                    let j = choose|j: int| 0 <= j < tail.len() && rest[y - 1] == tail[j];
                    assert(tail[j] == ps[j + 1]);
                    assert(ps[0].persistent_id != ps[j + 1].persistent_id);
                } else {
                    assert(r[x] == rest[x - 1]);
                    assert(r[y] == rest[y - 1]);
                }
            }
            assert forall|x: int| 0 <= x < r.len() implies (#[trigger] r[x].track_ids)
                is Some by {
                if x > 0 {
                    assert(r[x] == rest[x - 1]);
                }
            }
            assert forall|x: int|
                0 <= x < r.len() && #[trigger] r[x].is_folder implies r[x].track_ids == Some(
                Seq::<Seq<char>>::empty(),
            ) by {
                if x > 0 {
                    assert(r[x] == rest[x - 1]);
                }
            }
        }
    }
}

} // verus!
