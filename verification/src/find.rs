//! First-match lookups over the store's record sequences, with their
//! characterizations: each finder returns the least matching index.

use vstd::prelude::*;

use crate::model::PlaylistView;
use crate::model::TrackView;

verus! {

/// Index of the first track with this persistent identifier.
pub open spec fn find_track_by_pid(tracks: Seq<TrackView>, pid: Seq<char>) -> Option<int>
    decreases tracks.len(),
{
    if tracks.len() == 0 {
        None
    } else if tracks[0].persistent_id == pid {
        Some(0)
    } else {
        match find_track_by_pid(tracks.drop_first(), pid) {
            Some(i) => Some(i + 1),
            None => None,
        }
    }
}

pub proof fn lemma_find_track_by_pid(tracks: Seq<TrackView>, pid: Seq<char>)
    ensures
        match find_track_by_pid(tracks, pid) {
            Some(i) => 0 <= i < tracks.len() && tracks[i].persistent_id == pid && forall|j: int|
                0 <= j < i ==> (#[trigger] tracks[j]).persistent_id != pid,
            None => forall|j: int|
                0 <= j < tracks.len() ==> (#[trigger] tracks[j]).persistent_id != pid,
        },
    decreases tracks.len(),
{
    if tracks.len() > 0 && tracks[0].persistent_id != pid {
        lemma_find_track_by_pid(tracks.drop_first(), pid);
        match find_track_by_pid(tracks.drop_first(), pid) {
            Some(i) => {
                assert(tracks[i + 1] == tracks.drop_first()[i]);
                assert forall|j: int| 0 <= j < i + 1 implies (#[trigger] tracks[j]).persistent_id
                    != pid by {
                    if j > 0 {
                        assert(tracks[j] == tracks.drop_first()[j - 1]);
                    }
                }
            },
            None => {
                assert forall|j: int| 0 <= j < tracks.len() implies (#[trigger] tracks[j]).persistent_id
                    != pid by {
                    if j > 0 {
                        assert(tracks[j] == tracks.drop_first()[j - 1]);
                    }
                }
            },
        }
    }
}

/// A first match determines the finder's result.
pub proof fn lemma_find_track_by_pid_is(tracks: Seq<TrackView>, pid: Seq<char>, k: int)
    requires
        0 <= k < tracks.len(),
        tracks[k].persistent_id == pid,
        forall|j: int| 0 <= j < k ==> (#[trigger] tracks[j]).persistent_id != pid,
    ensures
        find_track_by_pid(tracks, pid) == Some(k),
{
    lemma_find_track_by_pid(tracks, pid);
    match find_track_by_pid(tracks, pid) {
        Some(i) => {
            if i < k {
                assert(tracks[i].persistent_id == pid);
            }
            if i > k {
                assert(tracks[k].persistent_id != pid);
            }
        },
        None => {
            assert(tracks[k].persistent_id != pid);
        },
    }
}

pub proof fn lemma_find_track_by_pid_none(tracks: Seq<TrackView>, pid: Seq<char>)
    requires
        forall|j: int| 0 <= j < tracks.len() ==> (#[trigger] tracks[j]).persistent_id != pid,
    ensures
        find_track_by_pid(tracks, pid) is None,
{
    lemma_find_track_by_pid(tracks, pid);
    match find_track_by_pid(tracks, pid) {
        Some(i) => {
            assert(tracks[i].persistent_id != pid);
        },
        None => {},
    }
}

/// Index of the first track with this local id.
pub open spec fn find_track_by_id(tracks: Seq<TrackView>, id: int) -> Option<int>
    decreases tracks.len(),
{
    if tracks.len() == 0 {
        None
    } else if tracks[0].id == id {
        Some(0)
    } else {
        match find_track_by_id(tracks.drop_first(), id) {
            Some(i) => Some(i + 1),
            None => None,
        }
    }
}

pub proof fn lemma_find_track_by_id(tracks: Seq<TrackView>, id: int)
    ensures
        match find_track_by_id(tracks, id) {
            Some(i) => 0 <= i < tracks.len() && tracks[i].id == id && forall|j: int|
                0 <= j < i ==> (#[trigger] tracks[j]).id != id,
            None => forall|j: int| 0 <= j < tracks.len() ==> (#[trigger] tracks[j]).id != id,
        },
    decreases tracks.len(),
{
    if tracks.len() > 0 && tracks[0].id != id {
        lemma_find_track_by_id(tracks.drop_first(), id);
        match find_track_by_id(tracks.drop_first(), id) {
            Some(i) => {
                assert(tracks[i + 1] == tracks.drop_first()[i]);
                assert forall|j: int| 0 <= j < i + 1 implies (#[trigger] tracks[j]).id
                    != id by {
                    if j > 0 {
                        assert(tracks[j] == tracks.drop_first()[j - 1]);
                    }
                }
            },
            None => {
                assert forall|j: int| 0 <= j < tracks.len() implies (#[trigger] tracks[j]).id
                    != id by {
                    if j > 0 {
                        assert(tracks[j] == tracks.drop_first()[j - 1]);
                    }
                }
            },
        }
    }
}

pub proof fn lemma_find_track_by_id_is(tracks: Seq<TrackView>, id: int, k: int)
    requires
        0 <= k < tracks.len(),
        tracks[k].id == id,
        forall|j: int| 0 <= j < k ==> (#[trigger] tracks[j]).id != id,
    ensures
        find_track_by_id(tracks, id) == Some(k),
{
    lemma_find_track_by_id(tracks, id);
    match find_track_by_id(tracks, id) {
        Some(i) => {
            if i < k {
                assert(tracks[i].id == id);
            }
            if i > k {
                assert(tracks[k].id != id);
            }
        },
        None => {
            assert(tracks[k].id != id);
        },
    }
}

pub proof fn lemma_find_track_by_id_none(tracks: Seq<TrackView>, id: int)
    requires
        forall|j: int| 0 <= j < tracks.len() ==> (#[trigger] tracks[j]).id != id,
    ensures
        find_track_by_id(tracks, id) is None,
{
    lemma_find_track_by_id(tracks, id);
    match find_track_by_id(tracks, id) {
        Some(i) => {
            assert(tracks[i].id != id);
        },
        None => {},
    }
}

/// Index of the first playlist with this persistent identifier.
pub open spec fn find_playlist_by_pid(ps: Seq<PlaylistView>, pid: Seq<char>) -> Option<int>
    decreases ps.len(),
{
    if ps.len() == 0 {
        None
    } else if ps[0].persistent_id == pid {
        Some(0)
    } else {
        match find_playlist_by_pid(ps.drop_first(), pid) {
            Some(i) => Some(i + 1),
            None => None,
        }
    }
}

pub proof fn lemma_find_playlist_by_pid(ps: Seq<PlaylistView>, pid: Seq<char>)
    ensures
        match find_playlist_by_pid(ps, pid) {
            Some(i) => 0 <= i < ps.len() && ps[i].persistent_id == pid && forall|j: int|
                0 <= j < i ==> (#[trigger] ps[j]).persistent_id != pid,
            None => forall|j: int|
                0 <= j < ps.len() ==> (#[trigger] ps[j]).persistent_id != pid,
        },
    decreases ps.len(),
{
    if ps.len() > 0 && ps[0].persistent_id != pid {
        lemma_find_playlist_by_pid(ps.drop_first(), pid);
        match find_playlist_by_pid(ps.drop_first(), pid) {
            Some(i) => {
                assert(ps[i + 1] == ps.drop_first()[i]);
                assert forall|j: int| 0 <= j < i + 1 implies (#[trigger] ps[j]).persistent_id
                    != pid by {
                    if j > 0 {
                        assert(ps[j] == ps.drop_first()[j - 1]);
                    }
                }
            },
            None => {
                assert forall|j: int| 0 <= j < ps.len() implies (#[trigger] ps[j]).persistent_id
                    != pid by {
                    if j > 0 {
                        assert(ps[j] == ps.drop_first()[j - 1]);
                    }
                }
            },
        }
    }
}

pub proof fn lemma_find_playlist_by_pid_is(ps: Seq<PlaylistView>, pid: Seq<char>, k: int)
    requires
        0 <= k < ps.len(),
        ps[k].persistent_id == pid,
        forall|j: int| 0 <= j < k ==> (#[trigger] ps[j]).persistent_id != pid,
    ensures
        find_playlist_by_pid(ps, pid) == Some(k),
{
    lemma_find_playlist_by_pid(ps, pid);
    match find_playlist_by_pid(ps, pid) {
        Some(i) => {
            if i < k {
                assert(ps[i].persistent_id == pid);
            }
            if i > k {
                assert(ps[k].persistent_id != pid);
            }
        },
        None => {
            assert(ps[k].persistent_id != pid);
        },
    }
}

pub proof fn lemma_find_playlist_by_pid_none(ps: Seq<PlaylistView>, pid: Seq<char>)
    requires
        forall|j: int| 0 <= j < ps.len() ==> (#[trigger] ps[j]).persistent_id != pid,
    ensures
        find_playlist_by_pid(ps, pid) is None,
{
    lemma_find_playlist_by_pid(ps, pid);
    match find_playlist_by_pid(ps, pid) {
        Some(i) => {
            assert(ps[i].persistent_id != pid);
        },
        None => {},
    }
}

/// Index of the first playlist with this local id.
pub open spec fn find_playlist_by_id(ps: Seq<PlaylistView>, id: int) -> Option<int>
    decreases ps.len(),
{
    if ps.len() == 0 {
        None
    } else if ps[0].id == id {
        Some(0)
    } else {
        match find_playlist_by_id(ps.drop_first(), id) {
            Some(i) => Some(i + 1),
            None => None,
        }
    }
}

pub proof fn lemma_find_playlist_by_id(ps: Seq<PlaylistView>, id: int)
    ensures
        match find_playlist_by_id(ps, id) {
            Some(i) => 0 <= i < ps.len() && ps[i].id == id && forall|j: int|
                0 <= j < i ==> (#[trigger] ps[j]).id != id,
            None => forall|j: int| 0 <= j < ps.len() ==> (#[trigger] ps[j]).id != id,
        },
    decreases ps.len(),
{
    if ps.len() > 0 && ps[0].id != id {
        lemma_find_playlist_by_id(ps.drop_first(), id);
        match find_playlist_by_id(ps.drop_first(), id) {
            Some(i) => {
                assert(ps[i + 1] == ps.drop_first()[i]);
                assert forall|j: int| 0 <= j < i + 1 implies (#[trigger] ps[j]).id
                    != id by {
                    if j > 0 {
                        assert(ps[j] == ps.drop_first()[j - 1]);
                    }
                }
            },
            None => {
                assert forall|j: int| 0 <= j < ps.len() implies (#[trigger] ps[j]).id
                    != id by {
                    if j > 0 {
                        assert(ps[j] == ps.drop_first()[j - 1]);
                    }
                }
            },
        }
    }
}

pub proof fn lemma_find_playlist_by_id_is(ps: Seq<PlaylistView>, id: int, k: int)
    requires
        0 <= k < ps.len(),
        ps[k].id == id,
        forall|j: int| 0 <= j < k ==> (#[trigger] ps[j]).id != id,
    ensures
        find_playlist_by_id(ps, id) == Some(k),
{
    lemma_find_playlist_by_id(ps, id);
    match find_playlist_by_id(ps, id) {
        Some(i) => {
            if i < k {
                assert(ps[i].id == id);
            }
            if i > k {
                assert(ps[k].id != id);
            }
        },
        None => {
            assert(ps[k].id != id);
        },
    }
}

pub proof fn lemma_find_playlist_by_id_none(ps: Seq<PlaylistView>, id: int)
    requires
        forall|j: int| 0 <= j < ps.len() ==> (#[trigger] ps[j]).id != id,
    ensures
        find_playlist_by_id(ps, id) is None,
{
    lemma_find_playlist_by_id(ps, id);
    match find_playlist_by_id(ps, id) {
        Some(i) => {
            assert(ps[i].id != id);
        },
        None => {},
    }
}

} // verus!
