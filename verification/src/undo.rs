//! The undo/redo engine: a linear history of compensating actions.
//!
//! Each user edit records enough before/after state to be replayed or
//! reversed across all three stores. Undoing writes the *old* values — file
//! first, local store second, external gateway last and best-effort — and
//! moves the action to the redo stack; redoing writes the *new* values and
//! moves it back. Pushing a fresh action clears the redo stack. A file
//! write that fails skips that one track's store and gateway writes without
//! aborting the rest of a batch.
//!
//! The engine itself performs no I/O: it hands out the file and gateway
//! writes as plain data, takes back which file writes succeeded, and
//! commits the store writes accordingly.

use vstd::prelude::*;

use crate::db::Database;
use crate::db::StoreView;
use crate::db::remove_str;
use crate::db::seq_contains_str;
use crate::find::find_playlist_by_id;
use crate::model::PlaylistView;
use crate::find::find_track_by_id;
use crate::model::TrackView;
use crate::model::opt_view;
use crate::model::clone_opt_string;
use crate::strutil::dec_str;
use crate::strutil::u64_to_string;
use vstd::string::StringExecFns;

verus! {

/// Old and new comment for one track of a (possibly batched) comment edit.
#[derive(Debug, Clone)]
pub struct TrackState {
    pub id: i64,
    pub persistent_id: String,
    pub file_path: String,
    pub old_comment: String,
    pub new_comment: String,
}

pub struct TrackStateView {
    pub id: int,
    pub persistent_id: Seq<char>,
    pub file_path: Seq<char>,
    pub old_comment: Seq<char>,
    pub new_comment: Seq<char>,
}

impl View for TrackState {
    type V = TrackStateView;

    open spec fn view(&self) -> TrackStateView {
        TrackStateView {
            id: self.id as int,
            persistent_id: self.persistent_id@,
            file_path: self.file_path@,
            old_comment: self.old_comment@,
            new_comment: self.new_comment@,
        }
    }
}

impl DeepView for TrackState {
    type V = TrackStateView;

    open spec fn deep_view(&self) -> TrackStateView {
        self.view()
    }
}

impl TrackState {
    pub fn duplicate(&self) -> (r: TrackState)
        ensures
            r@ == self@,
    {
        TrackState {
            id: self.id,
            persistent_id: self.persistent_id.clone(),
            file_path: self.file_path.clone(),
            old_comment: self.old_comment.clone(),
            new_comment: self.new_comment.clone(),
        }
    }
}

/// A reference to one track added to a playlist.
#[derive(Debug, Clone)]
pub struct TrackRef {
    pub id: i64,
    pub persistent_id: String,
}

pub struct TrackRefView {
    pub id: int,
    pub persistent_id: Seq<char>,
}

impl View for TrackRef {
    type V = TrackRefView;

    open spec fn view(&self) -> TrackRefView {
        TrackRefView { id: self.id as int, persistent_id: self.persistent_id@ }
    }
}

impl DeepView for TrackRef {
    type V = TrackRefView;

    open spec fn deep_view(&self) -> TrackRefView {
        self.view()
    }
}

impl TrackRef {
    pub fn duplicate(&self) -> (r: TrackRef)
        ensures
            r@ == self@,
    {
        TrackRef { id: self.id, persistent_id: self.persistent_id.clone() }
    }
}

/// Old and new values of a track-info edit; only fields that actually
/// changed carry values.
#[derive(Debug, Clone)]
pub struct TrackInfoState {
    pub id: i64,
    pub persistent_id: String,
    pub file_path: String,
    pub old_title: Option<String>,
    pub new_title: Option<String>,
    pub old_artist: Option<String>,
    pub new_artist: Option<String>,
    pub old_album: Option<String>,
    pub new_album: Option<String>,
    pub old_bpm: Option<i64>,
    pub new_bpm: Option<i64>,
    pub old_comment_raw: Option<String>,
    pub new_comment_raw: Option<String>,
}

pub struct TrackInfoStateView {
    pub id: int,
    pub persistent_id: Seq<char>,
    pub file_path: Seq<char>,
    pub old_title: Option<Seq<char>>,
    pub new_title: Option<Seq<char>>,
    pub old_artist: Option<Seq<char>>,
    pub new_artist: Option<Seq<char>>,
    pub old_album: Option<Seq<char>>,
    pub new_album: Option<Seq<char>>,
    pub old_bpm: Option<int>,
    pub new_bpm: Option<int>,
    pub old_comment_raw: Option<Seq<char>>,
    pub new_comment_raw: Option<Seq<char>>,
}

pub open spec fn opt_int_view(o: Option<i64>) -> Option<int> {
    match o {
        Some(x) => Some(x as int),
        None => None,
    }
}

impl View for TrackInfoState {
    type V = TrackInfoStateView;

    open spec fn view(&self) -> TrackInfoStateView {
        TrackInfoStateView {
            id: self.id as int,
            persistent_id: self.persistent_id@,
            file_path: self.file_path@,
            old_title: opt_view(self.old_title),
            new_title: opt_view(self.new_title),
            old_artist: opt_view(self.old_artist),
            new_artist: opt_view(self.new_artist),
            old_album: opt_view(self.old_album),
            new_album: opt_view(self.new_album),
            old_bpm: opt_int_view(self.old_bpm),
            new_bpm: opt_int_view(self.new_bpm),
            old_comment_raw: opt_view(self.old_comment_raw),
            new_comment_raw: opt_view(self.new_comment_raw),
        }
    }
}

impl DeepView for TrackInfoState {
    type V = TrackInfoStateView;

    open spec fn deep_view(&self) -> TrackInfoStateView {
        self.view()
    }
}

impl TrackInfoState {
    pub fn duplicate(&self) -> (r: TrackInfoState)
        ensures
            r@ == self@,
    {
        TrackInfoState {
            id: self.id,
            persistent_id: self.persistent_id.clone(),
            file_path: self.file_path.clone(),
            old_title: clone_opt_string(&self.old_title),
            new_title: clone_opt_string(&self.new_title),
            old_artist: clone_opt_string(&self.old_artist),
            new_artist: clone_opt_string(&self.new_artist),
            old_album: clone_opt_string(&self.old_album),
            new_album: clone_opt_string(&self.new_album),
            old_bpm: self.old_bpm,
            new_bpm: self.new_bpm,
            old_comment_raw: clone_opt_string(&self.old_comment_raw),
            new_comment_raw: clone_opt_string(&self.new_comment_raw),
        }
    }
}

/// One undoable user operation, with enough state to reapply or reverse it
/// across all three stores.
#[derive(Debug, Clone)]
pub enum Action {
    UpdateTrackComments { tracks: Vec<TrackState> },
    AddToPlaylist { playlist_id: i64, playlist_persistent_id: String, tracks: Vec<TrackRef> },
    UpdateTrackInfo { track: TrackInfoState },
}

pub enum ActionView {
    UpdateTrackComments { tracks: Seq<TrackStateView> },
    AddToPlaylist { playlist_id: int, playlist_persistent_id: Seq<char>, tracks: Seq<TrackRefView> },
    UpdateTrackInfo { track: TrackInfoStateView },
}

impl View for Action {
    type V = ActionView;

    open spec fn view(&self) -> ActionView {
        match self {
            Action::UpdateTrackComments { tracks } => ActionView::UpdateTrackComments {
                tracks: tracks.deep_view(),
            },
            Action::AddToPlaylist { playlist_id, playlist_persistent_id, tracks } => {
                ActionView::AddToPlaylist {
                    playlist_id: *playlist_id as int,
                    playlist_persistent_id: playlist_persistent_id@,
                    tracks: tracks.deep_view(),
                }
            },
            Action::UpdateTrackInfo { track } => ActionView::UpdateTrackInfo { track: track@ },
        }
    }
}

impl DeepView for Action {
    type V = ActionView;

    open spec fn deep_view(&self) -> ActionView {
        self.view()
    }
}

impl Action {
    pub fn duplicate(&self) -> (r: Action)
        ensures
            r@ == self@,
    {
        match self {
            Action::UpdateTrackComments { tracks } => {
                let mut ws: Vec<TrackState> = Vec::new();
                let mut i: usize = 0;
                while i < tracks.len()
                    invariant
                        i <= tracks@.len(),
                        ws@.len() == i,
                        forall|j: int| 0 <= j < i ==> (#[trigger] ws@[j])@ == tracks@[j]@,
                    decreases tracks@.len() - i,
                {
                    ws.push(tracks[i].duplicate());
                    i = i + 1;
                }
                proof {
                    assert forall|j: int| 0 <= j < ws.deep_view().len() implies ws.deep_view()[j]
                        == tracks.deep_view()[j] by {
                        assert(ws.deep_view()[j] == ws@[j]@);
                        assert(tracks.deep_view()[j] == tracks@[j]@);
                    }
                    assert(ws.deep_view() =~= tracks.deep_view());
                }
                Action::UpdateTrackComments { tracks: ws }
            },
            Action::AddToPlaylist { playlist_id, playlist_persistent_id, tracks } => {
                let mut ws: Vec<TrackRef> = Vec::new();
                let mut i: usize = 0;
                while i < tracks.len()
                    invariant
                        i <= tracks@.len(),
                        ws@.len() == i,
                        forall|j: int| 0 <= j < i ==> (#[trigger] ws@[j])@ == tracks@[j]@,
                    decreases tracks@.len() - i,
                {
                    ws.push(tracks[i].duplicate());
                    i = i + 1;
                }
                proof {
                    assert forall|j: int| 0 <= j < ws.deep_view().len() implies ws.deep_view()[j]
                        == tracks.deep_view()[j] by {
                        assert(ws.deep_view()[j] == ws@[j]@);
                        assert(tracks.deep_view()[j] == tracks@[j]@);
                    }
                    assert(ws.deep_view() =~= tracks.deep_view());
                }
                Action::AddToPlaylist {
                    playlist_id: *playlist_id,
                    playlist_persistent_id: playlist_persistent_id.clone(),
                    tracks: ws,
                }
            },
            Action::UpdateTrackInfo { track } => {
                Action::UpdateTrackInfo { track: track.duplicate() }
            },
        }
    }
}

/// The two stacks of the linear history.
pub struct UndoStack {
    undo_stack: Vec<Action>,
    redo_stack: Vec<Action>,
}

impl View for UndoStack {
    type V = (Seq<ActionView>, Seq<ActionView>);

    closed spec fn view(&self) -> (Seq<ActionView>, Seq<ActionView>) {
        (self.undo_stack.deep_view(), self.redo_stack.deep_view())
    }
}

impl UndoStack {
    /// An empty history.
    pub fn new() -> (r: UndoStack)
        ensures
            r@.0 =~= Seq::<ActionView>::empty(),
            r@.1 =~= Seq::<ActionView>::empty(),
    {
        let r = UndoStack { undo_stack: Vec::new(), redo_stack: Vec::new() };
        proof {
            assert(r@.0 =~= Seq::<ActionView>::empty());
            assert(r@.1 =~= Seq::<ActionView>::empty());
        }
        r
    }

    /// Records a fresh action: appended to the undo stack, and the redo
    /// stack is cleared, since a new edit invalidates forward history.
    pub fn push(&mut self, action: Action)
        ensures
            final(self)@.0 == old(self)@.0.push(action@),
            final(self)@.1 =~= Seq::<ActionView>::empty(),
    {
        let ghost before = self@.0;
        self.undo_stack.push(action);
        self.redo_stack.clear();
        proof {
            assert(self@.0 =~= before.push(self.undo_stack@.last()@));
            assert(self@.1 =~= Seq::<ActionView>::empty());
        }
    }

    /// Takes the most recent action off the undo stack.
    pub fn pop_undo(&mut self) -> (r: Option<Action>)
        ensures
            final(self)@.1 == old(self)@.1,
            old(self)@.0.len() == 0 ==> r is None && final(self)@.0 == old(self)@.0,
            old(self)@.0.len() > 0 ==> (r matches Some(a) && a@ == old(self)@.0.last()
                && final(self)@.0 == old(self)@.0.drop_last()),
    {
        let r = self.undo_stack.pop();
        proof {
            if old(self)@.0.len() > 0 {
                assert(self@.0 =~= old(self)@.0.drop_last());
            } else {
                assert(self@.0 =~= old(self)@.0);
            }
        }
        r
    }

    /// Moves an undone action onto the redo stack.
    pub fn finish_undo(&mut self, action: Action)
        ensures
            final(self)@.0 == old(self)@.0,
            final(self)@.1 == old(self)@.1.push(action@),
    {
        let ghost before = self@.1;
        self.redo_stack.push(action);
        proof {
            assert(self@.1 =~= before.push(self.redo_stack@.last()@));
        }
    }

    /// Takes the most recent action off the redo stack.
    pub fn pop_redo(&mut self) -> (r: Option<Action>)
        ensures
            final(self)@.0 == old(self)@.0,
            old(self)@.1.len() == 0 ==> r is None && final(self)@.1 == old(self)@.1,
            old(self)@.1.len() > 0 ==> (r matches Some(a) && a@ == old(self)@.1.last()
                && final(self)@.1 == old(self)@.1.drop_last()),
    {
        let r = self.redo_stack.pop();
        proof {
            if old(self)@.1.len() > 0 {
                assert(self@.1 =~= old(self)@.1.drop_last());
            } else {
                assert(self@.1 =~= old(self)@.1);
            }
        }
        r
    }

    /// Moves a redone action back onto the undo stack, keeping the rest of
    /// the redo stack.
    pub fn finish_redo(&mut self, action: Action)
        ensures
            final(self)@.1 == old(self)@.1,
            final(self)@.0 == old(self)@.0.push(action@),
    {
        let ghost before = self@.0;
        self.undo_stack.push(action);
        proof {
            assert(self@.0 =~= before.push(self.undo_stack@.last()@));
        }
    }
}

/// One pending write to a file's tag chunk, handed out as plain data for
/// the caller to perform.
#[derive(Debug, Clone)]
pub enum FileOp {
    WriteComment { path: String, text: String },
    WriteInfo {
        path: String,
        title: Option<String>,
        artist: Option<String>,
        album: Option<String>,
        bpm: Option<i64>,
    },
}

pub enum FileOpView {
    WriteComment { path: Seq<char>, text: Seq<char> },
    WriteInfo {
        path: Seq<char>,
        title: Option<Seq<char>>,
        artist: Option<Seq<char>>,
        album: Option<Seq<char>>,
        bpm: Option<int>,
    },
}

impl View for FileOp {
    type V = FileOpView;

    open spec fn view(&self) -> FileOpView {
        match self {
            FileOp::WriteComment { path, text } => FileOpView::WriteComment {
                path: path@,
                text: text@,
            },
            FileOp::WriteInfo { path, title, artist, album, bpm } => FileOpView::WriteInfo {
                path: path@,
                title: opt_view(*title),
                artist: opt_view(*artist),
                album: opt_view(*album),
                bpm: opt_int_view(*bpm),
            },
        }
    }
}

impl DeepView for FileOp {
    type V = FileOpView;

    open spec fn deep_view(&self) -> FileOpView {
        self.view()
    }
}

/// One pending best-effort call into the external library gateway.
#[derive(Debug, Clone)]
pub enum GatewayOp {
    SetComment { persistent_id: String, text: String },
    SetInfo {
        persistent_id: String,
        title: Option<String>,
        artist: Option<String>,
        album: Option<String>,
        bpm: Option<i64>,
    },
    AddToPlaylist { track_pid: String, playlist_pid: String },
    RemoveFromPlaylist { track_pid: String, playlist_pid: String },
}

pub enum GatewayOpView {
    SetComment { persistent_id: Seq<char>, text: Seq<char> },
    SetInfo {
        persistent_id: Seq<char>,
        title: Option<Seq<char>>,
        artist: Option<Seq<char>>,
        album: Option<Seq<char>>,
        bpm: Option<int>,
    },
    AddToPlaylist { track_pid: Seq<char>, playlist_pid: Seq<char> },
    RemoveFromPlaylist { track_pid: Seq<char>, playlist_pid: Seq<char> },
}

impl View for GatewayOp {
    type V = GatewayOpView;

    open spec fn view(&self) -> GatewayOpView {
        match self {
            GatewayOp::SetComment { persistent_id, text } => GatewayOpView::SetComment {
                persistent_id: persistent_id@,
                text: text@,
            },
            GatewayOp::SetInfo { persistent_id, title, artist, album, bpm } => {
                GatewayOpView::SetInfo {
                    persistent_id: persistent_id@,
                    title: opt_view(*title),
                    artist: opt_view(*artist),
                    album: opt_view(*album),
                    bpm: opt_int_view(*bpm),
                }
            },
            GatewayOp::AddToPlaylist { track_pid, playlist_pid } => GatewayOpView::AddToPlaylist {
                track_pid: track_pid@,
                playlist_pid: playlist_pid@,
            },
            GatewayOp::RemoveFromPlaylist { track_pid, playlist_pid } => {
                GatewayOpView::RemoveFromPlaylist {
                    track_pid: track_pid@,
                    playlist_pid: playlist_pid@,
                }
            },
        }
    }
}

impl DeepView for GatewayOp {
    type V = GatewayOpView;

    open spec fn deep_view(&self) -> GatewayOpView {
        self.view()
    }
}

/// The chosen comment of a write: old for undo, new for redo.
pub open spec fn chosen_comment(w: TrackStateView, revert: bool) -> Seq<char> {
    if revert {
        w.old_comment
    } else {
        w.new_comment
    }
}

/// The file writes an action calls for.
pub open spec fn comment_file_ops(ws: Seq<TrackStateView>, revert: bool) -> Seq<FileOpView>
    decreases ws.len(),
{
    if ws.len() == 0 {
        Seq::empty()
    } else {
        seq![
            FileOpView::WriteComment { path: ws[0].file_path, text: chosen_comment(ws[0], revert) },
        ] + comment_file_ops(ws.drop_first(), revert)
    }
}

/// A track-info edit carries an info write when any info field changed, and
/// a comment write when the comment changed.
pub open spec fn info_file_ops(t: TrackInfoStateView, revert: bool) -> Seq<FileOpView> {
    let title = if revert {
        t.old_title
    } else {
        t.new_title
    };
    let artist = if revert {
        t.old_artist
    } else {
        t.new_artist
    };
    let album = if revert {
        t.old_album
    } else {
        t.new_album
    };
    let bpm = if revert {
        t.old_bpm
    } else {
        t.new_bpm
    };
    let comment = if revert {
        t.old_comment_raw
    } else {
        t.new_comment_raw
    };
    let info: Seq<FileOpView> = if title is Some || artist is Some || album is Some || bpm
        is Some {
        seq![
            FileOpView::WriteInfo {
                path: t.file_path,
                title: title,
                artist: artist,
                album: album,
                bpm: bpm,
            },
        ]
    } else {
        Seq::empty()
    };
    let com: Seq<FileOpView> = match comment {
        Some(c) => seq![FileOpView::WriteComment { path: t.file_path, text: c }],
        None => Seq::empty(),
    };
    info + com
}

pub open spec fn action_file_ops(a: ActionView, revert: bool) -> Seq<FileOpView> {
    match a {
        ActionView::UpdateTrackComments { tracks } => comment_file_ops(tracks, revert),
        ActionView::AddToPlaylist { .. } => Seq::empty(),
        ActionView::UpdateTrackInfo { track } => info_file_ops(track, revert),
    }
}

/// The gateway calls an action calls for. For a batched comment edit,
/// undone or redone, only tracks whose file write succeeded are mirrored —
/// a failed file write skips that track entirely — and only tracks already
/// matched externally (non-empty identifier).
pub open spec fn comment_gateway_ops(ws: Seq<TrackStateView>, revert: bool, ok: Seq<bool>)
    -> Seq<GatewayOpView>
    decreases ws.len(),
{
    if ws.len() == 0 {
        Seq::empty()
    } else {
        let gate = 0 < ok.len() && ok[0];
        let rest = comment_gateway_ops(
            ws.drop_first(),
            revert,
            if ok.len() > 0 {
                ok.drop_first()
            } else {
                ok
            },
        );
        if gate && ws[0].persistent_id.len() > 0 {
            seq![
                GatewayOpView::SetComment {
                    persistent_id: ws[0].persistent_id,
                    text: chosen_comment(ws[0], revert),
                },
            ] + rest
        } else {
            rest
        }
    }
}

pub open spec fn playlist_gateway_ops(
    refs: Seq<TrackRefView>,
    playlist_pid: Seq<char>,
    revert: bool,
) -> Seq<GatewayOpView>
    decreases refs.len(),
{
    if refs.len() == 0 {
        Seq::empty()
    } else {
        let op = if revert {
            GatewayOpView::RemoveFromPlaylist {
                track_pid: refs[0].persistent_id,
                playlist_pid: playlist_pid,
            }
        } else {
            GatewayOpView::AddToPlaylist {
                track_pid: refs[0].persistent_id,
                playlist_pid: playlist_pid,
            }
        };
        seq![op] + playlist_gateway_ops(refs.drop_first(), playlist_pid, revert)
    }
}

pub open spec fn info_gateway_ops(t: TrackInfoStateView, revert: bool) -> Seq<GatewayOpView> {
    if t.persistent_id.len() == 0 {
        Seq::empty()
    } else {
        let title = if revert {
            t.old_title
        } else {
            t.new_title
        };
        let artist = if revert {
            t.old_artist
        } else {
            t.new_artist
        };
        let album = if revert {
            t.old_album
        } else {
            t.new_album
        };
        let bpm = if revert {
            t.old_bpm
        } else {
            t.new_bpm
        };
        let comment = if revert {
            t.old_comment_raw
        } else {
            t.new_comment_raw
        };
        let info: Seq<GatewayOpView> = if title is Some || artist is Some || album is Some || bpm
            is Some {
            seq![
                GatewayOpView::SetInfo {
                    persistent_id: t.persistent_id,
                    title: title,
                    artist: artist,
                    album: album,
                    bpm: bpm,
                },
            ]
        } else {
            Seq::empty()
        };
        let com: Seq<GatewayOpView> = match comment {
            Some(c) => seq![
                GatewayOpView::SetComment { persistent_id: t.persistent_id, text: c },
            ],
            None => Seq::empty(),
        };
        info + com
    }
}

pub open spec fn action_gateway_ops(a: ActionView, revert: bool, ok: Seq<bool>) -> Seq<
    GatewayOpView,
> {
    match a {
        ActionView::UpdateTrackComments { tracks } => comment_gateway_ops(tracks, revert, ok),
        ActionView::AddToPlaylist { playlist_id, playlist_persistent_id, tracks } => {
            playlist_gateway_ops(tracks, playlist_persistent_id, revert)
        },
        ActionView::UpdateTrackInfo { track } => info_gateway_ops(track, revert),
    }
}

/// Tracks with one comment overwritten: every record under this local id
/// takes the given comment.
pub open spec fn set_comment_tracks(tracks: Seq<TrackView>, id: int, c: Seq<char>) -> Seq<
    TrackView,
> {
    Seq::new(
        tracks.len(),
        |i: int|
            if tracks[i].id == id {
                TrackView { comment_raw: Some(c), ..tracks[i] }
            } else {
                tracks[i]
            },
    )
}

/// The store effect of a batched comment edit, from write `k` on: undo
/// and redo alike commit only tracks whose file write succeeded, so a
/// failed file never lets a store write run ahead of it.
pub open spec fn apply_comment_writes_from(
    tracks: Seq<TrackView>,
    ws: Seq<TrackStateView>,
    revert: bool,
    ok: Seq<bool>,
    k: int,
) -> Seq<TrackView>
    decreases ws.len() - k,
{
    if k < 0 || k >= ws.len() {
        tracks
    } else {
        let gate = k < ok.len() && ok[k];
        let t1 = if gate {
            set_comment_tracks(tracks, ws[k].id, chosen_comment(ws[k], revert))
        } else {
            tracks
        };
        apply_comment_writes_from(t1, ws, revert, ok, k + 1)
    }
}

pub open spec fn apply_comment_writes(
    tracks: Seq<TrackView>,
    ws: Seq<TrackStateView>,
    revert: bool,
    ok: Seq<bool>,
) -> Seq<TrackView> {
    apply_comment_writes_from(tracks, ws, revert, ok, 0)
}

/// The playlist effect of undoing or redoing one added track: removal of
/// its identifier, or an append guarded exactly like the store's append.
pub open spec fn playlist_step(
    v: StoreView,
    playlist_id: int,
    track_id: int,
    revert: bool,
) -> Seq<PlaylistView> {
    match (find_playlist_by_id(v.playlists, playlist_id), find_track_by_id(
        v.tracks,
        track_id,
    )) {
        (Some(pi), Some(tj)) => {
            let p = v.playlists[pi];
            let pid = v.tracks[tj].persistent_id;
            if revert {
                Seq::new(
                    v.playlists.len(),
                    |i: int|
                        if i == pi {
                            PlaylistView {
                                track_ids: Some(remove_str(v.playlists[i].track_ids->Some_0, pid)),
                                ..v.playlists[i]
                            }
                        } else {
                            v.playlists[i]
                        },
                )
            } else {
                if !p.is_folder && !seq_contains_str(p.track_ids->Some_0, pid) {
                    Seq::new(
                        v.playlists.len(),
                        |i: int|
                            if i == pi {
                                PlaylistView {
                                    track_ids: Some(p.track_ids->Some_0.push(pid)),
                                    ..p
                                }
                            } else {
                                v.playlists[i]
                            },
                    )
                } else {
                    v.playlists
                }
            }
        },
        _ => v.playlists,
    }
}

/// The playlist effect of an add-to-playlist action, from reference `k` on.
pub open spec fn apply_playlist_refs_from(
    v: StoreView,
    refs: Seq<TrackRefView>,
    playlist_id: int,
    revert: bool,
    k: int,
) -> Seq<PlaylistView>
    decreases refs.len() - k,
{
    if k < 0 || k >= refs.len() {
        v.playlists
    } else {
        let ps1 = playlist_step(v, playlist_id, refs[k].id, revert);
        apply_playlist_refs_from(
            StoreView { playlists: ps1, ..v },
            refs,
            playlist_id,
            revert,
            k + 1,
        )
    }
}

pub open spec fn apply_playlist_refs(
    v: StoreView,
    refs: Seq<TrackRefView>,
    playlist_id: int,
    revert: bool,
) -> Seq<PlaylistView> {
    apply_playlist_refs_from(v, refs, playlist_id, revert, 0)
}

/// The track effect of a track-info edit: the chosen side's present fields
/// overwrite the record under the edit's local id.
pub open spec fn info_tracks(tracks: Seq<TrackView>, t: TrackInfoStateView, revert: bool) -> Seq<
    TrackView,
> {
    let title = if revert {
        t.old_title
    } else {
        t.new_title
    };
    let artist = if revert {
        t.old_artist
    } else {
        t.new_artist
    };
    let album = if revert {
        t.old_album
    } else {
        t.new_album
    };
    let bpm = if revert {
        t.old_bpm
    } else {
        t.new_bpm
    };
    let comment = if revert {
        t.old_comment_raw
    } else {
        t.new_comment_raw
    };
    Seq::new(
        tracks.len(),
        |i: int|
            if tracks[i].id == t.id {
                TrackView {
                    title: if title is Some {
                        title
                    } else {
                        tracks[i].title
                    },
                    artist: if artist is Some {
                        artist
                    } else {
                        tracks[i].artist
                    },
                    album: if album is Some {
                        album
                    } else {
                        tracks[i].album
                    },
                    bpm: match bpm {
                        Some(b) => b,
                        None => tracks[i].bpm,
                    },
                    comment_raw: if comment is Some {
                        comment
                    } else {
                        tracks[i].comment_raw
                    },
                    ..tracks[i]
                }
            } else {
                tracks[i]
            },
    )
}

/// The description of undoing or redoing an action.
pub open spec fn action_description(a: ActionView, revert: bool) -> Seq<char> {
    let prefix = if revert {
        "Undo "@
    } else {
        "Redo "@
    };
    match a {
        ActionView::UpdateTrackComments { tracks } => {
            if tracks.len() == 1 {
                prefix + "Tag Change"@
            } else {
                prefix + "Tag Change ("@ + dec_str(tracks.len() as int) + " tracks)"@
            }
        },
        ActionView::AddToPlaylist { .. } => prefix + "Add to Playlist"@,
        ActionView::UpdateTrackInfo { .. } => prefix + "Edit Track Info"@,
    }
}

/// The full store effect of applying an action's chosen side.
pub open spec fn action_store_spec(
    v: StoreView,
    a: ActionView,
    revert: bool,
    ok: Seq<bool>,
) -> StoreView {
    match a {
        ActionView::UpdateTrackComments { tracks } => StoreView {
            tracks: apply_comment_writes(v.tracks, tracks, revert, ok),
            ..v
        },
        ActionView::AddToPlaylist { playlist_id, playlist_persistent_id, tracks } => StoreView {
            playlists: apply_playlist_refs(v, tracks, playlist_id, revert),
            ..v
        },
        ActionView::UpdateTrackInfo { track } => StoreView {
            tracks: info_tracks(v.tracks, track, revert),
            ..v
        },
    }
}

impl Action {
    /// The file writes this action calls for: its chosen side's comment per
    /// track, and for an info edit the changed info fields and comment.
    pub fn file_ops(&self, revert: bool) -> (r: Vec<FileOp>)
        ensures
            r.deep_view() == action_file_ops(self@, revert),
    {
        let mut r: Vec<FileOp> = Vec::new();
        match self {
            Action::UpdateTrackComments { tracks } => {
                let ghost ws = tracks.deep_view();
                let mut k: usize = 0;
                proof {
                    assert(ws.skip(0) =~= ws);
                }
                while k < tracks.len()
                    invariant
                        k <= ws.len(),
                        ws == tracks.deep_view(),
                        ws.len() == tracks@.len(),
                        comment_file_ops(ws, revert) == r.deep_view() + comment_file_ops(
                            ws.skip(k as int),
                            revert,
                        ),
                    decreases ws.len() - k,
                {
                    let ghost suffix = ws.skip(k as int);
                    proof {
                        assert(suffix[0] == ws[k as int]);
                        assert(ws[k as int] == tracks@[k as int]@);
                        assert(suffix.drop_first() =~= ws.skip(k + 1));
                    }
                    let w = &tracks[k];
                    let text = if revert {
                        w.old_comment.clone()
                    } else {
                        w.new_comment.clone()
                    };
                    let ghost before = r.deep_view();
                    r.push(FileOp::WriteComment { path: w.file_path.clone(), text });
                    proof {
                        let op = FileOpView::WriteComment {
                            path: ws[k as int].file_path,
                            text: chosen_comment(ws[k as int], revert),
                        };
                        assert(r.deep_view() =~= before.push(op));
                        assert(before.push(op) =~= before + seq![op]);
                        assert(r.deep_view() + comment_file_ops(ws.skip(k + 1), revert) =~= before
                            + (seq![op] + comment_file_ops(ws.skip(k + 1), revert)));
                    }
                    k = k + 1;
                }
                proof {
                    assert(ws.skip(ws.len() as int) =~= Seq::<TrackStateView>::empty());
                    assert(r.deep_view() + Seq::<FileOpView>::empty() =~= r.deep_view());
                }
            },
            Action::AddToPlaylist { .. } => {
                proof {
                    assert(r.deep_view() =~= Seq::<FileOpView>::empty());
                }
            },
            Action::UpdateTrackInfo { track } => {
                let title = if revert {
                    clone_opt_string(&track.old_title)
                } else {
                    clone_opt_string(&track.new_title)
                };
                let artist = if revert {
                    clone_opt_string(&track.old_artist)
                } else {
                    clone_opt_string(&track.new_artist)
                };
                let album = if revert {
                    clone_opt_string(&track.old_album)
                } else {
                    clone_opt_string(&track.new_album)
                };
                let bpm = if revert {
                    track.old_bpm
                } else {
                    track.new_bpm
                };
                let comment = if revert {
                    clone_opt_string(&track.old_comment_raw)
                } else {
                    clone_opt_string(&track.new_comment_raw)
                };
                let any_info = title.is_some() || artist.is_some() || album.is_some()
                    || bpm.is_some();
                let ghost expect = info_file_ops(track@, revert);
                if any_info {
                    r.push(
                        FileOp::WriteInfo {
                            path: track.file_path.clone(),
                            title,
                            artist,
                            album,
                            bpm,
                        },
                    );
                }
                match comment {
                    Some(c) => {
                        r.push(FileOp::WriteComment { path: track.file_path.clone(), text: c });
                    },
                    None => {},
                }
                proof {
                    assert(r.deep_view() =~= expect);
                }
            },
        }
        r
    }

    /// Commits this action's chosen side to the local store. For a batched
    /// comment edit, undone or redone alike, only tracks whose file write
    /// succeeded (`file_ok`, aligned with the batch) are written, so one
    /// failed file aborts that single track's processing and never blocks
    /// or corrupts the rest; a track-info edit is written unconditionally,
    /// mirroring the edit's own write path.
    pub fn apply_to_store(&self, db: &mut Database, revert: bool, file_ok: &Vec<bool>)
        requires
            old(db).wf(),
        ensures
            final(db).wf(),
            final(db)@ == action_store_spec(old(db)@, self@, revert, file_ok.deep_view()),
    {
        match self {
            Action::UpdateTrackComments { tracks } => {
                let ghost ws = tracks.deep_view();
                let ghost okv = file_ok.deep_view();
                let mut k: usize = 0;
                while k < tracks.len()
                    invariant
                        k <= ws.len(),
                        ws == tracks.deep_view(),
                        okv == file_ok.deep_view(),
                        ws.len() == tracks@.len(),
                        okv.len() == file_ok@.len(),
                        db.wf(),
                        apply_comment_writes_from(old(db)@.tracks, ws, revert, okv, 0)
                            == apply_comment_writes_from(db@.tracks, ws, revert, okv, k as int),
                        db@ == (StoreView { tracks: db@.tracks, ..old(db)@ }),
                    decreases ws.len() - k,
                {
                    proof {
                        assert(ws[k as int] == tracks@[k as int]@);
                    }
                    let w = &tracks[k];
                    let gate = k < file_ok.len() && file_ok[k];
                    if gate {
                        let ghost prev = db@.tracks;
                        let text = if revert {
                            &w.old_comment
                        } else {
                            &w.new_comment
                        };
                        db.update_track_metadata(w.id, text.as_str());
                        proof {
                            assert(db@.tracks =~= set_comment_tracks(
                                prev,
                                ws[k as int].id,
                                chosen_comment(ws[k as int], revert),
                            ));
                        }
                    }
                    k = k + 1;
                }
            },
            Action::AddToPlaylist { playlist_id, playlist_persistent_id, tracks } => {
                let ghost refs = tracks.deep_view();
                let mut k: usize = 0;
                while k < tracks.len()
                    invariant
                        k <= refs.len(),
                        refs == tracks.deep_view(),
                        refs.len() == tracks@.len(),
                        db.wf(),
                        apply_playlist_refs_from(old(db)@, refs, *playlist_id as int, revert, 0)
                            == apply_playlist_refs_from(
                            db@,
                            refs,
                            *playlist_id as int,
                            revert,
                            k as int,
                        ),
                        db@ == (StoreView { playlists: db@.playlists, ..old(db)@ }),
                    decreases refs.len() - k,
                {
                    proof {
                        assert(refs[k as int] == tracks@[k as int]@);
                    }
                    let t = &tracks[k];
                    let ghost prev = db@;
                    if revert {
                        db.remove_track_from_playlist(*playlist_id, t.id);
                    } else {
                        db.add_track_to_playlist_db(*playlist_id, t.id);
                    }
                    proof {
                        assert(db@.playlists =~= playlist_step(
                            prev,
                            *playlist_id as int,
                            refs[k as int].id,
                            revert,
                        ));
                    }
                    k = k + 1;
                }
            },
            Action::UpdateTrackInfo { track } => {
                let title = if revert {
                    clone_opt_string(&track.old_title)
                } else {
                    clone_opt_string(&track.new_title)
                };
                let artist = if revert {
                    clone_opt_string(&track.old_artist)
                } else {
                    clone_opt_string(&track.new_artist)
                };
                let album = if revert {
                    clone_opt_string(&track.old_album)
                } else {
                    clone_opt_string(&track.new_album)
                };
                let bpm = if revert {
                    track.old_bpm
                } else {
                    track.new_bpm
                };
                let comment = if revert {
                    clone_opt_string(&track.old_comment_raw)
                } else {
                    clone_opt_string(&track.new_comment_raw)
                };
                db.update_track_info(track.id, &title, &artist, &album, bpm, &comment);
                proof {
                    assert(db@.tracks =~= info_tracks(old(db)@.tracks, track@, revert));
                }
            },
        }
    }

    /// A short human-readable description of undoing or redoing this
    /// action.
    pub fn describe(&self, revert: bool) -> (r: String)
        ensures
            r@ == action_description(self@, revert),
    {
        let mut out = if revert {
            String::from_str("Undo ")
        } else {
            String::from_str("Redo ")
        };
        match self {
            Action::UpdateTrackComments { tracks } => {
                if tracks.len() == 1 {
                    out.append("Tag Change");
                } else {
                    out.append("Tag Change (");
                    let n = u64_to_string(tracks.len() as u64);
                    out.append(n.as_str());
                    out.append(" tracks)");
                }
            },
            Action::AddToPlaylist { .. } => {
                out.append("Add to Playlist");
            },
            Action::UpdateTrackInfo { .. } => {
                out.append("Edit Track Info");
            },
        }
        out
    }

    /// The gateway calls this action calls for.
    pub fn gateway_ops(&self, revert: bool, file_ok: &Vec<bool>) -> (r: Vec<GatewayOp>)
        ensures
            r.deep_view() == action_gateway_ops(self@, revert, file_ok.deep_view()),
    {
        let mut r: Vec<GatewayOp> = Vec::new();
        match self {
            Action::UpdateTrackComments { tracks } => {
                let ghost ws = tracks.deep_view();
                let ghost okv = file_ok.deep_view();
                let mut k: usize = 0;
                proof {
                    assert(ws.skip(0) =~= ws);
                    assert(okv.skip(0) =~= okv);
                }
                while k < tracks.len()
                    invariant
                        k <= ws.len(),
                        ws == tracks.deep_view(),
                        okv == file_ok.deep_view(),
                        ws.len() == tracks@.len(),
                        okv.len() == file_ok@.len(),
                        comment_gateway_ops(ws, revert, okv) == r.deep_view()
                            + comment_gateway_ops(
                            ws.skip(k as int),
                            revert,
                            if k <= okv.len() {
                                okv.skip(k as int)
                            } else {
                                Seq::<bool>::empty()
                            },
                        ),
                    decreases ws.len() - k,
                {
                    let ghost suffix = ws.skip(k as int);
                    let ghost oksuf = if k <= okv.len() {
                        okv.skip(k as int)
                    } else {
                        Seq::<bool>::empty()
                    };
                    proof {
                        assert(suffix[0] == ws[k as int]);
                        assert(ws[k as int] == tracks@[k as int]@);
                        assert(suffix.drop_first() =~= ws.skip(k + 1));
                        if k < okv.len() {
                            assert(oksuf[0] == okv[k as int]);
                            assert(okv[k as int] == file_ok@[k as int]);
                            assert(oksuf.drop_first() =~= (if k + 1 <= okv.len() {
                                okv.skip(k + 1)
                            } else {
                                Seq::<bool>::empty()
                            }));
                        } else {
                            assert(oksuf.len() == 0);
                            assert((if k + 1 <= okv.len() {
                                okv.skip(k + 1)
                            } else {
                                Seq::<bool>::empty()
                            }) =~= oksuf);
                        }
                    }
                    let gate = k < file_ok.len() && file_ok[k];
                    let w = &tracks[k];
                    if gate && !w.persistent_id.as_str().is_empty() {
                        let text = if revert {
                            w.old_comment.clone()
                        } else {
                            w.new_comment.clone()
                        };
                        let ghost before = r.deep_view();
                        r.push(
                            GatewayOp::SetComment {
                                persistent_id: w.persistent_id.clone(),
                                text,
                            },
                        );
                        proof {
                            let op = GatewayOpView::SetComment {
                                persistent_id: ws[k as int].persistent_id,
                                text: chosen_comment(ws[k as int], revert),
                            };
                            assert(r.deep_view() =~= before.push(op));
                            assert(before.push(op) =~= before + seq![op]);
                        }
                    }
                    k = k + 1;
                }
                proof {
                    assert(ws.skip(ws.len() as int) =~= Seq::<TrackStateView>::empty());
                    assert(r.deep_view() + Seq::<GatewayOpView>::empty() =~= r.deep_view());
                }
            },
            Action::AddToPlaylist { playlist_id, playlist_persistent_id, tracks } => {
                let ghost refs = tracks.deep_view();
                let mut k: usize = 0;
                proof {
                    assert(refs.skip(0) =~= refs);
                }
                while k < tracks.len()
                    invariant
                        k <= refs.len(),
                        refs == tracks.deep_view(),
                        refs.len() == tracks@.len(),
                        playlist_gateway_ops(refs, playlist_persistent_id@, revert)
                            == r.deep_view() + playlist_gateway_ops(
                            refs.skip(k as int),
                            playlist_persistent_id@,
                            revert,
                        ),
                    decreases refs.len() - k,
                {
                    let ghost suffix = refs.skip(k as int);
                    proof {
                        assert(suffix[0] == refs[k as int]);
                        assert(refs[k as int] == tracks@[k as int]@);
                        assert(suffix.drop_first() =~= refs.skip(k + 1));
                    }
                    let t = &tracks[k];
                    let op = if revert {
                        GatewayOp::RemoveFromPlaylist {
                            track_pid: t.persistent_id.clone(),
                            playlist_pid: playlist_persistent_id.clone(),
                        }
                    } else {
                        GatewayOp::AddToPlaylist {
                            track_pid: t.persistent_id.clone(),
                            playlist_pid: playlist_persistent_id.clone(),
                        }
                    };
                    let ghost before = r.deep_view();
                    let ghost opv = op@;
                    r.push(op);
                    proof {
                        assert(r.deep_view() =~= before.push(opv));
                        assert(before.push(opv) =~= before + seq![opv]);
                    }
                    k = k + 1;
                }
                proof {
                    assert(refs.skip(refs.len() as int) =~= Seq::<TrackRefView>::empty());
                    assert(r.deep_view() + Seq::<GatewayOpView>::empty() =~= r.deep_view());
                }
            },
            Action::UpdateTrackInfo { track } => {
                let ghost expect = info_gateway_ops(track@, revert);
                if !track.persistent_id.as_str().is_empty() {
                    let title = if revert {
                        clone_opt_string(&track.old_title)
                    } else {
                        clone_opt_string(&track.new_title)
                    };
                    let artist = if revert {
                        clone_opt_string(&track.old_artist)
                    } else {
                        clone_opt_string(&track.new_artist)
                    };
                    let album = if revert {
                        clone_opt_string(&track.old_album)
                    } else {
                        clone_opt_string(&track.new_album)
                    };
                    let bpm = if revert {
                        track.old_bpm
                    } else {
                        track.new_bpm
                    };
                    let comment = if revert {
                        clone_opt_string(&track.old_comment_raw)
                    } else {
                        clone_opt_string(&track.new_comment_raw)
                    };
                    let any_info = title.is_some() || artist.is_some() || album.is_some()
                        || bpm.is_some();
                    if any_info {
                        r.push(
                            GatewayOp::SetInfo {
                                persistent_id: track.persistent_id.clone(),
                                title,
                                artist,
                                album,
                                bpm,
                            },
                        );
                    }
                    match comment {
                        Some(c) => {
                            r.push(
                                GatewayOp::SetComment {
                                    persistent_id: track.persistent_id.clone(),
                                    text: c,
                                },
                            );
                        },
                        None => {},
                    }
                }
                proof {
                    assert(r.deep_view() =~= expect);
                }
            },
        }
        r
    }
}

/// The comment a record carries, reading a missing field as empty: undoing
/// an edit of a track that had no comment field restores an empty comment.
pub open spec fn comment_val(t: TrackView) -> Seq<char> {
    match t.comment_raw {
        Some(c) => c,
        None => Seq::empty(),
    }
}

/// Two track stores that agree on everything but the raw comment fields,
/// and whose comments read equal.
pub open spec fn tracks_equiv(a: Seq<TrackView>, b: Seq<TrackView>) -> bool {
    &&& a.len() == b.len()
    &&& forall|i: int|
        0 <= i < a.len() ==> #[trigger] b[i] == (TrackView { comment_raw: b[i].comment_raw, ..a[i] })
            && comment_val(b[i]) == comment_val(a[i])
}

pub open spec fn ids_unique(tracks: Seq<TrackView>) -> bool {
    forall|i: int, j: int|
        0 <= i < j < tracks.len() ==> (#[trigger] tracks[i]).id != (#[trigger] tracks[j]).id
}

/// No two writes of one batch address the same track.
pub open spec fn distinct_ids(ws: Seq<TrackStateView>) -> bool {
    forall|a: int, b: int|
        0 <= a < b < ws.len() ==> (#[trigger] ws[a]).id != (#[trigger] ws[b]).id
}

/// A batch whose recorded old comments faithfully capture the store at the
/// moment the edit was made.
pub open spec fn batch_ok(tracks: Seq<TrackView>, ws: Seq<TrackStateView>) -> bool {
    forall|k: int|
        0 <= k < ws.len() ==> match find_track_by_id(tracks, (#[trigger] ws[k]).id) {
            Some(i) => ws[k].old_comment == comment_val(tracks[i]),
            None => true,
        }
}

/// The store effect of a batch with every file write succeeding, from
/// write `k` on.
pub open spec fn apply_comments_all_from(
    tracks: Seq<TrackView>,
    ws: Seq<TrackStateView>,
    revert: bool,
    k: int,
) -> Seq<TrackView>
    decreases ws.len() - k,
{
    if k < 0 || k >= ws.len() {
        tracks
    } else {
        apply_comments_all_from(
            set_comment_tracks(tracks, ws[k].id, chosen_comment(ws[k], revert)),
            ws,
            revert,
            k + 1,
        )
    }
}

pub open spec fn apply_comments_all(
    tracks: Seq<TrackView>,
    ws: Seq<TrackStateView>,
    revert: bool,
) -> Seq<TrackView> {
    apply_comments_all_from(tracks, ws, revert, 0)
}

/// With every file write succeeding, the gated store effect is the
/// ungated one.
pub proof fn lemma_apply_gated_all_ok(
    tracks: Seq<TrackView>,
    ws: Seq<TrackStateView>,
    revert: bool,
    ok: Seq<bool>,
    k: int,
)
    requires
        0 <= k,
        ok.len() >= ws.len(),
        forall|j: int| 0 <= j < ok.len() ==> ok[j],
    ensures
        apply_comment_writes_from(tracks, ws, revert, ok, k) == apply_comments_all_from(
            tracks,
            ws,
            revert,
            k,
        ),
    decreases ws.len() - k,
{
    if k < ws.len() {
        lemma_apply_gated_all_ok(
            set_comment_tracks(tracks, ws[k].id, chosen_comment(ws[k], revert)),
            ws,
            revert,
            ok,
            k + 1,
        );
    }
}

/// What a batch does, track by track: an addressed record gets the chosen
/// comment, every other record is untouched.
pub proof fn lemma_batch_pointwise(
    tracks: Seq<TrackView>,
    ws: Seq<TrackStateView>,
    revert: bool,
    k: int,
)
    requires
        0 <= k <= ws.len(),
        distinct_ids(ws),
    ensures
        ({
            let r = apply_comments_all_from(tracks, ws, revert, k);
            &&& r.len() == tracks.len()
            &&& forall|i: int|
                0 <= i < tracks.len() && (forall|k2: int|
                    k <= k2 < ws.len() ==> (#[trigger] ws[k2]).id != tracks[i].id)
                    ==> #[trigger] r[i] == tracks[i]
            &&& forall|i: int, k2: int|
                0 <= i < tracks.len() && k <= k2 < ws.len() && (#[trigger] ws[k2]).id == (
                #[trigger] tracks[i]).id ==> r[i] == (TrackView {
                    comment_raw: Some(chosen_comment(ws[k2], revert)),
                    ..tracks[i]
                })
        }),
    decreases ws.len() - k,
{
    if k < ws.len() {
        let t1 = set_comment_tracks(tracks, ws[k].id, chosen_comment(ws[k], revert));
        lemma_batch_pointwise(t1, ws, revert, k + 1);
        let r = apply_comments_all_from(tracks, ws, revert, k);
        assert(r == apply_comments_all_from(t1, ws, revert, k + 1));
        assert forall|i: int|
            0 <= i < tracks.len() && (forall|k2: int|
                k <= k2 < ws.len() ==> (#[trigger] ws[k2]).id != tracks[i].id) implies #[trigger] r[
        i] == tracks[i] by {
            assert(t1[i] == tracks[i]);
            assert(forall|k2: int| k + 1 <= k2 < ws.len() ==> (#[trigger] ws[k2]).id != t1[i].id);
        }
        assert forall|i: int, k2: int|
            0 <= i < tracks.len() && k <= k2 < ws.len() && (#[trigger] ws[k2]).id == (
        #[trigger] tracks[i]).id implies r[i] == (TrackView {
            comment_raw: Some(chosen_comment(ws[k2], revert)),
            ..tracks[i]
        }) by {
            if k2 == k {
                assert(t1[i] == (TrackView {
                    comment_raw: Some(chosen_comment(ws[k], revert)),
                    ..tracks[i]
                }));
                assert(forall|k3: int|
                    k + 1 <= k3 < ws.len() ==> (#[trigger] ws[k3]).id != ws[k].id);
                assert(forall|k3: int| k + 1 <= k3 < ws.len() ==> (#[trigger] ws[k3]).id != t1[i].id);
                assert(r[i] == t1[i]);
            } else {
                assert(ws[k].id != ws[k2].id);
                assert(t1[i] == tracks[i]);
                assert(r[i] == (TrackView {
                    comment_raw: Some(chosen_comment(ws[k2], revert)),
                    ..t1[i]
                }));
            }
        }
    }
}

/// A batch never renumbers tracks.
pub proof fn lemma_batch_ids(
    tracks: Seq<TrackView>,
    ws: Seq<TrackStateView>,
    revert: bool,
    k: int,
)
    requires
        0 <= k,
    ensures
        ({
            let r = apply_comments_all_from(tracks, ws, revert, k);
            r.len() == tracks.len() && forall|i: int|
                0 <= i < tracks.len() ==> (#[trigger] r[i]).id == tracks[i].id
        }),
    decreases ws.len() - k,
{
    if k < ws.len() {
        let t1 = set_comment_tracks(tracks, ws[k].id, chosen_comment(ws[k], revert));
        lemma_batch_ids(t1, ws, revert, k + 1);
    }
}

/// Undoing one batch right after applying it restores every comment.
pub proof fn lemma_batch_inverse(tracks: Seq<TrackView>, ws: Seq<TrackStateView>)
    requires
        ids_unique(tracks),
        distinct_ids(ws),
        batch_ok(tracks, ws),
    ensures
        tracks_equiv(
            tracks,
            apply_comments_all(apply_comments_all(tracks, ws, false), ws, true),
        ),
{
    let t1 = apply_comments_all(tracks, ws, false);
    let t2 = apply_comments_all(t1, ws, true);
    lemma_batch_pointwise(tracks, ws, false, 0);
    lemma_batch_pointwise(t1, ws, true, 0);
    assert forall|i: int| 0 <= i < tracks.len() implies #[trigger] t2[i] == (TrackView {
        comment_raw: t2[i].comment_raw,
        ..tracks[i]
    }) && comment_val(t2[i]) == comment_val(tracks[i]) by {
        if exists|k: int| 0 <= k < ws.len() && (#[trigger] ws[k]).id == tracks[i].id {
            let k = choose|k: int| 0 <= k < ws.len() && (#[trigger] ws[k]).id == tracks[i].id;
            assert(t1[i] == (TrackView {
                comment_raw: Some(chosen_comment(ws[k], false)),
                ..tracks[i]
            }));
            assert(ws[k].id == t1[i].id);
            assert(t2[i] == (TrackView {
                comment_raw: Some(chosen_comment(ws[k], true)),
                ..t1[i]
            }));
            crate::find::lemma_find_track_by_id(tracks, ws[k].id);
            match find_track_by_id(tracks, ws[k].id) {
                Some(j) => {
                    if j != i {
                        assert(tracks[j].id == tracks[i].id);
                        assert(false);
                    }
                    assert(ws[k].old_comment == comment_val(tracks[i]));
                },
                None => {
                    assert(false);
                },
            }
        } else {
            assert(forall|k2: int| 0 <= k2 < ws.len() ==> (#[trigger] ws[k2]).id != tracks[i].id);
            assert(t1[i] == tracks[i]);
            assert(forall|k2: int| 0 <= k2 < ws.len() ==> (#[trigger] ws[k2]).id != t1[i].id);
            assert(t2[i] == t1[i]);
        }
    }
}

/// Equivalence is symmetric.
pub proof fn lemma_equiv_sym(a: Seq<TrackView>, b: Seq<TrackView>)
    requires
        tracks_equiv(a, b),
    ensures
        tracks_equiv(b, a),
{
    assert forall|i: int| 0 <= i < b.len() implies #[trigger] a[i] == (TrackView {
        comment_raw: a[i].comment_raw,
        ..b[i]
    }) && comment_val(a[i]) == comment_val(b[i]) by {
        assert(b[i] == (TrackView { comment_raw: b[i].comment_raw, ..a[i] }));
    }
}

/// Equivalence is transitive.
pub proof fn lemma_equiv_trans(a: Seq<TrackView>, b: Seq<TrackView>, c: Seq<TrackView>)
    requires
        tracks_equiv(a, b),
        tracks_equiv(b, c),
    ensures
        tracks_equiv(a, c),
{
    assert forall|i: int| 0 <= i < a.len() implies #[trigger] c[i] == (TrackView {
        comment_raw: c[i].comment_raw,
        ..a[i]
    }) && comment_val(c[i]) == comment_val(a[i]) by {
        assert(b[i] == (TrackView { comment_raw: b[i].comment_raw, ..a[i] }));
        assert(c[i] == (TrackView { comment_raw: c[i].comment_raw, ..b[i] }));
    }
}

/// Applying one batch to equivalent stores leaves equivalent stores.
pub proof fn lemma_batch_congruence(
    a: Seq<TrackView>,
    b: Seq<TrackView>,
    ws: Seq<TrackStateView>,
    revert: bool,
)
    requires
        tracks_equiv(a, b),
        distinct_ids(ws),
    ensures
        tracks_equiv(
            apply_comments_all(a, ws, revert),
            apply_comments_all(b, ws, revert),
        ),
{
    let ra = apply_comments_all(a, ws, revert);
    let rb = apply_comments_all(b, ws, revert);
    lemma_batch_pointwise(a, ws, revert, 0);
    lemma_batch_pointwise(b, ws, revert, 0);
    assert forall|i: int| 0 <= i < ra.len() implies #[trigger] rb[i] == (TrackView {
        comment_raw: rb[i].comment_raw,
        ..ra[i]
    }) && comment_val(rb[i]) == comment_val(ra[i]) by {
        assert(b[i] == (TrackView { comment_raw: b[i].comment_raw, ..a[i] }));
        assert(b[i].id == a[i].id);
        if exists|k: int| 0 <= k < ws.len() && (#[trigger] ws[k]).id == a[i].id {
            let k = choose|k: int| 0 <= k < ws.len() && (#[trigger] ws[k]).id == a[i].id;
            assert(ra[i] == (TrackView {
                comment_raw: Some(chosen_comment(ws[k], revert)),
                ..a[i]
            }));
            assert(rb[i] == (TrackView {
                comment_raw: Some(chosen_comment(ws[k], revert)),
                ..b[i]
            }));
        } else {
            assert(forall|k2: int| 0 <= k2 < ws.len() ==> (#[trigger] ws[k2]).id != a[i].id);
            assert(forall|k2: int| 0 <= k2 < ws.len() ==> (#[trigger] ws[k2]).id != b[i].id);
            assert(ra[i] == a[i]);
            assert(rb[i] == b[i]);
        }
    }
}

/// A sequence of comment edits applied in order.
pub open spec fn apply_edits(tracks: Seq<TrackView>, edits: Seq<Seq<TrackStateView>>) -> Seq<
    TrackView,
>
    decreases edits.len(),
{
    if edits.len() == 0 {
        tracks
    } else {
        apply_edits(apply_comments_all(tracks, edits[0], false), edits.drop_first())
    }
}

/// The same edits undone, most recent first.
pub open spec fn undo_edits(tracks: Seq<TrackView>, edits: Seq<Seq<TrackStateView>>) -> Seq<
    TrackView,
>
    decreases edits.len(),
{
    if edits.len() == 0 {
        tracks
    } else {
        undo_edits(apply_comments_all(tracks, edits.last(), true), edits.drop_last())
    }
}

/// Every batch of the history addresses each track at most once.
pub open spec fn edits_distinct(edits: Seq<Seq<TrackStateView>>) -> bool {
    forall|m: int| 0 <= m < edits.len() ==> distinct_ids(#[trigger] edits[m])
}

/// Every batch faithfully recorded the store's comments at its own moment
/// in the history.
pub open spec fn edits_ok(tracks: Seq<TrackView>, edits: Seq<Seq<TrackStateView>>) -> bool
    decreases edits.len(),
{
    if edits.len() == 0 {
        true
    } else {
        batch_ok(tracks, edits[0]) && edits_ok(
            apply_comments_all(tracks, edits[0], false),
            edits.drop_first(),
        )
    }
}

/// Undoing a history with a distinguished first edit: the rest is undone
/// first, that edit last.
proof fn lemma_undo_edits_cons(
    tracks: Seq<TrackView>,
    e0: Seq<TrackStateView>,
    rest: Seq<Seq<TrackStateView>>,
)
    ensures
        undo_edits(tracks, seq![e0] + rest) == apply_comments_all(
            undo_edits(tracks, rest),
            e0,
            true,
        ),
    decreases rest.len(),
{
    let whole = seq![e0] + rest;
    if rest.len() == 0 {
        assert(whole.len() == 1);
        assert(whole.last() == e0);
        assert(whole.drop_last() =~= Seq::<Seq<TrackStateView>>::empty());
        assert(undo_edits(tracks, whole) == undo_edits(
            apply_comments_all(tracks, e0, true),
            whole.drop_last(),
        ));
        assert(undo_edits(apply_comments_all(tracks, e0, true), whole.drop_last())
            == apply_comments_all(tracks, e0, true));
        assert(undo_edits(tracks, rest) == tracks);
    } else {
        assert(whole.last() == rest.last());
        assert(whole.drop_last() =~= seq![e0] + rest.drop_last());
        let y = apply_comments_all(tracks, rest.last(), true);
        lemma_undo_edits_cons(y, e0, rest.drop_last());
        assert(undo_edits(tracks, whole) == undo_edits(y, whole.drop_last()));
        assert(undo_edits(y, whole.drop_last()) == apply_comments_all(
            undo_edits(y, rest.drop_last()),
            e0,
            true,
        ));
        assert(undo_edits(tracks, rest) == undo_edits(y, rest.drop_last()));
    }
}

/// Undo/redo convergence, first half: undoing a faithful history of
/// comment edits restores every track's comment to its pre-edit value,
/// and touches nothing else, regardless of how many edits were made.
pub proof fn lemma_undo_convergence(tracks: Seq<TrackView>, edits: Seq<Seq<TrackStateView>>)
    requires
        ids_unique(tracks),
        edits_distinct(edits),
        edits_ok(tracks, edits),
    ensures
        tracks_equiv(tracks, undo_edits(apply_edits(tracks, edits), edits)),
    decreases edits.len(),
{
    if edits.len() == 0 {
        assert forall|i: int| 0 <= i < tracks.len() implies #[trigger] tracks[i] == (TrackView {
            comment_raw: tracks[i].comment_raw,
            ..tracks[i]
        }) && comment_val(tracks[i]) == comment_val(tracks[i]) by {}
    } else {
        let e0 = edits[0];
        let rest = edits.drop_first();
        let t1 = apply_comments_all(tracks, e0, false);
        lemma_batch_ids(tracks, e0, false, 0);
        assert(ids_unique(t1)) by {
            assert forall|i: int, j: int| 0 <= i < j < t1.len() implies (#[trigger] t1[i]).id != (
            #[trigger] t1[j]).id by {
                assert(tracks[i].id != tracks[j].id);
            }
        }
        assert(edits_distinct(rest)) by {
            assert forall|m: int| 0 <= m < rest.len() implies distinct_ids(
                #[trigger] rest[m],
            ) by {
                assert(rest[m] == edits[m + 1]);
            }
        }
        lemma_undo_convergence(t1, rest);
        let e_all = apply_edits(tracks, edits);
        assert(e_all == apply_edits(t1, rest));
        assert(edits =~= seq![e0] + rest);
        lemma_undo_edits_cons(e_all, e0, rest);
        let u1 = undo_edits(e_all, rest);
        // u1 is equivalent to t1; undoing e0 from either lands next to tracks
        lemma_equiv_sym(t1, u1);
        lemma_batch_congruence(u1, t1, e0, true);
        lemma_batch_inverse(tracks, e0);
        lemma_equiv_sym(tracks, apply_comments_all(t1, e0, true));
        lemma_equiv_trans(
            apply_comments_all(u1, e0, true),
            apply_comments_all(t1, e0, true),
            tracks,
        );
        lemma_equiv_sym(apply_comments_all(u1, e0, true), tracks);
    }
}

/// Edits applied to equivalent stores leave equivalent stores.
proof fn lemma_edits_congruence(
    a: Seq<TrackView>,
    b: Seq<TrackView>,
    edits: Seq<Seq<TrackStateView>>,
)
    requires
        tracks_equiv(a, b),
        edits_distinct(edits),
    ensures
        tracks_equiv(apply_edits(a, edits), apply_edits(b, edits)),
    decreases edits.len(),
{
    if edits.len() > 0 {
        lemma_batch_congruence(a, b, edits[0], false);
        assert(edits_distinct(edits.drop_first())) by {
            assert forall|m: int| 0 <= m < edits.drop_first().len() implies distinct_ids(
                #[trigger] edits.drop_first()[m],
            ) by {
                assert(edits.drop_first()[m] == edits[m + 1]);
            }
        }
        lemma_edits_congruence(
            apply_comments_all(a, edits[0], false),
            apply_comments_all(b, edits[0], false),
            edits.drop_first(),
        );
    }
}

/// Undo/redo convergence, second half: redoing the whole history after
/// undoing it restores the final edited state.
pub proof fn lemma_redo_convergence(tracks: Seq<TrackView>, edits: Seq<Seq<TrackStateView>>)
    requires
        ids_unique(tracks),
        edits_distinct(edits),
        edits_ok(tracks, edits),
    ensures
        tracks_equiv(
            apply_edits(tracks, edits),
            apply_edits(undo_edits(apply_edits(tracks, edits), edits), edits),
        ),
{
    lemma_undo_convergence(tracks, edits);
    let u = undo_edits(apply_edits(tracks, edits), edits);
    lemma_edits_congruence(tracks, u, edits);
}

} // verus!
