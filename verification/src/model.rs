//! The data model: tracks, playlists, tags and tag groups held in the local
//! store, plus the snapshot records that the external library gateway hands
//! back for diffing.
//!
//! Every type carries a mathematical view (`@`) over which the store and the
//! sync engine state their contracts.

use vstd::prelude::*;

verus! {

/// A music track as cached locally. `persistent_id` is the stable external
/// identifier (empty only for tracks not yet matched externally); `rating`
/// runs 0..=100; `duration_ms` is the track length in milliseconds;
/// `missing` is the local file-presence flag and is never sourced
/// externally.
#[derive(Debug, Clone)]
pub struct Track {
    pub id: i64,
    pub persistent_id: String,
    pub file_path: String,
    pub artist: Option<String>,
    pub title: Option<String>,
    pub album: Option<String>,
    pub comment_raw: Option<String>,
    pub grouping_raw: Option<String>,
    pub duration_ms: i64,
    pub format: String,
    pub size_bytes: i64,
    pub bit_rate: i64,
    pub modified_date: i64,
    pub rating: i64,
    pub date_added: i64,
    pub bpm: i64,
    pub missing: bool,
}

pub struct TrackView {
    pub id: int,
    pub persistent_id: Seq<char>,
    pub file_path: Seq<char>,
    pub artist: Option<Seq<char>>,
    pub title: Option<Seq<char>>,
    pub album: Option<Seq<char>>,
    pub comment_raw: Option<Seq<char>>,
    pub grouping_raw: Option<Seq<char>>,
    pub duration_ms: int,
    pub format: Seq<char>,
    pub size_bytes: int,
    pub bit_rate: int,
    pub modified_date: int,
    pub rating: int,
    pub date_added: int,
    pub bpm: int,
    pub missing: bool,
}

/// The view of an optional string.
pub open spec fn opt_view(o: Option<String>) -> Option<Seq<char>> {
    match o {
        Some(s) => Some(s@),
        None => None,
    }
}

impl View for Track {
    type V = TrackView;

    open spec fn view(&self) -> TrackView {
        TrackView {
            id: self.id as int,
            persistent_id: self.persistent_id@,
            file_path: self.file_path@,
            artist: opt_view(self.artist),
            title: opt_view(self.title),
            album: opt_view(self.album),
            comment_raw: opt_view(self.comment_raw),
            grouping_raw: opt_view(self.grouping_raw),
            duration_ms: self.duration_ms as int,
            format: self.format@,
            size_bytes: self.size_bytes as int,
            bit_rate: self.bit_rate as int,
            modified_date: self.modified_date as int,
            rating: self.rating as int,
            date_added: self.date_added as int,
            bpm: self.bpm as int,
            missing: self.missing,
        }
    }
}

impl DeepView for Track {
    type V = TrackView;

    open spec fn deep_view(&self) -> TrackView {
        self.view()
    }
}

/// A playlist as cached locally: external persistent identifier, optional
/// parent identifier (nesting), name, folder flag, and the ordered list of
/// member track persistent identifiers. Folders never hold tracks. The
/// membership list is `None` only on records handed out without their
/// membership loaded; inside the store it is always present.
#[derive(Debug, Clone)]
pub struct Playlist {
    pub id: i64,
    pub persistent_id: String,
    pub parent_persistent_id: Option<String>,
    pub name: String,
    pub is_folder: bool,
    pub track_ids: Option<Vec<String>>,
}

pub struct PlaylistView {
    pub id: int,
    pub persistent_id: Seq<char>,
    pub parent_persistent_id: Option<Seq<char>>,
    pub name: Seq<char>,
    pub is_folder: bool,
    pub track_ids: Option<Seq<Seq<char>>>,
}

/// The view of an optional membership list.
pub open spec fn opt_ids_view(o: Option<Vec<String>>) -> Option<Seq<Seq<char>>> {
    match o {
        Some(v) => Some(v.deep_view()),
        None => None,
    }
}

impl View for Playlist {
    type V = PlaylistView;

    open spec fn view(&self) -> PlaylistView {
        PlaylistView {
            id: self.id as int,
            persistent_id: self.persistent_id@,
            parent_persistent_id: opt_view(self.parent_persistent_id),
            name: self.name@,
            is_folder: self.is_folder,
            track_ids: opt_ids_view(self.track_ids),
        }
    }
}

impl DeepView for Playlist {
    type V = PlaylistView;

    open spec fn deep_view(&self) -> PlaylistView {
        self.view()
    }
}

/// A derived tag: name (unique case-insensitively), usage count recomputed
/// by rescanning all tracks, optional display group.
#[derive(Debug, Clone)]
pub struct Tag {
    pub id: i64,
    pub name: String,
    pub usage_count: i64,
    pub group_id: Option<i64>,
}

pub struct TagView {
    pub id: int,
    pub name: Seq<char>,
    pub usage_count: int,
    pub group_id: Option<int>,
}

impl View for Tag {
    type V = TagView;

    open spec fn view(&self) -> TagView {
        TagView {
            id: self.id as int,
            name: self.name@,
            usage_count: self.usage_count as int,
            group_id: match self.group_id {
                Some(g) => Some(g as int),
                None => None,
            },
        }
    }
}

impl DeepView for Tag {
    type V = TagView;

    open spec fn deep_view(&self) -> TagView {
        self.view()
    }
}

/// An organizational group that tags can be assigned to.
#[derive(Debug, Clone)]
pub struct TagGroup {
    pub id: i64,
    pub name: String,
    pub position: i64,
}

pub struct TagGroupView {
    pub id: int,
    pub name: Seq<char>,
    pub position: int,
}

impl View for TagGroup {
    type V = TagGroupView;

    open spec fn view(&self) -> TagGroupView {
        TagGroupView { id: self.id as int, name: self.name@, position: self.position as int }
    }
}

impl DeepView for TagGroup {
    type V = TagGroupView;

    open spec fn deep_view(&self) -> TagGroupView {
        self.view()
    }
}

/// One record of the lightweight external snapshot used by the sync
/// engine's field-diff phase: the external system's change marker does not
/// cover rating or BPM, so these are fetched wholesale and compared.
#[derive(Debug, Clone)]
pub struct SnapshotEntry {
    pub persistent_id: String,
    pub rating: i64,
    pub bpm: i64,
}

pub struct SnapshotEntryView {
    pub persistent_id: Seq<char>,
    pub rating: int,
    pub bpm: int,
}

impl View for SnapshotEntry {
    type V = SnapshotEntryView;

    open spec fn view(&self) -> SnapshotEntryView {
        SnapshotEntryView {
            persistent_id: self.persistent_id@,
            rating: self.rating as int,
            bpm: self.bpm as int,
        }
    }
}

impl DeepView for SnapshotEntry {
    type V = SnapshotEntryView;

    open spec fn deep_view(&self) -> SnapshotEntryView {
        self.view()
    }
}

/// One record of the full external playlist snapshot used by the sync
/// engine's playlist-diff phase.
#[derive(Debug, Clone)]
pub struct PlaylistSnapshotEntry {
    pub persistent_id: String,
    pub parent_persistent_id: Option<String>,
    pub name: String,
    pub is_folder: bool,
    pub track_ids: Vec<String>,
}

pub struct PlaylistSnapshotEntryView {
    pub persistent_id: Seq<char>,
    pub parent_persistent_id: Option<Seq<char>>,
    pub name: Seq<char>,
    pub is_folder: bool,
    pub track_ids: Seq<Seq<char>>,
}

impl View for PlaylistSnapshotEntry {
    type V = PlaylistSnapshotEntryView;

    open spec fn view(&self) -> PlaylistSnapshotEntryView {
        PlaylistSnapshotEntryView {
            persistent_id: self.persistent_id@,
            parent_persistent_id: opt_view(self.parent_persistent_id),
            name: self.name@,
            is_folder: self.is_folder,
            track_ids: self.track_ids.deep_view(),
        }
    }
}

impl DeepView for PlaylistSnapshotEntry {
    type V = PlaylistSnapshotEntryView;

    open spec fn deep_view(&self) -> PlaylistSnapshotEntryView {
        self.view()
    }
}

/// Clones an optional string; `String::clone` preserves the value exactly.
pub fn clone_opt_string(o: &Option<String>) -> (r: Option<String>)
    ensures
        r == *o,
{
    match o {
        Some(s) => Some(s.clone()),
        None => None,
    }
}

/// Are two optional strings equal as values?
pub fn opt_str_eq(a: &Option<String>, b: &Option<String>) -> (r: bool)
    ensures
        r == (opt_view(*a) == opt_view(*b)),
{
    match (a, b) {
        (Some(x), Some(y)) => crate::strutil::str_eq(x.as_str(), y.as_str()),
        (None, None) => true,
        _ => false,
    }
}

/// Clones a list of strings.
pub fn clone_string_vec(v: &Vec<String>) -> (r: Vec<String>)
    ensures
        r@ == v@,
        r.deep_view() == v.deep_view(),
{
    let mut r: Vec<String> = Vec::new();
    let mut i: usize = 0;
    while i < v.len()
        invariant
            i <= v@.len(),
            r@ == v@.subrange(0, i as int),
        decreases v@.len() - i,
    {
        r.push(v[i].clone());
        proof {
            assert(r@ =~= v@.subrange(0, i + 1));
        }
        i = i + 1;
    }
    proof {
        assert(v@.subrange(0, v@.len() as int) =~= v@);
        assert(r.deep_view() =~= v.deep_view());
    }
    r
}

/// Clones an optional list of strings.
pub fn clone_opt_ids(o: &Option<Vec<String>>) -> (r: Option<Vec<String>>)
    ensures
        opt_ids_view(r) == opt_ids_view(*o),
{
    match o {
        Some(v) => Some(clone_string_vec(v)),
        None => None,
    }
}

impl Track {
    /// A field-by-field copy carrying the same view.
    pub fn duplicate(&self) -> (r: Track)
        ensures
            r@ == self@,
    {
        Track {
            id: self.id,
            persistent_id: self.persistent_id.clone(),
            file_path: self.file_path.clone(),
            artist: clone_opt_string(&self.artist),
            title: clone_opt_string(&self.title),
            album: clone_opt_string(&self.album),
            comment_raw: clone_opt_string(&self.comment_raw),
            grouping_raw: clone_opt_string(&self.grouping_raw),
            duration_ms: self.duration_ms,
            format: self.format.clone(),
            size_bytes: self.size_bytes,
            bit_rate: self.bit_rate,
            modified_date: self.modified_date,
            rating: self.rating,
            date_added: self.date_added,
            bpm: self.bpm,
            missing: self.missing,
        }
    }
}

impl Playlist {
    /// A field-by-field copy carrying the same view.
    pub fn duplicate(&self) -> (r: Playlist)
        ensures
            r@ == self@,
    {
        Playlist {
            id: self.id,
            persistent_id: self.persistent_id.clone(),
            parent_persistent_id: clone_opt_string(&self.parent_persistent_id),
            name: self.name.clone(),
            is_folder: self.is_folder,
            track_ids: clone_opt_ids(&self.track_ids),
        }
    }
}

impl Tag {
    /// A field-by-field copy carrying the same view.
    pub fn duplicate(&self) -> (r: Tag)
        ensures
            r@ == self@,
    {
        Tag {
            id: self.id,
            name: self.name.clone(),
            usage_count: self.usage_count,
            group_id: self.group_id,
        }
    }
}

impl TagGroup {
    /// A field-by-field copy carrying the same view.
    pub fn duplicate(&self) -> (r: TagGroup)
        ensures
            r@ == self@,
    {
        TagGroup { id: self.id, name: self.name.clone(), position: self.position }
    }
}

/// Aggregate counts returned by an incremental sync pass.
#[derive(Debug, Clone)]
pub struct SyncResult {
    pub tracks_updated: usize,
    pub playlists_updated: usize,
}

/// A playlist reference as listed for a single track.
#[derive(Debug, Clone)]
pub struct PlaylistInfo {
    pub id: i64,
    pub persistent_id: String,
    pub name: String,
}

} // verus!
