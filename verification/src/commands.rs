//! The command layer: the decision half of each user-facing operation.
//!
//! Every command follows the same ordered pipeline: compute the new state
//! here, commit to the files (done by the caller, which reports per-file
//! success back), commit to the local store, and only then mirror
//! best-effort to the external gateway — the unreliable step never comes
//! before the irrevocable local commit. Batch commands tolerate per-item
//! failures: one failed file write skips that item's store and gateway
//! writes and the rest of the batch proceeds.

use vstd::prelude::*;

use crate::codec::add_tag_to_comment;
use crate::codec::decoded_tags;
use crate::codec::encode_spec;
use crate::codec::has_tag_ci;
use crate::codec::remove_tag_ci;
use crate::codec::remove_tag_from_comment;
use crate::codec::user_part;
use crate::db::Database;
use crate::db::StoreView;
use crate::find::find_track_by_id;
use crate::find::find_playlist_by_id;
use crate::model::TrackView;
use crate::model::PlaylistInfo;
use crate::model::PlaylistView;
use crate::strutil::dec_str;
use crate::strutil::u64_to_string;
use crate::db::all_occurrences;
use crate::db::seq_contains_str;
use crate::strutil::lex_le;
use crate::strutil::lex_le_ci;
use crate::strutil::lemma_lex_total;
use crate::strutil::lemma_lex_trans;
use crate::strutil::lower;
use crate::strutil::str_eq;
use crate::strutil::trim;
use crate::strutil::trim_spec;
use crate::undo::GatewayOp;
use crate::undo::GatewayOpView;
use crate::undo::TrackState;
use crate::undo::TrackStateView;
use crate::undo::TrackRef;
use crate::undo::TrackRefView;
use crate::undo::set_comment_tracks;
use vstd::string::StringExecFns;

verus! {

/// The comment a track record carries, read as text (a missing field reads
/// as empty, as a first import may leave it).
pub open spec fn comment_of(t: TrackView) -> Seq<char> {
    match t.comment_raw {
        Some(c) => c,
        None => Seq::empty(),
    }
}

/// The planned write for one track when adding a tag: skipped entirely when
/// the tag is already present (case-insensitively).
pub open spec fn add_tag_plan_one(t: TrackView, tag: Seq<char>) -> Option<TrackStateView> {
    if has_tag_ci(decoded_tags(comment_of(t)), tag) {
        None
    } else {
        Some(
            TrackStateView {
                id: t.id,
                persistent_id: t.persistent_id,
                file_path: t.file_path,
                old_comment: comment_of(t),
                new_comment: encode_spec(
                    user_part(comment_of(t)),
                    decoded_tags(comment_of(t)).push(tag),
                ),
            },
        )
    }
}

/// The planned write for one track when removing a tag: skipped entirely
/// when no case-insensitive match is present.
pub open spec fn remove_tag_plan_one(t: TrackView, tag: Seq<char>) -> Option<TrackStateView> {
    if has_tag_ci(decoded_tags(comment_of(t)), tag) {
        Some(
            TrackStateView {
                id: t.id,
                persistent_id: t.persistent_id,
                file_path: t.file_path,
                old_comment: comment_of(t),
                new_comment: encode_spec(
                    user_part(comment_of(t)),
                    remove_tag_ci(decoded_tags(comment_of(t)), tag),
                ),
            },
        )
    } else {
        None
    }
}

/// A batch plan: one planned write per selected id whose track exists and
/// actually changes, in selection order. `add` selects between adding and
/// removing the tag.
pub open spec fn batch_tag_plan(
    tracks: Seq<TrackView>,
    ids: Seq<int>,
    tag: Seq<char>,
    add: bool,
) -> Seq<TrackStateView>
    decreases ids.len(),
{
    if ids.len() == 0 {
        Seq::empty()
    } else {
        let rest = batch_tag_plan(tracks, ids.drop_first(), tag, add);
        match find_track_by_id(tracks, ids[0]) {
            Some(i) => {
                let one = if add {
                    add_tag_plan_one(tracks[i], tag)
                } else {
                    remove_tag_plan_one(tracks[i], tag)
                };
                match one {
                    Some(w) => seq![w] + rest,
                    None => rest,
                }
            },
            None => rest,
        }
    }
}

/// Computes the writes of a batch add-tag or remove-tag command. The tag is
/// trimmed first; a tag that is empty after trimming plans nothing.
pub fn plan_batch_tag(db: &Database, ids: &Vec<i64>, tag: &str, add: bool) -> (plan: Vec<
    TrackState,
>)
    ensures
        trim_spec(tag@).len() == 0 ==> plan.deep_view() == Seq::<TrackStateView>::empty(),
        trim_spec(tag@).len() > 0 ==> plan.deep_view() == batch_tag_plan(
            db@.tracks,
            crate::db::ids_view(ids@),
            trim_spec(tag@),
            add,
        ),
{
    let raw_tag = trim(tag);
    let mut plan: Vec<TrackState> = Vec::new();
    if raw_tag.unicode_len() == 0 {
        proof {
            assert(plan.deep_view() =~= Seq::<TrackStateView>::empty());
        }
        return plan;
    }
    let ghost idv = crate::db::ids_view(ids@);
    let mut k: usize = 0;
    proof {
        assert(idv.skip(0) =~= idv);
    }
    while k < ids.len()
        invariant
            k <= idv.len(),
            idv == crate::db::ids_view(ids@),
            idv.len() == ids@.len(),
            raw_tag@ == trim_spec(tag@),
            raw_tag@.len() > 0,
            batch_tag_plan(db@.tracks, idv, raw_tag@, add) == plan.deep_view() + batch_tag_plan(
                db@.tracks,
                idv.skip(k as int),
                raw_tag@,
                add,
            ),
        decreases idv.len() - k,
    {
        let ghost suffix = idv.skip(k as int);
        proof {
            assert(suffix[0] == idv[k as int]);
            assert(idv[k as int] == ids@[k as int] as int);
            assert(suffix.drop_first() =~= idv.skip(k + 1));
        }
        match db.get_track(ids[k]) {
            Some(track) => {
                let current = match &track.comment_raw {
                    Some(c) => c.clone(),
                    None => String::new(),
                };
                let changed: Option<String> = if add {
                    add_tag_to_comment(current.as_str(), raw_tag)
                } else {
                    remove_tag_from_comment(current.as_str(), raw_tag)
                };
                match changed {
                    Some(new_comment) => {
                        let ghost before = plan.deep_view();
                        let w = TrackState {
                            id: track.id,
                            persistent_id: track.persistent_id.clone(),
                            file_path: track.file_path.clone(),
                            old_comment: current,
                            new_comment,
                        };
                        let ghost wv = w@;
                        plan.push(w);
                        proof {
                            assert(plan.deep_view() =~= before.push(wv));
                            assert(before.push(wv) =~= before + seq![wv]);
                        }
                    },
                    None => {},
                }
            },
            None => {},
        }
        k = k + 1;
    }
    proof {
        assert(idv.skip(idv.len() as int) =~= Seq::<int>::empty());
        assert(plan.deep_view() + Seq::<TrackStateView>::empty() =~= plan.deep_view());
    }
    plan
}

/// The store effect of committing planned comment writes, from write `k`
/// on: only writes whose file write succeeded are committed.
pub open spec fn commit_writes_from(
    tracks: Seq<TrackView>,
    ws: Seq<TrackStateView>,
    ok: Seq<bool>,
    k: int,
) -> Seq<TrackView>
    decreases ws.len() - k,
{
    if k < 0 || k >= ws.len() {
        tracks
    } else {
        let t1 = if k < ok.len() && ok[k] {
            set_comment_tracks(tracks, ws[k].id, ws[k].new_comment)
        } else {
            tracks
        };
        commit_writes_from(t1, ws, ok, k + 1)
    }
}

/// The gateway mirror calls of committed writes: one comment update per
/// successfully committed write whose track is matched externally.
pub open spec fn commit_gateway_ops(ws: Seq<TrackStateView>, ok: Seq<bool>, k: int) -> Seq<
    GatewayOpView,
>
    decreases ws.len() - k,
{
    if k < 0 || k >= ws.len() {
        Seq::empty()
    } else {
        let rest = commit_gateway_ops(ws, ok, k + 1);
        if k < ok.len() && ok[k] && ws[k].persistent_id.len() > 0 {
            seq![
                GatewayOpView::SetComment {
                    persistent_id: ws[k].persistent_id,
                    text: ws[k].new_comment,
                },
            ] + rest
        } else {
            rest
        }
    }
}

/// The file paths to touch after committing: tracks with no external match
/// are touched so other file-watching consumers notice the change.
pub open spec fn commit_touch_paths(ws: Seq<TrackStateView>, ok: Seq<bool>, k: int) -> Seq<
    Seq<char>,
>
    decreases ws.len() - k,
{
    if k < 0 || k >= ws.len() {
        Seq::empty()
    } else {
        let rest = commit_touch_paths(ws, ok, k + 1);
        if k < ok.len() && ok[k] && ws[k].persistent_id.len() == 0 {
            seq![ws[k].file_path] + rest
        } else {
            rest
        }
    }
}

/// Commits a batch of planned comment writes to the local store, skipping
/// every write whose file write failed (`file_ok`, aligned with the plan),
/// and hands back the gateway mirror calls and the paths to touch.
pub fn commit_comment_writes(db: &mut Database, ws: &Vec<TrackState>, file_ok: &Vec<bool>) -> (r:
    (Vec<GatewayOp>, Vec<String>))
    requires
        old(db).wf(),
    ensures
        final(db).wf(),
        final(db)@ == (StoreView {
            tracks: commit_writes_from(old(db)@.tracks, ws.deep_view(), file_ok.deep_view(), 0),
            ..old(db)@
        }),
        r.0.deep_view() == commit_gateway_ops(ws.deep_view(), file_ok.deep_view(), 0),
        r.1.deep_view() == commit_touch_paths(ws.deep_view(), file_ok.deep_view(), 0),
{
    let ghost wsv = ws.deep_view();
    let ghost okv = file_ok.deep_view();
    let mut gw: Vec<GatewayOp> = Vec::new();
    let mut touch: Vec<String> = Vec::new();
    let mut k: usize = 0;
    while k < ws.len()
        invariant
            k <= wsv.len(),
            wsv == ws.deep_view(),
            okv == file_ok.deep_view(),
            wsv.len() == ws@.len(),
            okv.len() == file_ok@.len(),
            db.wf(),
            commit_writes_from(old(db)@.tracks, wsv, okv, 0) == commit_writes_from(
                db@.tracks,
                wsv,
                okv,
                k as int,
            ),
            db@ == (StoreView { tracks: db@.tracks, ..old(db)@ }),
            commit_gateway_ops(wsv, okv, 0) == gw.deep_view() + commit_gateway_ops(
                wsv,
                okv,
                k as int,
            ),
            commit_touch_paths(wsv, okv, 0) == touch.deep_view() + commit_touch_paths(
                wsv,
                okv,
                k as int,
            ),
        decreases wsv.len() - k,
    {
        proof {
            assert(wsv[k as int] == ws@[k as int]@);
        }
        let w = &ws[k];
        if k < file_ok.len() && file_ok[k] {
            let ghost prev = db@.tracks;
            db.update_track_metadata(w.id, w.new_comment.as_str());
            proof {
                assert(db@.tracks =~= set_comment_tracks(
                    prev,
                    wsv[k as int].id,
                    wsv[k as int].new_comment,
                ));
            }
            if !w.persistent_id.as_str().is_empty() {
                let ghost before = gw.deep_view();
                gw.push(
                    GatewayOp::SetComment {
                        persistent_id: w.persistent_id.clone(),
                        text: w.new_comment.clone(),
                    },
                );
                proof {
                    let op = GatewayOpView::SetComment {
                        persistent_id: wsv[k as int].persistent_id,
                        text: wsv[k as int].new_comment,
                    };
                    assert(gw.deep_view() =~= before.push(op));
                    assert(before.push(op) =~= before + seq![op]);
                }
            } else {
                let ghost before = touch.deep_view();
                touch.push(w.file_path.clone());
                proof {
                    assert(touch.deep_view() =~= before.push(wsv[k as int].file_path));
                    assert(before.push(wsv[k as int].file_path) =~= before + seq![
                        wsv[k as int].file_path,
                    ]);
                }
            }
        }
        k = k + 1;
    }
    (gw, touch)
}

/// Computes the single write of the write-tag-field command: the comment
/// field is overwritten with exactly the given text. `None` when the track
/// is unknown, which the command surfaces as its error.
pub fn plan_write_tags(db: &Database, id: i64, new_tags: &str) -> (r: Option<TrackState>)
    ensures
        match find_track_by_id(db@.tracks, id as int) {
            Some(i) => r matches Some(w) && w@ == (TrackStateView {
                id: db@.tracks[i].id,
                persistent_id: db@.tracks[i].persistent_id,
                file_path: db@.tracks[i].file_path,
                old_comment: comment_of(db@.tracks[i]),
                new_comment: new_tags@,
            }),
            None => r is None,
        },
{
    match db.get_track(id) {
        Some(track) => {
            let old_comment = match &track.comment_raw {
                Some(c) => c.clone(),
                None => String::new(),
            };
            Some(
                TrackState {
                    id: track.id,
                    persistent_id: track.persistent_id.clone(),
                    file_path: track.file_path.clone(),
                    old_comment,
                    new_comment: String::from_str(new_tags),
                },
            )
        },
        None => None,
    }
}

/// The track references of an add-to-playlist command: the selected ids
/// that exist, each with its persistent identifier, in selection order.
pub open spec fn playlist_refs_plan(tracks: Seq<TrackView>, ids: Seq<int>) -> Seq<TrackRefView>
    decreases ids.len(),
{
    if ids.len() == 0 {
        Seq::empty()
    } else {
        let rest = playlist_refs_plan(tracks, ids.drop_first());
        match find_track_by_id(tracks, ids[0]) {
            Some(i) => seq![
                TrackRefView { id: ids[0], persistent_id: tracks[i].persistent_id },
            ] + rest,
            None => rest,
        }
    }
}

/// Computes an add-to-playlist command: the playlist's persistent
/// identifier and the valid track references. `None` when the playlist is
/// unknown, which the command surfaces as its error.
pub fn plan_add_to_playlist(db: &Database, track_ids: &Vec<i64>, playlist_id: i64) -> (r: Option<
    (String, Vec<TrackRef>),
>)
    ensures
        match find_playlist_by_id(db@.playlists, playlist_id as int) {
            Some(i) => r matches Some(p) && p.0@ == db@.playlists[i].persistent_id
                && p.1.deep_view() == playlist_refs_plan(
                db@.tracks,
                crate::db::ids_view(track_ids@),
            ),
            None => r is None,
        },
{
    let ppid = match db.get_playlist_persistent_id(playlist_id) {
        Some(p) => p,
        None => {
            return None;
        },
    };
    let mut refs: Vec<TrackRef> = Vec::new();
    let ghost idv = crate::db::ids_view(track_ids@);
    let mut k: usize = 0;
    proof {
        assert(idv.skip(0) =~= idv);
    }
    while k < track_ids.len()
        invariant
            k <= idv.len(),
            idv == crate::db::ids_view(track_ids@),
            idv.len() == track_ids@.len(),
            playlist_refs_plan(db@.tracks, idv) == refs.deep_view() + playlist_refs_plan(
                db@.tracks,
                idv.skip(k as int),
            ),
        decreases idv.len() - k,
    {
        let ghost suffix = idv.skip(k as int);
        proof {
            assert(suffix[0] == idv[k as int]);
            assert(idv[k as int] == track_ids@[k as int] as int);
            assert(suffix.drop_first() =~= idv.skip(k + 1));
        }
        match db.get_track_persistent_id(track_ids[k]) {
            Some(pid) => {
                let ghost before = refs.deep_view();
                let t = TrackRef { id: track_ids[k], persistent_id: pid };
                let ghost tv = t@;
                refs.push(t);
                proof {
                    assert(refs.deep_view() =~= before.push(tv));
                    assert(before.push(tv) =~= before + seq![tv]);
                }
            },
            None => {},
        }
        k = k + 1;
    }
    proof {
        assert(idv.skip(idv.len() as int) =~= Seq::<int>::empty());
        assert(refs.deep_view() + Seq::<TrackRefView>::empty() =~= refs.deep_view());
    }
    Some((ppid, refs))
}

/// The selected playlists that exist, in selection order, each with its
/// persistent identifier.
pub open spec fn copy_playlist_refs(ps: Seq<PlaylistView>, ids: Seq<int>) -> Seq<PlaylistView>
    decreases ids.len(),
{
    if ids.len() == 0 {
        Seq::empty()
    } else {
        let rest = copy_playlist_refs(ps, ids.drop_first());
        match find_playlist_by_id(ps, ids[0]) {
            Some(i) => seq![ps[i]] + rest,
            None => rest,
        }
    }
}

/// Computes a copy-memberships command: both tracks' persistent
/// identifiers and the selected playlists that exist. `None` when either
/// track is unknown, which the command surfaces as its error.
pub fn plan_copy_memberships(
    db: &Database,
    target_track_id: i64,
    source_track_id: i64,
    playlist_ids: &Vec<i64>,
) -> (r: Option<(String, String, Vec<PlaylistInfo>)>)
    ensures
        match (find_track_by_id(db@.tracks, target_track_id as int), find_track_by_id(
            db@.tracks,
            source_track_id as int,
        )) {
            (Some(t), Some(s)) => (r matches Some(p) && p.0@ == db@.tracks[t].persistent_id
                && p.1@ == db@.tracks[s].persistent_id && ({
                let refs = copy_playlist_refs(db@.playlists, crate::db::ids_view(playlist_ids@));
                p.2@.len() == refs.len() && forall|j: int|
                    0 <= j < refs.len() ==> (#[trigger] p.2@[j]).id as int == refs[j].id
                        && p.2@[j].persistent_id@ == refs[j].persistent_id && p.2@[j].name@
                        == refs[j].name
            })),
            _ => r is None,
        },
{
    let target_pid = match db.get_track_persistent_id(target_track_id) {
        Some(p) => p,
        None => {
            return None;
        },
    };
    let source_pid = match db.get_track_persistent_id(source_track_id) {
        Some(p) => p,
        None => {
            return None;
        },
    };
    let mut refs: Vec<PlaylistInfo> = Vec::new();
    let ghost idv = crate::db::ids_view(playlist_ids@);
    let ghost picked_all = copy_playlist_refs(db@.playlists, idv);
    let ghost mut picked = Seq::<PlaylistView>::empty();
    let mut k: usize = 0;
    proof {
        assert(idv.skip(0) =~= idv);
    }
    while k < playlist_ids.len()
        invariant
            k <= idv.len(),
            idv == crate::db::ids_view(playlist_ids@),
            idv.len() == playlist_ids@.len(),
            picked_all == copy_playlist_refs(db@.playlists, idv),
            copy_playlist_refs(db@.playlists, idv) == picked + copy_playlist_refs(
                db@.playlists,
                idv.skip(k as int),
            ),
            refs@.len() == picked.len(),
            forall|j: int|
                0 <= j < refs@.len() ==> (#[trigger] refs@[j]).id as int == picked[j].id
                    && refs@[j].persistent_id@ == picked[j].persistent_id && refs@[j].name@
                    == picked[j].name,
        decreases idv.len() - k,
    {
        let ghost suffix = idv.skip(k as int);
        proof {
            assert(suffix[0] == idv[k as int]);
            assert(idv[k as int] == playlist_ids@[k as int] as int);
            assert(suffix.drop_first() =~= idv.skip(k + 1));
        }
        let id = playlist_ids[k];
        match db.get_playlist_info(id) {
            Some(entry) => {
                let ghost i = crate::find::find_playlist_by_id(db@.playlists, id as int)->Some_0;
                proof {
                    crate::find::lemma_find_playlist_by_id(db@.playlists, id as int);
                }
                refs.push(entry);
                proof {
                    picked = picked.push(db@.playlists[i]);
                }
                proof {
                    assert(picked + copy_playlist_refs(db@.playlists, idv.skip(k + 1))
                        =~= picked.drop_last() + (seq![db@.playlists[i]] + copy_playlist_refs(
                        db@.playlists,
                        idv.skip(k + 1),
                    )));
                }
            },
            None => {},
        }
        k = k + 1;
    }
    proof {
        assert(idv.skip(idv.len() as int) =~= Seq::<int>::empty());
        assert(picked + Seq::<PlaylistView>::empty() =~= picked);
    }
    Some((target_pid, source_pid, refs))
}

/// The aggregate message of a copy-memberships command.
pub fn copy_result_message(added: usize) -> (r: String)
    ensures
        added == 1 ==> r@ == "Added to "@ + dec_str(added as int) + " playlist"@,
        added != 1 ==> r@ == "Added to "@ + dec_str(added as int) + " playlists"@,
{
    let mut out = String::from_str("Added to ");
    let n = u64_to_string(added as u64);
    out.append(n.as_str());
    if added == 1 {
        out.append(" playlist");
    } else {
        out.append(" playlists");
    }
    out
}

/// Play counts combined when merging one track into another, saturating at
/// the integer limit rather than overflowing.
pub fn combined_play_count(source: i64, target: i64) -> (r: i64)
    requires
        source >= 0,
        target >= 0,
    ensures
        source + target <= i64::MAX ==> r == source + target,
        source + target > i64::MAX ==> r == i64::MAX,
{
    if source <= i64::MAX - target {
        source + target
    } else {
        i64::MAX
    }
}

/// The candidate corrected paths for a file reported missing: legacy
/// library layouts nested the music folder in ways the stored path may
/// predate, so each known nesting is substituted for the plain library
/// folder. The caller probes each candidate on disk, in order.
pub fn missing_path_candidates(path: &str) -> (r: Vec<String>)
    ensures
        !crate::strutil::contains_sub(path@, "/iTunes/"@) ==> r.deep_view() == Seq::<
            Seq<char>,
        >::empty(),
        crate::strutil::contains_sub(path@, "/iTunes/"@) ==> r.deep_view() == seq![
            crate::strutil::replace_all_spec(path@, "/iTunes/"@, "/iTunes/Music/"@),
            crate::strutil::replace_all_spec(path@, "/iTunes/"@, "/iTunes/iTunes Music/"@),
            crate::strutil::replace_all_spec(path@, "/iTunes/"@, "/iTunes/iTunes Media/Music/"@),
            crate::strutil::replace_all_spec(path@, "/iTunes/"@, "/iTunes/iTunes Media/"@),
        ],
{
    let mut r: Vec<String> = Vec::new();
    if crate::strutil::contains(path, "/iTunes/") {
        r.push(crate::strutil::replace_all(path, "/iTunes/", "/iTunes/Music/"));
        r.push(crate::strutil::replace_all(path, "/iTunes/", "/iTunes/iTunes Music/"));
        r.push(crate::strutil::replace_all(path, "/iTunes/", "/iTunes/iTunes Media/Music/"));
        r.push(crate::strutil::replace_all(path, "/iTunes/", "/iTunes/iTunes Media/"));
        proof {
            assert(r.deep_view() =~= seq![
                crate::strutil::replace_all_spec(path@, "/iTunes/"@, "/iTunes/Music/"@),
                crate::strutil::replace_all_spec(path@, "/iTunes/"@, "/iTunes/iTunes Music/"@),
                crate::strutil::replace_all_spec(
                    path@,
                    "/iTunes/"@,
                    "/iTunes/iTunes Media/Music/"@,
                ),
                crate::strutil::replace_all_spec(path@, "/iTunes/"@, "/iTunes/iTunes Media/"@),
            ]);
        }
    } else {
        proof {
            assert(r.deep_view() =~= Seq::<Seq<char>>::empty());
        }
    }
    r
}

/// Sorted case-insensitively, by folded code points.
pub open spec fn ci_sorted(r: Seq<Seq<char>>) -> bool {
    forall|i: int, j: int|
        0 <= i < j < r.len() ==> lex_le(lower(#[trigger] r[i]), lower(#[trigger] r[j]))
}

/// The distinct tag strings across every track's decoded tag list, sorted
/// case-insensitively. Exact duplicates collapse; differently cased
/// spellings remain distinct entries, adjacent in the order.
pub fn get_global_tags(db: &Database) -> (r: Vec<String>)
    ensures
        forall|x: Seq<char>|
            seq_contains_str(r.deep_view(), x) == seq_contains_str(
                all_occurrences(db@.tracks),
                x,
            ),
        forall|i: int, j: int|
            0 <= i < j < r.deep_view().len() ==> r.deep_view()[i] != r.deep_view()[j],
        ci_sorted(r.deep_view()),
{
    let occ = db.get_all_occurrences();
    let ghost occv = occ.deep_view();
    let mut r: Vec<String> = Vec::new();
    let mut k: usize = 0;
    while k < occ.len()
        invariant
            k <= occv.len(),
            occv == occ.deep_view(),
            occv.len() == occ@.len(),
            forall|x: Seq<char>|
                seq_contains_str(r.deep_view(), x) == seq_contains_str(
                    occv.subrange(0, k as int),
                    x,
                ),
            forall|i: int, j: int|
                0 <= i < j < r.deep_view().len() ==> r.deep_view()[i] != r.deep_view()[j],
            ci_sorted(r.deep_view()),
        decreases occv.len() - k,
    {
        proof {
            assert(occv[k as int] == occ@[k as int]@);
        }
        let ghost x = occv[k as int];
        let ghost before = r.deep_view();
        let mut present = false;
        let mut j: usize = 0;
        while j < r.len()
            invariant
                j <= r@.len(),
                before == r.deep_view(),
                before.len() == r@.len(),
                k < occv.len(),
                occv.len() == occ@.len(),
                x == occv[k as int],
                occv[k as int] == occ@[k as int]@,
                present == exists|y: int| 0 <= y < j && #[trigger] r.deep_view()[y] == x,
            decreases r@.len() - j,
        {
            proof {
                assert(r.deep_view()[j as int] == r@[j as int]@);
            }
            if str_eq(r[j].as_str(), occ[k].as_str()) {
                present = true;
            }
            j = j + 1;
        }
        if !present {
            proof {
                assert(forall|y: int| 0 <= y < before.len() ==> #[trigger] before[y] != x);
            }
            // find the insertion point: before the first entry that does
            // not sort at or below the new tag
            let mut p: usize = 0;
            while p < r.len() && lex_le_ci(r[p].as_str(), occ[k].as_str())
                invariant
                    p <= r@.len(),
                    before == r.deep_view(),
                    before.len() == r@.len(),
                    k < occv.len(),
                    occv.len() == occ@.len(),
                    x == occv[k as int],
                    occv[k as int] == occ@[k as int]@,
                    forall|y: int| 0 <= y < p ==> lex_le(lower(#[trigger] before[y]), lower(x)),
                decreases r@.len() - p,
            {
                proof {
                    assert(r.deep_view()[p as int] == r@[p as int]@);
                }
                p = p + 1;
            }
            proof {
                if p < before.len() {
                    assert(before[p as int] == r@[p as int]@);
                    assert(!lex_le(lower(before[p as int]), lower(x)));
                    lemma_lex_total(lower(before[p as int]), lower(x));
                    assert(lex_le(lower(x), lower(before[p as int])));
                }
            }
            let ghost old_rv = r@;
            r.insert(p, occ[k].clone());
            proof {
                old_rv.insert_ensures(p as int, r@[p as int]);
                let after = r.deep_view();
                assert(after.len() == before.len() + 1);
                assert forall|y: int| 0 <= y < after.len() implies #[trigger] after[y] == (if y
                    < p {
                    before[y]
                } else if y == p {
                    x
                } else {
                    before[y - 1]
                }) by {
                    assert(after[y] == r@[y]@);
                    if y < p {
                        assert(r@[y] == old_rv[y]);
                        assert(old_rv[y]@ == before[y]);
                    } else if y == p {
                        assert(r@[p as int]@ == x);
                    } else {
                        assert(r@[y] == old_rv[y - 1]);
                        assert(old_rv[y - 1]@ == before[y - 1]);
                    }
                }
                // membership: the new list holds exactly the old entries plus x
                assert forall|z: Seq<char>| true implies seq_contains_str(after, z)
                    == seq_contains_str(occv.subrange(0, k + 1), z) by {
                    if seq_contains_str(after, z) {
                        let y = choose|y: int| 0 <= y < after.len() && after[y] == z;
                        if y == p {
                            assert(occv.subrange(0, k + 1)[k as int] == x);
                            assert(seq_contains_str(occv.subrange(0, k + 1), z));
                        } else {
                            let yb: int = if y < p {
                                y
                            } else {
                                y - 1
                            };
                            assert(before[yb] == z);
                            assert(seq_contains_str(before, z));
                            assert(seq_contains_str(occv.subrange(0, k as int), z));
                            let w = choose|w: int|
                                0 <= w < k && #[trigger] occv.subrange(0, k as int)[w] == z;
                            assert(occv.subrange(0, k + 1)[w] == z);
                            assert(seq_contains_str(occv.subrange(0, k + 1), z));
                        }
                    }
                    if seq_contains_str(occv.subrange(0, k + 1), z) {
                        let w = choose|w: int|
                            0 <= w < k + 1 && #[trigger] occv.subrange(0, k + 1)[w] == z;
                        if w == k {
                            assert(after[p as int] == x);
                            assert(z == x);
                            assert(seq_contains_str(after, z));
                        } else {
                            assert(occv.subrange(0, k as int)[w] == z);
                            assert(seq_contains_str(occv.subrange(0, k as int), z));
                            assert(seq_contains_str(before, z));
                            let y = choose|y: int| 0 <= y < before.len() && before[y] == z;
                            if y < p {
                                assert(after[y] == z);
                            } else {
                                assert(after[y + 1] == z);
                            }
                            assert(seq_contains_str(after, z));
                        }
                    }
                }
                // distinctness: x was absent, the rest were already distinct
                assert forall|a: int, b: int| 0 <= a < b < after.len() implies after[a]
                    != after[b] by {
                    if a == p {
                        assert(after[b] == before[b - 1]);
                        assert(before[b - 1] != x);
                    } else if b == p {
                        assert(after[a] == before[a]);
                        assert(before[a] != x);
                    } else {
                        let ab: int = if a < p {
                            a
                        } else {
                            a - 1
                        };
                        let bb: int = if b < p {
                            b
                        } else {
                            b - 1
                        };
                        assert(after[a] == before[ab]);
                        assert(after[b] == before[bb]);
                    }
                }
                // order: everything before the slot sorts at or below x,
                // everything after at or above
                assert forall|a: int, b: int| 0 <= a < b < after.len() implies lex_le(
                    lower(#[trigger] after[a]),
                    lower(#[trigger] after[b]),
                ) by {
                    if a == p {
                        assert(after[b] == before[b - 1]);
                        assert(b - 1 >= p);
                        if b - 1 == p {
                            assert(lex_le(lower(x), lower(before[p as int])));
                        } else {
                            assert(lex_le(lower(before[p as int]), lower(before[b - 1])));
                            lemma_lex_trans(
                                lower(x),
                                lower(before[p as int]),
                                lower(before[b - 1]),
                            );
                        }
                    } else if b == p {
                        assert(after[a] == before[a]);
                        assert(lex_le(lower(before[a]), lower(x)));
                    } else {
                        let ab: int = if a < p {
                            a
                        } else {
                            a - 1
                        };
                        let bb: int = if b < p {
                            b
                        } else {
                            b - 1
                        };
                        assert(after[a] == before[ab]);
                        assert(after[b] == before[bb]);
                        if ab < bb {
                            assert(lex_le(lower(before[ab]), lower(before[bb])));
                        } else {
                            assert(ab == bb);
                        }
                    }
                }
            }
        } else {
            proof {
                assert(seq_contains_str(before, x));
                assert forall|z: Seq<char>| true implies seq_contains_str(r.deep_view(), z)
                    == seq_contains_str(occv.subrange(0, k + 1), z) by {
                    if seq_contains_str(before, z) {
                        assert(seq_contains_str(occv.subrange(0, k as int), z));
                        let w = choose|w: int|
                            0 <= w < k && #[trigger] occv.subrange(0, k as int)[w] == z;
                        assert(occv.subrange(0, k + 1)[w] == z);
                    }
                    if seq_contains_str(occv.subrange(0, k + 1), z) {
                        let w = choose|w: int|
                            0 <= w < k + 1 && #[trigger] occv.subrange(0, k + 1)[w] == z;
                        if w == k {
                            assert(z == x);
                            assert(seq_contains_str(before, z));
                        } else {
                            assert(occv.subrange(0, k as int)[w] == z);
                            assert(seq_contains_str(occv.subrange(0, k as int), z));
                        }
                    }
                }
            }
        }
        k = k + 1;
    }
    proof {
        assert(occv.subrange(0, occv.len() as int) =~= occv);
    }
    r
}

} // verus!
