use tagdeck::db::Database;
use tagdeck::model::Track;
use tagdeck::undo::Action;
use tagdeck::undo::FileOp;
use tagdeck::undo::GatewayOp;
use tagdeck::undo::TrackRef;
use tagdeck::undo::TrackState;
use tagdeck::undo::UndoStack;

fn mk_track(id_hint: &str, comment: Option<&str>) -> Track {
    Track {
        id: 0,
        persistent_id: id_hint.to_string(),
        file_path: format!("/Users/me/Music/{}.mp3", id_hint),
        artist: None,
        title: None,
        album: None,
        comment_raw: comment.map(|c| c.to_string()),
        grouping_raw: None,
        duration_ms: 1000,
        format: "mp3".to_string(),
        size_bytes: 1,
        bit_rate: 320,
        modified_date: 0,
        rating: 0,
        date_added: 0,
        bpm: 0,
    missing: false,
    }
}

fn comment_edit(id: i64, pid: &str, old: &str, new: &str) -> TrackState {
    TrackState {
        id,
        persistent_id: pid.to_string(),
        file_path: format!("/Users/me/Music/{}.mp3", pid),
        old_comment: old.to_string(),
        new_comment: new.to_string(),
    }
}

fn comment_of(db: &Database, id: i64) -> Option<String> {
    db.get_track(id).unwrap().comment_raw
}

#[test]
fn pushing_a_new_action_clears_redo() {
    let mut stack = UndoStack::new();
    stack.push(Action::UpdateTrackComments { tracks: vec![] });
    let a = stack.pop_undo().expect("one action recorded");
    stack.finish_undo(a);
    assert!(stack.pop_undo().is_none());
    // a fresh edit invalidates forward history
    stack.push(Action::UpdateTrackComments { tracks: vec![] });
    assert!(stack.pop_redo().is_none());
}

#[test]
fn undo_then_redo_converges_on_comments() {
    let mut db = Database::new();
    db.insert_track(&mk_track("P1", Some("before one")));
    db.insert_track(&mk_track("P2", Some("before two")));

    // two edits in a row, recorded faithfully
    let e1 = Action::UpdateTrackComments {
        tracks: vec![
            comment_edit(1, "P1", "before one", "mid one"),
            comment_edit(2, "P2", "before two", "mid two"),
        ],
    };
    let e2 = Action::UpdateTrackComments {
        tracks: vec![comment_edit(1, "P1", "mid one", "final one")],
    };
    let all_ok = vec![true, true];
    e1.apply_to_store(&mut db, false, &all_ok);
    e2.apply_to_store(&mut db, false, &all_ok);
    assert_eq!(comment_of(&db, 1).as_deref(), Some("final one"));

    // two undos restore the pre-edit comments
    e2.apply_to_store(&mut db, true, &all_ok);
    e1.apply_to_store(&mut db, true, &all_ok);
    assert_eq!(comment_of(&db, 1).as_deref(), Some("before one"));
    assert_eq!(comment_of(&db, 2).as_deref(), Some("before two"));

    // two redos restore the final edited state
    e1.apply_to_store(&mut db, false, &all_ok);
    e2.apply_to_store(&mut db, false, &all_ok);
    assert_eq!(comment_of(&db, 1).as_deref(), Some("final one"));
    assert_eq!(comment_of(&db, 2).as_deref(), Some("mid two"));
}

#[test]
fn failed_file_write_skips_only_that_track_on_undo() {
    let mut db = Database::new();
    db.insert_track(&mk_track("P1", Some("one new")));
    db.insert_track(&mk_track("P2", Some("two new")));
    let action = Action::UpdateTrackComments {
        tracks: vec![
            comment_edit(1, "P1", "one old", "one new"),
            comment_edit(2, "P2", "two old", "two new"),
        ],
    };
    // the first track's file write failed; the second proceeds
    action.apply_to_store(&mut db, true, &vec![false, true]);
    assert_eq!(comment_of(&db, 1).as_deref(), Some("one new"));
    assert_eq!(comment_of(&db, 2).as_deref(), Some("two old"));
    // and its gateway mirror is skipped too
    let ops = action.gateway_ops(true, &vec![false, true]);
    assert_eq!(ops.len(), 1);
    match &ops[0] {
        GatewayOp::SetComment { persistent_id, text } => {
            assert_eq!(persistent_id, "P2");
            assert_eq!(text, "two old");
        },
        other => panic!("unexpected gateway call: {:?}", other),
    }
}

#[test]
fn failed_file_write_skips_only_that_track_on_redo() {
    let mut db = Database::new();
    db.insert_track(&mk_track("P1", Some("one old")));
    db.insert_track(&mk_track("P2", Some("two old")));
    let action = Action::UpdateTrackComments {
        tracks: vec![
            comment_edit(1, "P1", "one old", "one new"),
            comment_edit(2, "P2", "two old", "two new"),
        ],
    };
    // the first track's file write failed; redo commits only the second
    action.apply_to_store(&mut db, false, &vec![false, true]);
    assert_eq!(comment_of(&db, 1).as_deref(), Some("one old"));
    assert_eq!(comment_of(&db, 2).as_deref(), Some("two new"));
    // and only the second is mirrored
    let ops = action.gateway_ops(false, &vec![false, true]);
    assert_eq!(ops.len(), 1);
    match &ops[0] {
        GatewayOp::SetComment { persistent_id, text } => {
            assert_eq!(persistent_id, "P2");
            assert_eq!(text, "two new");
        },
        other => panic!("unexpected gateway call: {:?}", other),
    }
}

#[test]
fn file_ops_carry_the_chosen_side() {
    let action = Action::UpdateTrackComments {
        tracks: vec![comment_edit(1, "P1", "old text", "new text")],
    };
    let undo_ops = action.file_ops(true);
    assert_eq!(undo_ops.len(), 1);
    match &undo_ops[0] {
        FileOp::WriteComment { path, text } => {
            assert_eq!(path, "/Users/me/Music/P1.mp3");
            assert_eq!(text, "old text");
        },
        other => panic!("unexpected file write: {:?}", other),
    }
    match &action.file_ops(false)[0] {
        FileOp::WriteComment { text, .. } => assert_eq!(text, "new text"),
        other => panic!("unexpected file write: {:?}", other),
    }
}

#[test]
fn unmatched_tracks_are_never_mirrored() {
    let action = Action::UpdateTrackComments {
        tracks: vec![comment_edit(1, "", "old", "new")],
    };
    assert!(action.gateway_ops(false, &vec![true]).is_empty());
}

#[test]
fn add_to_playlist_undo_removes_membership() {
    let mut db = Database::new();
    db.insert_track(&mk_track("T1", None));
    db.insert_playlist(&tagdeck::model::Playlist {
        id: 0,
        persistent_id: "PL1".to_string(),
        parent_persistent_id: None,
        name: "Crate".to_string(),
        is_folder: false,
        track_ids: Some(vec![]),
    });
    let action = Action::AddToPlaylist {
        playlist_id: 1,
        playlist_persistent_id: "PL1".to_string(),
        tracks: vec![TrackRef { id: 1, persistent_id: "T1".to_string() }],
    };
    action.apply_to_store(&mut db, false, &vec![]);
    assert_eq!(db.get_playlist_track_ids(1), vec![1]);
    action.apply_to_store(&mut db, true, &vec![]);
    assert!(db.get_playlist_track_ids(1).is_empty());
    // the gateway mirror is symmetric
    match &action.gateway_ops(true, &vec![])[0] {
        GatewayOp::RemoveFromPlaylist { track_pid, playlist_pid } => {
            assert_eq!(track_pid, "T1");
            assert_eq!(playlist_pid, "PL1");
        },
        other => panic!("unexpected gateway call: {:?}", other),
    }
}

#[test]
fn descriptions_name_the_operation() {
    let single = Action::UpdateTrackComments {
        tracks: vec![comment_edit(1, "P1", "a", "b")],
    };
    assert_eq!(single.describe(true), "Undo Tag Change");
    assert_eq!(single.describe(false), "Redo Tag Change");
    let batch = Action::UpdateTrackComments {
        tracks: vec![comment_edit(1, "P1", "a", "b"), comment_edit(2, "P2", "c", "d")],
    };
    assert_eq!(batch.describe(true), "Undo Tag Change (2 tracks)");
    let playlist = Action::AddToPlaylist {
        playlist_id: 1,
        playlist_persistent_id: "PL1".to_string(),
        tracks: vec![],
    };
    assert_eq!(playlist.describe(false), "Redo Add to Playlist");
}
