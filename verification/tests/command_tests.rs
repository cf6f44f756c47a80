use tagdeck::commands::commit_comment_writes;
use tagdeck::commands::combined_play_count;
use tagdeck::commands::get_global_tags;
use tagdeck::commands::missing_path_candidates;
use tagdeck::commands::plan_add_to_playlist;
use tagdeck::commands::plan_batch_tag;
use tagdeck::commands::plan_write_tags;
use tagdeck::db::Database;
use tagdeck::model::Playlist;
use tagdeck::model::Track;
use tagdeck::undo::GatewayOp;

fn mk_track(pid: &str, comment: Option<&str>) -> Track {
    Track {
        id: 0,
        persistent_id: pid.to_string(),
        file_path: format!("/Users/me/Music/{}.mp3", pid),
        artist: None,
        title: None,
        album: None,
        comment_raw: comment.map(|c| c.to_string()),
        grouping_raw: None,
        duration_ms: 1000,
        format: "mp3".to_string(),
        size_bytes: 1,
        bit_rate: 320,
        modified_date: 0,
        rating: 0,
        date_added: 0,
        bpm: 0,
        missing: false,
    }
}

#[test]
fn batch_add_plans_only_tracks_without_the_tag() {
    let mut db = Database::new();
    db.insert_track(&mk_track("P1", Some("a && house")));
    db.insert_track(&mk_track("P2", Some("b")));
    db.insert_track(&mk_track("P3", None));
    let plan = plan_batch_tag(&db, &vec![1, 2, 3, 99], " house ", true);
    assert_eq!(plan.len(), 2, "one track already carries the tag, one id is unknown");
    assert_eq!(plan[0].id, 2);
    assert_eq!(plan[0].old_comment, "b");
    assert_eq!(plan[0].new_comment, "b && house");
    assert_eq!(plan[1].id, 3);
    assert_eq!(plan[1].new_comment, " && house");
}

#[test]
fn batch_tag_with_blank_tag_plans_nothing() {
    let mut db = Database::new();
    db.insert_track(&mk_track("P1", Some("a")));
    assert!(plan_batch_tag(&db, &vec![1], "   ", true).is_empty());
    assert!(plan_batch_tag(&db, &vec![1], "", false).is_empty());
}

#[test]
fn commit_skips_failed_file_writes_and_mirrors_the_rest() {
    let mut db = Database::new();
    db.insert_track(&mk_track("P1", Some("a")));
    db.insert_track(&mk_track("", Some("b")));
    let plan = plan_batch_tag(&db, &vec![1, 2], "house", true);
    assert_eq!(plan.len(), 2);
    let (gateway, touch) = commit_comment_writes(&mut db, &plan, &vec![true, true]);
    assert_eq!(db.get_track(1).unwrap().comment_raw.as_deref(), Some("a && house"));
    assert_eq!(db.get_track(2).unwrap().comment_raw.as_deref(), Some("b && house"));
    // the matched track is mirrored; the unmatched one is touched instead
    assert_eq!(gateway.len(), 1);
    match &gateway[0] {
        GatewayOp::SetComment { persistent_id, text } => {
            assert_eq!(persistent_id, "P1");
            assert_eq!(text, "a && house");
        },
        other => panic!("unexpected gateway call: {:?}", other),
    }
    assert_eq!(touch, vec!["/Users/me/Music/.mp3".to_string()]);

    // a failed file write commits nothing for that track
    let mut db2 = Database::new();
    db2.insert_track(&mk_track("P1", Some("a")));
    let plan2 = plan_batch_tag(&db2, &vec![1], "house", true);
    let (gateway2, touch2) = commit_comment_writes(&mut db2, &plan2, &vec![false]);
    assert_eq!(db2.get_track(1).unwrap().comment_raw.as_deref(), Some("a"));
    assert!(gateway2.is_empty());
    assert!(touch2.is_empty());
}

#[test]
fn write_tags_plan_overwrites_the_whole_field() {
    let mut db = Database::new();
    db.insert_track(&mk_track("P1", Some("old && x")));
    let w = plan_write_tags(&db, 1, "note && fresh").expect("track exists");
    assert_eq!(w.old_comment, "old && x");
    assert_eq!(w.new_comment, "note && fresh");
    assert!(plan_write_tags(&db, 42, "x").is_none(), "an unknown id is the command's error");
}

#[test]
fn add_to_playlist_plan_resolves_identifiers() {
    let mut db = Database::new();
    db.insert_track(&mk_track("T1", None));
    db.insert_playlist(&Playlist {
        id: 0,
        persistent_id: "PL1".to_string(),
        parent_persistent_id: None,
        name: "Crate".to_string(),
        is_folder: false,
        track_ids: Some(vec![]),
    });
    let (ppid, refs) = plan_add_to_playlist(&db, &vec![1, 7], 1).expect("playlist exists");
    assert_eq!(ppid, "PL1");
    assert_eq!(refs.len(), 1, "unknown track ids are dropped");
    assert_eq!(refs[0].persistent_id, "T1");
    assert!(plan_add_to_playlist(&db, &vec![1], 9).is_none());
}

#[test]
fn play_counts_combine_and_saturate() {
    assert_eq!(combined_play_count(3, 4), 7);
    assert_eq!(combined_play_count(i64::MAX, 1), i64::MAX);
}

#[test]
fn missing_path_candidates_substitute_known_nestings() {
    let cands = missing_path_candidates("/Users/me/Music/iTunes/x.mp3");
    assert_eq!(
        cands,
        vec![
            "/Users/me/Music/iTunes/Music/x.mp3".to_string(),
            "/Users/me/Music/iTunes/iTunes Music/x.mp3".to_string(),
            "/Users/me/Music/iTunes/iTunes Media/Music/x.mp3".to_string(),
            "/Users/me/Music/iTunes/iTunes Media/x.mp3".to_string(),
        ]
    );
    assert!(missing_path_candidates("/Users/me/Music/x.mp3").is_empty());
}

#[test]
fn copy_memberships_plan_resolves_both_tracks_and_playlists() {
    let mut db = Database::new();
    db.insert_track(&mk_track("T1", None));
    db.insert_track(&mk_track("T2", None));
    db.insert_playlist(&Playlist {
        id: 0,
        persistent_id: "PL1".to_string(),
        parent_persistent_id: None,
        name: "Crate".to_string(),
        is_folder: false,
        track_ids: Some(vec!["T2".to_string()]),
    });
    let (target_pid, source_pid, refs) =
        tagdeck::commands::plan_copy_memberships(&db, 1, 2, &vec![1, 44]).expect("tracks exist");
    assert_eq!(target_pid, "T1");
    assert_eq!(source_pid, "T2");
    assert_eq!(refs.len(), 1, "unknown playlist ids are dropped");
    assert_eq!(refs[0].persistent_id, "PL1");
    assert_eq!(refs[0].name, "Crate");
    assert!(tagdeck::commands::plan_copy_memberships(&db, 1, 99, &vec![1]).is_none());
    assert_eq!(tagdeck::commands::copy_result_message(1), "Added to 1 playlist");
    assert_eq!(tagdeck::commands::copy_result_message(3), "Added to 3 playlists");
}

#[test]
fn playlists_for_track_lists_memberships() {
    let mut db = Database::new();
    db.insert_track(&mk_track("T1", None));
    db.insert_playlist(&Playlist {
        id: 0,
        persistent_id: "PL1".to_string(),
        parent_persistent_id: None,
        name: "In".to_string(),
        is_folder: false,
        track_ids: Some(vec!["T1".to_string()]),
    });
    db.insert_playlist(&Playlist {
        id: 0,
        persistent_id: "PL2".to_string(),
        parent_persistent_id: None,
        name: "Out".to_string(),
        is_folder: false,
        track_ids: Some(vec![]),
    });
    let infos = db.get_playlists_for_track(1);
    assert_eq!(infos.len(), 1);
    assert_eq!(infos[0].name, "In");
    assert!(db.get_playlists_for_track(9).is_empty());
}

#[test]
fn global_tags_are_distinct_and_sorted_case_insensitively() {
    let mut db = Database::new();
    db.insert_track(&mk_track("P1", Some("a && Techno; house")));
    db.insert_track(&mk_track("P2", Some("b && Ambient; house")));
    let tags = get_global_tags(&db);
    assert_eq!(
        tags,
        vec!["Ambient".to_string(), "house".to_string(), "Techno".to_string()]
    );
}
