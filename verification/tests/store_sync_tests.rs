use tagdeck::db::Database;
use tagdeck::model::Playlist;
use tagdeck::model::PlaylistSnapshotEntry;
use tagdeck::model::SnapshotEntry;
use tagdeck::model::Track;
use tagdeck::sync::import_from_external;
use tagdeck::sync::sync_metadata_delta;
use tagdeck::sync::sync_playlists;
use tagdeck::sync::sync_recent_changes;
use tagdeck::sync::sync_snapshot_fields;
use tagdeck::sync::SyncFlag;

fn mk_track(pid: &str, comment: Option<&str>, rating: i64, bpm: i64) -> Track {
    Track {
        id: 0,
        persistent_id: pid.to_string(),
        file_path: format!("/Users/me/Music/{}.mp3", pid),
        artist: Some("Artist".to_string()),
        title: Some("Title".to_string()),
        album: None,
        comment_raw: comment.map(|c| c.to_string()),
        grouping_raw: None,
        duration_ms: 215_000,
        format: "mp3".to_string(),
        size_bytes: 9_000_000,
        bit_rate: 320,
        modified_date: 1_700_000_000,
        rating,
        date_added: 1_690_000_000,
        bpm,
        missing: false,
    }
}

fn mk_playlist_entry(pid: &str, name: &str, members: &[&str]) -> PlaylistSnapshotEntry {
    PlaylistSnapshotEntry {
        persistent_id: pid.to_string(),
        parent_persistent_id: None,
        name: name.to_string(),
        is_folder: false,
        track_ids: members.iter().map(|m| m.to_string()).collect(),
    }
}

#[test]
fn insert_track_upserts_by_persistent_id() {
    let mut db = Database::new();
    db.insert_track(&mk_track("P1", Some("a"), 0, 120));
    db.insert_track(&mk_track("P2", None, 20, 100));
    assert_eq!(db.get_all_tracks().len(), 2);

    // same identifier: replaced in place, id and missing flag kept
    db.set_track_missing(1, true);
    let mut update = mk_track("P1", Some("b"), 40, 121);
    update.missing = false;
    db.insert_track(&update);
    let tracks = db.get_all_tracks();
    assert_eq!(tracks.len(), 2);
    assert_eq!(tracks[0].id, 1);
    assert_eq!(tracks[0].comment_raw.as_deref(), Some("b"));
    assert_eq!(tracks[0].rating, 40);
    assert!(tracks[0].missing, "the local file-presence flag is never overwritten externally");
}

#[test]
fn snapshot_diff_writes_only_differing_records() {
    let mut db = Database::new();
    db.insert_track(&mk_track("P1", None, 80, 120));
    db.insert_track(&mk_track("P2", None, 60, 90));
    let snapshot = vec![
        SnapshotEntry { persistent_id: "P1".to_string(), rating: 80, bpm: 128 },
        SnapshotEntry { persistent_id: "P2".to_string(), rating: 60, bpm: 90 },
        SnapshotEntry { persistent_id: "P9".to_string(), rating: 10, bpm: 10 },
    ];
    let n = sync_snapshot_fields(&mut db, &snapshot);
    assert_eq!(n, 1, "one record differs (bpm only), one is equal, one is unknown");
    let tracks = db.get_all_tracks();
    assert_eq!(tracks[0].rating, 80);
    assert_eq!(tracks[0].bpm, 128);
    assert_eq!(tracks[1].bpm, 90);

    // second run with the same snapshot: no writes at all
    let n2 = sync_snapshot_fields(&mut db, &snapshot);
    assert_eq!(n2, 0);
}

#[test]
fn metadata_delta_second_run_changes_nothing() {
    let mut db = Database::new();
    db.insert_track(&mk_track("P1", Some("x"), 10, 100));
    let delta = vec![mk_track("P1", Some("fresh"), 30, 105), mk_track("P3", None, 0, 0)];
    let n = sync_metadata_delta(&mut db, &delta);
    assert_eq!(n, 2);
    let after_first = db.get_all_tracks();
    let n2 = sync_metadata_delta(&mut db, &delta);
    assert_eq!(n2, 2, "the delta count reports records received, not records changed");
    let after_second = db.get_all_tracks();
    assert_eq!(after_first.len(), after_second.len());
    for (a, b) in after_first.iter().zip(after_second.iter()) {
        assert_eq!(a.id, b.id);
        assert_eq!(a.persistent_id, b.persistent_id);
        assert_eq!(a.comment_raw, b.comment_raw);
        assert_eq!(a.rating, b.rating);
    }
}

#[test]
fn playlist_diff_detects_membership_reorder() {
    let mut db = Database::new();
    db.insert_track(&mk_track("T1", None, 0, 0));
    db.insert_track(&mk_track("T2", None, 0, 0));
    let snap1 = vec![mk_playlist_entry("PL1", "Set", &["T1", "T2"])];
    let n1 = sync_playlists(&mut db, &snap1);
    assert_eq!(n1, 1, "a new playlist is one change");

    // unchanged snapshot: nothing to do
    assert_eq!(sync_playlists(&mut db, &snap1), 0);

    // same members, different order: detected as a change
    let snap2 = vec![mk_playlist_entry("PL1", "Set", &["T2", "T1"])];
    assert_eq!(sync_playlists(&mut db, &snap2), 1);
    let ids = db.get_playlist_track_ids(1);
    assert_eq!(ids, vec![2, 1]);

    // and again idempotent afterwards
    assert_eq!(sync_playlists(&mut db, &snap2), 0);
}

#[test]
fn playlist_diff_filters_unknown_members_and_deletes_gone_playlists() {
    let mut db = Database::new();
    db.insert_track(&mk_track("T1", None, 0, 0));
    let snap = vec![
        mk_playlist_entry("PL1", "Known", &["T1", "NEVER-IMPORTED"]),
        mk_playlist_entry("PL2", "Other", &[]),
    ];
    assert_eq!(sync_playlists(&mut db, &snap), 2);
    assert_eq!(db.get_playlist_track_ids(1), vec![1], "unknown members are filtered out");

    // a filtered snapshot stays equal: no perpetual difference
    assert_eq!(sync_playlists(&mut db, &snap), 0);

    // a playlist gone externally is deleted locally
    let snap2 = vec![mk_playlist_entry("PL1", "Known", &["T1"])];
    assert_eq!(sync_playlists(&mut db, &snap2), 1);
    assert_eq!(db.get_playlists().len(), 1);
}

#[test]
fn incremental_sync_skips_quietly_while_flag_held() {
    let mut db = Database::new();
    let mut flag = SyncFlag::new();
    assert!(flag.try_acquire());
    let r = sync_recent_changes(
        &mut db,
        &mut flag,
        Some(vec![mk_track("P1", None, 0, 0)]),
        None,
        None,
    );
    assert_eq!(r.tracks_updated, 0);
    assert_eq!(r.playlists_updated, 0);
    assert!(db.get_all_tracks().is_empty(), "a skipped pass writes nothing");
    flag.release();

    let r2 = sync_recent_changes(
        &mut db,
        &mut flag,
        Some(vec![mk_track("P1", None, 0, 0)]),
        None,
        None,
    );
    assert_eq!(r2.tracks_updated, 1);
    assert_eq!(db.get_all_tracks().len(), 1);
}

#[test]
fn full_import_refused_while_flag_held() {
    let mut db = Database::new();
    let mut flag = SyncFlag::new();
    assert!(flag.try_acquire());
    let r = import_from_external(&mut db, &mut flag, &vec![mk_track("P1", None, 0, 0)], &vec![]);
    assert!(r.is_err());
    flag.release();
    let r2 = import_from_external(
        &mut db,
        &mut flag,
        &vec![mk_track("P1", None, 0, 0)],
        &vec![Playlist {
            id: 0,
            persistent_id: "PL1".to_string(),
            parent_persistent_id: None,
            name: "Crate".to_string(),
            is_folder: false,
            track_ids: Some(vec!["P1".to_string()]),
        }],
    );
    assert_eq!(r2, Ok(1));
    assert_eq!(db.get_playlists().len(), 1);
    assert_eq!(db.get_playlist_track_ids(1), vec![1]);
}

#[test]
fn gateway_failure_skips_a_phase_without_blocking_the_next() {
    let mut db = Database::new();
    db.insert_track(&mk_track("P1", None, 10, 100));
    let mut flag = SyncFlag::new();
    // the metadata delta failed (None); the field snapshot still applies
    let r = sync_recent_changes(
        &mut db,
        &mut flag,
        None,
        Some(vec![SnapshotEntry { persistent_id: "P1".to_string(), rating: 70, bpm: 100 }]),
        None,
    );
    assert_eq!(r.tracks_updated, 1);
    assert_eq!(db.get_all_tracks()[0].rating, 70);
}

#[test]
fn full_sync_pass_is_idempotent_without_external_changes() {
    let mut db = Database::new();
    db.insert_track(&mk_track("P1", Some("x"), 10, 100));
    let mut flag = SyncFlag::new();
    let delta = vec![mk_track("P1", Some("fresh"), 30, 105), mk_track("P2", None, 0, 0)];
    let fields = vec![
        SnapshotEntry { persistent_id: "P1".to_string(), rating: 30, bpm: 105 },
        SnapshotEntry { persistent_id: "P2".to_string(), rating: 0, bpm: 0 },
    ];
    let lists = vec![mk_playlist_entry("PL1", "Set", &["P1", "P2"])];
    let r1 = sync_recent_changes(
        &mut db,
        &mut flag,
        Some(delta.clone()),
        Some(fields.clone()),
        Some(lists.clone()),
    );
    assert_eq!(r1.playlists_updated, 1);
    let tracks_after_first = db.get_all_tracks();
    let r2 = sync_recent_changes(&mut db, &mut flag, Some(delta), Some(fields), Some(lists));
    assert_eq!(r2.tracks_updated, 2, "the delta count reports records received");
    assert_eq!(r2.playlists_updated, 0);
    let tracks_after_second = db.get_all_tracks();
    for (a, b) in tracks_after_first.iter().zip(tracks_after_second.iter()) {
        assert_eq!(a.id, b.id);
        assert_eq!(a.comment_raw, b.comment_raw);
        assert_eq!(a.rating, b.rating);
        assert_eq!(a.bpm, b.bpm);
    }
}

#[test]
fn sync_tags_recomputes_counts_and_appends_new_names() {
    let mut db = Database::new();
    db.insert_track(&mk_track("P1", Some("a && house; Techno"), 0, 0));
    db.insert_track(&mk_track("P2", Some("b && HOUSE"), 0, 0));
    db.sync_tags();
    let tags = db.get_all_tags();
    assert_eq!(tags.len(), 2, "differently cased spellings fold into one tag");
    assert_eq!(tags[0].name, "house");
    assert_eq!(tags[0].usage_count, 2);
    assert_eq!(tags[1].name, "Techno");
    assert_eq!(tags[1].usage_count, 1);

    // counts follow the tracks; names keep their first-seen casing
    db.update_track_metadata(2, "b && techno");
    db.sync_tags();
    let tags2 = db.get_all_tags();
    assert_eq!(tags2[0].name, "house");
    assert_eq!(tags2[0].usage_count, 1);
    assert_eq!(tags2[1].name, "Techno");
    assert_eq!(tags2[1].usage_count, 2);
}

#[test]
fn tag_groups_create_assign_delete() {
    let mut db = Database::new();
    db.insert_track(&mk_track("P1", Some(" && house"), 0, 0));
    db.sync_tags();
    let g = db.create_tag_group("Genres");
    assert_eq!(g.position, 1);
    let g2 = db.create_tag_group("Moods");
    assert!(g2.position > g.position);
    db.set_tag_group(1, Some(g.id));
    assert_eq!(db.get_all_tags()[0].group_id, Some(g.id));
    db.delete_tag_group(g.id);
    assert_eq!(db.get_all_tags()[0].group_id, None, "deleting a group clears assignments");
    assert_eq!(db.get_tag_groups().len(), 1);
    db.reorder_tag_groups(&vec![g2.id]);
    assert_eq!(db.get_tag_groups()[0].position, 0);
}
