use tagdeck::logbuf::LogState;
use tagdeck::logbuf::normalize_level;
use tagdeck::paths::build_imported_track;
use tagdeck::paths::decode_location;
use tagdeck::paths::finalize_path;
use tagdeck::paths::format_of_path;
use tagdeck::paths::should_skip_track;
use tagdeck::strutil::lex_le_ci;
use tagdeck::strutil::replace_all;
use tagdeck::strutil::str_eq_ci;
use tagdeck::strutil::trim;
use tagdeck::strutil::u64_to_string;
use tagdeck::watch::is_relevant_event;
use tagdeck::watch::is_relevant_path;
use tagdeck::watch::should_emit;

#[test]
fn finalize_path_strips_boot_volume_prefixes() {
    assert_eq!(finalize_path("/Volumes/Macintosh HD/Users/me/a.mp3"), "/Users/me/a.mp3");
    assert_eq!(finalize_path("/Macintosh HD/Users/me/a.mp3"), "/Users/me/a.mp3");
    assert_eq!(finalize_path("/Users/me/a.mp3"), "/Users/me/a.mp3");
    assert_eq!(finalize_path("/Volumes/External/b.mp3"), "/Volumes/External/b.mp3");
}

#[test]
fn decode_location_handles_file_urls_and_fallback() {
    // through the URL parser, percent-escapes decoded
    assert_eq!(
        decode_location("file:///Users/me/Music/a%20b.mp3"),
        "/Users/me/Music/a b.mp3"
    );
    assert_eq!(
        decode_location("file://localhost/Users/me/c.mp3"),
        "/Users/me/c.mp3"
    );
}

#[test]
fn decode_location_falls_back_to_percent_decoding() {
    // not an absolute URL, so the parser refuses it and the fallback
    // percent-decodes; a wrapper that handed its input back unchanged
    // would keep the escape
    assert_eq!(decode_location("Music/a%20b.mp3"), "Music/a b.mp3");
    // the legacy prefix is stripped before the volume heuristic
    assert_eq!(
        decode_location("file://localhost/Volumes/Macintosh%20HD/Users/me/c.mp3"),
        "/Users/me/c.mp3"
    );
}

#[test]
fn format_comes_from_the_last_dot_lowercased() {
    assert_eq!(format_of_path("/Users/me/a.MP3"), "mp3");
    assert_eq!(format_of_path("/Users/me/archive.tar.AIFF"), "aiff");
    assert_eq!(format_of_path("/Users/me/noext"), "unknown");
}

#[test]
fn imported_track_applies_rating_and_format_rules() {
    let t = build_imported_track(
        "P1".to_string(),
        "file:///Users/me/d.FLAC",
        Some("T".to_string()),
        None,
        None,
        Some("x && house".to_string()),
        None,
        180_000,
        5_000_000,
        1411,
        1_700_000_000,
        80,
        true,
        1_690_000_000,
        122,
    );
    assert_eq!(t.file_path, "/Users/me/d.FLAC");
    assert_eq!(t.format, "flac");
    assert_eq!(t.rating, 0, "an album-inherited rating is not the user's own");
    assert_eq!(t.duration_ms, 180_000);

    let skip_some = Some("Remote".to_string());
    assert!(should_skip_track(&skip_some));
    let keep = Some("File".to_string());
    assert!(!should_skip_track(&keep));
}

#[test]
fn string_helpers_behave() {
    assert!(str_eq_ci("House", "hOUSE"));
    assert!(!str_eq_ci("House", "Techno"));
    assert_eq!(trim("  x y\t"), "x y");
    assert_eq!(replace_all("/a/iTunes/b/iTunes/", "/iTunes/", "/M/"), "/a/M/b/M/");
    assert_eq!(u64_to_string(0), "0");
    assert_eq!(u64_to_string(907), "907");
    assert!(lex_le_ci("Ambient", "house"));
    assert!(lex_le_ci("house", "Techno"));
    assert!(!lex_le_ci("Techno", "house"));
}

#[test]
fn change_trigger_filters_noise_and_debounces() {
    assert!(is_relevant_path("/Users/me/Music/Music Library.musiclibrary/db"));
    assert!(!is_relevant_path("/Users/me/Music/x.tmp"));
    assert!(!is_relevant_path("/Users/me/Music/x.lock"));
    assert!(!is_relevant_path("/Users/me/Music/x.tmp.partial"));
    assert!(is_relevant_event(&vec![
        "/x.tmp".to_string(),
        "/Users/me/Music/Library.xml".to_string(),
    ]));
    assert!(!is_relevant_event(&vec!["/x.tmp".to_string()]));
    assert!(!should_emit(5000));
    assert!(should_emit(5001));
}

#[test]
fn log_buffer_gates_debug_and_caps_memory() {
    let mut log = LogState::new();
    assert!(!log.add_log("DEBUG", "hidden", "t0"));
    assert!(log.get_logs().is_empty());
    log.set_debug(true);
    assert!(log.add_log("DEBUG", "visible", "t1"));
    assert!(log.add_log("INFO", "hello", "t2"));
    assert_eq!(log.get_logs().len(), 2);
    assert_eq!(normalize_level("warn"), "INFO", "unknown spellings read as informational");
    assert_eq!(normalize_level("WARN"), "WARN");

    // crossing the cap drops the oldest fifth
    let mut big = LogState::new();
    for i in 0..2001u32 {
        big.add_log("INFO", &format!("m{}", i), "t");
    }
    let kept = big.get_logs();
    assert_eq!(kept.len(), 2001 - 400);
    assert_eq!(kept[0].message, "m400");

    log.set_log_dir("/Users/me/Library/Logs/TagDeck".to_string());
    assert_eq!(
        log.current_log_path().as_deref(),
        Some("/Users/me/Library/Logs/TagDeck/tagdeck.log")
    );
}
