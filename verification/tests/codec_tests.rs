use tagdeck::codec::add_tag_to_comment;
use tagdeck::codec::decode_comment;
use tagdeck::codec::encode_comment;
use tagdeck::codec::has_tag;
use tagdeck::codec::remove_tag_from_comment;
use tagdeck::codec::split_comment;

#[test]
fn round_trip_preserves_comment_and_tags() {
    let tags: Vec<String> = vec!["house".to_string(), "Peak-Time".to_string(), "house".to_string()];
    let encoded = encode_comment("late night set", &tags);
    assert_eq!(encoded, "late night set && house; Peak-Time; house");
    let (user, decoded) = decode_comment(&encoded);
    assert_eq!(user, "late night set");
    assert_eq!(decoded, tags);
}

#[test]
fn empty_user_comment_keeps_leading_delimiter() {
    let tags: Vec<String> = vec!["club".to_string(), "warmup".to_string()];
    let encoded = encode_comment("", &tags);
    assert_eq!(encoded, " && club; warmup");
    let (user, decoded) = decode_comment(&encoded);
    assert_eq!(user, "");
    assert_eq!(decoded, tags);
}

#[test]
fn empty_tag_list_emits_comment_unchanged() {
    let tags: Vec<String> = Vec::new();
    let encoded = encode_comment("just a note", &tags);
    assert_eq!(encoded, "just a note");
}

#[test]
fn decode_without_delimiter_is_all_user_comment() {
    let (user, tags) = decode_comment("no tags here");
    assert_eq!(user, "no tags here");
    assert!(tags.is_empty());
}

#[test]
fn decode_splits_at_first_delimiter_only() {
    let (user, tags) = decode_comment("a && b && c; d");
    assert_eq!(user, "a");
    assert_eq!(tags, vec!["b && c".to_string(), "d".to_string()]);
}

#[test]
fn decode_trims_tags_and_drops_empty_ones() {
    let (user, tags) = decode_comment("x &&  house ; ;  peak-time  ;");
    assert_eq!(user, "x");
    assert_eq!(tags, vec!["house".to_string(), "peak-time".to_string()]);
}

#[test]
fn reencoding_a_decoded_field_is_stable() {
    // odd spacing and empty pieces normalize once, then stay fixed
    let c = "club banger &&  house ;; peak-time ";
    let (u1, t1) = decode_comment(c);
    let e1 = encode_comment(&u1, &t1);
    let (u2, t2) = decode_comment(&e1);
    assert_eq!(u1, u2);
    assert_eq!(t1, t2);
    let e2 = encode_comment(&u2, &t2);
    assert_eq!(e1, e2);
}

#[test]
fn tag_membership_is_case_insensitive() {
    let c = "set && House; peak-time";
    assert!(has_tag(c, "house"));
    assert!(has_tag(c, "HOUSE"));
    assert!(has_tag(c, "Peak-Time"));
    assert!(!has_tag(c, "techno"));
}

#[test]
fn removing_uppercase_removes_lowercase_entry() {
    let c = "x && house; techno";
    let r = remove_tag_from_comment(c, "HOUSE").expect("a match should be removed");
    assert_eq!(r, "x && techno");
}

#[test]
fn batch_remove_scenario_drops_matches_then_delimiter() {
    let c = "club banger && house; peak-time";
    let r1 = remove_tag_from_comment(c, "House").expect("case-insensitive match");
    assert_eq!(r1, "club banger && peak-time");
    let r2 = remove_tag_from_comment(&r1, "peak-time").expect("exact match");
    assert_eq!(r2, "club banger");
}

#[test]
fn add_tag_skips_case_insensitive_duplicates() {
    let c = "x && House";
    assert!(add_tag_to_comment(c, "house").is_none());
    let r = add_tag_to_comment(c, "techno").expect("new tag is added");
    assert_eq!(r, "x && House; techno");
}

#[test]
fn add_tag_to_untagged_comment_appends_delimiter() {
    let r = add_tag_to_comment("plain note", "house").expect("new tag");
    assert_eq!(r, "plain note && house");
}

#[test]
fn split_comment_separates_user_and_block() {
    let (user, block) = split_comment("a note && h; t");
    assert_eq!(user, "a note");
    assert_eq!(block, "h; t");
    let (user2, block2) = split_comment("bare");
    assert_eq!(user2, "bare");
    assert_eq!(block2, "");
}
