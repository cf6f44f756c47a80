//! The tag codec: one comment field multiplexes a free-text user comment
//! and a semicolon-separated tag list, separated by the fixed delimiter
//! `" && "`.
//!
//! Decoding splits at the first occurrence of the delimiter; without one the
//! whole field is the user comment. Each tag is trimmed of surrounding
//! whitespace and empty tags are dropped. Re-encoding emits the user comment
//! unchanged when the tag list is empty, and otherwise
//! `"{user} && {tag1}; {tag2}; ..."` — with a leading delimiter kept even
//! for an empty user comment, so a blank comment stays distinguishable from
//! a missing field. Tag membership is compared case-insensitively (ASCII).

use vstd::prelude::*;
use vstd::string::StrSliceExecFns;
use vstd::string::StringExecFns;

use crate::strutil::find_sub_from;
use crate::strutil::find_sub;
use crate::strutil::lemma_find_sub_from;
use crate::strutil::lemma_find_is;
use crate::strutil::lemma_find_none;
use crate::strutil::lemma_matches_shift;
use crate::strutil::matches_at;
use crate::strutil::trim;
use crate::strutil::trim_spec;
use crate::strutil::lower;
use crate::strutil::str_eq_ci;
use crate::strutil::is_space;
use crate::strutil::lemma_trim_prefix_spaces;
use crate::strutil::lemma_trim_no;
use crate::strutil::lemma_trim_idempotent;

verus! {

/// The delimiter between the user comment and the tag block.
pub open spec fn delim() -> Seq<char> {
    seq![' ', '&', '&', ' ']
}

/// The tag separator character.
pub open spec fn semi() -> Seq<char> {
    seq![';']
}

/// The separator written between tags when encoding.
pub open spec fn sep() -> Seq<char> {
    seq![';', ' ']
}

/// The delimiter as a string.
pub fn delim_str() -> (r: &'static str)
    ensures
        r@ == delim(),
{
    proof {
        reveal_strlit(" && ");
        assert(" && "@ =~= delim());
    }
    " && "
}

/// Position of the first delimiter occurrence, if any.
pub open spec fn split_index(s: Seq<char>) -> Option<nat> {
    find_sub_from(s, delim(), 0)
}

/// The user-comment half of an encoded field: everything left of the first
/// delimiter, or the whole field when there is none.
pub open spec fn user_part(s: Seq<char>) -> Seq<char> {
    match split_index(s) {
        Some(i) => s.subrange(0, i as int),
        None => s,
    }
}

/// The raw tag block: everything right of the first delimiter.
pub open spec fn tag_block(s: Seq<char>) -> Seq<char> {
    match split_index(s) {
        Some(i) => s.subrange(i + delim().len() as int, s.len() as int),
        None => Seq::empty(),
    }
}

/// The tag list read from a raw tag block: split at every `;`, trim each
/// piece, drop the pieces that are empty after trimming.
pub open spec fn parse_tags(s: Seq<char>) -> Seq<Seq<char>>
    decreases s.len(),
{
    match find_sub_from(s, semi(), 0) {
        Some(i) => if i < s.len() {
            let piece = trim_spec(s.subrange(0, i as int));
            let rest = parse_tags(s.subrange(i as int + 1, s.len() as int));
            if piece.len() > 0 {
                seq![piece] + rest
            } else {
                rest
            }
        } else {
            // a found index always lies within the string; never reached
            Seq::empty()
        },
        None => {
            let piece = trim_spec(s);
            if piece.len() > 0 {
                seq![piece]
            } else {
                Seq::empty()
            }
        },
    }
}

/// The tag list of an encoded comment field.
pub open spec fn decoded_tags(s: Seq<char>) -> Seq<Seq<char>> {
    parse_tags(tag_block(s))
}

/// Tags joined with `"; "`.
pub open spec fn join_tags(tags: Seq<Seq<char>>) -> Seq<char>
    decreases tags.len(),
{
    if tags.len() == 0 {
        Seq::empty()
    } else if tags.len() == 1 {
        tags[0]
    } else {
        tags[0] + sep() + join_tags(tags.drop_first())
    }
}

/// The encoded comment field for a user comment and a tag list.
pub open spec fn encode_spec(user: Seq<char>, tags: Seq<Seq<char>>) -> Seq<char> {
    if tags.len() == 0 {
        user
    } else {
        user + delim() + join_tags(tags)
    }
}

/// A tag list contains `t`, compared case-insensitively.
pub open spec fn has_tag_ci(tags: Seq<Seq<char>>, t: Seq<char>) -> bool {
    exists|i: int| 0 <= i < tags.len() && lower(tags[i]) == lower(t)
}

/// The tag list with every case-insensitive match of `t` removed.
pub open spec fn remove_tag_ci(tags: Seq<Seq<char>>, t: Seq<char>) -> Seq<Seq<char>>
    decreases tags.len(),
{
    if tags.len() == 0 {
        Seq::empty()
    } else {
        let rest = remove_tag_ci(tags.drop_first(), t);
        if lower(tags[0]) == lower(t) {
            rest
        } else {
            seq![tags[0]] + rest
        }
    }
}

/// Splits an encoded comment field into its user comment and raw tag block.
pub fn split_comment(c: &str) -> (r: (String, String))
    ensures
        r.0@ == user_part(c@),
        r.1@ == tag_block(c@),
{
    let n = c.unicode_len();
    let d = delim_str();
    match find_sub(c, d, 0) {
        Some(i) => {
            proof {
                lemma_find_sub_from(c@, delim(), 0);
                assert(matches_at(c@, delim(), i as int));
            }
            let user = String::from_str(c.substring_char(0, i));
            let block = String::from_str(c.substring_char(i + 4, n));
            (user, block)
        },
        None => {
            let user = String::from_str(c);
            let block = String::new();
            (user, block)
        },
    }
}

/// Reads the tag list out of a raw tag block.
pub fn parse_tag_list(block: &str) -> (r: Vec<String>)
    ensures
        r.deep_view() == parse_tags(block@),
{
    let n = block.unicode_len();
    let mut out: Vec<String> = Vec::new();
    let mut pos: usize = 0;
    let ghost whole = parse_tags(block@);
    proof {
        assert(block@.skip(0) =~= block@);
    }
    loop
        invariant_except_break
            n == block@.len(),
            pos <= n,
            whole == parse_tags(block@),
            whole == out.deep_view() + parse_tags(block@.skip(pos as int)),
        ensures
            out.deep_view() == whole,
        decreases n - pos,
    {
        let ghost suffix = block@.skip(pos as int);
        let next = find_sub(block, ";", pos);
        proof {
            reveal_strlit(";");
            assert(";"@ =~= semi());
        }
        match next {
            Some(k) => {
                proof {
                    lemma_find_sub_from(block@, semi(), pos as nat);
                    assert(matches_at(block@, semi(), k as int));
                    // the same occurrence, seen from the suffix
                    assert forall|j: int| 0 <= j < k - pos implies !matches_at(
                        suffix,
                        semi(),
                        j,
                    ) by {
                        lemma_matches_shift(block@, semi(), pos as int, j);
                    }
                    lemma_matches_shift(block@, semi(), pos as int, k - pos);
                    lemma_find_is(suffix, semi(), 0, k - pos);
                    assert(suffix.subrange(0, k - pos) =~= block@.subrange(
                        pos as int,
                        k as int,
                    ));
                    assert(suffix.subrange(k - pos + 1, suffix.len() as int) =~= block@.skip(
                        k + 1,
                    ));
                }
                let piece = trim(block.substring_char(pos, k));
                if piece.unicode_len() > 0 {
                    let ghost before = out.deep_view();
                    out.push(String::from_str(piece));
                    proof {
                        assert(out.deep_view() =~= before.push(piece@));
                        assert(before.push(piece@) =~= before + seq![piece@]);
                        assert(out.deep_view() + parse_tags(block@.skip(k + 1)) =~= before
                            + (seq![piece@] + parse_tags(block@.skip(k + 1))));
                    }
                } else {
                    proof {
                        assert(out.deep_view() + parse_tags(block@.skip(k + 1)) =~= out.deep_view()
                            + parse_tags(suffix.subrange(k - pos + 1, suffix.len() as int)));
                    }
                }
                pos = k + 1;
            },
            None => {
                proof {
                    lemma_find_sub_from(block@, semi(), pos as nat);
                    assert forall|j: int| 0 <= j implies !matches_at(suffix, semi(), j) by {
                        if j < suffix.len() {
                            lemma_matches_shift(block@, semi(), pos as int, j);
                        }
                    }
                    lemma_find_none(suffix, semi(), 0);
                    assert(suffix =~= block@.subrange(pos as int, n as int));
                }
                let piece = trim(block.substring_char(pos, n));
                if piece.unicode_len() > 0 {
                    let ghost before = out.deep_view();
                    out.push(String::from_str(piece));
                    proof {
                        assert(out.deep_view() =~= before.push(piece@));
                        assert(before.push(piece@) =~= before + seq![piece@]);
                    }
                } else {
                    proof {
                        assert(out.deep_view() + Seq::<Seq<char>>::empty() =~= out.deep_view());
                    }
                }
                break;
            },
        }
    }
    out
}

/// Decodes a comment field into its user comment and tag list.
pub fn decode_comment(c: &str) -> (r: (String, Vec<String>))
    ensures
        r.0@ == user_part(c@),
        r.1.deep_view() == decoded_tags(c@),
{
    let (user, block) = split_comment(c);
    let tags = parse_tag_list(block.as_str());
    (user, tags)
}

/// `join_tags` grows at the back one tag at a time.
proof fn lemma_join_push(tags: Seq<Seq<char>>, t: Seq<char>)
    ensures
        join_tags(tags.push(t)) == if tags.len() == 0 {
            t
        } else {
            join_tags(tags) + sep() + t
        },
    decreases tags.len(),
{
    let p = tags.push(t);
    if tags.len() == 0 {
        assert(p.len() == 1);
        assert(p[0] == t);
    } else if tags.len() == 1 {
        assert(p.drop_first() =~= seq![t]);
        assert(join_tags(p.drop_first()) == t);
        assert(p[0] == tags[0]);
    } else {
        lemma_join_push(tags.drop_first(), t);
        assert(p.drop_first() =~= tags.drop_first().push(t));
        assert(p[0] == tags[0]);
        assert(tags[0] + sep() + (join_tags(tags.drop_first()) + sep() + t) =~= (tags[0] + sep()
            + join_tags(tags.drop_first())) + sep() + t);
    }
}

/// Encodes a user comment and tag list into one comment field.
pub fn encode_comment(user: &str, tags: &Vec<String>) -> (r: String)
    ensures
        r@ == encode_spec(user@, tags.deep_view()),
{
    let mut out = String::from_str(user);
    if tags.len() == 0 {
        proof {
            assert(tags.deep_view() =~= Seq::<Seq<char>>::empty());
        }
        return out;
    }
    out.append(delim_str());
    let mut i: usize = 0;
    while i < tags.len()
        invariant
            0 < tags.len(),
            i <= tags.len(),
            out@ == user@ + delim() + join_tags(tags.deep_view().subrange(0, i as int)),
        decreases tags.len() - i,
    {
        if i > 0 {
            proof {
                reveal_strlit("; ");
                assert("; "@ =~= sep());
            }
            out.append("; ");
        }
        out.append(tags[i].as_str());
        proof {
            let prefix = tags.deep_view().subrange(0, i as int);
            lemma_join_push(prefix, tags.deep_view()[i as int]);
            assert(prefix.push(tags.deep_view()[i as int]) =~= tags.deep_view().subrange(
                0,
                i + 1,
            ));
            if i == 0 {
                assert(join_tags(Seq::<Seq<char>>::empty()) =~= Seq::<char>::empty());
            }
            assert(out@ =~= user@ + delim() + join_tags(tags.deep_view().subrange(0, i + 1)));
        }
        i = i + 1;
    }
    proof {
        assert(tags.deep_view().subrange(0, tags.deep_view().len() as int) =~= tags.deep_view());
    }
    out
}

/// Is `t` in the tag list, compared case-insensitively?
pub fn has_tag_in_list(tags: &Vec<String>, t: &str) -> (r: bool)
    ensures
        r == has_tag_ci(tags.deep_view(), t@),
{
    let mut i: usize = 0;
    while i < tags.len()
        invariant
            i <= tags.len(),
            forall|j: int| 0 <= j < i ==> lower(tags.deep_view()[j]) != lower(t@),
        decreases tags.len() - i,
    {
        if str_eq_ci(tags[i].as_str(), t) {
            proof {
                assert(tags.deep_view()[i as int] == tags@[i as int]@);
            }
            return true;
        }
        i = i + 1;
    }
    false
}

/// The tag list with every case-insensitive match of `t` removed.
pub fn remove_tag_from_list(tags: &Vec<String>, t: &str) -> (r: Vec<String>)
    ensures
        r.deep_view() == remove_tag_ci(tags.deep_view(), t@),
{
    let mut out: Vec<String> = Vec::new();
    let mut i: usize = 0;
    let ghost whole = remove_tag_ci(tags.deep_view(), t@);
    proof {
        assert(tags.deep_view().skip(0) =~= tags.deep_view());
    }
    while i < tags.len()
        invariant
            i <= tags.len(),
            whole == remove_tag_ci(tags.deep_view(), t@),
            whole == out.deep_view() + remove_tag_ci(tags.deep_view().skip(i as int), t@),
        decreases tags.len() - i,
    {
        let ghost suffix = tags.deep_view().skip(i as int);
        proof {
            assert(suffix[0] == tags.deep_view()[i as int]);
            assert(suffix.drop_first() =~= tags.deep_view().skip(i + 1));
        }
        if !str_eq_ci(tags[i].as_str(), t) {
            let ghost before = out.deep_view();
            out.push(tags[i].clone());
            proof {
                assert(out.deep_view() =~= before.push(tags.deep_view()[i as int]));
                assert(before.push(tags.deep_view()[i as int]) =~= before + seq![
                    tags.deep_view()[i as int],
                ]);
                assert(out.deep_view() + remove_tag_ci(tags.deep_view().skip(i + 1), t@) =~= before
                    + (seq![tags.deep_view()[i as int]] + remove_tag_ci(
                    tags.deep_view().skip(i + 1),
                    t@,
                )));
            }
        }
        i = i + 1;
    }
    proof {
        assert(tags.deep_view().skip(tags.deep_view().len() as int) =~= Seq::<Seq<char>>::empty());
        assert(out.deep_view() + Seq::<Seq<char>>::empty() =~= out.deep_view());
    }
    out
}

/// A tag that round-trips: non-empty, already trimmed, and free of the
/// tag separator.
pub open spec fn tag_ok(t: Seq<char>) -> bool {
    t.len() > 0 && trim_spec(t) == t && forall|j: int| 0 <= j < t.len() ==> t[j] != ';'
}

/// A user comment that re-encoding will not misparse: the delimiter occurs
/// nowhere in it, not even as a run completed by the delimiter that the
/// encoder itself appends.
pub open spec fn user_ok(u: Seq<char>) -> bool {
    forall|i: int| 0 <= i < u.len() ==> !matches_at(u + delim(), delim(), i)
}

/// A character sequence with no occurrence of `;` has no `semi()` match.
proof fn lemma_no_semi_chars(s: Seq<char>)
    requires
        forall|j: int| 0 <= j < s.len() ==> s[j] != ';',
    ensures
        forall|j: int| 0 <= j ==> !matches_at(s, semi(), j),
{
    assert forall|j: int| 0 <= j implies !matches_at(s, semi(), j) by {
        if matches_at(s, semi(), j) {
            assert(s.subrange(j, j + semi().len() as int)[0] == s[j]);
        }
    }
}

/// Parsing undoes joining: a joined list of well-formed tags, possibly
/// preceded by spaces, parses back to exactly that list.
proof fn lemma_parse_join(sp: Seq<char>, tags: Seq<Seq<char>>)
    requires
        forall|j: int| 0 <= j < sp.len() ==> is_space(sp[j]),
        tags.len() > 0,
        forall|k: int| 0 <= k < tags.len() ==> tag_ok(#[trigger] tags[k]),
    ensures
        parse_tags(sp + join_tags(tags)) == tags,
    decreases tags.len(),
{
    let s = sp + join_tags(tags);
    let t = tags[0];
    assert(tag_ok(t));
    if tags.len() == 1 {
        assert(join_tags(tags) == t);
        assert forall|j: int| 0 <= j < s.len() implies s[j] != ';' by {
            if j < sp.len() {
                assert(is_space(sp[j]));
            } else {
                assert(s[j] == t[j - sp.len()]);
            }
        }
        lemma_no_semi_chars(s);
        lemma_find_none(s, semi(), 0);
        lemma_trim_prefix_spaces(sp, t);
        assert(parse_tags(s) == seq![t]);
        assert(seq![t] =~= tags);
    } else {
        let rest = tags.drop_first();
        assert(join_tags(tags) == t + sep() + join_tags(rest));
        let k = sp.len() + t.len();
        assert(s =~= (sp + t) + sep() + join_tags(rest));
        let s2 = (sp + t) + sep() + join_tags(rest);
        assert(s2[k as int] == ';');
        assert(s.subrange(k as int, k as int + 1) =~= seq![s[k as int]]);
        assert(matches_at(s, semi(), k as int));
        assert forall|j: int| 0 <= j < k implies !matches_at(s, semi(), j) by {
            if j < sp.len() {
                assert(is_space(sp[j]));
                assert(s[j] == sp[j]);
            } else {
                assert(s[j] == t[j - sp.len()]);
            }
            assert(s[j] != ';');
            if matches_at(s, semi(), j) {
                assert(s.subrange(j, j + semi().len() as int)[0] == s[j]);
            }
        }
        lemma_find_is(s, semi(), 0, k as int);
        assert(s.subrange(0, k as int) =~= sp + t);
        lemma_trim_prefix_spaces(sp, t);
        assert(s.subrange(k as int + 1, s.len() as int) =~= seq![' '] + join_tags(rest));
        lemma_parse_join(seq![' '], rest);
        assert(parse_tags(s) == seq![t] + rest);
        assert(seq![t] + rest =~= tags);
    }
}

/// Tag Codec round-trip: encoding any delimiter-safe user comment with any
/// list of well-formed tags and decoding again yields the same user comment
/// and the same tag list — casing, order and duplicates preserved.
pub proof fn lemma_round_trip(user: Seq<char>, tags: Seq<Seq<char>>)
    requires
        user_ok(user),
        forall|k: int| 0 <= k < tags.len() ==> tag_ok(#[trigger] tags[k]),
    ensures
        user_part(encode_spec(user, tags)) == user,
        decoded_tags(encode_spec(user, tags)) == tags,
{
    if tags.len() == 0 {
        assert forall|i: int| 0 <= i implies !matches_at(user, delim(), i) by {
            if matches_at(user, delim(), i) {
                assert((user + delim()).subrange(i, i + delim().len() as int) =~= user.subrange(
                    i,
                    i + delim().len() as int,
                ));
                assert(matches_at(user + delim(), delim(), i));
            }
        }
        lemma_find_none(user, delim(), 0);
        assert(user_part(user) == user);
        lemma_find_none(Seq::<char>::empty(), semi(), 0);
        assert(parse_tags(Seq::<char>::empty()) =~= Seq::<Seq<char>>::empty());
        assert(tags =~= Seq::<Seq<char>>::empty());
    } else {
        let e = user + delim() + join_tags(tags);
        let u = user.len() as int;
        assert(e =~= (user + delim()) + join_tags(tags));
        assert(e.subrange(u, u + 4) =~= delim());
        assert(matches_at(e, delim(), u));
        assert forall|i: int| 0 <= i < u implies !matches_at(e, delim(), i) by {
            if matches_at(e, delim(), i) {
                assert(e.subrange(i, i + delim().len() as int) =~= (user + delim()).subrange(
                    i,
                    i + delim().len() as int,
                ));
                assert(matches_at(user + delim(), delim(), i));
            }
        }
        lemma_find_is(e, delim(), 0, u);
        assert(e.subrange(0, u) =~= user);
        assert(e.subrange(u + delim().len() as int, e.len() as int) =~= join_tags(tags));
        lemma_parse_join(Seq::<char>::empty(), tags);
        assert(Seq::<char>::empty() + join_tags(tags) =~= join_tags(tags));
    }
}

/// Every tag produced by parsing is well-formed (non-empty, trimmed,
/// separator-free).
pub proof fn lemma_parse_tags_ok(s: Seq<char>)
    ensures
        forall|k: int| 0 <= k < parse_tags(s).len() ==> tag_ok(#[trigger] parse_tags(s)[k]),
    decreases s.len(),
{
    lemma_find_sub_from(s, semi(), 0);
    match find_sub_from(s, semi(), 0) {
        Some(i) => {
            assert(matches_at(s, semi(), i as int));
            let piece0 = s.subrange(0, i as int);
            assert forall|j: int| 0 <= j < piece0.len() implies piece0[j] != ';' by {
                assert(!matches_at(s, semi(), j));
                assert(s.subrange(j, j + 1) =~= seq![s[j]]);
                assert(piece0[j] == s[j]);
            }
            lemma_trim_no(piece0, ';');
            lemma_trim_idempotent(piece0);
            let piece = trim_spec(piece0);
            let tail = s.subrange(i as int + 1, s.len() as int);
            lemma_parse_tags_ok(tail);
            let rest = parse_tags(tail);
            if piece.len() > 0 {
                assert(parse_tags(s) == seq![piece] + rest);
                assert forall|k: int| 0 <= k < parse_tags(s).len() implies tag_ok(
                    #[trigger] parse_tags(s)[k],
                ) by {
                    if k == 0 {
                        assert(parse_tags(s)[0] == piece);
                    } else {
                        assert(parse_tags(s)[k] == rest[k - 1]);
                    }
                }
            }
        },
        None => {
            assert forall|j: int| 0 <= j < s.len() implies s[j] != ';' by {
                assert(!matches_at(s, semi(), j));
                assert(s.subrange(j, j + 1) =~= seq![s[j]]);
            }
            lemma_trim_no(s, ';');
            lemma_trim_idempotent(s);
            let piece = trim_spec(s);
            if piece.len() > 0 {
                assert(parse_tags(s) == seq![piece]);
            }
        },
    }
}

/// Idempotence: re-encoding a decoded comment field and decoding again is a
/// no-op relative to that re-encode — for every input, conforming or not.
pub proof fn lemma_reencode_idempotent(c: Seq<char>)
    ensures
        user_part(encode_spec(user_part(c), decoded_tags(c))) == user_part(c),
        decoded_tags(encode_spec(user_part(c), decoded_tags(c))) == decoded_tags(c),
{
    let u = user_part(c);
    let t = decoded_tags(c);
    lemma_find_sub_from(c, delim(), 0);
    if t.len() == 0 {
        match split_index(c) {
            Some(k) => {
                assert(u == c.subrange(0, k as int));
                assert forall|i: int| 0 <= i implies !matches_at(u, delim(), i) by {
                    if matches_at(u, delim(), i) {
                        assert(u.subrange(i, i + delim().len() as int) =~= c.subrange(
                            i,
                            i + delim().len() as int,
                        ));
                        assert(matches_at(c, delim(), i));
                    }
                }
                lemma_find_none(u, delim(), 0);
            },
            None => {},
        }
        assert(user_part(u) == u);
        lemma_find_none(Seq::<char>::empty(), semi(), 0);
        assert(parse_tags(Seq::<char>::empty()) =~= Seq::<Seq<char>>::empty());
        assert(t =~= Seq::<Seq<char>>::empty());
    } else {
        match split_index(c) {
            Some(k) => {
                assert(matches_at(c, delim(), k as int));
                let e = u + delim() + join_tags(t);
                assert(u + delim() =~= c.subrange(0, k + delim().len() as int));
                assert(e =~= (u + delim()) + join_tags(t));
                assert forall|i: int| 0 <= i < u.len() implies !matches_at(e, delim(), i) by {
                    if matches_at(e, delim(), i) {
                        assert(e.subrange(i, i + delim().len() as int) =~= c.subrange(
                            i,
                            i + delim().len() as int,
                        ));
                        assert(matches_at(c, delim(), i));
                    }
                }
                assert(e.subrange(u.len() as int, u.len() as int + 4) =~= delim());
                assert(matches_at(e, delim(), u.len() as int));
                lemma_find_is(e, delim(), 0, u.len() as int);
                assert(e.subrange(0, u.len() as int) =~= u);
                assert(e.subrange(u.len() + delim().len() as int, e.len() as int) =~= join_tags(
                    t,
                ));
                lemma_parse_tags_ok(tag_block(c));
                lemma_parse_join(Seq::<char>::empty(), t);
                assert(Seq::<char>::empty() + join_tags(t) =~= join_tags(t));
            },
            None => {
                // without a delimiter the tag block is empty, so no tags
                lemma_find_none(Seq::<char>::empty(), semi(), 0);
                assert(parse_tags(Seq::<char>::empty()) =~= Seq::<Seq<char>>::empty());
                assert(false);
            },
        }
    }
}

/// Membership unfolds over the head of the list.
proof fn lemma_has_tag_unfold(tags: Seq<Seq<char>>, u: Seq<char>)
    requires
        tags.len() > 0,
    ensures
        has_tag_ci(tags, u) == (lower(tags[0]) == lower(u) || has_tag_ci(tags.drop_first(), u)),
{
    if has_tag_ci(tags, u) {
        let i = choose|i: int| 0 <= i < tags.len() && lower(tags[i]) == lower(u);
        if i > 0 {
            assert(tags.drop_first()[i - 1] == tags[i]);
            assert(has_tag_ci(tags.drop_first(), u));
        }
    }
    if has_tag_ci(tags.drop_first(), u) {
        let i = choose|i: int|
            0 <= i < tags.drop_first().len() && lower(tags.drop_first()[i]) == lower(u);
        assert(tags[i + 1] == tags.drop_first()[i]);
        assert(has_tag_ci(tags, u));
    }
    if tags.len() > 0 && lower(tags[0]) == lower(u) {
        assert(has_tag_ci(tags, u));
    }
}

/// Case-insensitive tag membership: two spellings that fold to the same
/// letters are interchangeable in membership tests.
pub proof fn lemma_has_tag_case_insensitive(tags: Seq<Seq<char>>, a: Seq<char>, b: Seq<char>)
    requires
        lower(a) == lower(b),
    ensures
        has_tag_ci(tags, a) == has_tag_ci(tags, b),
{
}

/// Removal is case-insensitive and complete: after removing `t`, a tag is a
/// member exactly if it was a member before and does not fold to `t`.
pub proof fn lemma_remove_tag_ci(tags: Seq<Seq<char>>, t: Seq<char>, u: Seq<char>)
    ensures
        has_tag_ci(remove_tag_ci(tags, t), u) == (has_tag_ci(tags, u) && lower(u) != lower(t)),
    decreases tags.len(),
{
    if tags.len() == 0 {
        assert(!has_tag_ci(remove_tag_ci(tags, t), u));
        assert(!has_tag_ci(tags, u));
    } else {
        lemma_remove_tag_ci(tags.drop_first(), t, u);
        lemma_has_tag_unfold(tags, u);
        let rest = remove_tag_ci(tags.drop_first(), t);
        if lower(tags[0]) == lower(t) {
            assert(remove_tag_ci(tags, t) == rest);
        } else {
            assert(remove_tag_ci(tags, t) == seq![tags[0]] + rest);
            assert((seq![tags[0]] + rest).len() > 0);
            assert((seq![tags[0]] + rest)[0] == tags[0]);
            assert((seq![tags[0]] + rest).drop_first() =~= rest);
            lemma_has_tag_unfold(seq![tags[0]] + rest, u);
        }
    }
}

/// Removing never lengthens the list, and shortens it exactly when a
/// case-insensitive match was present.
pub proof fn lemma_remove_tag_len(tags: Seq<Seq<char>>, t: Seq<char>)
    ensures
        remove_tag_ci(tags, t).len() <= tags.len(),
        (remove_tag_ci(tags, t).len() == tags.len()) == !has_tag_ci(tags, t),
    decreases tags.len(),
{
    if tags.len() > 0 {
        lemma_remove_tag_len(tags.drop_first(), t);
        lemma_has_tag_unfold(tags, t);
    }
}

/// Is `tag` among the comment field's tags, compared case-insensitively?
pub fn has_tag(comment: &str, tag: &str) -> (r: bool)
    ensures
        r == has_tag_ci(decoded_tags(comment@), tag@),
{
    let (_user, tags) = decode_comment(comment);
    has_tag_in_list(&tags, tag)
}

/// Adds `tag` to a comment field unless a case-insensitive match is already
/// present; returns the re-encoded field, or `None` when nothing changed.
pub fn add_tag_to_comment(comment: &str, tag: &str) -> (r: Option<String>)
    ensures
        (r is Some) == !has_tag_ci(decoded_tags(comment@), tag@),
        r matches Some(s) ==> s@ == encode_spec(
            user_part(comment@),
            decoded_tags(comment@).push(tag@),
        ),
{
    let (user, mut tags) = decode_comment(comment);
    if has_tag_in_list(&tags, tag) {
        return None;
    }
    let ghost before = tags.deep_view();
    tags.push(String::from_str(tag));
    proof {
        assert(tags.deep_view() =~= before.push(tag@));
    }
    Some(encode_comment(user.as_str(), &tags))
}

/// Removes every case-insensitive match of `tag` from a comment field;
/// returns the re-encoded field, or `None` when nothing changed.
pub fn remove_tag_from_comment(comment: &str, tag: &str) -> (r: Option<String>)
    ensures
        (r is Some) == has_tag_ci(decoded_tags(comment@), tag@),
        r matches Some(s) ==> s@ == encode_spec(
            user_part(comment@),
            remove_tag_ci(decoded_tags(comment@), tag@),
        ),
{
    let (user, tags) = decode_comment(comment);
    let kept = remove_tag_from_list(&tags, tag);
    proof {
        lemma_remove_tag_len(tags.deep_view(), tag@);
    }
    if kept.len() == tags.len() {
        None
    } else {
        Some(encode_comment(user.as_str(), &kept))
    }
}

} // verus!
