//! Character-level string utilities: substring search, trimming,
//! ASCII case folding, and lexicographic comparison.
//!
//! Everything here is defined over `Seq<char>` views, so the rest of the
//! crate can state exact contracts about text.

use vstd::prelude::*;
use vstd::string::StrSliceExecFns;
use vstd::string::StringExecFns;

verus! {

/// ASCII lower-casing of a single character; every other character,
/// including non-ASCII letters, is unchanged. The fold is deliberately
/// ASCII so that contracts about case-insensitive comparison are proved
/// from this definition rather than trusted.
pub open spec fn lower_char(c: char) -> char {
    if 'A' <= c && c <= 'Z' {
        ((c as u8) + 32) as char
    } else {
        c
    }
}

/// ASCII lower-casing of a character sequence.
pub open spec fn lower(s: Seq<char>) -> Seq<char> {
    s.map_values(|c: char| lower_char(c))
}

/// Executable ASCII lower-casing of one character.
pub fn lower_char_exec(c: char) -> (r: char)
    ensures
        r == lower_char(c),
{
    if 'A' <= c && c <= 'Z' {
        ((c as u8) + 32) as char
    } else {
        c
    }
}

/// Two strings are equal exactly when their character views are equal.
pub fn str_eq(a: &str, b: &str) -> (r: bool)
    ensures
        r == (a@ == b@),
{
    let n = a.unicode_len();
    let m = b.unicode_len();
    if n != m {
        return false;
    }
    let mut i: usize = 0;
    while i < n
        invariant
            n == a@.len(),
            n == b@.len(),
            i <= n,
            forall|j: int| 0 <= j < i ==> a@[j] == b@[j],
        decreases n - i,
    {
        if a.get_char(i) != b.get_char(i) {
            return false;
        }
        i = i + 1;
    }
    proof {
        assert(a@ =~= b@);
    }
    true
}

/// Case-insensitive (ASCII) equality of two strings.
pub fn str_eq_ci(a: &str, b: &str) -> (r: bool)
    ensures
        r == (lower(a@) == lower(b@)),
{
    let n = a.unicode_len();
    let m = b.unicode_len();
    if n != m {
        proof {
            assert(lower(a@).len() != lower(b@).len());
        }
        return false;
    }
    let mut i: usize = 0;
    while i < n
        invariant
            n == a@.len(),
            n == b@.len(),
            i <= n,
            forall|j: int| 0 <= j < i ==> lower(a@)[j] == lower(b@)[j],
        decreases n - i,
    {
        if lower_char_exec(a.get_char(i)) != lower_char_exec(b.get_char(i)) {
            proof {
                assert(lower(a@)[i as int] == lower_char(a@[i as int]));
                assert(lower(b@)[i as int] == lower_char(b@[i as int]));
            }
            return false;
        }
        i = i + 1;
    }
    proof {
        assert(lower(a@) =~= lower(b@));
    }
    true
}

/// The pattern `pat` occurs in `s` starting at position `i`.
pub open spec fn matches_at(s: Seq<char>, pat: Seq<char>, i: int) -> bool {
    0 <= i && i + pat.len() <= s.len() && s.subrange(i, i + pat.len() as int) == pat
}

/// Position of the first occurrence of `pat` in `s` at or after `i`.
pub open spec fn find_sub_from(s: Seq<char>, pat: Seq<char>, i: nat) -> Option<nat>
    decreases s.len() + 1 - i,
{
    if i + pat.len() <= s.len() {
        if s.subrange(i as int, i + pat.len() as int) == pat {
            Some(i)
        } else {
            find_sub_from(s, pat, (i + 1) as nat)
        }
    } else {
        None
    }
}

/// `find_sub_from` returns the least occurrence at or after `i`, or reports
/// that there is none.
pub proof fn lemma_find_sub_from(s: Seq<char>, pat: Seq<char>, i: nat)
    ensures
        match find_sub_from(s, pat, i) {
            Some(k) => i <= k && matches_at(s, pat, k as int) && forall|j: int|
                i <= j < k ==> !matches_at(s, pat, j),
            None => forall|j: int| i <= j ==> !matches_at(s, pat, j),
        },
    decreases s.len() + 1 - i,
{
    if i + pat.len() <= s.len() {
        if s.subrange(i as int, i + pat.len() as int) == pat {
        } else {
            lemma_find_sub_from(s, pat, (i + 1) as nat);
        }
    }
}

/// Does `pat` occur at position `i` of `s`?
pub fn match_at(s: &str, pat: &str, i: usize) -> (r: bool)
    requires
        i + pat@.len() <= s@.len(),
    ensures
        r == matches_at(s@, pat@, i as int),
{
    let n = s.unicode_len();
    let m = pat.unicode_len();
    let mut k: usize = 0;
    while k < m
        invariant
            n == s@.len(),
            m == pat@.len(),
            i + m <= n,
            k <= m,
            forall|j: int| 0 <= j < k ==> s@[i + j] == pat@[j],
        decreases m - k,
    {
        if s.get_char(i + k) != pat.get_char(k) {
            proof {
                assert(s@.subrange(i as int, i + pat@.len())[k as int] == s@[i + k]);
            }
            return false;
        }
        k = k + 1;
    }
    proof {
        assert(s@.subrange(i as int, i + pat@.len()) =~= pat@);
    }
    true
}

/// First occurrence of `pat` in `s` at or after `from`.
pub fn find_sub(s: &str, pat: &str, from: usize) -> (r: Option<usize>)
    ensures
        match r {
            Some(k) => find_sub_from(s@, pat@, from as nat) == Some(k as nat),
            None => find_sub_from(s@, pat@, from as nat) is None,
        },
{
    let n = s.unicode_len();
    let m = pat.unicode_len();
    if from > n || m > n - from {
        proof {
            lemma_find_sub_from(s@, pat@, from as nat);
            match find_sub_from(s@, pat@, from as nat) {
                Some(k) => {
                    assert(matches_at(s@, pat@, k as int));
                },
                None => {},
            }
        }
        return None;
    }
    if m == 0 {
        proof {
            assert(s@.subrange(from as int, from as int) =~= pat@);
        }
        return Some(from);
    }
    let mut i: usize = from;
    while i <= n - m
        invariant
            n == s@.len(),
            m == pat@.len(),
            0 < m <= n,
            from <= i <= n - m + 1,
            forall|j: int| from <= j < i ==> !matches_at(s@, pat@, j),
        decreases n - i,
    {
        if match_at(s, pat, i) {
            proof {
                lemma_find_sub_from(s@, pat@, from as nat);
                match find_sub_from(s@, pat@, from as nat) {
                    Some(k) => {
                        if k < i as nat {
                            assert(matches_at(s@, pat@, k as int));
                        }
                        if k > i as nat {
                            assert(!matches_at(s@, pat@, i as int));
                        }
                    },
                    None => {
                        assert(!matches_at(s@, pat@, i as int));
                    },
                }
            }
            return Some(i);
        }
        i = i + 1;
    }
    proof {
        lemma_find_sub_from(s@, pat@, from as nat);
        match find_sub_from(s@, pat@, from as nat) {
            Some(k) => {
                assert(matches_at(s@, pat@, k as int));
            },
            None => {},
        }
    }
    None
}

/// A first occurrence determines the result of `find_sub_from`.
pub proof fn lemma_find_is(s: Seq<char>, pat: Seq<char>, from: nat, k: int)
    requires
        from <= k,
        matches_at(s, pat, k),
        forall|j: int| from <= j < k ==> !matches_at(s, pat, j),
    ensures
        find_sub_from(s, pat, from) == Some(k as nat),
{
    lemma_find_sub_from(s, pat, from);
    match find_sub_from(s, pat, from) {
        Some(r) => {
            if r < k {
                assert(matches_at(s, pat, r as int));
            }
            if r > k {
                assert(!matches_at(s, pat, k));
            }
        },
        None => {
            assert(!matches_at(s, pat, k));
        },
    }
}

/// No occurrence at or after `from` means `find_sub_from` finds none.
pub proof fn lemma_find_none(s: Seq<char>, pat: Seq<char>, from: nat)
    requires
        forall|j: int| from <= j ==> !matches_at(s, pat, j),
    ensures
        find_sub_from(s, pat, from) is None,
{
    lemma_find_sub_from(s, pat, from);
    match find_sub_from(s, pat, from) {
        Some(r) => {
            assert(!matches_at(s, pat, r as int));
        },
        None => {},
    }
}

/// Occurrences in a suffix correspond to shifted occurrences in the whole.
pub proof fn lemma_matches_shift(s: Seq<char>, pat: Seq<char>, k: int, j: int)
    requires
        0 <= k <= s.len(),
        0 <= j,
    ensures
        matches_at(s.skip(k), pat, j) == matches_at(s, pat, k + j),
{
    if j + pat.len() <= s.len() - k {
        assert(s.skip(k).subrange(j, j + pat.len() as int) =~= s.subrange(
            k + j,
            k + j + pat.len() as int,
        ));
    }
}

/// Does `pat` occur anywhere in `s`?
pub open spec fn contains_sub(s: Seq<char>, pat: Seq<char>) -> bool {
    exists|i: int| matches_at(s, pat, i)
}

pub fn contains(s: &str, pat: &str) -> (r: bool)
    ensures
        r == contains_sub(s@, pat@),
{
    let r = find_sub(s, pat, 0);
    proof {
        lemma_find_sub_from(s@, pat@, 0);
    }
    match r {
        Some(_) => true,
        None => false,
    }
}

pub open spec fn starts_with(s: Seq<char>, pat: Seq<char>) -> bool {
    matches_at(s, pat, 0)
}

pub fn starts_with_exec(s: &str, pat: &str) -> (r: bool)
    ensures
        r == starts_with(s@, pat@),
{
    if pat.unicode_len() > s.unicode_len() {
        return false;
    }
    match_at(s, pat, 0)
}

pub open spec fn ends_with(s: Seq<char>, pat: Seq<char>) -> bool {
    matches_at(s, pat, s.len() - pat.len())
}

pub fn ends_with_exec(s: &str, pat: &str) -> (r: bool)
    ensures
        r == ends_with(s@, pat@),
{
    let n = s.unicode_len();
    let m = pat.unicode_len();
    if m > n {
        return false;
    }
    match_at(s, pat, n - m)
}

/// All occurrences of `pat` in `s` replaced by `rep`, scanning left to
/// right and never rescanning replaced text. An empty pattern leaves the
/// input unchanged.
pub open spec fn replace_all_spec(s: Seq<char>, pat: Seq<char>, rep: Seq<char>) -> Seq<char>
    decreases s.len(),
{
    if pat.len() == 0 || s.len() < pat.len() {
        s
    } else if s.subrange(0, pat.len() as int) == pat {
        rep + replace_all_spec(s.skip(pat.len() as int), pat, rep)
    } else {
        seq![s[0]] + replace_all_spec(s.skip(1), pat, rep)
    }
}

pub fn replace_all(s: &str, pat: &str, rep: &str) -> (r: String)
    ensures
        r@ == replace_all_spec(s@, pat@, rep@),
{
    let n = s.unicode_len();
    let m = pat.unicode_len();
    let mut out = String::new();
    if m == 0 {
        out.append(s);
        return out;
    }
    let mut i: usize = 0;
    proof {
        assert(s@.skip(0) =~= s@);
    }
    while i < n
        invariant
            n == s@.len(),
            m == pat@.len(),
            m > 0,
            i <= n,
            replace_all_spec(s@, pat@, rep@) == out@ + replace_all_spec(
                s@.skip(i as int),
                pat@,
                rep@,
            ),
        decreases n - i,
    {
        let ghost suffix = s@.skip(i as int);
        if m <= n - i && match_at(s, pat, i) {
            proof {
                assert(suffix.subrange(0, pat@.len() as int) =~= s@.subrange(
                    i as int,
                    i + pat@.len(),
                ));
                assert(suffix.skip(pat@.len() as int) =~= s@.skip(i + m));
            }
            out.append(rep);
            i = i + m;
        } else {
            proof {
                if i + m <= n {
                    assert(suffix.subrange(0, pat@.len() as int) =~= s@.subrange(
                        i as int,
                        i + pat@.len(),
                    ));
                } else {
                    assert(suffix.len() < pat@.len());
                }
                assert(suffix.skip(1) =~= s@.skip(i + 1));
                assert(seq![suffix[0]] =~= s@.subrange(i as int, i + 1));
            }
            let piece = s.substring_char(i, i + 1);
            out.append(piece);
            i = i + 1;
        }
    }
    proof {
        assert(s@.skip(n as int) =~= Seq::<char>::empty());
        assert(out@ + Seq::<char>::empty() =~= out@);
    }
    out
}

/// Characters stripped by trimming.
pub open spec fn is_space(c: char) -> bool {
    c == ' ' || c == '\t' || c == '\n' || c == '\r'
}

pub open spec fn trim_start_spec(s: Seq<char>) -> Seq<char>
    decreases s.len(),
{
    if s.len() > 0 && is_space(s[0]) {
        trim_start_spec(s.drop_first())
    } else {
        s
    }
}

pub open spec fn trim_end_spec(s: Seq<char>) -> Seq<char>
    decreases s.len(),
{
    if s.len() > 0 && is_space(s.last()) {
        trim_end_spec(s.drop_last())
    } else {
        s
    }
}

/// `s` with leading and trailing whitespace removed.
pub open spec fn trim_spec(s: Seq<char>) -> Seq<char> {
    trim_end_spec(trim_start_spec(s))
}

/// If the first `a` characters are spaces and position `a` (if any) is not,
/// then trimming the front yields the suffix starting at `a`.
pub proof fn lemma_trim_start_at(s: Seq<char>, a: int)
    requires
        0 <= a <= s.len(),
        forall|j: int| 0 <= j < a ==> is_space(s[j]),
        a < s.len() ==> !is_space(s[a]),
    ensures
        trim_start_spec(s) == s.subrange(a, s.len() as int),
    decreases a,
{
    if a == 0 {
        if s.len() > 0 && is_space(s[0]) {
            assert(false);
        }
        assert(s.subrange(0, s.len() as int) =~= s);
    } else {
        let t = s.drop_first();
        lemma_trim_start_at(t, a - 1);
        assert(t.subrange(a - 1, t.len() as int) =~= s.subrange(a, s.len() as int));
    }
}

/// If the characters after position `b` are spaces and position `b - 1`
/// (if any) is not, then trimming the back yields the prefix up to `b`.
pub proof fn lemma_trim_end_at(s: Seq<char>, b: int)
    requires
        0 <= b <= s.len(),
        forall|j: int| b <= j < s.len() ==> is_space(s[j]),
        b > 0 ==> !is_space(s[b - 1]),
    ensures
        trim_end_spec(s) == s.subrange(0, b),
    decreases s.len(),
{
    if b == s.len() {
        if s.len() > 0 && is_space(s.last()) {
            assert(false);
        }
        assert(s.subrange(0, s.len() as int) =~= s);
    } else {
        let t = s.drop_last();
        lemma_trim_end_at(t, b);
        assert(t.subrange(0, b) =~= s.subrange(0, b));
    }
}

/// `s` trimmed of surrounding whitespace.
pub fn trim(s: &str) -> (r: &str)
    ensures
        r@ == trim_spec(s@),
{
    let n = s.unicode_len();
    let mut a: usize = 0;
    while a < n && is_space_exec(s.get_char(a))
        invariant
            n == s@.len(),
            a <= n,
            forall|j: int| 0 <= j < a ==> is_space(s@[j]),
        decreases n - a,
    {
        a = a + 1;
    }
    proof {
        lemma_trim_start_at(s@, a as int);
    }
    let ghost mid = s@.subrange(a as int, s@.len() as int);
    let mut b: usize = n;
    while b > a && is_space_exec(s.get_char(b - 1))
        invariant
            n == s@.len(),
            a <= b <= n,
            forall|j: int| 0 <= j < a ==> is_space(s@[j]),
            forall|j: int| b <= j < n ==> is_space(s@[j]),
        decreases b,
    {
        b = b - 1;
    }
    proof {
        assert(forall|j: int| b - a <= j < mid.len() ==> is_space(#[trigger] mid[j]));
        lemma_trim_end_at(mid, b - a);
        assert(mid.subrange(0, b - a) =~= s@.subrange(a as int, b as int));
    }
    s.substring_char(a, b)
}

pub fn is_space_exec(c: char) -> (r: bool)
    ensures
        r == is_space(c),
{
    c == ' ' || c == '\t' || c == '\n' || c == '\r'
}

/// Trimming ignores an all-space prefix.
pub proof fn lemma_trim_start_prefix_spaces(sp: Seq<char>, t: Seq<char>)
    requires
        forall|j: int| 0 <= j < sp.len() ==> is_space(sp[j]),
    ensures
        trim_start_spec(sp + t) == trim_start_spec(t),
    decreases sp.len(),
{
    if sp.len() == 0 {
        assert(sp + t =~= t);
    } else {
        assert((sp + t).drop_first() =~= sp.drop_first() + t);
        lemma_trim_start_prefix_spaces(sp.drop_first(), t);
    }
}

pub proof fn lemma_trim_prefix_spaces(sp: Seq<char>, t: Seq<char>)
    requires
        forall|j: int| 0 <= j < sp.len() ==> is_space(sp[j]),
    ensures
        trim_spec(sp + t) == trim_spec(t),
{
    lemma_trim_start_prefix_spaces(sp, t);
}

/// A nonempty trimmed-front sequence starts with a non-space.
pub proof fn lemma_trim_start_first(s: Seq<char>)
    ensures
        trim_start_spec(s).len() > 0 ==> !is_space(trim_start_spec(s)[0]),
    decreases s.len(),
{
    if s.len() > 0 && is_space(s[0]) {
        lemma_trim_start_first(s.drop_first());
    }
}

/// A nonempty trimmed-back sequence ends with a non-space.
pub proof fn lemma_trim_end_last(s: Seq<char>)
    ensures
        trim_end_spec(s).len() > 0 ==> !is_space(trim_end_spec(s).last()),
    decreases s.len(),
{
    if s.len() > 0 && is_space(s.last()) {
        lemma_trim_end_last(s.drop_last());
    }
}

/// Trimming the back keeps the first character.
pub proof fn lemma_trim_end_first(s: Seq<char>)
    ensures
        trim_end_spec(s).len() > 0 ==> trim_end_spec(s)[0] == s[0],
    decreases s.len(),
{
    if s.len() > 0 && is_space(s.last()) {
        lemma_trim_end_first(s.drop_last());
    }
}

/// Trimming is idempotent.
pub proof fn lemma_trim_idempotent(s: Seq<char>)
    ensures
        trim_spec(trim_spec(s)) == trim_spec(s),
{
    let a = trim_start_spec(s);
    let b = trim_end_spec(a);
    lemma_trim_start_first(s);
    lemma_trim_end_first(a);
    lemma_trim_end_last(a);
    if b.len() > 0 {
        assert(b[0] == a[0]);
        assert(!is_space(b[0]));
    }
    assert(trim_start_spec(b) == b);
    assert(trim_end_spec(b) == b);
}

/// Trimming the front introduces no new characters.
pub proof fn lemma_trim_start_no(s: Seq<char>, c: char)
    requires
        forall|j: int| 0 <= j < s.len() ==> s[j] != c,
    ensures
        forall|j: int| 0 <= j < trim_start_spec(s).len() ==> trim_start_spec(s)[j] != c,
    decreases s.len(),
{
    if s.len() > 0 && is_space(s[0]) {
        assert(forall|j: int| 0 <= j < s.drop_first().len() ==> s.drop_first()[j] != c);
        lemma_trim_start_no(s.drop_first(), c);
        assert forall|j: int| 0 <= j < trim_start_spec(s).len() implies trim_start_spec(s)[j]
            != c by {
            assert(trim_start_spec(s) == trim_start_spec(s.drop_first()));
        }
    } else {
        assert forall|j: int| 0 <= j < trim_start_spec(s).len() implies trim_start_spec(s)[j]
            != c by {
            assert(trim_start_spec(s) == s);
        }
    }
}

/// Trimming the back introduces no new characters.
pub proof fn lemma_trim_end_no(s: Seq<char>, c: char)
    requires
        forall|j: int| 0 <= j < s.len() ==> s[j] != c,
    ensures
        forall|j: int| 0 <= j < trim_end_spec(s).len() ==> trim_end_spec(s)[j] != c,
    decreases s.len(),
{
    if s.len() > 0 && is_space(s.last()) {
        assert(forall|j: int| 0 <= j < s.drop_last().len() ==> s.drop_last()[j] != c);
        lemma_trim_end_no(s.drop_last(), c);
        assert forall|j: int| 0 <= j < trim_end_spec(s).len() implies trim_end_spec(s)[j]
            != c by {
            assert(trim_end_spec(s) == trim_end_spec(s.drop_last()));
        }
    } else {
        assert forall|j: int| 0 <= j < trim_end_spec(s).len() implies trim_end_spec(s)[j]
            != c by {
            assert(trim_end_spec(s) == s);
        }
    }
}

/// Trimming introduces no new characters.
pub proof fn lemma_trim_no(s: Seq<char>, c: char)
    requires
        forall|j: int| 0 <= j < s.len() ==> s[j] != c,
    ensures
        forall|j: int| 0 <= j < trim_spec(s).len() ==> trim_spec(s)[j] != c,
{
    lemma_trim_start_no(s, c);
    lemma_trim_end_no(trim_start_spec(s), c);
}

/// Lexicographic order on character sequences, comparing code points.
pub open spec fn lex_le(a: Seq<char>, b: Seq<char>) -> bool
    decreases a.len(),
{
    if a.len() == 0 {
        true
    } else if b.len() == 0 {
        false
    } else if a[0] != b[0] {
        (a[0] as u32) < (b[0] as u32)
    } else {
        lex_le(a.drop_first(), b.drop_first())
    }
}

/// `lex_le` is total.
pub proof fn lemma_lex_total(a: Seq<char>, b: Seq<char>)
    ensures
        lex_le(a, b) || lex_le(b, a),
    decreases a.len(),
{
    if a.len() > 0 && b.len() > 0 {
        if a[0] == b[0] {
            lemma_lex_total(a.drop_first(), b.drop_first());
        } else {
            vstd::utf8::char_u32_cast(a[0], a[0] as u32);
            vstd::utf8::char_u32_cast(b[0], b[0] as u32);
            assert(a[0] as u32 != b[0] as u32);
        }
    }
}

/// `lex_le` is transitive.
pub proof fn lemma_lex_trans(a: Seq<char>, b: Seq<char>, c: Seq<char>)
    requires
        lex_le(a, b),
        lex_le(b, c),
    ensures
        lex_le(a, c),
    decreases a.len(),
{
    if a.len() > 0 && b.len() > 0 && c.len() > 0 && a[0] == b[0] && b[0] == c[0] {
        lemma_lex_trans(a.drop_first(), b.drop_first(), c.drop_first());
    }
}

/// Compares two strings lexicographically by code point.
pub fn lex_le_exec(a: &str, b: &str) -> (r: bool)
    ensures
        r == lex_le(a@, b@),
{
    let n = a.unicode_len();
    let m = b.unicode_len();
    let mut i: usize = 0;
    proof {
        assert(a@.skip(0) =~= a@);
        assert(b@.skip(0) =~= b@);
    }
    loop
        invariant
            n == a@.len(),
            m == b@.len(),
            i <= n,
            i <= m,
            forall|j: int| 0 <= j < i ==> a@[j] == b@[j],
            lex_le(a@, b@) == lex_le(a@.skip(i as int), b@.skip(i as int)),
        decreases n - i,
    {
        if i >= n {
            return true;
        }
        if i >= m {
            return false;
        }
        let ca = a.get_char(i);
        let cb = b.get_char(i);
        if ca != cb {
            return (ca as u32) < (cb as u32);
        }
        proof {
            assert(a@.skip(i as int).drop_first() =~= a@.skip(i + 1));
            assert(b@.skip(i as int).drop_first() =~= b@.skip(i + 1));
        }
        i = i + 1;
    }
}

/// Are two string lists equal element by element?
pub fn str_vec_eq(a: &Vec<String>, b: &Vec<String>) -> (r: bool)
    ensures
        r == (a.deep_view() == b.deep_view()),
{
    if a.len() != b.len() {
        proof {
            assert(a.deep_view().len() == a@.len());
            assert(b.deep_view().len() == b@.len());
        }
        return false;
    }
    let mut i: usize = 0;
    while i < a.len()
        invariant
            a@.len() == b@.len(),
            i <= a@.len(),
            forall|j: int| 0 <= j < i ==> a.deep_view()[j] == b.deep_view()[j],
        decreases a@.len() - i,
    {
        proof {
            assert(a.deep_view()[i as int] == a@[i as int]@);
            assert(b.deep_view()[i as int] == b@[i as int]@);
        }
        if !str_eq(a[i].as_str(), b[i].as_str()) {
            return false;
        }
        i = i + 1;
    }
    proof {
        assert(a.deep_view() =~= b.deep_view());
    }
    true
}

/// Compares two strings lexicographically by code point after ASCII case
/// folding.
pub fn lex_le_ci(a: &str, b: &str) -> (r: bool)
    ensures
        r == lex_le(lower(a@), lower(b@)),
{
    let n = a.unicode_len();
    let m = b.unicode_len();
    let mut i: usize = 0;
    proof {
        assert(lower(a@).skip(0) =~= lower(a@));
        assert(lower(b@).skip(0) =~= lower(b@));
    }
    loop
        invariant
            n == a@.len(),
            m == b@.len(),
            lower(a@).len() == n,
            lower(b@).len() == m,
            i <= n,
            i <= m,
            lex_le(lower(a@), lower(b@)) == lex_le(
                lower(a@).skip(i as int),
                lower(b@).skip(i as int),
            ),
        decreases n - i,
    {
        if i >= n {
            return true;
        }
        if i >= m {
            return false;
        }
        let ca = lower_char_exec(a.get_char(i));
        let cb = lower_char_exec(b.get_char(i));
        proof {
            assert(lower(a@)[i as int] == lower_char(a@[i as int]));
            assert(lower(b@)[i as int] == lower_char(b@[i as int]));
            assert(lower(a@).skip(i as int)[0] == lower(a@)[i as int]);
            assert(lower(b@).skip(i as int)[0] == lower(b@)[i as int]);
        }
        if ca != cb {
            return (ca as u32) < (cb as u32);
        }
        proof {
            assert(lower(a@).skip(i as int).drop_first() =~= lower(a@).skip(i + 1));
            assert(lower(b@).skip(i as int).drop_first() =~= lower(b@).skip(i + 1));
        }
        i = i + 1;
    }
}

/// The decimal rendering of a nonnegative number.
pub open spec fn dec_str(n: int) -> Seq<char>
    decreases n,
{
    if n < 10 {
        seq![digit_char(n)]
    } else {
        dec_str(n / 10).push(digit_char(n % 10))
    }
}

pub open spec fn digit_char(d: int) -> char {
    ((d + 48) as u8) as char
}

/// Renders a number in decimal.
pub fn u64_to_string(x: u64) -> (r: String)
    ensures
        r@ == dec_str(x as int),
{
    let mut digits: Vec<u8> = Vec::new();
    let mut v = x;
    loop
        invariant_except_break
            dec_str(x as int) == if digits@.len() == 0 {
                dec_str(v as int)
            } else {
                dec_str(v as int) + digits_seq(digits@)
            },
            forall|j: int| 0 <= j < digits@.len() ==> digits@[j] < 10,
        ensures
            dec_str(x as int) == digits_seq(digits@),
            forall|j: int| 0 <= j < digits@.len() ==> digits@[j] < 10,
        decreases v,
    {
        let d = (v % 10) as u8;
        let next = v / 10;
        proof {
            lemma_digits_seq_insert0(digits@, d);
            if next == 0 {
                assert(dec_str(v as int) == seq![digit_char(d as int)]);
                if digits@.len() > 0 {
                    assert(seq![digit_char(d as int)] + digits_seq(digits@) =~= digits_seq(
                        digits@.insert(0, d),
                    ));
                } else {
                    assert(seq![digit_char(d as int)] =~= digits_seq(digits@.insert(0, d)));
                }
            } else {
                assert(dec_str(v as int) == dec_str(next as int).push(digit_char(d as int)));
                assert(dec_str(next as int).push(digit_char(d as int)) =~= dec_str(next as int)
                    + seq![digit_char(d as int)]);
                if digits@.len() > 0 {
                    assert(dec_str(next as int) + seq![digit_char(d as int)] + digits_seq(digits@)
                        =~= dec_str(next as int) + digits_seq(digits@.insert(0, d)));
                } else {
                    assert(dec_str(next as int) + seq![digit_char(d as int)] =~= dec_str(
                        next as int,
                    ) + digits_seq(digits@.insert(0, d)));
                }
            }
        }
        digits.insert(0, d);
        v = next;
        if v == 0 {
            break;
        }
    }
    let mut out = String::new();
    let mut i: usize = 0;
    proof {
        assert(digits_seq(digits@.subrange(0, 0)) =~= Seq::<char>::empty());
    }
    while i < digits.len()
        invariant
            forall|j: int| 0 <= j < digits@.len() ==> digits@[j] < 10,
            i <= digits@.len(),
            out@ == digits_seq(digits@.subrange(0, i as int)),
        decreases digits@.len() - i,
    {
        let d = digits[i];
        let piece: &str = digit_str(d);
        out.append(piece);
        proof {
            lemma_digits_seq_snoc(digits@.subrange(0, i as int), digits@[i as int]);
            assert(digits@.subrange(0, i as int).push(digits@[i as int]) =~= digits@.subrange(
                0,
                i + 1,
            ));
        }
        i = i + 1;
    }
    proof {
        assert(digits@.subrange(0, digits@.len() as int) =~= digits@);
    }
    out
}

/// The characters of a digit buffer.
pub open spec fn digits_seq(ds: Seq<u8>) -> Seq<char>
    decreases ds.len(),
{
    if ds.len() == 0 {
        Seq::empty()
    } else {
        seq![digit_char(ds[0] as int)] + digits_seq(ds.drop_first())
    }
}

proof fn lemma_digits_seq_insert0(ds: Seq<u8>, d: u8)
    ensures
        digits_seq(ds.insert(0, d)) == seq![digit_char(d as int)] + digits_seq(ds),
{
    let t = ds.insert(0, d);
    assert(t.drop_first() =~= ds);
    assert(digits_seq(t) =~= seq![digit_char(d as int)] + digits_seq(ds));
}

proof fn lemma_digits_seq_snoc(ds: Seq<u8>, d: u8)
    ensures
        digits_seq(ds.push(d)) == digits_seq(ds).push(digit_char(d as int)),
    decreases ds.len(),
{
    if ds.len() == 0 {
        assert(ds.push(d)[0] == d);
        assert(ds.push(d).drop_first() =~= Seq::<u8>::empty());
        assert(digits_seq(ds.push(d)) == seq![digit_char(d as int)] + digits_seq(
            Seq::<u8>::empty(),
        ));
        assert(seq![digit_char(d as int)] + Seq::<char>::empty() =~= digits_seq(ds).push(
            digit_char(d as int),
        ));
    } else {
        lemma_digits_seq_snoc(ds.drop_first(), d);
        assert(ds.push(d)[0] == ds[0]);
        assert(ds.push(d).drop_first() =~= ds.drop_first().push(d));
        assert(digits_seq(ds.push(d)) == seq![digit_char(ds[0] as int)] + digits_seq(
            ds.drop_first().push(d),
        ));
        assert(digits_seq(ds) == seq![digit_char(ds[0] as int)] + digits_seq(ds.drop_first()));
        assert(seq![digit_char(ds[0] as int)] + digits_seq(ds.drop_first()).push(
            digit_char(d as int),
        ) =~= (seq![digit_char(ds[0] as int)] + digits_seq(ds.drop_first())).push(
            digit_char(d as int),
        ));
    }
}

/// The single-character string for a decimal digit.
pub fn digit_str(d: u8) -> (r: &'static str)
    requires
        d < 10,
    ensures
        r@ == seq![digit_char(d as int)],
{
    proof {
        reveal_strlit("0");
        reveal_strlit("1");
        reveal_strlit("2");
        reveal_strlit("3");
        reveal_strlit("4");
        reveal_strlit("5");
        reveal_strlit("6");
        reveal_strlit("7");
        reveal_strlit("8");
        reveal_strlit("9");
    }
    match d {
        0 => "0",
        1 => "1",
        2 => "2",
        3 => "3",
        4 => "4",
        5 => "5",
        6 => "6",
        7 => "7",
        8 => "8",
        _ => "9",
    }
}

} // verus!
