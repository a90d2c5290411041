//! Comparing release versions (`major.minor.patch`, with `-beta.N` pre-releases).
use vstd::prelude::*;
use crate::text::{chars_of, contains_seq, contains_str, str_eq};

verus! {

/// The pieces of `s` between the separators, in order (`str::split`).
pub struct SplitState {
    pub pieces: Seq<Seq<char>>,
    pub cur: Seq<char>,
}

pub open spec fn split_run(s: Seq<char>, sep: char) -> SplitState
    decreases s.len(),
{
    if s.len() == 0 {
        SplitState { pieces: seq![], cur: seq![] }
    } else {
        let st = split_run(s.drop_last(), sep);
        if s.last() == sep {
            SplitState { pieces: st.pieces.push(st.cur), cur: seq![] }
        } else {
            SplitState { pieces: st.pieces, cur: st.cur.push(s.last()) }
        }
    }
}

pub open spec fn split_on(s: Seq<char>, sep: char) -> Seq<Seq<char>> {
    let st = split_run(s, sep);
    st.pieces.push(st.cur)
}

pub open spec fn is_digit(c: char) -> bool {
    '0' <= c && c <= '9'
}

pub open spec fn digits_value(s: Seq<char>) -> nat
    decreases s.len(),
{
    if s.len() == 0 {
        0
    } else {
        digits_value(s.drop_last()) * 10 + ((s.last() as nat) - ('0' as nat)) as nat
    }
}

/// What `str::parse::<u32>` reads: an optional `+`, then at least one digit, fitting in `u32`.
pub open spec fn parse_u32(s: Seq<char>) -> Option<nat> {
    let body = unsigned_body(s);
    if body.len() > 0 && all_digits(body) && digits_value(body) <= u32::MAX {
        Some(digits_value(body))
    } else {
        None
    }
}

/// The text after an optional leading `+`.
pub open spec fn unsigned_body(s: Seq<char>) -> Seq<char> {
    if s.len() > 0 && s[0] == '+' {
        s.skip(1)
    } else {
        s
    }
}

pub open spec fn all_digits(b: Seq<char>) -> bool {
    forall|i: int| 0 <= i < b.len() ==> is_digit(#[trigger] b[i])
}

pub open spec fn parsed_or_zero(s: Seq<char>) -> nat {
    match parse_u32(s) {
        Some(n) => n,
        None => 0,
    }
}

pub open spec fn part(parts: Seq<Seq<char>>, i: int) -> nat {
    if i < parts.len() {
        parsed_or_zero(parts[i])
    } else {
        0
    }
}

/// The release number of a version: `major * 1000000 + minor * 1000 + patch`, read from the
/// part before the first `-` (unreadable parts count as 0).
pub open spec fn spec_version_score(v: Seq<char>) -> nat {
    let parts = split_on(split_on(v, '-')[0], '.');
    part(parts, 0) * 1000000 + part(parts, 1) * 1000 + part(parts, 2)
}

/// A beta's number (after the last `.`); a release ranks above every beta.
pub open spec fn spec_beta_rank(v: Seq<char>) -> nat {
    if contains_seq(v, "-beta"@) {
        parsed_or_zero(split_on(v, '.').last())
    } else {
        999
    }
}

/// Whether `latest` is a newer version than `local`.
pub open spec fn spec_is_newer(latest: Seq<char>, local: Seq<char>) -> bool {
    if latest == local {
        false
    } else {
        let (a, b) = (spec_version_score(latest), spec_version_score(local));
        a > b || (a == b && spec_beta_rank(latest) > spec_beta_rank(local))
    }
}

fn split_chars(s: &Vec<char>, sep: char) -> (r: Vec<Vec<char>>)
    ensures
        r@.map_values(|p: Vec<char>| p@) =~= split_on(s@, sep),
{
    let mut pieces: Vec<Vec<char>> = Vec::new();
    let mut cur: Vec<char> = Vec::new();
    let mut i: usize = 0;
    while i < s.len()
        invariant
            i <= s@.len(),
            pieces@.map_values(|p: Vec<char>| p@) =~= split_run(s@.take(i as int), sep).pieces,
            cur@ == split_run(s@.take(i as int), sep).cur,
        decreases s.len() - i,
    {
        assert(s@.take(i + 1).drop_last() =~= s@.take(i as int));
        if s[i] == sep {
            let ghost before = pieces@;
            pieces.push(cur);
            cur = Vec::new();
            assert(pieces@.map_values(|p: Vec<char>| p@) =~= before.map_values(|p: Vec<char>| p@).push(
                split_run(s@.take(i as int), sep).cur,
            ));
        } else {
            cur.push(s[i]);
        }
        i = i + 1;
    }
    assert(s@.take(s@.len() as int) =~= s@);
    let ghost before = pieces@;
    let ghost last = cur@;
    pieces.push(cur);
    assert(pieces@.map_values(|p: Vec<char>| p@) =~= before.map_values(|p: Vec<char>| p@).push(last));
    pieces
}

/// `str::parse::<u32>`, with 0 for what it refuses.
fn parse_or_zero(s: &Vec<char>) -> (r: u32)
    ensures
        r == parsed_or_zero(s@),
{
    let start: usize = if s.len() > 0 && s[0] == '+' { 1 } else { 0 };
    let ghost body = unsigned_body(s@);
    if start >= s.len() {
        assert(body.len() == 0);
        return 0;
    }
    let mut value: u64 = 0;
    let mut i: usize = start;
    assert(body =~= s@.subrange(start as int, s@.len() as int));
    while i < s.len()
        invariant
            start <= i <= s@.len(),
            body == unsigned_body(s@),
            body =~= s@.subrange(start as int, s@.len() as int),
            forall|j: int| 0 <= j < i - start ==> is_digit(#[trigger] body[j]),
            value == digits_value(body.take(i - start)),
            value <= u32::MAX,
        decreases s.len() - i,
    {
        let c = s[i];
        assert(body[i - start] == s@[i as int]);
        if !('0' <= c && c <= '9') {
            assert(!is_digit(body[i - start]));
            assert(!all_digits(body));
            return 0;
        }
        let d = (c as u32 - '0' as u32) as u64;
        assert(body.take(i + 1 - start).drop_last() =~= body.take(i - start));
        let next = value * 10 + d;
        assert(body.take(i + 1 - start).last() == c);
        assert(digits_value(body.take(i + 1 - start)) == next);
        if next > 0xffff_ffff {
            proof {
                if all_digits(body) {
                    lemma_digits_monotone(body, i + 1 - start);
                }
            }
            return 0;
        }
        value = next;
        i = i + 1;
    }
    assert(body.take(i - start) =~= body);
    value as u32
}

proof fn lemma_digits_monotone(s: Seq<char>, k: int)
    requires
        0 <= k <= s.len(),
        forall|j: int| 0 <= j < s.len() ==> is_digit(#[trigger] s[j]),
    ensures
        digits_value(s.take(k)) <= digits_value(s),
    decreases s.len() - k,
{
    if k < s.len() {
        lemma_digits_monotone(s, k + 1);
        assert(s.take(k + 1).drop_last() =~= s.take(k));
    } else {
        assert(s.take(k) =~= s);
    }
}

fn part_exec(parts: &Vec<Vec<char>>, i: usize) -> (r: u64)
    ensures
        r == part(parts@.map_values(|p: Vec<char>| p@), i as int),
{
    if i < parts.len() {
        parse_or_zero(&parts[i]) as u64
    } else {
        0
    }
}

/// The release number of a version (see [`spec_version_score`]).
pub fn version_score(v: &str) -> (r: u64)
    ensures
        r == spec_version_score(v@),
{
    let cs = chars_of(v);
    let dash = split_chars(&cs, '-');
    assert(dash@.map_values(|p: Vec<char>| p@).len() > 0);
    assert(dash@[0]@ == split_on(v@, '-')[0]);
    let parts = split_chars(&dash[0], '.');
    let a = part_exec(&parts, 0);
    let b = part_exec(&parts, 1);
    let c = part_exec(&parts, 2);
    a * 1000000 + b * 1000 + c
}

fn beta_rank(v: &str) -> (r: u64)
    ensures
        r == spec_beta_rank(v@),
{
    if contains_str(v, "-beta") {
        let cs = chars_of(v);
        let pieces = split_chars(&cs, '.');
        assert(pieces@.map_values(|p: Vec<char>| p@).len() > 0);
        assert(pieces@[pieces@.len() - 1]@ == split_on(v@, '.').last());
        parse_or_zero(&pieces[pieces.len() - 1]) as u64
    } else {
        999
    }
}

/// Whether `latest` is newer than `local`: a higher release number, or the same one with a
/// higher beta rank (a release outranks its betas). The release numbers must fit in `u32`.
pub fn is_newer(latest: &str, local: &str) -> (r: bool)
    requires
        spec_version_score(latest@) <= u32::MAX,
        spec_version_score(local@) <= u32::MAX,
    ensures
        r == spec_is_newer(latest@, local@),
{
    if str_eq(latest, local) {
        return false;
    }
    let a = version_score(latest);
    let b = version_score(local);
    if a > b {
        return true;
    }
    if a < b {
        return false;
    }
    beta_rank(latest) > beta_rank(local)
}

/// No version is newer than itself, and of two versions at most one is newer than the other.
pub proof fn lemma_newer_is_strict(a: Seq<char>, b: Seq<char>)
    ensures
        !spec_is_newer(a, a),
        spec_is_newer(a, b) ==> !spec_is_newer(b, a),
{
}

/// A release is newer than every beta of the same version.
pub proof fn lemma_release_beats_beta(release: Seq<char>, beta: Seq<char>)
    requires
        spec_version_score(release) == spec_version_score(beta),
        !contains_seq(release, "-beta"@),
        contains_seq(beta, "-beta"@),
        parsed_or_zero(split_on(beta, '.').last()) < 999,
    ensures
        spec_is_newer(release, beta),
{
}

/// The `dist-tags.latest` string of an npm registry reply, as serde_json reads it; none when
/// the reply is not JSON or holds no such string.
pub uninterp spec fn npm_latest_tag(body: Seq<char>) -> Option<Seq<char>>;

/// The latest version that an npm registry reply names (serde_json's `from_str` into a
/// `Value`, then `["dist-tags"]["latest"]` as a string). The contract only names the result.
#[verifier::external_body]
fn latest_tag(body: &str) -> (r: Option<String>)
    ensures
        match r {
            Some(v) => npm_latest_tag(body@) == Some(v@),
            None => npm_latest_tag(body@) is None,
        },
{
    let json = serde_json::from_str::<serde_json::Value>(body).ok()?;
    json["dist-tags"]["latest"].as_str().map(|v| v.to_string())
}

/// What to tell the user after asking the registry for the latest version.
#[derive(Debug, Clone, PartialEq, Eq)]
pub enum UpdateNotice {
    /// A newer version is published.
    Available(String),
    /// The installed version is the latest one.
    Latest,
    /// Nothing: no version in the reply, or the published one is not newer.
    Nothing,
    /// The two versions cannot be compared: a release number does not fit in 32 bits.
    Incomparable,
}

/// The notice for a registry reply `body` when `local` is installed: the latest version
/// when it is newer, `Latest` when it is the installed one, and `Incomparable` when a
/// release number is too large to compare.
pub fn update_notice(body: &str, local: &str) -> (r: UpdateNotice)
    ensures
        match npm_latest_tag(body@) {
            None => r == UpdateNotice::Nothing,
            Some(t) => if t == local@ {
                r == UpdateNotice::Latest
            } else if spec_version_score(t) > u32::MAX || spec_version_score(local@) > u32::MAX {
                r == UpdateNotice::Incomparable
            } else if spec_is_newer(t, local@) {
                r matches UpdateNotice::Available(v) && v@ == t
            } else {
                r == UpdateNotice::Nothing
            },
        },
{
    match latest_tag(body) {
        None => UpdateNotice::Nothing,
        Some(t) => {
            if str_eq(t.as_str(), local) {
                UpdateNotice::Latest
            } else if version_score(t.as_str()) > 0xffff_ffff || version_score(local) > 0xffff_ffff {
                UpdateNotice::Incomparable
            } else if is_newer(t.as_str(), local) {
                UpdateNotice::Available(t)
            } else {
                UpdateNotice::Nothing
            }
        },
    }
}

} // verus!
