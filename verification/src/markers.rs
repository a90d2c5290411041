//! Removal of the in-band markers that the shell hook prints into the terminal stream.
//!
//! The hook emits `\x1eHINTSHELL_PROMPT\x1f` when a prompt is ready,
//! `\x1eHINTSHELL_CWD:<dir>\x1f` after the directory changes and
//! `\x1eHINTSHELL_STARTUP_PHASE:<name>\x1f` while the rc file runs.  A marker may be split
//! over several reads, so the filters keep a pending tail between calls.
use vstd::prelude::*;
use vstd::utf8::{decode_utf8, valid_utf8};
use crate::text::{find_from, lemma_find_from, occurs_at};

verus! {

/// The length of the longest suffix of `s`, at most `l` long, that is a prefix of `m`.
pub open spec fn prefix_tail(s: Seq<u8>, m: Seq<u8>, l: int) -> int
    decreases l,
{
    if l <= 0 {
        0
    } else if s.skip(s.len() - l) == m.take(l) {
        l
    } else {
        prefix_tail(s, m, l - 1)
    }
}

pub open spec fn min(a: int, b: int) -> int {
    if a < b {
        a
    } else {
        b
    }
}

/// How much of the tail of `s` (from position `p`) may still grow into `m` and is held back.
pub open spec fn held_back(s: Seq<u8>, m: Seq<u8>, p: int) -> int {
    prefix_tail(s, m, min(s.len() - p, m.len() - 1))
}

pub proof fn lemma_prefix_tail(s: Seq<u8>, m: Seq<u8>, l: int)
    requires
        l <= s.len(),
        l <= m.len(),
    ensures
        0 <= prefix_tail(s, m, l) <= l || l < 0,
    decreases l,
{
    if l > 0 {
        lemma_prefix_tail(s, m, l - 1);
    }
}

/// The result of removing every complete `m` from `s[p..]`: the bytes kept for output, the
/// number of markers removed, and the tail held back because it may begin a marker.
pub open spec fn strip_from(s: Seq<u8>, m: Seq<u8>, p: int) -> (Seq<u8>, nat, Seq<u8>)
    decreases s.len() - p,
{
    if p < 0 || p > s.len() || m.len() == 0 {
        (seq![], 0, seq![])
    } else {
        match find_from(s, m, p) {
            Some(k) => {
                proof {
                    lemma_find_from(s, m, p);
                }
                let rest = strip_from(s, m, k + m.len());
                (s.subrange(p, k) + rest.0, rest.1 + 1, rest.2)
            },
            None => {
                let keep = held_back(s, m, p);
                (s.subrange(p, s.len() - keep), 0, s.skip(s.len() - keep))
            },
        }
    }
}

/// The prompt marker printed by the shell hook.
pub open spec fn prompt_marker() -> Seq<u8> {
    seq![0x1eu8, 0x48, 0x49, 0x4e, 0x54, 0x53, 0x48, 0x45, 0x4c, 0x4c, 0x5f, 0x50, 0x52, 0x4f, 0x4d, 0x50, 0x54, 0x1f]
}

pub fn prompt_marker_bytes() -> (r: Vec<u8>)
    ensures
        r@ == prompt_marker(),
{
    let r: Vec<u8> = vec![0x1eu8, 0x48, 0x49, 0x4e, 0x54, 0x53, 0x48, 0x45, 0x4c, 0x4c, 0x5f, 0x50, 0x52, 0x4f, 0x4d, 0x50, 0x54, 0x1f];
    assert(r@ =~= prompt_marker());
    r
}

fn occurs_at_exec(s: &[u8], m: &[u8], k: usize) -> (r: bool)
    requires
        k + m@.len() <= s@.len(),
    ensures
        r == occurs_at(s@, m@, k as int),
{
    let n = s.len();
    let mut j: usize = 0;
    while j < m.len()
        invariant
            n == s@.len(),
            k + m@.len() <= s@.len(),
            j <= m@.len(),
            forall|t: int| 0 <= t < j ==> s@[k + t] == m@[t],
        decreases m@.len() - j,
    {
        if s[k + j] != m[j] {
            assert(s@.subrange(k as int, k + m@.len())[j as int] != m@[j as int]);
            return false;
        }
        j = j + 1;
    }
    assert(s@.subrange(k as int, k + m@.len()) =~= m@);
    true
}

/// The first position at or after `from` where `m` occurs in `s`.
fn find_from_exec(s: &[u8], m: &[u8], from: usize) -> (r: Option<usize>)
    requires
        m@.len() > 0,
        from <= s@.len(),
    ensures
        match r {
            Some(k) => find_from(s@, m@, from as int) == Some(k as int),
            None => find_from(s@, m@, from as int) is None,
        },
{
    let n = s.len();
    let mut k = from;
    while k <= n && m.len() <= n - k
        invariant
            n == s@.len(),
            from <= k,
            k <= s@.len() + 1,
            m@.len() > 0,
            find_from(s@, m@, from as int) == find_from(s@, m@, k as int),
        decreases s@.len() - k,
    {
        if occurs_at_exec(s, m, k) {
            return Some(k);
        }
        k = k + 1;
    }
    None
}

/// The position of the first occurrence of `needle` in `bytes`.
pub fn find_subsequence(bytes: &[u8], needle: &[u8]) -> (r: Option<usize>)
    requires
        needle@.len() > 0,
    ensures
        match r {
            Some(k) => find_from(bytes@, needle@, 0) == Some(k as int),
            None => find_from(bytes@, needle@, 0) is None,
        },
{
    find_from_exec(bytes, needle, 0)
}

fn held_back_exec(s: &[u8], m: &[u8], p: usize) -> (r: usize)
    requires
        p <= s@.len(),
        m@.len() > 0,
    ensures
        r == held_back(s@, m@, p as int),
        r <= s@.len() - p,
        r < m@.len(),
{
    let avail = s.len() - p;
    let mut l: usize = if avail < m.len() - 1 { avail } else { m.len() - 1 };
    let ghost top = l;
    while l > 0
        invariant
            l <= top,
            top == min(s@.len() - p, m@.len() - 1),
            prefix_tail(s@, m@, top as int) == prefix_tail(s@, m@, l as int),
        decreases l,
    {
        let n = s.len();
        let start = n - l;
        let mut j: usize = 0;
        let mut same = true;
        while j < l
            invariant
                n == s@.len(),
                start == s@.len() - l,
                l <= m@.len(),
                j <= l,
                same == (forall|t: int| 0 <= t < j ==> s@[start + t] == m@[t]),
            decreases l - j,
        {
            if s[start + j] != m[j] {
                same = false;
            }
            j = j + 1;
        }
        if same {
            assert(s@.skip(s@.len() - l) =~= m@.take(l as int));
            return l;
        } else {
            assert(s@.skip(s@.len() - l) != m@.take(l as int)) by {
                let t = choose|t: int| 0 <= t < l && s@[start + t] != m@[t];
                assert(s@.skip(s@.len() - l)[t] != m@.take(l as int)[t]);
            }
        }
        l = l - 1;
    }
    0
}

/// The length of the longest proper prefix of `marker` that ends `pending`.
pub fn marker_prefix_len(pending: &[u8], marker: &[u8]) -> (r: usize)
    ensures
        r == held_back(pending@, marker@, 0),
{
    if marker.len() == 0 {
        0
    } else {
        held_back_exec(pending, marker, 0)
    }
}

fn append_range(out: &mut Vec<u8>, s: &[u8], from: usize, to: usize)
    requires
        from <= to <= s@.len(),
    ensures
        final(out)@ == old(out)@ + s@.subrange(from as int, to as int),
{
    let mut i = from;
    while i < to
        invariant
            from <= i <= to <= s@.len(),
            out@ == old(out)@ + s@.subrange(from as int, i as int),
        decreases to - i,
    {
        out.push(s[i]);
        assert(s@.subrange(from as int, i + 1) =~= s@.subrange(from as int, i as int).push(
            s@[i as int],
        ));
        i = i + 1;
    }
}

fn concat_bytes(a: &Vec<u8>, b: &[u8]) -> (r: Vec<u8>)
    ensures
        r@ == a@ + b@,
{
    let mut r: Vec<u8> = Vec::new();
    append_range(&mut r, a.as_slice(), 0, a.len());
    append_range(&mut r, b, 0, b.len());
    assert(a@.subrange(0, a@.len() as int) =~= a@);
    assert(b@.subrange(0, b@.len() as int) =~= b@);
    r
}

/// Removes complete prompt markers from the stream; `pending` carries a tail that may be the
/// start of a marker into the next call.  Returns the bytes to show and how many prompt
/// markers were seen.
pub fn filter_prompt_markers(bytes: &[u8], pending: &mut Vec<u8>) -> (r: (Vec<u8>, usize))
    ensures
        ({
            let res = strip_from(old(pending)@ + bytes@, prompt_marker(), 0);
            &&& r.0@ == res.0
            &&& r.1 == res.1
            &&& final(pending)@ == res.2
        }),
{
    let marker = prompt_marker_bytes();
    let s = concat_bytes(pending, bytes);
    let n = s.len();
    let ghost whole = s@;
    let mut out: Vec<u8> = Vec::new();
    let mut count: usize = 0;
    let mut p: usize = 0;
    loop
        invariant
            s@ == whole,
            n == s@.len(),
            whole == old(pending)@ + bytes@,
            marker@ == prompt_marker(),
            p <= s@.len(),
            count <= p,
            ({
                let total = strip_from(whole, prompt_marker(), 0);
                let here = strip_from(whole, prompt_marker(), p as int);
                &&& total.0 == out@ + here.0
                &&& total.1 == count + here.1
                &&& total.2 == here.2
            }),
        decreases s@.len() - p,
    {
        match find_from_exec(s.as_slice(), marker.as_slice(), p) {
            Some(k) => {
                proof {
                    lemma_find_from(whole, prompt_marker(), p as int);
                }
                append_range(&mut out, s.as_slice(), p, k);
                count = count + 1;
                p = k + marker.len();
            },
            None => {
                let keep = held_back_exec(s.as_slice(), marker.as_slice(), p);
                append_range(&mut out, s.as_slice(), p, s.len() - keep);
                let mut rest: Vec<u8> = Vec::new();
                append_range(&mut rest, s.as_slice(), s.len() - keep, s.len());
                assert(rest@ =~= whole.skip(whole.len() - keep));
                *pending = rest;
                return (out, count);
            },
        }
    }
}

/// The result of removing every complete `start ... end` marker from `s[p..]`: the bytes kept
/// for output, the payloads between `start` and `end` in order, and the held-back tail (a
/// possible start of a marker, or an opened marker whose end has not arrived yet).
pub open spec fn strip_payload_from(s: Seq<u8>, start: Seq<u8>, end: Seq<u8>, p: int) -> (
    Seq<u8>,
    Seq<Seq<u8>>,
    Seq<u8>,
)
    decreases s.len() - p,
{
    if p < 0 || p > s.len() || start.len() == 0 || end.len() == 0 {
        (seq![], seq![], seq![])
    } else {
        match find_from(s, start, p) {
            None => {
                let keep = held_back(s, start, p);
                (s.subrange(p, s.len() - keep), seq![], s.skip(s.len() - keep))
            },
            Some(k) => {
                proof {
                    lemma_find_from(s, start, p);
                }
                match find_from(s, end, k + start.len()) {
                    None => (s.subrange(p, k), seq![], s.skip(k)),
                    Some(e) => {
                        proof {
                            lemma_find_from(s, end, k + start.len());
                        }
                        let rest = strip_payload_from(s, start, end, e + end.len());
                        (
                            s.subrange(p, k) + rest.0,
                            seq![s.subrange(k + start.len(), e)] + rest.1,
                            rest.2,
                        )
                    },
                }
            },
        }
    }
}

/// The texts of the payloads that are valid UTF-8, in order.
pub open spec fn utf8_texts(ps: Seq<Seq<u8>>) -> Seq<Seq<char>>
    decreases ps.len(),
{
    if ps.len() == 0 {
        seq![]
    } else if valid_utf8(ps.last()) {
        utf8_texts(ps.drop_last()).push(decode_utf8(ps.last()))
    } else {
        utf8_texts(ps.drop_last())
    }
}

/// Decodes UTF-8 text (`std::str::from_utf8`): `None` exactly when the bytes are not valid
/// UTF-8, else the characters they encode.
#[verifier::external_body]
fn utf8_text(bytes: &[u8]) -> (r: Option<String>)
    ensures
        r is Some <==> valid_utf8(bytes@),
        r matches Some(t) ==> t@ == decode_utf8(bytes@),
{
    std::str::from_utf8(bytes).ok().map(|text| text.to_string())
}

fn subrange_vec(s: &[u8], from: usize, to: usize) -> (r: Vec<u8>)
    requires
        from <= to <= s@.len(),
    ensures
        r@ == s@.subrange(from as int, to as int),
{
    let mut r: Vec<u8> = Vec::new();
    append_range(&mut r, s, from, to);
    r
}

/// Removes complete `start ... end` markers and returns the kept bytes together with the
/// texts of the valid UTF-8 payloads; `pending` carries the held-back tail.
fn filter_payload_markers(bytes: &[u8], pending: &mut Vec<u8>, start: &[u8], end: &[u8]) -> (r: (
    Vec<u8>,
    Vec<String>,
))
    requires
        start@.len() > 0,
        end@.len() > 0,
    ensures
        ({
            let res = strip_payload_from(old(pending)@ + bytes@, start@, end@, 0);
            &&& r.0@ == res.0
            &&& crate::text::views(r.1@) == utf8_texts(res.1)
            &&& final(pending)@ == res.2
        }),
{
    let s = concat_bytes(pending, bytes);
    let n = s.len();
    let ghost whole = s@;
    let ghost mut seen: Seq<Seq<u8>> = seq![];
    let mut out: Vec<u8> = Vec::new();
    let mut texts: Vec<String> = Vec::new();
    let mut p: usize = 0;
    loop
        invariant
            s@ == whole,
            n == s@.len(),
            whole == old(pending)@ + bytes@,
            start@.len() > 0,
            end@.len() > 0,
            p <= s@.len(),
            crate::text::views(texts@) == utf8_texts(seen),
            ({
                let total = strip_payload_from(whole, start@, end@, 0);
                let here = strip_payload_from(whole, start@, end@, p as int);
                &&& total.0 == out@ + here.0
                &&& total.1 == seen + here.1
                &&& total.2 == here.2
            }),
        decreases s@.len() - p,
    {
        match find_from_exec(s.as_slice(), start, p) {
            None => {
                let keep = held_back_exec(s.as_slice(), start, p);
                append_range(&mut out, s.as_slice(), p, n - keep);
                let rest = subrange_vec(s.as_slice(), n - keep, n);
                assert(rest@ =~= whole.skip(whole.len() - keep));
                assert(seen + seq![] =~= seen);
                *pending = rest;
                return (out, texts);
            },
            Some(k) => {
                proof {
                    lemma_find_from(whole, start@, p as int);
                }
                let ps = k + start.len();
                match find_from_exec(s.as_slice(), end, ps) {
                    None => {
                        append_range(&mut out, s.as_slice(), p, k);
                        let rest = subrange_vec(s.as_slice(), k, n);
                        assert(rest@ =~= whole.skip(k as int));
                        assert(seen + seq![] =~= seen);
                        *pending = rest;
                        return (out, texts);
                    },
                    Some(e) => {
                        proof {
                            lemma_find_from(whole, end@, ps as int);
                        }
                        append_range(&mut out, s.as_slice(), p, k);
                        let payload = subrange_vec(s.as_slice(), ps, e);
                        let ghost before = seen;
                        proof {
                            seen = seen.push(payload@);
                            assert(seen.drop_last() =~= before);
                            let here = strip_payload_from(whole, start@, end@, p as int);
                            let next = strip_payload_from(whole, start@, end@, e + end@.len());
                            assert(here.1 =~= seq![payload@] + next.1);
                            assert(before + here.1 =~= seen + next.1);
                        }
                        match utf8_text(payload.as_slice()) {
                            Some(text) => {
                                let ghost old_texts = texts@;
                                texts.push(text);
                                assert(crate::text::views(texts@) =~= crate::text::views(
                                    old_texts,
                                ).push(text@));
                            },
                            None => {},
                        }
                        p = e + end.len();
                    },
                }
            },
        }
    }
}

/// The start of a working-directory marker, `\x1eHINTSHELL_CWD:`.
pub open spec fn cwd_marker_start() -> Seq<u8> {
    seq![0x1eu8, 0x48, 0x49, 0x4e, 0x54, 0x53, 0x48, 0x45, 0x4c, 0x4c, 0x5f, 0x43, 0x57, 0x44, 0x3a]
}

/// The start of a startup-phase marker, `\x1eHINTSHELL_STARTUP_PHASE:`.
pub open spec fn phase_marker_start() -> Seq<u8> {
    seq![0x1eu8, 0x48, 0x49, 0x4e, 0x54, 0x53, 0x48, 0x45, 0x4c, 0x4c, 0x5f, 0x53, 0x54, 0x41, 0x52, 0x54, 0x55, 0x50, 0x5f, 0x50, 0x48, 0x41, 0x53, 0x45, 0x3a]
}

/// The end of a payload marker, `\x1f`.
pub open spec fn payload_marker_end() -> Seq<u8> {
    seq![0x1fu8]
}

/// Removes working-directory markers; returns the kept bytes and the directory named by
/// the last marker whose payload is valid UTF-8 (`None` when there is none).
pub fn filter_cwd_markers(bytes: &[u8], pending: &mut Vec<u8>) -> (r: (Vec<u8>, Option<String>))
    ensures
        ({
            let res = strip_payload_from(
                old(pending)@ + bytes@,
                cwd_marker_start(),
                payload_marker_end(),
                0,
            );
            let texts = utf8_texts(res.1);
            &&& r.0@ == res.0
            &&& match r.1 {
                Some(d) => texts.len() > 0 && d@ == texts.last(),
                None => texts.len() == 0,
            }
            &&& final(pending)@ == res.2
        }),
{
    let start: Vec<u8> = vec![0x1eu8, 0x48, 0x49, 0x4e, 0x54, 0x53, 0x48, 0x45, 0x4c, 0x4c, 0x5f, 0x43, 0x57, 0x44, 0x3a];
    let end: Vec<u8> = vec![0x1fu8];
    assert(start@ =~= cwd_marker_start());
    assert(end@ =~= payload_marker_end());
    let (out, mut texts) = filter_payload_markers(bytes, pending, start.as_slice(), end.as_slice());
    let ghost tv = crate::text::views(texts@);
    if texts.len() > 0 {
        let ghost before = texts@;
        let last = texts.pop();
        proof {
            assert(tv.last() == before[before.len() - 1]@);
        }
        (out, last)
    } else {
        (out, None)
    }
}

/// Removes startup-phase markers; returns the kept bytes and the names of the phases whose
/// payload is valid UTF-8, in order.
pub fn filter_startup_phase_markers(bytes: &[u8], pending: &mut Vec<u8>) -> (r: (
    Vec<u8>,
    Vec<String>,
))
    ensures
        ({
            let res = strip_payload_from(
                old(pending)@ + bytes@,
                phase_marker_start(),
                payload_marker_end(),
                0,
            );
            &&& r.0@ == res.0
            &&& crate::text::views(r.1@) == utf8_texts(res.1)
            &&& final(pending)@ == res.2
        }),
{
    let start: Vec<u8> = vec![0x1eu8, 0x48, 0x49, 0x4e, 0x54, 0x53, 0x48, 0x45, 0x4c, 0x4c, 0x5f, 0x53, 0x54, 0x41, 0x52, 0x54, 0x55, 0x50, 0x5f, 0x50, 0x48, 0x41, 0x53, 0x45, 0x3a];
    let end: Vec<u8> = vec![0x1fu8];
    assert(start@ =~= phase_marker_start());
    assert(end@ =~= payload_marker_end());
    filter_payload_markers(bytes, pending, start.as_slice(), end.as_slice())
}

/// `prefix_tail` is the longest admissible suffix: it has the property, and no longer one up
/// to the bound does.
proof fn lemma_prefix_tail_max(s: Seq<u8>, m: Seq<u8>, l: int)
    requires
        0 <= l <= s.len(),
        l <= m.len(),
    ensures
        0 <= prefix_tail(s, m, l) <= l,
        s.skip(s.len() - prefix_tail(s, m, l)) == m.take(prefix_tail(s, m, l)),
        forall|t: int| prefix_tail(s, m, l) < t <= l ==> #[trigger] s.skip(s.len() - t) != m.take(t),
    decreases l,
{
    if l > 0 {
        lemma_prefix_tail_max(s, m, l - 1);
    } else {
        assert(s.skip(s.len() as int) =~= m.take(0));
    }
}

/// `find_from` in a text equals `find_from` in its suffix from `q`, shifted by `q`.
proof fn lemma_find_shift(s: Seq<u8>, m: Seq<u8>, q: int, p: int)
    requires
        0 <= q <= p,
        q <= s.len(),
    ensures
        find_from(s, m, p) == (match find_from(s.skip(q), m, p - q) {
            Some(k) => Some(k + q),
            None => None,
        }),
    decreases s.len() - p,
{
    let t = s.skip(q);
    if p + m.len() > s.len() {
    } else {
        assert(s.subrange(p, p + m.len()) =~= t.subrange(p - q, p - q + m.len()));
        if !(m.len() == 0 || s.subrange(p, p + m.len()) == m) {
            lemma_find_shift(s, m, q, p + 1);
        }
    }
}

proof fn lemma_prefix_tail_shift(s: Seq<u8>, m: Seq<u8>, q: int, l: int)
    requires
        0 <= q <= s.len(),
        l <= s.len() - q,
    ensures
        prefix_tail(s, m, l) == prefix_tail(s.skip(q), m, l),
    decreases l,
{
    if l > 0 {
        assert(s.skip(s.len() - l) =~= s.skip(q).skip(s.skip(q).len() - l));
        lemma_prefix_tail_shift(s, m, q, l - 1);
    }
}

/// Removing markers from position `p` depends only on the text from some earlier `q` on.
proof fn lemma_strip_shift(s: Seq<u8>, m: Seq<u8>, q: int, p: int)
    requires
        0 <= q <= p <= s.len(),
        m.len() > 0,
    ensures
        strip_from(s, m, p) == strip_from(s.skip(q), m, p - q),
    decreases s.len() - p,
{
    let t = s.skip(q);
    lemma_find_shift(s, m, q, p);
    lemma_find_from(s, m, p);
    match find_from(s, m, p) {
        Some(k) => {
            lemma_strip_shift(s, m, q, k + m.len());
            assert(s.subrange(p, k) =~= t.subrange(p - q, k - q));
        },
        None => {
            let l = min(s.len() - p, m.len() - 1);
            lemma_prefix_tail_shift(s, m, q, l);
            assert(t.len() - (p - q) == s.len() - p);
            let keep = held_back(s, m, p);
            lemma_prefix_tail(s, m, l);
            assert(s.subrange(p, s.len() - keep) =~= t.subrange(p - q, t.len() - keep));
            assert(s.skip(s.len() - keep) =~= t.skip(t.len() - keep));
        },
    }
}

/// Skipping positions where no marker begins does not change what is found next.
proof fn lemma_find_skips(s: Seq<u8>, m: Seq<u8>, p: int, q: int)
    requires
        0 <= p <= q,
        forall|j: int| p <= j < q ==> !occurs_at(s, m, j),
    ensures
        find_from(s, m, p) == find_from(s, m, q),
    decreases q - p,
{
    if p < q {
        assert(!occurs_at(s, m, p));
        if p + m.len() <= s.len() {
            if m.len() == 0 {
                assert(s.subrange(p, p) =~= m);
            }
            assert(s.subrange(p, p + m.len()) != m);
        }
        lemma_find_skips(s, m, p + 1, q);
    }
}

/// In the text `a + b`, what begins at `j` inside `a` and is a prefix of the marker running
/// past `a` leaves a prefix of the marker at the end of `a`.
proof fn lemma_cut_prefix(a: Seq<u8>, b: Seq<u8>, m: Seq<u8>, j: int, t: int)
    requires
        0 <= j < a.len(),
        a.len() - j <= t,
        j + t <= a.len() + b.len(),
        (a + b).subrange(j, j + t) == m.take(t),
        t <= m.len(),
    ensures
        a.skip(j) == m.take(a.len() - j),
{
    assert(a.skip(j) =~= (a + b).subrange(j, j + t).take(a.len() - j));
    assert(m.take(t).take(a.len() - j) =~= m.take(a.len() - j));
}

/// Removing markers from `a + b` starting in `a` does what removing them from `a` does, then
/// goes on from where `a`'s held-back tail begins.
proof fn lemma_strip_prefix(a: Seq<u8>, b: Seq<u8>, m: Seq<u8>, p: int)
    requires
        0 <= p <= a.len(),
        m.len() > 0,
    ensures
        ({
            let r = strip_from(a, m, p);
            let q = a.len() - r.2.len();
            let x = strip_from(a + b, m, q);
            &&& p <= q <= a.len()
            &&& r.2 == a.skip(q)
            &&& strip_from(a + b, m, p) == (r.0 + x.0, r.1 + x.1, x.2)
        }),
    decreases a.len() - p,
{
    let s = a + b;
    lemma_find_from(a, m, p);
    lemma_find_from(s, m, p);
    match find_from(a, m, p) {
        Some(k) => {
            assert(s.subrange(k, k + m.len()) =~= a.subrange(k, k + m.len()));
            assert(occurs_at(a, m, k));
            assert forall|j: int| p <= j < k implies !occurs_at(s, m, j) by {
                if occurs_at(s, m, j) && j + m.len() <= a.len() {
                    assert(s.subrange(j, j + m.len()) =~= a.subrange(j, j + m.len()));
                    assert(occurs_at(a, m, j));
                }
            }
            lemma_find_skips(s, m, p, k);
            lemma_find_from(s, m, k);
            lemma_strip_prefix(a, b, m, k + m.len());
            let rest = strip_from(a, m, k + m.len());
            let q = a.len() - rest.2.len();
            let x = strip_from(s, m, q);
            assert(s.subrange(p, k) =~= a.subrange(p, k));
            assert(a.subrange(p, k) + (rest.0 + x.0) =~= (a.subrange(p, k) + rest.0) + x.0);
        },
        None => {
            lemma_held_back_extends(a, b, m, p);
            let keep = held_back(a, m, p);
            lemma_prefix_tail_max(a, m, min(a.len() - p, m.len() - 1));
            let q = a.len() - keep;
            assert(a.skip(q).len() == keep);
            lemma_find_from(s, m, q);
            match find_from(s, m, q) {
                Some(k) => {
                    assert(s.subrange(p, k) =~= a.subrange(p, q) + s.subrange(q, k));
                },
                None => {
                    let kp = held_back(s, m, p);
                    lemma_prefix_tail_max(s, m, min(s.len() - p, m.len() - 1));
                    lemma_prefix_tail_max(s, m, min(s.len() - q, m.len() - 1));
                    assert(s.subrange(p, s.len() - kp) =~= a.subrange(p, q) + s.subrange(q, s.len() - kp));
                },
            }
        },
    }
}

/// A marker found in `a` from `p` on is found at the same place in `a + b`.
proof fn lemma_find_in_prefix(a: Seq<u8>, b: Seq<u8>, m: Seq<u8>, p: int)
    requires
        0 <= p,
        m.len() > 0,
        find_from(a, m, p) is Some,
    ensures
        find_from(a + b, m, p) == find_from(a, m, p),
{
    let s = a + b;
    lemma_find_from(a, m, p);
    match find_from(a, m, p) {
        Some(k) => {
            assert(s.subrange(k, k + m.len()) =~= a.subrange(k, k + m.len()));
            assert forall|j: int| p <= j < k implies !occurs_at(s, m, j) by {
                if occurs_at(s, m, j) && j + m.len() <= a.len() {
                    assert(s.subrange(j, j + m.len()) =~= a.subrange(j, j + m.len()));
                    assert(occurs_at(a, m, j));
                }
            }
            lemma_find_skips(s, m, p, k);
        },
        None => {},
    }
}

/// When no marker begins in `a` from `p` on, none begins in `a + b` before `a`'s held-back
/// tail, and the tail held back from `a + b` does not depend on which of the two positions
/// the search starts at.
proof fn lemma_held_back_extends(a: Seq<u8>, b: Seq<u8>, m: Seq<u8>, p: int)
    requires
        0 <= p <= a.len(),
        m.len() > 0,
        find_from(a, m, p) is None,
    ensures
        ({
            let q = a.len() - held_back(a, m, p);
            &&& p <= q <= a.len()
            &&& find_from(a + b, m, p) == find_from(a + b, m, q)
            &&& find_from(a + b, m, q) is None ==> held_back(a + b, m, p) == held_back(a + b, m, q)
        }),
{
    let s = a + b;
    lemma_find_from(a, m, p);
    let l = min(a.len() - p, m.len() - 1);
    let keep = held_back(a, m, p);
    lemma_prefix_tail_max(a, m, l);
    let q = a.len() - keep;
    assert forall|j: int| p <= j < q implies !occurs_at(s, m, j) by {
        if occurs_at(s, m, j) {
            if j + m.len() <= a.len() {
                assert(s.subrange(j, j + m.len()) =~= a.subrange(j, j + m.len()));
                assert(occurs_at(a, m, j));
            } else {
                assert(m.take(m.len() as int) =~= m);
                lemma_cut_prefix(a, b, m, j, m.len() as int);
                let t = a.len() - j;
                assert(a.skip(a.len() - t) == m.take(t));
            }
        }
    }
    lemma_find_skips(s, m, p, q);
    lemma_find_from(s, m, q);
    if find_from(s, m, q) is None {
        let lp = min(s.len() - p, m.len() - 1);
        let lq = min(s.len() - q, m.len() - 1);
        lemma_prefix_tail_max(s, m, lp);
        lemma_prefix_tail_max(s, m, lq);
        let kp = prefix_tail(s, m, lp);
        let kq = prefix_tail(s, m, lq);
        if kp > lq {
            let j = s.len() - kp;
            assert(p <= j < q);
            assert(s.skip(j) =~= s.subrange(j, j + kp));
            lemma_cut_prefix(a, b, m, j, kp);
            let t = a.len() - j;
            assert(a.skip(a.len() - t) == m.take(t));
        }
        if kp < kq {
            assert(s.skip(s.len() - kq) == m.take(kq));
        }
        assert(kp == kq);
    }
}

/// Markers are removed alike however the stream is cut into reads: filtering `a` and then the
/// held-back tail followed by `b` shows the same bytes, counts the same markers and holds back
/// the same tail as filtering `a + b` at once.
pub proof fn lemma_marker_stream(a: Seq<u8>, b: Seq<u8>, m: Seq<u8>)
    requires
        m.len() > 0,
    ensures
        ({
            let first = strip_from(a, m, 0);
            let second = strip_from(first.2 + b, m, 0);
            let whole = strip_from(a + b, m, 0);
            &&& whole.0 == first.0 + second.0
            &&& whole.1 == first.1 + second.1
            &&& whole.2 == second.2
        }),
{
    lemma_strip_prefix(a, b, m, 0);
    let first = strip_from(a, m, 0);
    let q = a.len() - first.2.len();
    lemma_strip_shift(a + b, m, q, q);
    assert((a + b).skip(q) =~= first.2 + b);
}

/// The same for the prompt-marker filter, read by read.
pub proof fn lemma_prompt_marker_stream(a: Seq<u8>, b: Seq<u8>)
    ensures
        ({
            let first = strip_from(a, prompt_marker(), 0);
            let second = strip_from(first.2 + b, prompt_marker(), 0);
            let whole = strip_from(a + b, prompt_marker(), 0);
            &&& whole.0 == first.0 + second.0
            &&& whole.1 == first.1 + second.1
            &&& whole.2 == second.2
        }),
{
    lemma_marker_stream(a, b, prompt_marker());
}

/// Removing payload markers from position `p` depends only on the text from some earlier `q` on.
proof fn lemma_payload_shift(s: Seq<u8>, start: Seq<u8>, end: Seq<u8>, q: int, p: int)
    requires
        0 <= q <= p <= s.len(),
        start.len() > 0,
        end.len() > 0,
    ensures
        strip_payload_from(s, start, end, p) == strip_payload_from(s.skip(q), start, end, p - q),
    decreases s.len() - p,
{
    let t = s.skip(q);
    lemma_find_shift(s, start, q, p);
    lemma_find_from(s, start, p);
    match find_from(s, start, p) {
        Some(k) => {
            let c = k + start.len();
            lemma_find_shift(s, end, q, c);
            lemma_find_from(s, end, c);
            assert(s.subrange(p, k) =~= t.subrange(p - q, k - q));
            assert(s.skip(k) =~= t.skip(k - q));
            match find_from(s, end, c) {
                Some(e) => {
                    lemma_payload_shift(s, start, end, q, e + end.len());
                    assert(s.subrange(c, e) =~= t.subrange(c - q, e - q));
                },
                None => {},
            }
        },
        None => {
            let l = min(s.len() - p, start.len() - 1);
            lemma_prefix_tail_shift(s, start, q, l);
            assert(t.len() - (p - q) == s.len() - p);
            let keep = held_back(s, start, p);
            lemma_prefix_tail(s, start, l);
            assert(s.subrange(p, s.len() - keep) =~= t.subrange(p - q, t.len() - keep));
            assert(s.skip(s.len() - keep) =~= t.skip(t.len() - keep));
        },
    }
}

/// Removing payload markers from `a + b` starting in `a` does what removing them from `a`
/// does, then goes on from where `a`'s held-back tail begins.
proof fn lemma_payload_prefix(a: Seq<u8>, b: Seq<u8>, start: Seq<u8>, end: Seq<u8>, p: int)
    requires
        0 <= p <= a.len(),
        start.len() > 0,
        end.len() > 0,
    ensures
        ({
            let r = strip_payload_from(a, start, end, p);
            let q = a.len() - r.2.len();
            let x = strip_payload_from(a + b, start, end, q);
            &&& p <= q <= a.len()
            &&& r.2 == a.skip(q)
            &&& strip_payload_from(a + b, start, end, p) == (r.0 + x.0, r.1 + x.1, x.2)
        }),
    decreases a.len() - p,
{
    let s = a + b;
    lemma_find_from(a, start, p);
    match find_from(a, start, p) {
        Some(k) => {
            let c = k + start.len();
            lemma_find_in_prefix(a, b, start, p);
            lemma_find_from(a, end, c);
            assert(s.subrange(p, k) =~= a.subrange(p, k));
            match find_from(a, end, c) {
                Some(e) => {
                    lemma_find_in_prefix(a, b, end, c);
                    lemma_payload_prefix(a, b, start, end, e + end.len());
                    let rest = strip_payload_from(a, start, end, e + end.len());
                    let q = a.len() - rest.2.len();
                    let x = strip_payload_from(s, start, end, q);
                    assert(s.subrange(c, e) =~= a.subrange(c, e));
                    assert(a.subrange(p, k) + (rest.0 + x.0) =~= (a.subrange(p, k) + rest.0) + x.0);
                    assert(seq![a.subrange(c, e)] + (rest.1 + x.1) =~= (seq![a.subrange(c, e)]
                        + rest.1) + x.1);
                },
                None => {
                    assert(s.subrange(k, c) =~= a.subrange(k, c));
                    assert(occurs_at(s, start, k));
                    assert(find_from(s, start, k) == Some(k));
                    assert(s.subrange(k, k) =~= Seq::<u8>::empty());
                    lemma_find_from(s, end, c);
                    match find_from(s, end, c) {
                        Some(e) => {
                            let rest = strip_payload_from(s, start, end, e + end.len());
                            assert(s.subrange(p, k) + rest.0 =~= a.subrange(p, k) + (s.subrange(
                                k,
                                k,
                            ) + rest.0));
                            assert(seq![s.subrange(c, e)] + rest.1 =~= Seq::<Seq<u8>>::empty() + (
                            seq![s.subrange(c, e)] + rest.1));
                        },
                        None => {
                            assert(a.subrange(p, k) =~= a.subrange(p, k) + s.subrange(k, k));
                            assert(Seq::<Seq<u8>>::empty() + Seq::<Seq<u8>>::empty()
                                =~= Seq::<Seq<u8>>::empty());
                        },
                    }
                },
            }
        },
        None => {
            lemma_held_back_extends(a, b, start, p);
            let keep = held_back(a, start, p);
            lemma_prefix_tail_max(a, start, min(a.len() - p, start.len() - 1));
            let q = a.len() - keep;
            assert(a.skip(q).len() == keep);
            lemma_find_from(s, start, q);
            match find_from(s, start, q) {
                Some(k) => {
                    let c = k + start.len();
                    assert(s.subrange(p, k) =~= a.subrange(p, q) + s.subrange(q, k));
                    lemma_find_from(s, end, c);
                    match find_from(s, end, c) {
                        Some(e) => {
                            let rest = strip_payload_from(s, start, end, e + end.len());
                            assert(s.subrange(p, k) + rest.0 =~= a.subrange(p, q) + (s.subrange(
                                q,
                                k,
                            ) + rest.0));
                            assert(seq![s.subrange(c, e)] + rest.1 =~= Seq::<Seq<u8>>::empty() + (
                            seq![s.subrange(c, e)] + rest.1));
                        },
                        None => {
                            assert(Seq::<Seq<u8>>::empty() + Seq::<Seq<u8>>::empty()
                                =~= Seq::<Seq<u8>>::empty());
                        },
                    }
                },
                None => {
                    let kp = held_back(s, start, p);
                    lemma_prefix_tail_max(s, start, min(s.len() - p, start.len() - 1));
                    lemma_prefix_tail_max(s, start, min(s.len() - q, start.len() - 1));
                    assert(s.subrange(p, s.len() - kp) =~= a.subrange(p, q) + s.subrange(
                        q,
                        s.len() - kp,
                    ));
                    assert(Seq::<Seq<u8>>::empty() + Seq::<Seq<u8>>::empty()
                        =~= Seq::<Seq<u8>>::empty());
                },
            }
        },
    }
}

/// Payload markers are removed alike however the stream is cut into reads: filtering `a`
/// and then the held-back tail followed by `b` shows the same bytes, yields the same
/// payloads in the same order and holds back the same tail as filtering `a + b` at once.
pub proof fn lemma_payload_marker_stream(a: Seq<u8>, b: Seq<u8>, start: Seq<u8>, end: Seq<u8>)
    requires
        start.len() > 0,
        end.len() > 0,
    ensures
        ({
            let first = strip_payload_from(a, start, end, 0);
            let second = strip_payload_from(first.2 + b, start, end, 0);
            let whole = strip_payload_from(a + b, start, end, 0);
            &&& whole.0 == first.0 + second.0
            &&& whole.1 == first.1 + second.1
            &&& whole.2 == second.2
        }),
{
    lemma_payload_prefix(a, b, start, end, 0);
    let first = strip_payload_from(a, start, end, 0);
    let q = a.len() - first.2.len();
    lemma_payload_shift(a + b, start, end, q, q);
    assert((a + b).skip(q) =~= first.2 + b);
}

/// The valid texts of two runs of payloads are those of each run, in order.
pub proof fn lemma_utf8_texts_append(x: Seq<Seq<u8>>, y: Seq<Seq<u8>>)
    ensures
        utf8_texts(x + y) == utf8_texts(x) + utf8_texts(y),
    decreases y.len(),
{
    if y.len() == 0 {
        assert(x + y =~= x);
        assert(utf8_texts(x) + utf8_texts(y) =~= utf8_texts(x));
    } else {
        lemma_utf8_texts_append(x, y.drop_last());
        assert((x + y).drop_last() =~= x + y.drop_last());
        assert((x + y).last() == y.last());
        if valid_utf8(y.last()) {
            let d = decode_utf8(y.last());
            assert((utf8_texts(x) + utf8_texts(y.drop_last())).push(d) =~= utf8_texts(x) + utf8_texts(
                y.drop_last(),
            ).push(d));
        }
    }
}

/// Startup phases are reported alike however the stream is cut into reads: the bytes
/// shown and the phase names of two reads are those of one read of both, and the same tail
/// is held back.
pub proof fn lemma_startup_phase_stream(a: Seq<u8>, b: Seq<u8>)
    ensures
        ({
            let first = strip_payload_from(a, phase_marker_start(), payload_marker_end(), 0);
            let second = strip_payload_from(first.2 + b, phase_marker_start(), payload_marker_end(), 0);
            let whole = strip_payload_from(a + b, phase_marker_start(), payload_marker_end(), 0);
            &&& whole.0 == first.0 + second.0
            &&& utf8_texts(whole.1) == utf8_texts(first.1) + utf8_texts(second.1)
            &&& whole.2 == second.2
        }),
{
    lemma_payload_marker_stream(a, b, phase_marker_start(), payload_marker_end());
    let first = strip_payload_from(a, phase_marker_start(), payload_marker_end(), 0);
    let second = strip_payload_from(first.2 + b, phase_marker_start(), payload_marker_end(), 0);
    lemma_utf8_texts_append(first.1, second.1);
}

/// The working directory is tracked alike however the stream is cut into reads: the bytes
/// shown over two reads are those of one read of both, the same tail is held back, and the
/// directory known after both reads (the second read's, or else the first's) is the one a
/// single read reports.
pub proof fn lemma_cwd_marker_stream(a: Seq<u8>, b: Seq<u8>)
    ensures
        ({
            let first = strip_payload_from(a, cwd_marker_start(), payload_marker_end(), 0);
            let second = strip_payload_from(first.2 + b, cwd_marker_start(), payload_marker_end(), 0);
            let whole = strip_payload_from(a + b, cwd_marker_start(), payload_marker_end(), 0);
            let t1 = utf8_texts(first.1);
            let t2 = utf8_texts(second.1);
            let tw = utf8_texts(whole.1);
            &&& whole.0 == first.0 + second.0
            &&& whole.2 == second.2
            &&& (tw.len() == 0 <==> t1.len() == 0 && t2.len() == 0)
            &&& t2.len() > 0 ==> tw.last() == t2.last()
            &&& t2.len() == 0 && t1.len() > 0 ==> tw.last() == t1.last()
        }),
{
    lemma_payload_marker_stream(a, b, cwd_marker_start(), payload_marker_end());
    let first = strip_payload_from(a, cwd_marker_start(), payload_marker_end(), 0);
    let second = strip_payload_from(first.2 + b, cwd_marker_start(), payload_marker_end(), 0);
    lemma_utf8_texts_append(first.1, second.1);
    let t1 = utf8_texts(first.1);
    let t2 = utf8_texts(second.1);
    if t2.len() == 0 {
        assert(t1 + t2 =~= t1);
    }
}

/// The bytes of the reads, joined.
pub open spec fn joined(chunks: Seq<Seq<u8>>) -> Seq<u8>
    decreases chunks.len(),
{
    if chunks.len() == 0 {
        seq![]
    } else {
        joined(chunks.drop_last()) + chunks.last()
    }
}

/// Filtering markers `m` read by read, each read appended to the tail held back by the one
/// before: the bytes shown over all reads, the markers counted, and the tail left.
pub open spec fn strip_reads(chunks: Seq<Seq<u8>>, m: Seq<u8>) -> (Seq<u8>, nat, Seq<u8>)
    decreases chunks.len(),
{
    if chunks.len() == 0 {
        (seq![], 0, seq![])
    } else {
        let before = strip_reads(chunks.drop_last(), m);
        let now = strip_from(before.2 + chunks.last(), m, 0);
        (before.0 + now.0, before.1 + now.1, now.2)
    }
}

/// The tail that removing markers `m` holds back is a proper prefix of `m`.
pub proof fn lemma_strip_tail(s: Seq<u8>, m: Seq<u8>, p: int)
    requires
        0 <= p <= s.len(),
        m.len() > 0,
    ensures
        strip_from(s, m, p).2.len() < m.len(),
        strip_from(s, m, p).2 == m.take(strip_from(s, m, p).2.len() as int),
    decreases s.len() - p,
{
    lemma_find_from(s, m, p);
    match find_from(s, m, p) {
        Some(k) => {
            lemma_strip_tail(s, m, k + m.len());
        },
        None => {
            lemma_prefix_tail_max(s, m, min(s.len() - p, m.len() - 1));
        },
    }
}

/// However a stream is cut into reads, filtering the reads one after another shows the
/// bytes, counts the markers and holds back the tail that filtering the whole stream at once
/// does; and what stays pending after any read is a proper prefix of the marker.
pub proof fn lemma_marker_reads(chunks: Seq<Seq<u8>>, m: Seq<u8>)
    requires
        m.len() > 0,
    ensures
        strip_reads(chunks, m) == strip_from(joined(chunks), m, 0),
        strip_reads(chunks, m).2.len() < m.len(),
        strip_reads(chunks, m).2 == m.take(strip_reads(chunks, m).2.len() as int),
    decreases chunks.len(),
{
    if chunks.len() == 0 {
        let e = Seq::<u8>::empty();
        lemma_find_from(e, m, 0);
        assert(find_from(e, m, 0) is None);
        assert(e.subrange(0, 0) =~= e);
        assert(e.skip(0) =~= e);
    } else {
        lemma_marker_reads(chunks.drop_last(), m);
        lemma_marker_stream(joined(chunks.drop_last()), chunks.last(), m);
    }
    lemma_strip_tail(joined(chunks), m, 0);
}

/// Filtering payload markers read by read, each read appended to the tail held back by the
/// one before: the bytes shown over all reads, the payloads in order, and the tail left.
pub open spec fn strip_payload_reads(chunks: Seq<Seq<u8>>, start: Seq<u8>, end: Seq<u8>) -> (
    Seq<u8>,
    Seq<Seq<u8>>,
    Seq<u8>,
)
    decreases chunks.len(),
{
    if chunks.len() == 0 {
        (seq![], seq![], seq![])
    } else {
        let before = strip_payload_reads(chunks.drop_last(), start, end);
        let now = strip_payload_from(before.2 + chunks.last(), start, end, 0);
        (before.0 + now.0, before.1 + now.1, now.2)
    }
}

/// The tail that removing payload markers holds back is a proper prefix of `start`, or an
/// opened marker: it begins with `start` and holds no `end` after it.
pub proof fn lemma_payload_tail(s: Seq<u8>, start: Seq<u8>, end: Seq<u8>, p: int)
    requires
        0 <= p <= s.len(),
        start.len() > 0,
        end.len() > 0,
    ensures
        ({
            let t = strip_payload_from(s, start, end, p).2;
            ||| t.len() < start.len() && t == start.take(t.len() as int)
            ||| t.len() >= start.len() && t.take(start.len() as int) == start && find_from(t, end, start.len() as int) is None
        }),
    decreases s.len() - p,
{
    lemma_find_from(s, start, p);
    match find_from(s, start, p) {
        Some(k) => {
            let c = k + start.len();
            lemma_find_from(s, end, c);
            match find_from(s, end, c) {
                Some(e) => {
                    lemma_payload_tail(s, start, end, e + end.len());
                },
                None => {
                    let t = s.skip(k);
                    assert(t.take(start.len() as int) =~= s.subrange(k, c));
                    lemma_find_shift(s, end, k, c);
                },
            }
        },
        None => {
            lemma_prefix_tail_max(s, start, min(s.len() - p, start.len() - 1));
        },
    }
}

/// However a stream is cut into reads, filtering payload markers read by read shows the bytes,
/// yields the payloads in order and holds back the tail that filtering the whole stream at
/// once does; what stays pending after any read is a proper prefix of `start` or an opened
/// marker whose `end` has not come yet.
pub proof fn lemma_payload_reads(chunks: Seq<Seq<u8>>, start: Seq<u8>, end: Seq<u8>)
    requires
        start.len() > 0,
        end.len() > 0,
    ensures
        strip_payload_reads(chunks, start, end) == strip_payload_from(joined(chunks), start, end, 0),
        ({
            let t = strip_payload_reads(chunks, start, end).2;
            ||| t.len() < start.len() && t == start.take(t.len() as int)
            ||| t.len() >= start.len() && t.take(start.len() as int) == start && find_from(t, end, start.len() as int) is None
        }),
    decreases chunks.len(),
{
    if chunks.len() == 0 {
        let e = Seq::<u8>::empty();
        lemma_find_from(e, start, 0);
        assert(find_from(e, start, 0) is None);
        assert(e.subrange(0, 0) =~= e);
        assert(e.skip(0) =~= e);
    } else {
        lemma_payload_reads(chunks.drop_last(), start, end);
        lemma_payload_marker_stream(joined(chunks.drop_last()), chunks.last(), start, end);
    }
    lemma_payload_tail(joined(chunks), start, end, 0);
}

} // verus!
