//! Character and string helpers shared by the parsing and rendering code.
use vstd::prelude::*;

verus! {

/// The characters that carry the Unicode `White_Space` property.
pub open spec fn is_ws(c: char) -> bool {
    let u = c as u32;
    (0x09 <= u && u <= 0x0d) || u == 0x20 || u == 0x85 || u == 0xa0 || u == 0x1680 || (0x2000
        <= u && u <= 0x200a) || u == 0x2028 || u == 0x2029 || u == 0x202f || u == 0x205f || u
        == 0x3000
}

/// Whether `c` is a Unicode white-space character.
pub fn is_whitespace(c: char) -> (r: bool)
    ensures
        r == is_ws(c),
{
    let u = c as u32;
    (0x09 <= u && u <= 0x0d) || u == 0x20 || u == 0x85 || u == 0xa0 || u == 0x1680 || (0x2000
        <= u && u <= 0x200a) || u == 0x2028 || u == 0x2029 || u == 0x202f || u == 0x205f || u
        == 0x3000
}

/// The characters of `s`, in order.
pub fn chars_of(s: &str) -> (r: Vec<char>)
    ensures
        r@ == s@,
{
    let mut r: Vec<char> = Vec::new();
    for c in it: s.chars()
        invariant
            r@ == it.seq().take(it.index() as int),
    {
        r.push(c);
    }
    r
}

/// Appends one character to a string (`String::push`).
#[verifier::external_body]
pub(crate) fn push_char(s: &mut String, c: char)
    ensures
        final(s)@ == old(s)@.push(c),
{
    s.push(c);
}

/// Builds a string from its characters.
pub fn string_of(v: &[char]) -> (r: String)
    ensures
        r@ == v@,
{
    let mut r = String::new();
    let mut i: usize = 0;
    while i < v.len()
        invariant
            i <= v.len(),
            r@ == v@.take(i as int),
        decreases v.len() - i,
    {
        push_char(&mut r, v[i]);
        i = i + 1;
        assert(v@.take(i as int) =~= v@.take(i - 1).push(v@[i - 1]));
    }
    assert(v@.take(v.len() as int) =~= v@);
    r
}

/// The character sequences held by a list of strings.
pub open spec fn views(v: Seq<String>) -> Seq<Seq<char>> {
    Seq::new(v.len(), |i: int| v[i]@)
}

/// Copies a string (`String::clone` keeps the characters).
pub fn copy_string(s: &String) -> (r: String)
    ensures
        r@ == s@,
{
    s.clone()
}

/// A new string holding the characters of `s`.
pub fn to_string(s: &str) -> (r: String)
    ensures
        r@ == s@,
{
    s.to_owned()
}

/// Joins the parts with `sep` between consecutive parts.
pub open spec fn join_with(parts: Seq<Seq<char>>, sep: Seq<char>) -> Seq<char>
    decreases parts.len(),
{
    if parts.len() == 0 {
        seq![]
    } else if parts.len() == 1 {
        parts[0]
    } else {
        join_with(parts.drop_last(), sep) + sep + parts.last()
    }
}

/// Joins strings with a separator (`[String]::join`).
pub fn join_strings(parts: &Vec<String>, sep: &str) -> (r: String)
    ensures
        r@ == join_with(views(parts@), sep@),
{
    let mut r = String::new();
    let mut i: usize = 0;
    while i < parts.len()
        invariant
            i <= parts.len(),
            r@ == join_with(views(parts@).take(i as int), sep@),
        decreases parts.len() - i,
    {
        proof {
            assert(views(parts@).take(i + 1).drop_last() =~= views(parts@).take(i as int));
            assert(views(parts@).take(i + 1).last() == parts@[i as int]@);
        }
        if i > 0 {
            r.append(sep);
        }
        r.append(parts[i].as_str());
        proof {
            if i == 0 {
                assert(views(parts@).take(1) =~= seq![parts@[0]@]);
            }
        }
        i = i + 1;
    }
    assert(views(parts@).take(parts.len() as int) =~= views(parts@));
    r
}

/// Joins character vectors with a separator.
pub fn join_char_vecs(parts: &Vec<Vec<char>>, sep: &str) -> (r: String)
    ensures
        r@ == join_with(Seq::new(parts@.len(), |i: int| parts@[i]@), sep@),
{
    let ghost ps = Seq::new(parts@.len(), |i: int| parts@[i]@);
    let mut r = String::new();
    let mut i: usize = 0;
    while i < parts.len()
        invariant
            i <= parts.len(),
            ps == Seq::new(parts@.len(), |i: int| parts@[i]@),
            r@ == join_with(ps.take(i as int), sep@),
        decreases parts.len() - i,
    {
        proof {
            assert(ps.take(i + 1).drop_last() =~= ps.take(i as int));
            assert(ps.take(i + 1).last() == parts@[i as int]@);
        }
        if i > 0 {
            r.append(sep);
        }
        let part = string_of(parts[i].as_slice());
        r.append(part.as_str());
        proof {
            if i == 0 {
                assert(ps.take(1) =~= seq![parts@[0]@]);
            }
        }
        i = i + 1;
    }
    assert(ps.take(parts.len() as int) =~= ps);
    r
}

/// Whether `m` occurs in `s` at position `k`.
pub open spec fn occurs_at<A>(s: Seq<A>, m: Seq<A>, k: int) -> bool {
    0 <= k && k + m.len() <= s.len() && s.subrange(k, k + m.len()) == m
}

/// The first position at or after `i` where `m` occurs in `s`.
pub open spec fn find_from<A>(s: Seq<A>, m: Seq<A>, i: int) -> Option<int>
    decreases s.len() - i,
{
    if i < 0 || i + m.len() > s.len() {
        None
    } else if m.len() == 0 || s.subrange(i, i + m.len()) == m {
        Some(i)
    } else {
        find_from(s, m, i + 1)
    }
}

pub proof fn lemma_find_from<A>(s: Seq<A>, m: Seq<A>, i: int)
    requires
        0 <= i,
    ensures
        find_from(s, m, i) matches Some(k) ==> i <= k && occurs_at(s, m, k) && (forall|j: int|
            i <= j < k ==> !occurs_at(s, m, j)),
        find_from(s, m, i) is None ==> forall|j: int| i <= j ==> !occurs_at(s, m, j),
    decreases s.len() - i,
{
    if i + m.len() > s.len() {
    } else if m.len() == 0 || s.subrange(i, i + m.len()) == m {
        assert(s.subrange(i, i + m.len()) =~= m);
    } else {
        lemma_find_from(s, m, i + 1);
        assert(!occurs_at(s, m, i));
    }
}

/// Whether `m` occurs anywhere in `s`.
pub open spec fn contains_seq<A>(s: Seq<A>, m: Seq<A>) -> bool {
    find_from(s, m, 0) is Some
}

fn occurs_at_chars(s: &Vec<char>, m: &Vec<char>, k: usize) -> (r: bool)
    requires
        k + m@.len() <= s@.len(),
    ensures
        r == occurs_at(s@, m@, k as int),
{
    let n = s.len();
    let mut j: usize = 0;
    while j < m.len()
        invariant
            n == s@.len(),
            k + m@.len() <= s@.len(),
            j <= m@.len(),
            forall|t: int| 0 <= t < j ==> s@[k + t] == m@[t],
        decreases m@.len() - j,
    {
        if s[k + j] != m[j] {
            assert(s@.subrange(k as int, k + m@.len())[j as int] != m@[j as int]);
            return false;
        }
        j = j + 1;
    }
    assert(s@.subrange(k as int, k + m@.len()) =~= m@);
    true
}

/// The first position at or after `from` where `m` occurs in `s`.
pub fn find_chars_from(s: &Vec<char>, m: &Vec<char>, from: usize) -> (r: Option<usize>)
    requires
        from <= s@.len(),
    ensures
        match r {
            Some(k) => find_from(s@, m@, from as int) == Some(k as int),
            None => find_from(s@, m@, from as int) is None,
        },
{
    let n = s.len();
    let mut k = from;
    while k <= n && m.len() <= n - k
        invariant
            n == s@.len(),
            from <= k,
            k <= s@.len() + 1,
            find_from(s@, m@, from as int) == find_from(s@, m@, k as int),
        decreases s@.len() + 1 - k,
    {
        if m.len() == 0 {
            assert(s@.subrange(k as int, k as int) =~= m@);
            return Some(k);
        }
        if occurs_at_chars(s, m, k) {
            return Some(k);
        }
        k = k + 1;
    }
    None
}

/// Whether `needle` occurs in `s`.
pub fn contains_str(s: &str, needle: &str) -> (r: bool)
    ensures
        r == contains_seq(s@, needle@),
{
    let sv = chars_of(s);
    let nv = chars_of(needle);
    find_chars_from(&sv, &nv, 0).is_some()
}

/// Whether every character is ASCII.
pub open spec fn all_ascii(s: Seq<char>) -> bool {
    forall|i: int| 0 <= i < s.len() ==> (#[trigger] s[i] as u32) < 128
}

/// The full Unicode lowercase mapping of a string (`str::to_lowercase`).
pub uninterp spec fn lowercase(s: Seq<char>) -> Seq<char>;

/// Lowercases a string with the Unicode mapping of `str::to_lowercase`; the result is named
/// by [`lowercase`] and depends on the characters of `s` alone.  On ASCII text the mapping
/// lowers `A`..`Z` and keeps every other character, as `to_ascii_lowercase` does.
#[verifier::external_body]
pub(crate) fn to_lowercase(s: &str) -> (r: String)
    ensures
        r@ == lowercase(s@),
        all_ascii(s@) ==> r@ == ascii_lowercase(s@),
{
    s.to_lowercase()
}

/// The ASCII lowercase of a character; other characters are kept.
pub open spec fn ascii_lower(c: char) -> char {
    if 'A' <= c && c <= 'Z' {
        ((c as u8) + 32) as char
    } else {
        c
    }
}

pub fn ascii_lower_char(c: char) -> (r: char)
    ensures
        r == ascii_lower(c),
{
    if 'A' <= c && c <= 'Z' {
        ((c as u8) + 32) as char
    } else {
        c
    }
}

/// ASCII lowercase of every character (`str::to_ascii_lowercase`).
pub open spec fn ascii_lowercase(s: Seq<char>) -> Seq<char> {
    s.map_values(|c: char| ascii_lower(c))
}

pub fn to_ascii_lowercase(s: &str) -> (r: String)
    ensures
        r@ == ascii_lowercase(s@),
{
    let cs = chars_of(s);
    let mut r = String::new();
    let mut i: usize = 0;
    while i < cs.len()
        invariant
            cs@ == s@,
            i <= cs.len(),
            r@ == ascii_lowercase(s@).take(i as int),
        decreases cs.len() - i,
    {
        push_char(&mut r, ascii_lower_char(cs[i]));
        assert(ascii_lowercase(s@).take(i + 1) =~= ascii_lowercase(s@).take(i as int).push(
            ascii_lower(s@[i as int]),
        ));
        i = i + 1;
    }
    assert(ascii_lowercase(s@).take(cs.len() as int) =~= ascii_lowercase(s@));
    r
}

/// Replaces every backslash by a slash.
pub open spec fn forward_slashes(s: Seq<char>) -> Seq<char> {
    s.map_values(|c: char| if c == '\\' { '/' } else { c })
}

pub fn to_forward_slashes(s: &str) -> (r: String)
    ensures
        r@ == forward_slashes(s@),
{
    let cs = chars_of(s);
    let mut r = String::new();
    let mut i: usize = 0;
    while i < cs.len()
        invariant
            cs@ == s@,
            i <= cs.len(),
            r@ == forward_slashes(s@).take(i as int),
        decreases cs.len() - i,
    {
        let c = cs[i];
        push_char(&mut r, if c == '\\' { '/' } else { c });
        assert(forward_slashes(s@).take(i + 1) =~= forward_slashes(s@).take(i as int).push(
            forward_slashes(s@)[i as int],
        ));
        i = i + 1;
    }
    assert(forward_slashes(s@).take(cs.len() as int) =~= forward_slashes(s@));
    r
}

/// Whether `s` begins with `p`.
pub open spec fn starts_with(s: Seq<char>, p: Seq<char>) -> bool {
    p.len() <= s.len() && s.take(p.len() as int) == p
}

/// A text that begins with `p` contains it.
pub proof fn lemma_starts_with_contains(s: Seq<char>, p: Seq<char>)
    requires
        starts_with(s, p),
    ensures
        contains_seq(s, p),
{
    assert(s.subrange(0, p.len() as int) =~= s.take(p.len() as int));
}

pub fn starts_with_str(s: &str, p: &str) -> (r: bool)
    ensures
        r == starts_with(s@, p@),
{
    let sv = chars_of(s);
    let pv = chars_of(p);
    if pv.len() > sv.len() {
        return false;
    }
    let mut i: usize = 0;
    while i < pv.len()
        invariant
            sv@ == s@,
            pv@ == p@,
            pv.len() <= sv.len(),
            i <= pv.len(),
            forall|j: int| 0 <= j < i ==> sv@[j] == pv@[j],
        decreases pv.len() - i,
    {
        if sv[i] != pv[i] {
            assert(sv@.take(pv@.len() as int)[i as int] != pv@[i as int]);
            return false;
        }
        i = i + 1;
    }
    assert(sv@.take(pv@.len() as int) =~= pv@);
    true
}

/// Whether two strings hold the same characters.
pub fn str_eq(a: &str, b: &str) -> (r: bool)
    ensures
        r == (a@ == b@),
{
    let av = chars_of(a);
    let bv = chars_of(b);
    if av.len() != bv.len() {
        return false;
    }
    let mut i: usize = 0;
    while i < av.len()
        invariant
            av@ == a@,
            bv@ == b@,
            av.len() == bv.len(),
            i <= av.len(),
            forall|j: int| 0 <= j < i ==> av@[j] == bv@[j],
        decreases av.len() - i,
    {
        if av[i] != bv[i] {
            return false;
        }
        i = i + 1;
    }
    assert(av@ =~= bv@);
    true
}

/// Words kept so far and the word being read, while splitting on white space.
pub struct WordState {
    pub words: Seq<Seq<char>>,
    pub cur: Seq<char>,
}

pub open spec fn words_run(s: Seq<char>) -> WordState
    decreases s.len(),
{
    if s.len() == 0 {
        WordState { words: seq![], cur: seq![] }
    } else {
        let st = words_run(s.drop_last());
        if is_ws(s.last()) {
            if st.cur.len() > 0 {
                WordState { words: st.words.push(st.cur), cur: seq![] }
            } else {
                st
            }
        } else {
            WordState { words: st.words, cur: st.cur.push(s.last()) }
        }
    }
}

/// The maximal runs of non-white-space characters (`str::split_whitespace`).
pub open spec fn words(s: Seq<char>) -> Seq<Seq<char>> {
    let st = words_run(s);
    if st.cur.len() > 0 {
        st.words.push(st.cur)
    } else {
        st.words
    }
}

/// Splits a string on Unicode white space.
pub fn split_whitespace(s: &str) -> (r: Vec<String>)
    ensures
        views(r@) == words(s@),
{
    let cs = chars_of(s);
    let mut out: Vec<String> = Vec::new();
    let mut cur: Vec<char> = Vec::new();
    let mut i: usize = 0;
    while i < cs.len()
        invariant
            cs@ == s@,
            i <= cs.len(),
            views(out@) == words_run(cs@.take(i as int)).words,
            cur@ == words_run(cs@.take(i as int)).cur,
        decreases cs.len() - i,
    {
        proof {
            assert(cs@.take(i + 1).drop_last() =~= cs@.take(i as int));
        }
        let c = cs[i];
        if is_whitespace(c) {
            if cur.len() > 0 {
                let w = string_of(cur.as_slice());
                let ghost before = out@;
                out.push(w);
                assert(views(out@) =~= views(before).push(w@));
                cur = Vec::new();
            }
        } else {
            cur.push(c);
        }
        i = i + 1;
    }
    assert(cs@.take(cs.len() as int) =~= cs@);
    if cur.len() > 0 {
        let w = string_of(cur.as_slice());
        let ghost before = out@;
        out.push(w);
        assert(views(out@) =~= views(before).push(w@));
    }
    out
}

/// Whether `s` holds no white space.
pub open spec fn ws_free(s: Seq<char>) -> bool {
    forall|i: int| 0 <= i < s.len() ==> !is_ws(#[trigger] s[i])
}

/// Whether every part is non-empty and holds no white space.
pub open spec fn proper_words(ws: Seq<Seq<char>>) -> bool {
    forall|i: int| 0 <= i < ws.len() ==> (#[trigger] ws[i]).len() > 0 && ws_free(ws[i])
}

proof fn lemma_words_run_shape(s: Seq<char>)
    ensures
        proper_words(words_run(s).words),
        ws_free(words_run(s).cur),
    decreases s.len(),
{
    if s.len() > 0 {
        lemma_words_run_shape(s.drop_last());
        let st = words_run(s.drop_last());
        if !is_ws(s.last()) {
            let c = st.cur.push(s.last());
            assert forall|i: int| 0 <= i < c.len() implies !is_ws(#[trigger] c[i]) by {
                if i < st.cur.len() {
                    assert(c[i] == st.cur[i]);
                }
            }
        } else if st.cur.len() > 0 {
            let w = st.words.push(st.cur);
            assert forall|i: int| 0 <= i < w.len() implies (#[trigger] w[i]).len() > 0 && ws_free(
                w[i],
            ) by {
                if i < st.words.len() {
                    assert(w[i] == st.words[i]);
                }
            }
        }
    }
}

/// The words of any text are non-empty and free of white space.
pub proof fn lemma_words_proper(s: Seq<char>)
    ensures
        proper_words(words(s)),
{
    lemma_words_run_shape(s);
    let st = words_run(s);
    if st.cur.len() > 0 {
        let w = st.words.push(st.cur);
        assert forall|i: int| 0 <= i < w.len() implies (#[trigger] w[i]).len() > 0 && ws_free(
            w[i],
        ) by {
            if i < st.words.len() {
                assert(w[i] == st.words[i]);
            }
        }
    }
}

proof fn lemma_words_run_append_word(s: Seq<char>, t: Seq<char>)
    requires
        ws_free(t),
    ensures
        words_run(s + t).words == words_run(s).words,
        words_run(s + t).cur == words_run(s).cur + t,
    decreases t.len(),
{
    if t.len() == 0 {
        assert(s + t =~= s);
        assert(words_run(s).cur + t =~= words_run(s).cur);
    } else {
        let tp = t.drop_last();
        assert forall|i: int| 0 <= i < tp.len() implies !is_ws(#[trigger] tp[i]) by {
            assert(tp[i] == t[i]);
        }
        lemma_words_run_append_word(s, tp);
        assert((s + t).drop_last() =~= s + tp);
        assert((s + t).last() == t.last());
        assert(!is_ws(t[t.len() - 1]));
        assert(words_run(s).cur + t =~= (words_run(s).cur + tp).push(t.last()));
    }
}

proof fn lemma_words_run_join(ws: Seq<Seq<char>>)
    requires
        proper_words(ws),
        ws.len() > 0,
    ensures
        words_run(join_with(ws, " "@)).words == ws.drop_last(),
        words_run(join_with(ws, " "@)).cur == ws.last(),
    decreases ws.len(),
{
    reveal_strlit(" ");
    if ws.len() == 1 {
        assert(ws[0].len() > 0 && ws_free(ws[0]));
        lemma_words_run_append_word(seq![], ws[0]);
        assert(seq![] + ws[0] =~= ws[0]);
        assert(words_run(seq![]).cur + ws[0] =~= ws[0]);
        assert(ws.drop_last() =~= Seq::<Seq<char>>::empty());
    } else {
        let p = ws.drop_last();
        assert forall|i: int| 0 <= i < p.len() implies (#[trigger] p[i]).len() > 0 && ws_free(
            p[i],
        ) by {
            assert(p[i] == ws[i]);
        }
        lemma_words_run_join(p);
        let j = join_with(p, " "@);
        let js = j + " "@;
        assert(js.drop_last() =~= j);
        assert(js.last() == ' ');
        assert(is_ws(' '));
        assert(p.last() == ws[ws.len() - 2]);
        assert(p.last().len() > 0);
        assert(p.drop_last().push(p.last()) =~= p);
        assert(words_run(js).words == p);
        assert(words_run(js).cur =~= Seq::<char>::empty());
        assert(ws.last() == ws[ws.len() - 1]);
        assert(ws_free(ws.last()));
        lemma_words_run_append_word(js, ws.last());
        assert(join_with(ws, " "@) == js + ws.last());
        assert(Seq::<char>::empty() + ws.last() =~= ws.last());
    }
}

/// Joining proper words with single spaces and splitting again gives the words back.
pub proof fn lemma_words_of_join(ws: Seq<Seq<char>>)
    requires
        proper_words(ws),
    ensures
        words(join_with(ws, " "@)) == ws,
{
    if ws.len() == 0 {
        assert(words_run(Seq::<char>::empty()).words =~= Seq::<Seq<char>>::empty());
    } else {
        lemma_words_run_join(ws);
        assert(ws.last() == ws[ws.len() - 1]);
        assert(ws.drop_last().push(ws.last()) =~= ws);
    }
}

/// Whether every character is white space.
pub open spec fn all_ws(s: Seq<char>) -> bool {
    forall|i: int| 0 <= i < s.len() ==> is_ws(#[trigger] s[i])
}

pub fn is_blank(s: &str) -> (r: bool)
    ensures
        r == all_ws(s@),
{
    let cs = chars_of(s);
    let mut i: usize = 0;
    while i < cs.len()
        invariant
            cs@ == s@,
            i <= cs.len(),
            forall|j: int| 0 <= j < i ==> is_ws(#[trigger] cs@[j]),
        decreases cs.len() - i,
    {
        if !is_whitespace(cs[i]) {
            return false;
        }
        i = i + 1;
    }
    true
}

/// `s` without its leading white space.
pub open spec fn trim_start(s: Seq<char>) -> Seq<char>
    decreases s.len(),
{
    if s.len() > 0 && is_ws(s[0]) {
        trim_start(s.skip(1))
    } else {
        s
    }
}

/// `s` without its trailing white space.
pub open spec fn trim_end(s: Seq<char>) -> Seq<char>
    decreases s.len(),
{
    if s.len() > 0 && is_ws(s.last()) {
        trim_end(s.drop_last())
    } else {
        s
    }
}

/// `s` without leading and trailing white space (`str::trim`).
pub open spec fn trim(s: Seq<char>) -> Seq<char> {
    trim_end(trim_start(s))
}

pub fn trim_chars(cs: &Vec<char>) -> (r: Vec<char>)
    ensures
        r@ == trim(cs@),
{
    let mut a: usize = 0;
    assert(cs@.skip(0) =~= cs@);
    while a < cs.len() && is_whitespace(cs[a])
        invariant
            a <= cs.len(),
            trim_start(cs@) == trim_start(cs@.skip(a as int)),
        decreases cs.len() - a,
    {
        assert(cs@.skip(a as int).skip(1) =~= cs@.skip(a + 1));
        a = a + 1;
    }
    let ghost t = cs@.skip(a as int);
    assert(trim_start(cs@) == t);
    let mut b: usize = cs.len();
    while b > a && is_whitespace(cs[b - 1])
        invariant
            a <= b <= cs.len(),
            trim_end(t) == trim_end(cs@.subrange(a as int, b as int)),
        decreases b - a,
    {
        assert(cs@.subrange(a as int, b as int).drop_last() =~= cs@.subrange(a as int, b - 1));
        b = b - 1;
    }
    assert(t =~= cs@.subrange(a as int, cs.len() as int));
    let mut r: Vec<char> = Vec::new();
    let mut i = a;
    while i < b
        invariant
            a <= i <= b <= cs.len(),
            r@ == cs@.subrange(a as int, i as int),
        decreases b - i,
    {
        r.push(cs[i]);
        assert(cs@.subrange(a as int, i + 1) =~= cs@.subrange(a as int, i as int).push(cs@[i as int]));
        i = i + 1;
    }
    r
}

} // verus!
