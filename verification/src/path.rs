//! Path resolution for filesystem completion, with paths held as strings: `/` separates
//! components, and on Windows `\` does too and a drive prefix (`C:`) may lead the path.
use vstd::prelude::*;
use vstd::relations::{sorted_by, total_ordering};
use crate::text::{
    chars_of, join_char_vecs, join_with, push_char, starts_with, starts_with_str, string_of,
    to_string,
};

verus! {

/// Whether `c` separates path components.
pub open spec fn is_sep(c: char, on_windows: bool) -> bool {
    c == '/' || (on_windows && c == '\\')
}

/// The separator written between components.
pub open spec fn sep_char(on_windows: bool) -> char {
    if on_windows {
        '\\'
    } else {
        '/'
    }
}

/// The length of the drive prefix (`C:`) that leads a Windows path; none elsewhere.
pub open spec fn prefix_len(s: Seq<char>, on_windows: bool) -> int {
    if on_windows && s.len() >= 2 && is_ascii_alpha(s[0]) && s[1] == ':' {
        2
    } else {
        0
    }
}

/// Whether a path starts at a root directory (after its drive prefix, if any).
pub open spec fn is_rooted(s: Seq<char>, on_windows: bool) -> bool {
    s.len() > prefix_len(s, on_windows) && is_sep(s[prefix_len(s, on_windows)], on_windows)
}

/// Whether a path is absolute: rooted, and on Windows also with a drive prefix.
pub open spec fn is_absolute(s: Seq<char>, on_windows: bool) -> bool {
    is_rooted(s, on_windows) && (!on_windows || prefix_len(s, on_windows) == 2)
}

/// Adds one path segment to the components kept so far: empty and `.` segments vanish,
/// `..` drops the last kept component (nothing above the start is kept), and any other
/// segment is appended.
pub open spec fn add_segment(comps: Seq<Seq<char>>, seg: Seq<char>) -> Seq<Seq<char>> {
    if seg.len() == 0 || seg == seq!['.'] {
        comps
    } else if seg == seq!['.', '.'] {
        if comps.len() > 0 {
            comps.drop_last()
        } else {
            comps
        }
    } else {
        comps.push(seg)
    }
}

/// Components kept so far and the segment being read.
pub struct SegState {
    pub comps: Seq<Seq<char>>,
    pub cur: Seq<char>,
}

pub open spec fn seg_run(s: Seq<char>, on_windows: bool) -> SegState
    decreases s.len(),
{
    if s.len() == 0 {
        SegState { comps: seq![], cur: seq![] }
    } else {
        let st = seg_run(s.drop_last(), on_windows);
        if is_sep(s.last(), on_windows) {
            SegState { comps: add_segment(st.comps, st.cur), cur: seq![] }
        } else {
            SegState { comps: st.comps, cur: st.cur.push(s.last()) }
        }
    }
}

/// The components of a path (after its drive prefix) after lexical normalization.
pub open spec fn norm_components(s: Seq<char>, on_windows: bool) -> Seq<Seq<char>> {
    let st = seg_run(s.skip(prefix_len(s, on_windows)), on_windows);
    add_segment(st.comps, st.cur)
}

/// Writes a drive prefix, a root and components back as a path.
pub open spec fn render_path(prefix: Seq<char>, rooted: bool, comps: Seq<Seq<char>>, on_windows: bool) -> Seq<char> {
    prefix + (if rooted { seq![sep_char(on_windows)] } else { seq![] }) + join_with(comps, seq![sep_char(on_windows)])
}

/// Lexical normalization: `.` segments and repeated separators vanish, `..` removes the
/// previous component (never the root or the drive), and a trailing separator is dropped.
pub open spec fn spec_normalize(s: Seq<char>, on_windows: bool) -> Seq<char> {
    render_path(s.take(prefix_len(s, on_windows)), is_rooted(s, on_windows), norm_components(s, on_windows), on_windows)
}

/// `base` joined with `rel` (`Path::join`): an absolute `rel`, or one with a drive prefix,
/// replaces `base`; on Windows a `rel` that starts at a root keeps only `base`'s drive;
/// otherwise a separator is put between them unless `base` ends with one (or is a bare
/// drive).
pub open spec fn spec_join_on(base: Seq<char>, rel: Seq<char>, on_windows: bool) -> Seq<char> {
    if is_absolute(rel, on_windows) || prefix_len(rel, on_windows) == 2 || base.len() == 0 {
        rel
    } else if is_rooted(rel, on_windows) {
        base.take(prefix_len(base, on_windows)) + rel
    } else if is_sep(base.last(), on_windows) || (prefix_len(base, on_windows) == 2 && base.len() == 2) {
        base + rel
    } else {
        base + seq![sep_char(on_windows)] + rel
    }
}


/// Expansion of a leading `~`: `~` alone and `~/...` use the home directory (none without
/// one), other `~` forms are refused, and anything else is kept.
pub open spec fn spec_expand_home(input: Seq<char>, home: Option<Seq<char>>, on_windows: bool) -> Option<Seq<char>> {
    if input == seq!['~'] {
        home
    } else if input.len() >= 2 && input[0] == '~' && input[1] == '/' {
        match home {
            Some(h) => Some(spec_join_on(h, input.skip(2), on_windows)),
            None => None,
        }
    } else if input.len() > 0 && input[0] == '~' {
        None
    } else {
        Some(input)
    }
}

/// The input resolved against `cwd`, then normalized.
pub open spec fn spec_resolve(cwd: Seq<char>, input: Seq<char>, home: Option<Seq<char>>, on_windows: bool) -> Option<
    Seq<char>,
> {
    match spec_expand_home(input, home, on_windows) {
        Some(e) => Some(spec_normalize(spec_join_on(cwd, e, on_windows), on_windows)),
        None => None,
    }
}

/// Converts a Git Bash drive path (`/c/...`) to a Windows path when running on Windows.
pub open spec fn spec_shell_cwd_to_path(cwd: Seq<char>, on_windows: bool) -> Seq<char> {
    if on_windows && cwd.len() >= 3 && cwd[0] == '/' && cwd[2] == '/' && is_ascii_alpha(cwd[1]) {
        seq![ascii_upper(cwd[1]), ':', '\\'] + cwd.skip(3).map_values(
            |c: char| if c == '/' { '\\' } else { c },
        )
    } else {
        cwd
    }
}

pub open spec fn is_ascii_alpha(c: char) -> bool {
    ('a' <= c && c <= 'z') || ('A' <= c && c <= 'Z')
}

pub open spec fn ascii_upper(c: char) -> char {
    if 'a' <= c && c <= 'z' {
        ((c as u8) - 32) as char
    } else {
        c
    }
}

/// The directory to list and the name prefix to match, for a resolved input.
pub open spec fn spec_search_location(cwd: Seq<char>, input: Seq<char>, home: Option<Seq<char>>, on_windows: bool) -> Option<
    (Seq<char>, Seq<char>),
> {
    match spec_expand_home(input, home, on_windows) {
        None => None,
        Some(e) => {
            let j = spec_join_on(cwd, e, on_windows);
            let comps = norm_components(j, on_windows);
            let prefix = j.take(prefix_len(j, on_windows));
            if input.len() == 0 || input.last() == '/' || input.last() == '\\' {
                Some((render_path(prefix, is_rooted(j, on_windows), comps, on_windows), seq![]))
            } else if comps.len() == 0 {
                Some((seq!['.'], seq![]))
            } else {
                Some((render_path(prefix, is_rooted(j, on_windows), comps.drop_last(), on_windows), comps.last()))
            }
        },
    }
}

fn ascii_upper_exec(c: char) -> (r: char)
    ensures
        r == ascii_upper(c),
{
    if 'a' <= c && c <= 'z' {
        ((c as u8) - 32) as char
    } else {
        c
    }
}

/// Converts the working directory that a shell reports into a native path: on Windows a
/// Git Bash path `/c/dir/sub` becomes `C:\dir\sub`; anything else is kept.
pub fn shell_cwd_to_path(cwd: &str, on_windows: bool) -> (r: String)
    ensures
        r@ == spec_shell_cwd_to_path(cwd@, on_windows),
{
    let cs = chars_of(cwd);
    if on_windows && cs.len() >= 3 && cs[0] == '/' && cs[2] == '/' && (('a' <= cs[1] && cs[1]
        <= 'z') || ('A' <= cs[1] && cs[1] <= 'Z')) {
        let mut r = String::new();
        push_char(&mut r, ascii_upper_exec(cs[1]));
        push_char(&mut r, ':');
        push_char(&mut r, '\\');
        let ghost head = r@;
        let ghost tail = cs@.skip(3).map_values(|c: char| if c == '/' { '\\' } else { c });
        let mut i: usize = 3;
        while i < cs.len()
            invariant
                3 <= i <= cs.len(),
                cs@ == cwd@,
                tail == cs@.skip(3).map_values(|c: char| if c == '/' { '\\' } else { c }),
                r@ == head + tail.take(i - 3),
            decreases cs.len() - i,
        {
            let c = cs[i];
            push_char(&mut r, if c == '/' { '\\' } else { c });
            proof {
                assert(tail.take(i + 1 - 3) =~= tail.take(i - 3).push(tail[i - 3]));
            }
            i = i + 1;
        }
        assert(tail.take(cs.len() - 3) =~= tail);
        r
    } else {
        to_string(cwd)
    }
}

fn is_dot(v: &Vec<char>) -> (r: bool)
    ensures
        r == (v@ == seq!['.']),
{
    if v.len() == 1 && v[0] == '.' {
        assert(v@ =~= seq!['.']);
        true
    } else {
        false
    }
}

fn is_dot_dot(v: &Vec<char>) -> (r: bool)
    ensures
        r == (v@ == seq!['.', '.']),
{
    if v.len() == 2 && v[0] == '.' && v[1] == '.' {
        assert(v@ =~= seq!['.', '.']);
        true
    } else {
        false
    }
}

pub open spec fn vec_views(v: Seq<Vec<char>>) -> Seq<Seq<char>> {
    Seq::new(v.len(), |i: int| v[i]@)
}

fn add_segment_exec(comps: &mut Vec<Vec<char>>, seg: Vec<char>)
    ensures
        vec_views(final(comps)@) == add_segment(vec_views(old(comps)@), seg@),
{
    if seg.len() == 0 || is_dot(&seg) {
    } else if is_dot_dot(&seg) {
        if comps.len() > 0 {
            let ghost before = vec_views(comps@);
            comps.pop();
            assert(vec_views(comps@) =~= before.drop_last());
        }
    } else {
        let ghost before = vec_views(comps@);
        comps.push(seg);
        assert(vec_views(comps@) =~= before.push(seg@));
    }
}

fn is_sep_exec(c: char, on_windows: bool) -> (r: bool)
    ensures
        r == is_sep(c, on_windows),
{
    c == '/' || (on_windows && c == '\\')
}

fn prefix_len_exec(cs: &Vec<char>, on_windows: bool) -> (r: usize)
    ensures
        r == prefix_len(cs@, on_windows),
{
    if on_windows && cs.len() >= 2 && (('a' <= cs[0] && cs[0] <= 'z') || ('A' <= cs[0] && cs[0] <= 'Z'))
        && cs[1] == ':' {
        2
    } else {
        0
    }
}

fn is_rooted_exec(cs: &Vec<char>, on_windows: bool) -> (r: bool)
    ensures
        r == is_rooted(cs@, on_windows),
{
    let p = prefix_len_exec(cs, on_windows);
    cs.len() > p && is_sep_exec(cs[p], on_windows)
}

/// The first `n` characters.
fn take_chars(cs: &Vec<char>, n: usize) -> (r: Vec<char>)
    requires
        n <= cs@.len(),
    ensures
        r@ == cs@.take(n as int),
{
    let mut r: Vec<char> = Vec::new();
    let mut i: usize = 0;
    while i < n
        invariant
            i <= n <= cs@.len(),
            r@ == cs@.take(i as int),
        decreases n - i,
    {
        r.push(cs[i]);
        assert(cs@.take(i + 1) =~= cs@.take(i as int).push(cs@[i as int]));
        i = i + 1;
    }
    r
}

/// Appends characters.
fn append_chars(r: &mut Vec<char>, rel: &Vec<char>)
    ensures
        final(r)@ == old(r)@ + rel@,
{
    let ghost start = r@;
    let mut i: usize = 0;
    while i < rel.len()
        invariant
            i <= rel.len(),
            r@ == start + rel@.take(i as int),
        decreases rel.len() - i,
    {
        r.push(rel[i]);
        assert(rel@.take(i + 1) =~= rel@.take(i as int).push(rel@[i as int]));
        i = i + 1;
    }
    assert(rel@.take(rel.len() as int) =~= rel@);
}

/// The normalized components of a path, after its drive prefix.
fn components_of(cs: &Vec<char>, on_windows: bool) -> (r: Vec<Vec<char>>)
    ensures
        vec_views(r@) == norm_components(cs@, on_windows),
{
    let p = prefix_len_exec(cs, on_windows);
    let ghost t = cs@.skip(p as int);
    let mut comps: Vec<Vec<char>> = Vec::new();
    let mut cur: Vec<char> = Vec::new();
    let mut i: usize = p;
    assert(t.take(0) =~= Seq::<char>::empty());
    while i < cs.len()
        invariant
            p <= i <= cs.len(),
            p <= cs@.len(),
            t == cs@.skip(p as int),
            vec_views(comps@) == seg_run(t.take(i - p), on_windows).comps,
            cur@ == seg_run(t.take(i - p), on_windows).cur,
        decreases cs.len() - i,
    {
        proof {
            assert(t.take(i + 1 - p).drop_last() =~= t.take(i - p));
            assert(t.take(i + 1 - p).last() == cs@[i as int]);
        }
        let c = cs[i];
        if is_sep_exec(c, on_windows) {
            let seg = cur;
            cur = Vec::new();
            add_segment_exec(&mut comps, seg);
        } else {
            cur.push(c);
        }
        i = i + 1;
    }
    assert(t.take(cs.len() - p) =~= t);
    add_segment_exec(&mut comps, cur);
    comps
}

fn render_exec(prefix: &Vec<char>, rooted: bool, comps: &Vec<Vec<char>>, on_windows: bool) -> (r: String)
    ensures
        r@ == render_path(prefix@, rooted, vec_views(comps@), on_windows),
{
    let body = if on_windows {
        join_char_vecs(comps, "\\")
    } else {
        join_char_vecs(comps, "/")
    };
    let mut r = string_of(prefix.as_slice());
    if rooted {
        push_char(&mut r, if on_windows { '\\' } else { '/' });
    }
    proof {
        reveal_strlit("/");
        reveal_strlit("\\");
        assert(seq!['/'] =~= "/"@);
        assert(seq!['\\'] =~= "\\"@);
        assert(vec_views(comps@) =~= Seq::new(comps@.len(), |i: int| comps@[i]@));
    }
    r.append(body.as_str());
    r
}

/// A path normalized on its own: its drive prefix, whether it is rooted, and its
/// components.
fn normalize_exec(cs: &Vec<char>, on_windows: bool) -> (r: String)
    ensures
        r@ == spec_normalize(cs@, on_windows),
{
    let comps = components_of(cs, on_windows);
    let prefix = take_chars(cs, prefix_len_exec(cs, on_windows));
    let rooted = is_rooted_exec(cs, on_windows);
    render_exec(&prefix, rooted, &comps, on_windows)
}

/// Lexically normalizes a path without touching the filesystem (`on_windows` selects the
/// Windows path syntax).
pub fn normalize_path(path: &str, on_windows: bool) -> (r: String)
    ensures
        r@ == spec_normalize(path@, on_windows),
{
    let cs = chars_of(path);
    normalize_exec(&cs, on_windows)
}

pub fn join_exec(base: &Vec<char>, rel: &Vec<char>, on_windows: bool) -> (r: Vec<char>)
    ensures
        r@ == spec_join_on(base@, rel@, on_windows),
{
    let rp = prefix_len_exec(rel, on_windows);
    let rooted_rel = is_rooted_exec(rel, on_windows);
    let absolute = rooted_rel && (!on_windows || rp == 2);
    if absolute || rp == 2 || base.len() == 0 {
        rel.clone()
    } else if rooted_rel {
        let bp = prefix_len_exec(base, on_windows);
        let mut r = take_chars(base, bp);
        append_chars(&mut r, rel);
        r
    } else {
        let mut r = base.clone();
        let bare_drive = prefix_len_exec(base, on_windows) == 2 && base.len() == 2;
        if !(is_sep_exec(base[base.len() - 1], on_windows) || bare_drive) {
            r.push(if on_windows { '\\' } else { '/' });
        }
        append_chars(&mut r, rel);
        r
    }
}

fn expand_home(input: &Vec<char>, home: Option<&str>, on_windows: bool) -> (r: Option<Vec<char>>)
    ensures
        match r {
            Some(v) => spec_expand_home(input@, match home {
                Some(h) => Some(h@),
                None => None,
            }, on_windows) == Some(v@),
            None => spec_expand_home(input@, match home {
                Some(h) => Some(h@),
                None => None,
            }, on_windows) is None,
        },
{
    if input.len() == 1 && input[0] == '~' {
        assert(input@ =~= seq!['~']);
        match home {
            Some(h) => Some(chars_of(h)),
            None => None,
        }
    } else if input.len() >= 2 && input[0] == '~' && input[1] == '/' {
        assert(input@ != seq!['~']);
        match home {
            Some(h) => {
                let hv = chars_of(h);
                let mut rest: Vec<char> = Vec::new();
                let mut i: usize = 2;
                while i < input.len()
                    invariant
                        2 <= i <= input.len(),
                        rest@ == input@.subrange(2, i as int),
                    decreases input.len() - i,
                {
                    rest.push(input[i]);
                    assert(input@.subrange(2, i + 1) =~= input@.subrange(2, i as int).push(input@[i as int]));
                    i = i + 1;
                }
                assert(rest@ =~= input@.skip(2));
                Some(join_exec(&hv, &rest, on_windows))
            },
            None => None,
        }
    } else if input.len() > 0 && input[0] == '~' {
        assert(input@ != seq!['~']);
        None
    } else {
        assert(input@ != seq!['~']);
        Some(input.clone())
    }
}

/// Resolves `input` against `cwd` (expanding a leading `~` with `home`) and normalizes the
/// result; `None` when `~` cannot be expanded.
pub fn resolve_path(cwd: &str, input: &str, home: Option<&str>, on_windows: bool) -> (r: Option<String>)
    ensures
        match r {
            Some(p) => spec_resolve(cwd@, input@, match home {
                Some(h) => Some(h@),
                None => None,
            }, on_windows) == Some(p@),
            None => spec_resolve(cwd@, input@, match home {
                Some(h) => Some(h@),
                None => None,
            }, on_windows) is None,
        },
{
    let iv = chars_of(input);
    match expand_home(&iv, home, on_windows) {
        None => None,
        Some(e) => {
            let cv = chars_of(cwd);
            let j = join_exec(&cv, &e, on_windows);
            Some(normalize_exec(&j, on_windows))
        },
    }
}

/// `base` joined with `rel` (`Path::join`), in the path syntax that `on_windows` selects.
pub fn join_path_on(base: &str, rel: &str, on_windows: bool) -> (r: String)
    ensures
        r@ == spec_join_on(base@, rel@, on_windows),
{
    let b = chars_of(base);
    let rv = chars_of(rel);
    let j = join_exec(&b, &rv, on_windows);
    string_of(j.as_slice())
}

/// The directory to list and the name prefix to match for an input typed in `cwd`.
pub fn search_location(cwd: &str, input: &str, home: Option<&str>, on_windows: bool) -> (r: Option<(String, String)>)
    ensures
        match r {
            Some((d, p)) => spec_search_location(cwd@, input@, match home {
                Some(h) => Some(h@),
                None => None,
            }, on_windows) == Some((d@, p@)),
            None => spec_search_location(cwd@, input@, match home {
                Some(h) => Some(h@),
                None => None,
            }, on_windows) is None,
        },
{
    let iv = chars_of(input);
    match expand_home(&iv, home, on_windows) {
        None => None,
        Some(e) => {
            let cv = chars_of(cwd);
            let j = join_exec(&cv, &e, on_windows);
            let mut comps = components_of(&j, on_windows);
            let prefix = take_chars(&j, prefix_len_exec(&j, on_windows));
            let rooted = is_rooted_exec(&j, on_windows);
            let n = iv.len();
            if n == 0 || iv[n - 1] == '/' || iv[n - 1] == '\\' {
                Some((render_exec(&prefix, rooted, &comps, on_windows), String::new()))
            } else if comps.len() == 0 {
                let mut d = String::new();
                push_char(&mut d, '.');
                Some((d, String::new()))
            } else {
                let ghost all = comps@;
                let last = comps.pop().unwrap();
                proof {
                    assert(vec_views(comps@) =~= vec_views(all).drop_last());
                    assert(vec_views(all).last() == last@);
                }
                Some((render_exec(&prefix, rooted, &comps, on_windows), string_of(last.as_slice())))
            }
        },
    }
}

/// A completion for a path: the text to insert and whether it names a directory.
#[derive(Debug, Clone, PartialEq, Eq)]
pub struct PathCandidate {
    pub value: String,
    pub is_directory: bool,
}

/// One entry of the searched directory: its name, its kind and its modification time (in
/// nanoseconds from the Unix epoch, negative before it).
#[derive(Debug)]
pub struct DirEntryInfo {
    pub name: String,
    pub is_directory: bool,
    pub modified: i128,
}

/// A directory entry taken by value.
pub struct EntryView {
    pub name: Seq<char>,
    pub is_directory: bool,
    pub modified: i128,
}

impl View for DirEntryInfo {
    type V = EntryView;

    open spec fn view(&self) -> EntryView {
        EntryView { name: self.name@, is_directory: self.is_directory, modified: self.modified }
    }
}

pub open spec fn entry_views(v: Seq<DirEntryInfo>) -> Seq<EntryView> {
    v.map_values(|e: DirEntryInfo| e@)
}

/// Names in code-point order (the order of `str`'s `cmp`).
pub open spec fn name_le(a: Seq<char>, b: Seq<char>) -> bool
    decreases a.len(),
{
    if a.len() == 0 {
        true
    } else if b.len() == 0 {
        false
    } else if a[0] != b[0] {
        a[0] < b[0]
    } else {
        name_le(a.skip(1), b.skip(1))
    }
}

/// Directories first, then the most recently modified, then by name.
pub open spec fn entry_before(a: EntryView, b: EntryView) -> bool {
    if a.is_directory != b.is_directory {
        a.is_directory
    } else if a.modified != b.modified {
        a.modified > b.modified
    } else {
        name_le(a.name, b.name)
    }
}

pub open spec fn entry_leq() -> spec_fn(EntryView, EntryView) -> bool {
    |a: EntryView, b: EntryView| entry_before(a, b)
}

pub proof fn lemma_name_le_refl(a: Seq<char>)
    ensures
        name_le(a, a),
    decreases a.len(),
{
    if a.len() > 0 {
        lemma_name_le_refl(a.skip(1));
    }
}

pub proof fn lemma_name_le_antisym(a: Seq<char>, b: Seq<char>)
    requires
        name_le(a, b),
        name_le(b, a),
    ensures
        a == b,
    decreases a.len(),
{
    if a.len() > 0 && b.len() > 0 {
        if a[0] == b[0] {
            lemma_name_le_antisym(a.skip(1), b.skip(1));
            assert(a =~= seq![a[0]] + a.skip(1));
            assert(b =~= seq![b[0]] + b.skip(1));
        }
    } else {
        assert(a =~= b);
    }
}

pub proof fn lemma_name_le_trans(a: Seq<char>, b: Seq<char>, c: Seq<char>)
    requires
        name_le(a, b),
        name_le(b, c),
    ensures
        name_le(a, c),
    decreases a.len(),
{
    if a.len() > 0 && b.len() > 0 && c.len() > 0 && a[0] == b[0] && b[0] == c[0] {
        lemma_name_le_trans(a.skip(1), b.skip(1), c.skip(1));
    }
}

pub proof fn lemma_name_le_total(a: Seq<char>, b: Seq<char>)
    ensures
        name_le(a, b) || name_le(b, a),
    decreases a.len(),
{
    if a.len() > 0 && b.len() > 0 && a[0] == b[0] {
        lemma_name_le_total(a.skip(1), b.skip(1));
    }
}

/// The entry order is a total order.
pub proof fn lemma_entry_order_total()
    ensures
        total_ordering(entry_leq()),
{
    let r = entry_leq();
    assert forall|x: EntryView| #[trigger] r(x, x) by {
        lemma_name_le_refl(x.name);
    }
    assert forall|x: EntryView, y: EntryView| #[trigger] r(x, y) && #[trigger] r(y, x) implies x == y by {
        if x.is_directory == y.is_directory && x.modified == y.modified {
            lemma_name_le_antisym(x.name, y.name);
        }
    }
    assert forall|x: EntryView, y: EntryView, z: EntryView| #[trigger] r(x, y) && #[trigger] r(y, z) implies r(x, z) by {
        if x.is_directory == y.is_directory && y.is_directory == z.is_directory && x.modified
            == y.modified && y.modified == z.modified {
            lemma_name_le_trans(x.name, y.name, z.name);
        }
    }
    assert forall|x: EntryView, y: EntryView| #[trigger] r(x, y) || #[trigger] r(y, x) by {
        lemma_name_le_total(x.name, y.name);
    }
}

pub open spec fn ends_with(s: Seq<char>, t: Seq<char>) -> bool {
    t.len() <= s.len() && s.skip(s.len() - t.len()) == t
}

/// Whether an entry is offered: visible, beginning with the prefix, a directory when only
/// directories are wanted, and a file only with one of the allowed suffixes (if any).
pub open spec fn entry_kept(e: EntryView, prefix: Seq<char>, directories_only: bool, suffixes: Seq<Seq<char>>) -> bool {
    &&& !(e.name.len() > 0 && e.name[0] == '.')
    &&& starts_with(e.name, prefix)
    &&& !(directories_only && !e.is_directory)
    &&& (e.is_directory || suffixes.len() == 0 || exists|k: int|
        0 <= k < suffixes.len() && ends_with(e.name, #[trigger] suffixes[k]))
}

pub open spec fn kept_entries(es: Seq<EntryView>, prefix: Seq<char>, directories_only: bool, suffixes: Seq<Seq<char>>) -> Seq<EntryView>
    decreases es.len(),
{
    if es.len() == 0 {
        seq![]
    } else {
        let rest = kept_entries(es.drop_last(), prefix, directories_only, suffixes);
        if entry_kept(es.last(), prefix, directories_only, suffixes) {
            rest.push(es.last())
        } else {
            rest
        }
    }
}

/// Where a completed name goes: after the typed parent path (with the separator that the
/// input uses), or alone.
pub open spec fn spec_display_path(input: Seq<char>, name: Seq<char>) -> Seq<char> {
    let sep = if input.contains('\\') { '\\' } else { '/' };
    match last_separator(input) {
        Some(k) => input.take(k) + seq![sep] + name,
        None => name,
    }
}

/// The position of the last `/` or `\`.
pub open spec fn last_separator(s: Seq<char>) -> Option<int>
    decreases s.len(),
{
    if s.len() == 0 {
        None
    } else if s.last() == '/' || s.last() == '\\' {
        Some(s.len() - 1)
    } else {
        last_separator(s.drop_last())
    }
}

/// The value offered for an entry; directories end in `/`.
pub open spec fn candidate_value(input: Seq<char>, e: EntryView) -> Seq<char> {
    let v = spec_display_path(input, e.name);
    if e.is_directory && !(v.len() > 0 && v.last() == '/') {
        v.push('/')
    } else {
        v
    }
}

pub open spec fn candidate_views(input: Seq<char>, es: Seq<EntryView>) -> Seq<(Seq<char>, bool)> {
    es.map_values(|e: EntryView| (candidate_value(input, e), e.is_directory))
}

pub open spec fn path_views(v: Seq<PathCandidate>) -> Seq<(Seq<char>, bool)> {
    v.map_values(|c: PathCandidate| (c.value@, c.is_directory))
}

/// The completions among the entries of the searched directory: the kept entries in entry
/// order, at most `limit` of them.
pub open spec fn spec_path_candidates(
    entries: Seq<EntryView>,
    input: Seq<char>,
    prefix: Seq<char>,
    directories_only: bool,
    suffixes: Seq<Seq<char>>,
    limit: int,
) -> Seq<(Seq<char>, bool)> {
    let sorted = kept_entries(entries, prefix, directories_only, suffixes).sort_by(entry_leq());
    candidate_views(input, sorted.take(if limit < sorted.len() { limit } else { sorted.len() as int }))
}

pub fn name_le_exec(a: &Vec<char>, b: &Vec<char>) -> (r: bool)
    ensures
        r == name_le(a@, b@),
{
    let mut i: usize = 0;
    assert(a@.skip(0) =~= a@ && b@.skip(0) =~= b@);
    while i < a.len() && i < b.len() && a[i] == b[i]
        invariant
            i <= a@.len(),
            i <= b@.len(),
            name_le(a@, b@) == name_le(a@.skip(i as int), b@.skip(i as int)),
        decreases a.len() - i,
    {
        assert(a@.skip(i as int).skip(1) =~= a@.skip(i + 1));
        assert(b@.skip(i as int).skip(1) =~= b@.skip(i + 1));
        i = i + 1;
    }
    if i == a.len() {
        true
    } else if i == b.len() {
        false
    } else {
        a[i] < b[i]
    }
}

fn entry_before_exec(a: &DirEntryInfo, b: &DirEntryInfo) -> (r: bool)
    ensures
        r == entry_before(a@, b@),
{
    if a.is_directory != b.is_directory {
        a.is_directory
    } else if a.modified != b.modified {
        a.modified > b.modified
    } else {
        let an = chars_of(a.name.as_str());
        let bn = chars_of(b.name.as_str());
        name_le_exec(&an, &bn)
    }
}

fn ends_with_str(s: &str, t: &str) -> (r: bool)
    ensures
        r == ends_with(s@, t@),
{
    let sv = chars_of(s);
    let tv = chars_of(t);
    if tv.len() > sv.len() {
        return false;
    }
    let off = sv.len() - tv.len();
    let mut i: usize = 0;
    while i < tv.len()
        invariant
            off + tv.len() == sv.len(),
            sv@ == s@,
            tv@ == t@,
            off + tv@.len() == sv@.len(),
            i <= tv@.len(),
            forall|j: int| 0 <= j < i ==> sv@[off + j] == tv@[j],
        decreases tv.len() - i,
    {
        if sv[off + i] != tv[i] {
            assert(sv@.skip(off as int)[i as int] != tv@[i as int]);
            return false;
        }
        i = i + 1;
    }
    assert(sv@.skip(off as int) =~= tv@);
    true
}

fn is_kept(e: &DirEntryInfo, prefix: &str, directories_only: bool, suffixes: &Vec<String>) -> (r: bool)
    ensures
        r == entry_kept(e@, prefix@, directories_only, crate::text::views(suffixes@)),
{
    let cs = chars_of(e.name.as_str());
    if cs.len() > 0 && cs[0] == '.' {
        return false;
    }
    if !starts_with_str(e.name.as_str(), prefix) {
        return false;
    }
    if directories_only && !e.is_directory {
        return false;
    }
    if e.is_directory || suffixes.len() == 0 {
        return true;
    }
    let ghost sv = crate::text::views(suffixes@);
    let mut k: usize = 0;
    while k < suffixes.len()
        invariant
            !(e.name@.len() > 0 && e.name@[0] == '.'),
            starts_with(e.name@, prefix@),
            !(directories_only && !e.is_directory),
            !e.is_directory,
            k <= suffixes@.len(),
            sv == crate::text::views(suffixes@),
            forall|j: int| 0 <= j < k ==> !ends_with(e.name@, #[trigger] sv[j]),
        decreases suffixes.len() - k,
    {
        if ends_with_str(e.name.as_str(), suffixes[k].as_str()) {
            assert(ends_with(e.name@, sv[k as int]));
            return true;
        }
        k = k + 1;
    }
    false
}

/// Inserts `e` into the sorted list at its place.
fn insert_sorted(sorted: &mut Vec<DirEntryInfo>, e: DirEntryInfo)
    requires
        sorted_by(entry_views(old(sorted)@), entry_leq()),
        total_ordering(entry_leq()),
    ensures
        sorted_by(entry_views(final(sorted)@), entry_leq()),
        entry_views(final(sorted)@).to_multiset() == entry_views(old(sorted)@).to_multiset().insert(e@),
{
    let ghost s = entry_views(sorted@);
    let ghost ev = e@;
    let ghost leq = entry_leq();
    let mut p: usize = 0;
    while p < sorted.len() && entry_before_exec(&sorted[p], &e)
        invariant
            p <= sorted@.len(),
            s == entry_views(sorted@),
            ev == e@,
            leq == entry_leq(),
            forall|i: int| 0 <= i < p ==> leq(#[trigger] s[i], ev),
        decreases sorted.len() - p,
    {
        assert(s[p as int] == sorted@[p as int]@);
        p = p + 1;
    }
    proof {
        if p < s.len() {
            assert(s[p as int] == sorted@[p as int]@);
            assert(!leq(s[p as int], ev));
            assert(leq(ev, s[p as int]));
            assert forall|j: int| p <= j < s.len() implies leq(ev, #[trigger] s[j]) by {
                if j > p {
                    assert(leq(s[p as int], s[j]));
                }
            }
        }
    }
    sorted.insert(p, e);
    proof {
        let t = entry_views(sorted@);
        assert(t =~= s.insert(p as int, ev));
        assert forall|i: int, j: int| 0 <= i < j < t.len() implies #[trigger] leq(t[i], t[j]) by {
            if j < p {
                assert(t[i] == s[i] && t[j] == s[j]);
            } else if j == p {
                assert(t[i] == s[i]);
            } else if i < p {
                assert(t[i] == s[i] && t[j] == s[j - 1]);
                assert(leq(s[i], ev));
                assert(leq(ev, s[j - 1]));
            } else if i == p {
                assert(t[j] == s[j - 1]);
            } else {
                assert(t[i] == s[i - 1] && t[j] == s[j - 1]);
            }
        }
        vstd::seq_lib::to_multiset_insert(s, p as int, ev);
    }
}

fn display_path(input: &Vec<char>, name: &str) -> (r: String)
    ensures
        r@ == spec_display_path(input@, name@),
{
    let mut has_backslash = false;
    let mut k: usize = 0;
    let mut last: Option<usize> = None;
    while k < input.len()
        invariant
            k <= input@.len(),
            has_backslash == input@.take(k as int).contains('\\'),
            last == (match last_separator(input@.take(k as int)) {
                Some(x) => Some(x as usize),
                None => None::<usize>,
            }),
            match last_separator(input@.take(k as int)) {
                Some(x) => 0 <= x < k,
                None => true,
            },
        decreases input.len() - k,
    {
        assert(input@.take(k + 1).drop_last() =~= input@.take(k as int));
        if input[k] == '\\' {
            has_backslash = true;
        }
        if input[k] == '/' || input[k] == '\\' {
            last = Some(k);
        }
        proof {
            if input@.take(k as int).contains('\\') {
                let j = choose|j: int| 0 <= j < k && input@.take(k as int)[j] == '\\';
                assert(input@.take(k + 1)[j] == '\\');
            }
            if input@[k as int] == '\\' {
                assert(input@.take(k + 1)[k as int] == '\\');
            }
        }
        k = k + 1;
    }
    assert(input@.take(input@.len() as int) =~= input@);
    match last {
        Some(x) => {
            let mut r = String::new();
            let mut j: usize = 0;
            while j < x
                invariant
                    j <= x < input@.len(),
                    r@ =~= input@.take(j as int),
                decreases x - j,
            {
                push_char(&mut r, input[j]);
                assert(input@.take(j + 1) =~= input@.take(j as int).push(input@[j as int]));
                j = j + 1;
            }
            push_char(&mut r, if has_backslash { '\\' } else { '/' });
            r.append(name);
            r
        },
        None => to_string(name),
    }
}

fn candidate_of(input: &Vec<char>, e: &DirEntryInfo) -> (r: PathCandidate)
    ensures
        (r.value@, r.is_directory) == (candidate_value(input@, e@), e.is_directory),
{
    let mut value = display_path(input, e.name.as_str());
    if e.is_directory {
        let vs = chars_of(value.as_str());
        if !(vs.len() > 0 && vs[vs.len() - 1] == '/') {
            push_char(&mut value, '/');
        }
    }
    PathCandidate { value, is_directory: e.is_directory }
}

/// The most completions listed for one directory.
pub const DEFAULT_MAX_ENTRIES: usize = 100;

/// The completions among the entries of the searched directory: visible entries that begin
/// with `prefix` and fit the kind and suffix filters, directories first, then the most
/// recently modified, then by name, at most `limit` of them.
pub fn list_path_candidates_with_limit(
    entries: Vec<DirEntryInfo>,
    input: &str,
    prefix: &str,
    directories_only: bool,
    allowed_suffixes: &Vec<String>,
    limit: usize,
) -> (r: Vec<PathCandidate>)
    ensures
        path_views(r@) == spec_path_candidates(
            entry_views(entries@),
            input@,
            prefix@,
            directories_only,
            crate::text::views(allowed_suffixes@),
            limit as int,
        ),
{
    proof {
        lemma_entry_order_total();
    }
    let ghost all = entry_views(entries@);
    let ghost sv = crate::text::views(allowed_suffixes@);
    let ghost kept = kept_entries(all, prefix@, directories_only, sv);
    let mut rest = entries;
    let mut sorted: Vec<DirEntryInfo> = Vec::new();
    assert(entry_views(sorted@) =~= seq![]);
    assert(entry_views(rest@) =~= all.take(rest@.len() as int));
    proof {
        broadcast use vstd::multiset::group_multiset_axioms;
        broadcast use vstd::seq_lib::group_to_multiset_ensures;
        assert(all.take(rest@.len() as int) =~= all);
        assert(entry_views(sorted@).to_multiset() =~= vstd::multiset::Multiset::empty());
        assert(kept.to_multiset().add(vstd::multiset::Multiset::empty()) =~= kept.to_multiset());
    }
    while rest.len() > 0
        invariant
            entry_views(rest@) =~= all.take(rest@.len() as int),
            rest@.len() <= all.len(),
            sv == crate::text::views(allowed_suffixes@),
            kept == kept_entries(all, prefix@, directories_only, sv),
            total_ordering(entry_leq()),
            sorted_by(entry_views(sorted@), entry_leq()),
            kept_entries(entry_views(rest@), prefix@, directories_only, sv).to_multiset().add(
                entry_views(sorted@).to_multiset(),
            ) == kept.to_multiset(),
        decreases rest.len(),
    {
        let ghost before = entry_views(rest@);
        let ghost before_sorted = entry_views(sorted@);
        let e = rest.pop().unwrap();
        proof {
            assert(entry_views(rest@) =~= before.drop_last());
            assert(before.last() == e@);
            assert(entry_views(rest@) =~= all.take(rest@.len() as int));
        }
        if is_kept(&e, prefix, directories_only, allowed_suffixes) {
            insert_sorted(&mut sorted, e);
            proof {
                let k0 = kept_entries(entry_views(rest@), prefix@, directories_only, sv);
                assert(kept_entries(before, prefix@, directories_only, sv) == k0.push(before.last()));
                vstd::seq_lib::lemma_multiset_commutative(k0, seq![before.last()]);
                assert(k0.push(before.last()) =~= k0 + seq![before.last()]);
                assert(k0.push(before.last()).to_multiset() =~= k0.to_multiset().insert(before.last())) by {
                    broadcast use vstd::seq_lib::group_to_multiset_ensures;
                }
                assert(k0.to_multiset().add(entry_views(sorted@).to_multiset()) =~= k0.to_multiset().insert(before.last()).add(before_sorted.to_multiset())) by {
                    broadcast use vstd::multiset::group_multiset_axioms;
                }
            }
        }
    }
    let ghost s = entry_views(sorted@);
    proof {
        assert(kept_entries(entry_views(rest@), prefix@, directories_only, sv) =~= seq![]);
        assert(seq![].to_multiset().add(s.to_multiset()) =~= s.to_multiset()) by {
            broadcast use vstd::multiset::group_multiset_axioms;
            broadcast use vstd::seq_lib::group_to_multiset_ensures;
        }
        kept.lemma_sort_by_ensures(entry_leq());
        vstd::seq_lib::lemma_sorted_unique(s, kept.sort_by(entry_leq()), entry_leq());
    }
    let iv = chars_of(input);
    let n = if limit < sorted.len() { limit } else { sorted.len() };
    let mut out: Vec<PathCandidate> = Vec::new();
    let mut i: usize = 0;
    while i < n
        invariant
            i <= n <= sorted@.len(),
            iv@ == input@,
            s == entry_views(sorted@),
            path_views(out@) =~= candidate_views(input@, s.take(i as int)),
        decreases n - i,
    {
        let c = candidate_of(&iv, &sorted[i]);
        let ghost before = out@;
        out.push(c);
        assert(s.take(i + 1) =~= s.take(i as int).push(s[i as int]));
        assert(path_views(out@) =~= path_views(before).push((c.value@, c.is_directory)));
        i = i + 1;
    }
    out
}

/// The completions among the entries, at most `DEFAULT_MAX_ENTRIES` of them.
pub fn list_path_candidates(
    entries: Vec<DirEntryInfo>,
    input: &str,
    prefix: &str,
    directories_only: bool,
    allowed_suffixes: &Vec<String>,
) -> (r: Vec<PathCandidate>)
    ensures
        path_views(r@) == spec_path_candidates(
            entry_views(entries@),
            input@,
            prefix@,
            directories_only,
            crate::text::views(allowed_suffixes@),
            DEFAULT_MAX_ENTRIES as int,
        ),
{
    list_path_candidates_with_limit(entries, input, prefix, directories_only, allowed_suffixes, DEFAULT_MAX_ENTRIES)
}

} // verus!
