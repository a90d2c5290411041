//! What the working directory's project is: the nearest directory with a marker file.
use vstd::prelude::*;
use crate::cache::{lookup, stored, ExpiringCache, Slot};
use crate::text::{copy_string, str_eq, to_string, views};

verus! {

/// What a project knows about itself: the nearest directory with a marker file, and the
/// markers found there.
#[derive(Debug)]
pub struct WorkspaceFacts {
    pub root: Option<String>,
    pub markers: Vec<String>,
}

impl WorkspaceFacts {
    pub open spec fn has_marker(self, marker: Seq<char>) -> bool {
        views(self.markers@).contains(marker)
    }

    /// Whether two facts name the same root and the same markers, in the same order.
    pub open spec fn same_as(self, other: WorkspaceFacts) -> bool {
        &&& (match (self.root, other.root) {
            (Some(a), Some(b)) => a@ == b@,
            (None, None) => true,
            _ => false,
        })
        &&& views(self.markers@) == views(other.markers@)
    }

    /// A copy of the facts.
    pub fn duplicate(&self) -> (r: WorkspaceFacts)
        ensures
            r.same_as(*self),
    {
        let root = match &self.root {
            Some(d) => Some(copy_string(d)),
            None => None,
        };
        let mut markers: Vec<String> = Vec::new();
        let mut i: usize = 0;
        while i < self.markers.len()
            invariant
                i <= self.markers@.len(),
                views(markers@) == views(self.markers@).take(i as int),
            decreases self.markers.len() - i,
        {
            let ghost before = markers@;
            markers.push(copy_string(&self.markers[i]));
            assert(views(markers@) =~= views(before).push(self.markers@[i as int]@));
            assert(views(self.markers@).take(i + 1) =~= views(self.markers@).take(i as int).push(
                self.markers@[i as int]@,
            ));
            i = i + 1;
        }
        assert(views(self.markers@).take(self.markers@.len() as int) =~= views(self.markers@));
        WorkspaceFacts { root, markers }
    }

    /// Whether the marker was found.
    pub fn has(&self, marker: &str) -> (r: bool)
        ensures
            r == self.has_marker(marker@),
    {
        let mut i: usize = 0;
        while i < self.markers.len()
            invariant
                i <= self.markers@.len(),
                forall|j: int| 0 <= j < i ==> self.markers@[j]@ != marker@,
            decreases self.markers.len() - i,
        {
            if str_eq(self.markers[i].as_str(), marker) {
                assert(views(self.markers@)[i as int] == marker@);
                return true;
            }
            i = i + 1;
        }
        assert forall|j: int| 0 <= j < views(self.markers@).len() implies views(self.markers@)[j] != marker@ by {
            assert(views(self.markers@)[j] == self.markers@[j]@);
        }
        false
    }
}

/// The files whose presence marks a project root, in the order they are reported.
pub open spec fn spec_markers() -> Seq<Seq<char>> {
    seq![
        ".git"@,
        "package.json"@,
        "Cargo.toml"@,
        "go.mod"@,
        "pyproject.toml"@,
        "Dockerfile"@,
        "Makefile"@,
        "justfile"@,
    ]
}

/// The marker file names.
pub fn marker_names() -> (r: Vec<String>)
    ensures
        views(r@) =~= spec_markers(),
{
    let names = [".git", "package.json", "Cargo.toml", "go.mod", "pyproject.toml", "Dockerfile", "Makefile", "justfile"];
    let mut r: Vec<String> = Vec::new();
    let mut i: usize = 0;
    while i < 8
        invariant
            i <= 8,
            names@.map_values(|x: &str| x@) =~= spec_markers(),
            views(r@) =~= spec_markers().take(i as int),
        decreases 8 - i,
    {
        let ghost before = r@;
        r.push(to_string(names[i]));
        assert(names@.map_values(|x: &str| x@)[i as int] == names@[i as int]@);
        assert(views(r@) =~= views(before).push(spec_markers()[i as int]));
        i = i + 1;
    }
    r
}

/// How many parent directories are searched above the working directory.
pub const MAX_MARKER_DEPTH: usize = 8;

/// The markers that are present, in marker order.
pub open spec fn present_markers(present: Seq<bool>) -> Seq<Seq<char>>
    decreases present.len(),
{
    if present.len() == 0 {
        seq![]
    } else {
        let i = present.len() - 1;
        let rest = present_markers(present.drop_last());
        if present.last() {
            rest.push(spec_markers()[i])
        } else {
            rest
        }
    }
}

/// The facts of a directory where `present[i]` tells whether the i-th marker exists: the
/// directory is the project root when any marker exists there.
pub fn inspect_level(dir: &str, present: &Vec<bool>) -> (r: Option<WorkspaceFacts>)
    requires
        present@.len() == 8,
    ensures
        match r {
            Some(f) => {
                &&& present_markers(present@).len() > 0
                &&& (match f.root {
                    Some(root) => root@ == dir@,
                    None => false,
                })
                &&& views(f.markers@) == present_markers(present@)
            },
            None => present_markers(present@).len() == 0,
        },
{
    let names = marker_names();
    assert(views(names@).len() == 8);
    assert(names@.len() == 8);
    let mut markers: Vec<String> = Vec::new();
    let mut i: usize = 0;
    while i < 8
        invariant
            i <= 8,
            present@.len() == 8,
            names@.len() == 8,
            views(names@) =~= spec_markers(),
            views(markers@) =~= present_markers(present@.take(i as int)),
        decreases 8 - i,
    {
        assert(present@.take(i + 1).drop_last() =~= present@.take(i as int));
        if present[i] {
            let ghost before = markers@;
            markers.push(names[i].clone());
            assert(views(names@)[i as int] == names@[i as int]@);
            assert(views(markers@) =~= views(before).push(spec_markers()[i as int]));
        }
        i = i + 1;
    }
    assert(present@.take(8) =~= present@);
    if markers.len() > 0 {
        Some(WorkspaceFacts { root: Some(to_string(dir)), markers })
    } else {
        None
    }
}

/// The facts of a directory without markers up to the search depth: no root, no markers.
pub fn no_workspace() -> (r: WorkspaceFacts)
    ensures
        r.root is None,
        r.markers@.len() == 0,
{
    WorkspaceFacts { root: None, markers: Vec::new() }
}

/// The first of the searched levels (the working directory and at most `MAX_MARKER_DEPTH`
/// parents) from `i` on whose flags name a present marker.
pub open spec fn first_marked(present: Seq<Seq<bool>>, i: int) -> Option<int>
    decreases present.len() - i,
{
    if i < 0 || i >= present.len() || i > MAX_MARKER_DEPTH {
        None
    } else if present_markers(present[i]).len() > 0 {
        Some(i)
    } else {
        first_marked(present, i + 1)
    }
}

/// The facts of the working directory found by walking up from it: `dirs[0]` is the
/// working directory and each next one the parent of the one before (the walk stops at
/// the root), and `present[i]` tells which markers exist in `dirs[i]`.  The project root is
/// the first of the working directory and its first `MAX_MARKER_DEPTH` parents that holds a
/// marker; without one there is no root and no marker.
pub fn inspect_workspace(dirs: &Vec<String>, present: &Vec<Vec<bool>>) -> (r: WorkspaceFacts)
    requires
        dirs@.len() == present@.len(),
        forall|i: int| 0 <= i < present@.len() ==> (#[trigger] present@[i])@.len() == 8,
    ensures
        match first_marked(present@.map_values(|v: Vec<bool>| v@), 0) {
            Some(i) => (match r.root {
                Some(root) => root@ == dirs@[i]@,
                None => false,
            }) && views(r.markers@) == present_markers(present@[i]@),
            None => r.root is None && r.markers@.len() == 0,
        },
{
    let ghost flags = present@.map_values(|v: Vec<bool>| v@);
    let mut i: usize = 0;
    while i < dirs.len() && i <= MAX_MARKER_DEPTH
        invariant
            dirs@.len() == present@.len(),
            forall|j: int| 0 <= j < present@.len() ==> (#[trigger] present@[j])@.len() == 8,
            flags == present@.map_values(|v: Vec<bool>| v@),
            i <= present@.len(),
            first_marked(flags, 0) == first_marked(flags, i as int),
        decreases dirs@.len() - i,
    {
        assert(flags[i as int] == present@[i as int]@);
        if let Some(f) = inspect_level(dirs[i].as_str(), &present[i]) {
            return f;
        }
        i = i + 1;
    }
    no_workspace()
}

/// How long detected facts stay fresh, in milliseconds.
pub const DEFAULT_CACHE_TTL_MS: u64 = 2000;

/// Caches detected workspace facts per directory, for a time to live and as long as the
/// markers' modification times are unchanged.
pub struct WorkspaceDetector {
    cache: ExpiringCache<WorkspaceFacts>,
}

impl WorkspaceDetector {
    pub closed spec fn view(&self) -> Map<Seq<char>, Slot<WorkspaceFacts>> {
        self.cache.view()
    }

    pub closed spec fn ttl(&self) -> u64 {
        self.cache.ttl()
    }

    pub fn new() -> (r: Self)
        ensures
            r.view() == Map::<Seq<char>, Slot<WorkspaceFacts>>::empty(),
            r.ttl() == DEFAULT_CACHE_TTL_MS,
    {
        Self::with_ttl(DEFAULT_CACHE_TTL_MS)
    }

    pub fn with_ttl(ttl_ms: u64) -> (r: Self)
        ensures
            r.view() == Map::<Seq<char>, Slot<WorkspaceFacts>>::empty(),
            r.ttl() == ttl_ms,
    {
        WorkspaceDetector { cache: ExpiringCache::new(ttl_ms) }
    }

    pub fn ttl_ms(&self) -> (r: u64)
        ensures
            r == self.ttl(),
    {
        self.cache.ttl_ms()
    }

    /// The facts cached for `dir`, if still fresh at `now` and the markers' fingerprint is
    /// the one they were detected with.
    pub fn cached(&self, dir: &str, fingerprint: &Vec<Option<i128>>, now: u64) -> (r: Option<&WorkspaceFacts>)
        ensures
            match r {
                Some(f) => lookup(self.view(), dir@, now, fingerprint@) == Some(*f),
                None => lookup(self.view(), dir@, now, fingerprint@) is None,
            },
    {
        self.cache.get(dir, now, fingerprint)
    }

    /// The facts of the directory `dir`: the cached ones while they are fresh at `now` and
    /// the markers' fingerprint is unchanged; else `inspect` is handed the directory, and
    /// what it returns (the facts and the time the inspection finished) is cached from that
    /// time, with the fingerprint, and returned.
    pub fn detect<F: FnOnce(String) -> (WorkspaceFacts, u64)>(
        &mut self,
        dir: String,
        fingerprint: Vec<Option<i128>>,
        now: u64,
        inspect: F,
    ) -> (r: WorkspaceFacts)
        requires
            call_requires(inspect, (dir,)),
        ensures
            final(self).ttl() == old(self).ttl(),
            match lookup(old(self).view(), dir@, now, fingerprint@) {
                Some(f) => r.same_as(f) && final(self).view() == old(self).view(),
                None => exists|f: WorkspaceFacts, t: u64|
                    #[trigger] call_ensures(inspect, (dir,), (f, t)) && r.same_as(f)
                        && final(self).view() == stored(old(self).view(), dir@, f, t, old(self).ttl(), fingerprint@),
            },
    {
        if let Some(f) = self.cached(dir.as_str(), &fingerprint, now) {
            return f.duplicate();
        }
        let key = copy_string(&dir);
        let (facts, finished) = inspect(dir);
        let r = facts.duplicate();
        if finished <= u64::MAX - self.cache.ttl_ms() {
            self.remember(key, facts, fingerprint, finished);
        }
        r
    }

    /// Remembers the facts detected for `dir` at `now`.
    pub fn remember(&mut self, dir: String, facts: WorkspaceFacts, fingerprint: Vec<Option<i128>>, now: u64)
        requires
            now + old(self).ttl() <= u64::MAX,
        ensures
            final(self).view() == old(self).view().insert(dir@, (facts, (now + old(self).ttl()) as u64, fingerprint@)),
            final(self).ttl() == old(self).ttl(),
    {
        self.cache.insert(dir, facts, now, fingerprint);
    }
}

/// Facts that `detect` stored for a directory are reused only while they are fresh and the
/// markers' fingerprint is the one they were stored with: once a marker file appears,
/// disappears or changes (another fingerprint), the next `detect` inspects the directory
/// again; with the same fingerprint within the time to live it reuses them.
pub proof fn lemma_detect_invalidates(
    m: Map<Seq<char>, Slot<WorkspaceFacts>>,
    dir: Seq<char>,
    facts: WorkspaceFacts,
    t: u64,
    ttl: u64,
    fp: Seq<Option<i128>>,
    later: u64,
    other_fp: Seq<Option<i128>>,
)
    requires
        t + ttl <= u64::MAX,
    ensures
        other_fp != fp ==> lookup(stored(m, dir, facts, t, ttl, fp), dir, later, other_fp) is None,
        t <= later < t + ttl ==> lookup(stored(m, dir, facts, t, ttl, fp), dir, later, fp) == Some(facts),
        later >= t + ttl ==> lookup(stored(m, dir, facts, t, ttl, fp), dir, later, fp) is None,
{
    crate::cache::lemma_read_after_write(m, dir, facts, t, ttl, fp, later, other_fp, dir);
}

} // verus!
