//! What the library keeps of the tools it runs for completions: their capped output and a
//! short-lived cache of it.
use vstd::prelude::*;
use vstd::utf8::{decode_utf8, valid_utf8};
use crate::cache::{lookup, stored, ExpiringCache, Slot};

verus! {

/// How long a tool may run, in milliseconds.
pub const DEFAULT_TIMEOUT_MS: u64 = 80;
/// How long a tool's output stays cached, in milliseconds.
pub const DEFAULT_CACHE_TTL_MS: u64 = 2000;
/// The most output bytes kept from a tool.
pub const DEFAULT_OUTPUT_CAP: usize = 16384;

/// A tool's standard output and exit status (none when it did not finish).
#[derive(Debug, Clone, PartialEq, Eq)]
pub struct ProcessOutput {
    pub stdout: String,
    pub status: Option<i32>,
}

impl ProcessOutput {
    /// Whether two outputs hold the same text and status.
    pub open spec fn same_as(self, other: ProcessOutput) -> bool {
        self.stdout@ == other.stdout@ && self.status == other.status
    }

    /// A copy of the output.
    pub fn duplicate(&self) -> (r: ProcessOutput)
        ensures
            r.same_as(*self),
    {
        ProcessOutput { stdout: self.stdout.clone(), status: self.status }
    }
}

impl Default for ProcessOutput {
    fn default() -> (r: Self)
        ensures
            r.stdout@ == Seq::<char>::empty(),
            r.status is None,
    {
        ProcessOutput { stdout: String::new(), status: None }
    }
}

/// The text that `String::from_utf8_lossy` makes of some bytes (invalid sequences become
/// U+FFFD).
pub uninterp spec fn utf8_lossy(bytes: Seq<u8>) -> Seq<char>;

/// Decodes bytes as UTF-8 with `String::from_utf8_lossy`: valid UTF-8 is decoded as it
/// stands; otherwise the contract only names the result.
#[verifier::external_body]
fn lossy_string(bytes: &[u8]) -> (r: String)
    ensures
        r@ == utf8_lossy(bytes@),
        valid_utf8(bytes@) ==> r@ == decode_utf8(bytes@),
{
    String::from_utf8_lossy(bytes).into_owned()
}

/// At most `output_cap` bytes of a tool's output, decoded as UTF-8 (invalid sequences
/// replaced).
pub fn capped_utf8(bytes: &[u8], output_cap: usize) -> (r: String)
    ensures
        r@ == utf8_lossy(bytes@.take(if bytes@.len() < output_cap { bytes@.len() as int } else { output_cap as int })),
        valid_utf8(bytes@.take(if bytes@.len() < output_cap { bytes@.len() as int } else { output_cap as int }))
            ==> r@ == decode_utf8(bytes@.take(if bytes@.len() < output_cap { bytes@.len() as int } else { output_cap as int })),
{
    let length = if bytes.len() < output_cap { bytes.len() } else { output_cap };
    let mut kept: Vec<u8> = Vec::new();
    let mut i: usize = 0;
    while i < length
        invariant
            i <= length <= bytes@.len(),
            kept@ =~= bytes@.take(i as int),
        decreases length - i,
    {
        kept.push(bytes[i]);
        assert(bytes@.take(i + 1) =~= bytes@.take(i as int).push(bytes@[i as int]));
        i = i + 1;
    }
    lossy_string(kept.as_slice())
}

/// Caches tool outputs by key for `DEFAULT_CACHE_TTL_MS`.
pub struct ProcessRunner {
    cache: ExpiringCache<ProcessOutput>,
}

impl ProcessRunner {
    pub closed spec fn view(&self) -> Map<Seq<char>, Slot<ProcessOutput>> {
        self.cache.view()
    }

    pub closed spec fn ttl(&self) -> u64 {
        self.cache.ttl()
    }

    pub fn new() -> (r: Self)
        ensures
            r.view() == Map::<Seq<char>, Slot<ProcessOutput>>::empty(),
            r.ttl() == DEFAULT_CACHE_TTL_MS,
    {
        ProcessRunner { cache: ExpiringCache::new(DEFAULT_CACHE_TTL_MS) }
    }

    /// The output cached under `key`, while fresh at `now`.
    pub fn cached(&self, key: &str, now: u64) -> (r: Option<&ProcessOutput>)
        ensures
            match r {
                Some(o) => lookup(self.view(), key@, now, seq![]) == Some(*o),
                None => lookup(self.view(), key@, now, seq![]) is None,
            },
    {
        let none: Vec<Option<i128>> = Vec::new();
        assert(none@ =~= seq![]);
        self.cache.get(key, now, &none)
    }

    /// A tool's output, run in `cwd` when one is given: the output cached under `cache_key`
    /// while it is fresh at `now`; else `run` is handed the directory, the program and its
    /// arguments, and what it returns (the output and the time the tool finished) is
    /// cached from that time and returned.
    pub fn run_cached_in_dir<F: FnOnce(Option<String>, String, Vec<String>) -> (ProcessOutput, u64)>(
        &mut self,
        cache_key: String,
        cwd: Option<String>,
        program: String,
        arguments: Vec<String>,
        now: u64,
        run: F,
    ) -> (r: ProcessOutput)
        requires
            call_requires(run, (cwd, program, arguments)),
        ensures
            final(self).ttl() == old(self).ttl(),
            match lookup(old(self).view(), cache_key@, now, seq![]) {
                Some(o) => r.same_as(o) && final(self).view() == old(self).view(),
                None => exists|o: ProcessOutput, t: u64|
                    #[trigger] call_ensures(run, (cwd, program, arguments), (o, t)) && r.same_as(o)
                        && final(self).view() == stored(old(self).view(), cache_key@, o, t, old(self).ttl(), seq![]),
            },
    {
        if let Some(o) = self.cached(cache_key.as_str(), now) {
            return o.duplicate();
        }
        let (output, finished) = run(cwd, program, arguments);
        let r = output.duplicate();
        if finished <= u64::MAX - self.cache.ttl_ms() {
            self.remember(cache_key, output, finished);
        }
        r
    }

    /// `run_cached_in_dir` in the current directory.
    pub fn run_cached<F: FnOnce(Option<String>, String, Vec<String>) -> (ProcessOutput, u64)>(
        &mut self,
        cache_key: String,
        program: String,
        arguments: Vec<String>,
        now: u64,
        run: F,
    ) -> (r: ProcessOutput)
        requires
            call_requires(run, (None::<String>, program, arguments)),
        ensures
            final(self).ttl() == old(self).ttl(),
            match lookup(old(self).view(), cache_key@, now, seq![]) {
                Some(o) => r.same_as(o) && final(self).view() == old(self).view(),
                None => exists|o: ProcessOutput, t: u64|
                    #[trigger] call_ensures(run, (None::<String>, program, arguments), (o, t)) && r.same_as(o)
                        && final(self).view() == stored(old(self).view(), cache_key@, o, t, old(self).ttl(), seq![]),
            },
    {
        self.run_cached_in_dir(cache_key, None, program, arguments, now, run)
    }

    /// Remembers a tool's output under `key` at `now`.
    pub fn remember(&mut self, key: String, output: ProcessOutput, now: u64)
        requires
            now + old(self).ttl() <= u64::MAX,
        ensures
            final(self).view() == old(self).view().insert(key@, (output, (now + old(self).ttl()) as u64, seq![])),
            final(self).ttl() == old(self).ttl(),
    {
        let none: Vec<Option<i128>> = Vec::new();
        assert(none@ =~= seq![]);
        self.cache.insert(key, output, now, none);
    }
}

} // verus!
