//! Ranking suggestions: fuzzy matching of the history, the tiers of the history ranking, and
//! the merge of history with context candidates.
//!
//! Scores are carried as integer keys whose order is the order of the scores.
use vstd::prelude::*;
use fuzzy_matcher::FuzzyMatcher;
use crate::path::{
    lemma_name_le_antisym, lemma_name_le_refl, lemma_name_le_total, lemma_name_le_trans, name_le,
    name_le_exec,
};
use crate::text::chars_of;
use vstd::relations::{sorted_by, total_ordering};
use crate::text::{join_strings, join_with, starts_with, starts_with_str, str_eq, to_string, views, words, split_whitespace, lemma_words_proper, lemma_words_of_join};

verus! {

/// A ranked suggestion.
#[derive(Debug)]
pub struct Ranked {
    pub command: String,
    pub description: Option<String>,
    /// Orders suggestions as their scores do.
    pub score_key: i64,
    pub frequency: i64,
    pub source: String,
}

pub struct RankedView {
    pub command: Seq<char>,
    pub description: Option<Seq<char>>,
    pub score_key: i64,
    pub frequency: i64,
    pub source: Seq<char>,
}

pub open spec fn opt_view(o: Option<String>) -> Option<Seq<char>> {
    match o {
        Some(s) => Some(s@),
        None => None,
    }
}

impl View for Ranked {
    type V = RankedView;

    open spec fn view(&self) -> RankedView {
        RankedView {
            command: self.command@,
            description: opt_view(self.description),
            score_key: self.score_key,
            frequency: self.frequency,
            source: self.source@,
        }
    }
}

pub open spec fn ranked_views(v: Seq<Ranked>) -> Seq<RankedView> {
    v.map_values(|r: Ranked| r@)
}

/// A command with its white space runs collapsed to single spaces (and trimmed).
pub open spec fn spec_normalize_command(c: Seq<char>) -> Seq<char> {
    join_with(words(c), " "@)
}

/// Normalizing a command that is already normalized changes nothing, so a merge key is
/// stable under normalization.
pub proof fn lemma_normalize_idempotent(c: Seq<char>)
    ensures
        spec_normalize_command(spec_normalize_command(c)) == spec_normalize_command(c),
{
    lemma_words_proper(c);
    lemma_words_of_join(words(c));
}

pub fn normalize_command(command: &str) -> (r: String)
    ensures
        r@ == spec_normalize_command(command@),
{
    let ws = split_whitespace(command);
    join_strings(&ws, " ")
}

/// The sources whose candidates come from the context.
pub open spec fn is_context_source(s: Seq<char>) -> bool {
    s == "path"@ || s == "git"@ || s == "npm"@ || s == "docker"@ || s == "ssh"@ || s == "zoxide"@
}

/// Suggestions that extend the input come first, then context candidates, then the rest.
pub open spec fn spec_match_tier(command: Seq<char>, source: Seq<char>, input: Seq<char>) -> u8 {
    if starts_with(command, input) {
        0
    } else if is_context_source(source) {
        1
    } else {
        2
    }
}

pub fn match_tier(suggestion: &Ranked, input: &str) -> (r: u8)
    ensures
        r == spec_match_tier(suggestion.command@, suggestion.source@, input@),
{
    if starts_with_str(suggestion.command.as_str(), input) {
        0
    } else {
        let s = suggestion.source.as_str();
        if str_eq(s, "path") || str_eq(s, "git") || str_eq(s, "npm") || str_eq(s, "docker") || str_eq(s, "ssh")
            || str_eq(s, "zoxide") {
            1
        } else {
            2
        }
    }
}

/// The score that fuzzy-matcher's default skim matcher gives `choice` for `pattern`, or
/// none when it does not match.
pub uninterp spec fn skim_score(choice: Seq<char>, pattern: Seq<char>) -> Option<i64>;

/// Fuzzy-matches with `SkimMatcherV2::default().fuzzy_match`. The result is named; the
/// matcher scores an empty pattern 0.
#[verifier::external_body]
fn skim_match(choice: &str, pattern: &str) -> (r: Option<i64>)
    ensures
        r == skim_score(choice@, pattern@),
        pattern@.len() == 0 ==> r == Some(0i64),
{
    fuzzy_matcher::skim::SkimMatcherV2::default().fuzzy_match(choice, pattern)
}

/// The positions (with their scores) of the commands that fuzzy-match the input, in order.
pub open spec fn fuzzy_hits(commands: Seq<Seq<char>>, input: Seq<char>) -> Seq<(int, i64)>
    decreases commands.len(),
{
    if commands.len() == 0 {
        seq![]
    } else {
        let rest = fuzzy_hits(commands.drop_last(), input);
        match skim_score(commands.last(), input) {
            Some(score) => rest.push((commands.len() - 1, score)),
            None => rest,
        }
    }
}

/// The history commands that fuzzy-match the input, by position, with their match scores.
pub fn fuzzy_filter(commands: &Vec<String>, input: &str) -> (r: Vec<(usize, i64)>)
    ensures
        r@.map_values(|p: (usize, i64)| (p.0 as int, p.1)) =~= fuzzy_hits(views(commands@), input@),
{
    let mut out: Vec<(usize, i64)> = Vec::new();
    let mut i: usize = 0;
    while i < commands.len()
        invariant
            i <= commands@.len(),
            out@.map_values(|p: (usize, i64)| (p.0 as int, p.1)) =~= fuzzy_hits(views(commands@).take(i as int), input@),
        decreases commands.len() - i,
    {
        assert(views(commands@).take(i + 1).drop_last() =~= views(commands@).take(i as int));
        assert(views(commands@).take(i + 1).last() == commands@[i as int]@);
        match skim_match(commands[i].as_str(), input) {
            Some(score) => {
                let ghost before = out@;
                out.push((i, score));
                assert(out@.map_values(|p: (usize, i64)| (p.0 as int, p.1)) =~= before.map_values(
                    |p: (usize, i64)| (p.0 as int, p.1),
                ).push((i as int, score)));
            },
            None => {},
        }
        i = i + 1;
    }
    assert(views(commands@).take(commands@.len() as int) =~= views(commands@));
    out
}

/// How many history suggestions are asked for: what the context candidates leave of the
/// limit, and at least one.
pub fn history_limit(limit: usize, contextual: usize) -> (r: usize)
    ensures
        r == (if limit > contextual + 1 { limit - contextual } else { 1 }),
{
    let rest = limit.saturating_sub(contextual);
    if rest > 1 { rest } else { 1 }
}

/// A history entry that matched the input, with its score key and where it comes from.
#[derive(Debug)]
pub struct ScoredEntry {
    pub command: String,
    pub description: Option<String>,
    pub score_key: i64,
    pub frequency: i64,
    /// Whether the entry comes from the default catalog.
    pub is_default: bool,
    /// Whether the entry was used in the current directory.
    pub is_local: bool,
}

pub struct ScoredView {
    pub command: Seq<char>,
    pub description: Option<Seq<char>>,
    pub score_key: i64,
    pub frequency: i64,
    pub is_default: bool,
    pub is_local: bool,
}

impl View for ScoredEntry {
    type V = ScoredView;

    open spec fn view(&self) -> ScoredView {
        ScoredView {
            command: self.command@,
            description: opt_view(self.description),
            score_key: self.score_key,
            frequency: self.frequency,
            is_default: self.is_default,
            is_local: self.is_local,
        }
    }
}

pub open spec fn scored_views(v: Seq<ScoredEntry>) -> Seq<ScoredView> {
    v.map_values(|e: ScoredEntry| e@)
}

/// The label of a ranked history entry.
pub open spec fn history_label(e: ScoredView) -> Seq<char> {
    if e.is_local {
        "history-local"@
    } else if e.is_default {
        "default"@
    } else if e.frequency >= 3 {
        "frequent"@
    } else {
        "history-global"@
    }
}

pub open spec fn labelled(e: ScoredView, source: Seq<char>) -> RankedView {
    RankedView {
        command: e.command,
        description: e.description,
        score_key: e.score_key,
        frequency: e.frequency,
        source,
    }
}

/// The tier of an entry: 0 for the default catalog, 1 for commands used at least three
/// times, 2 for the others.
pub open spec fn history_tier(e: ScoredView) -> int {
    if e.is_default {
        0
    } else if e.frequency >= 3 {
        1
    } else {
        2
    }
}

/// The entries of a tier, labelled, in their order.
pub open spec fn tier_items(es: Seq<ScoredView>, tier: int) -> Seq<RankedView>
    decreases es.len(),
{
    if es.len() == 0 {
        seq![]
    } else {
        let rest = tier_items(es.drop_last(), tier);
        if history_tier(es.last()) == tier {
            rest.push(labelled(es.last(), history_label(es.last())))
        } else {
            rest
        }
    }
}

/// Inserts `x` after every item scored at least as high.
pub open spec fn insert_by_score(sorted: Seq<RankedView>, x: RankedView) -> Seq<RankedView>
    decreases sorted.len(),
{
    if sorted.len() == 0 {
        seq![x]
    } else if sorted.last().score_key >= x.score_key {
        sorted.push(x)
    } else {
        insert_by_score(sorted.drop_last(), x).push(sorted.last())
    }
}

/// The stable sort by descending score: equally scored items keep their order.
pub open spec fn sort_by_score(s: Seq<RankedView>) -> Seq<RankedView>
    decreases s.len(),
{
    if s.len() == 0 {
        seq![]
    } else {
        insert_by_score(sort_by_score(s.drop_last()), s.last())
    }
}

/// Only the best of the frequently used commands keeps the `frequent` label; the others
/// that were not used here become `history-global`.
pub open spec fn relabel_popular(s: Seq<RankedView>) -> Seq<RankedView> {
    Seq::new(
        s.len(),
        |i: int|
            if i >= 1 && s[i].source != "history-local"@ {
                RankedView { source: "history-global"@, ..s[i] }
            } else {
                s[i]
            },
    )
}

/// The first occurrence of each command, in order, until `limit` are collected (at least
/// one when there is any).
pub open spec fn unique_prefix(items: Seq<RankedView>, limit: int) -> Seq<RankedView>
    decreases items.len(),
{
    if items.len() == 0 {
        seq![]
    } else {
        let acc = unique_prefix(items.drop_last(), limit);
        let x = items.last();
        if acc.len() > 0 && acc.len() >= limit {
            acc
        } else if exists|j: int| 0 <= j < acc.len() && #[trigger] acc[j].command == x.command {
            acc
        } else {
            acc.push(x)
        }
    }
}

/// The entries for other commands than `command`, in order.
pub open spec fn without_command(es: Seq<ScoredView>, command: Seq<char>) -> Seq<ScoredView>
    decreases es.len(),
{
    if es.len() == 0 {
        seq![]
    } else {
        let rest = without_command(es.drop_last(), command);
        if es.last().command == command {
            rest
        } else {
            rest.push(es.last())
        }
    }
}

/// The history ranking: the most recent match first (labelled by whether it was used here),
/// then the default catalog, the frequently used commands and the rest, each by descending
/// score; each command once, at most `limit` of them.
pub open spec fn spec_multipass(recent: Option<ScoredView>, entries: Seq<ScoredView>, limit: int) -> Seq<RankedView> {
    let first = match recent {
        Some(r) => seq![labelled(r, if r.is_local { "history-local"@ } else { "history-global"@ })],
        None => seq![],
    };
    let rest = match recent {
        Some(r) => without_command(entries, r.command),
        None => entries,
    };
    let tiers = first + sort_by_score(tier_items(rest, 0)) + relabel_popular(sort_by_score(tier_items(rest, 1)))
        + sort_by_score(tier_items(rest, 2));
    unique_prefix(tiers, limit)
}

fn copy_opt(o: &Option<String>) -> (r: Option<String>)
    ensures
        opt_view(r) == opt_view(*o),
{
    match o {
        Some(s) => Some(s.clone()),
        None => None,
    }
}

fn ranked_from(e: &ScoredEntry, source: &str) -> (r: Ranked)
    ensures
        r@ == labelled(e@, source@),
{
    Ranked {
        command: e.command.clone(),
        description: copy_opt(&e.description),
        score_key: e.score_key,
        frequency: e.frequency,
        source: to_string(source),
    }
}

fn label_of(e: &ScoredEntry) -> (r: &'static str)
    ensures
        r@ == history_label(e@),
{
    if e.is_local {
        "history-local"
    } else if e.is_default {
        "default"
    } else if e.frequency >= 3 {
        "frequent"
    } else {
        "history-global"
    }
}

fn push_ranked(v: &mut Vec<Ranked>, x: Ranked)
    ensures
        final(v)@ == old(v)@.push(x),
        ranked_views(final(v)@) =~= ranked_views(old(v)@).push(x@),
{
    v.push(x);
    assert(ranked_views(v@) =~= ranked_views(old(v)@).push(x@));
}

proof fn lemma_insert_by_score(s: Seq<RankedView>, x: RankedView, p: int)
    requires
        0 <= p <= s.len(),
        forall|k: int| p <= k < s.len() ==> #[trigger] s[k].score_key < x.score_key,
        p == 0 || s[p - 1].score_key >= x.score_key,
    ensures
        insert_by_score(s, x) =~= s.insert(p, x),
    decreases s.len(),
{
    if s.len() == 0 {
    } else if s.len() == p {
        assert(s.insert(p, x) =~= s.push(x));
    } else {
        assert(s.last().score_key < x.score_key);
        lemma_insert_by_score(s.drop_last(), x, p);
        assert(s.drop_last().insert(p, x).push(s.last()) =~= s.insert(p, x));
    }
}

/// Sorts by descending score, keeping the order of equal scores.
fn stable_sort_by_score(items: Vec<Ranked>) -> (r: Vec<Ranked>)
    ensures
        ranked_views(r@) =~= sort_by_score(ranked_views(items@)),
{
    let ghost all = ranked_views(items@);
    let mut items = items;
    let mut rev: Vec<Ranked> = Vec::new();
    let total = items.len();
    while items.len() > 0
        invariant
            ranked_views(items@) =~= all.take(items@.len() as int),
            items@.len() + rev@.len() == total == all.len(),
            forall|j: int| 0 <= j < rev@.len() ==> #[trigger] ranked_views(rev@)[j] == all[total - 1 - j],
        decreases items.len(),
    {
        let ghost before = items@;
        let x = items.pop().unwrap();
        assert(ranked_views(before)[before.len() - 1] == x@);
        let ghost rb = rev@;
        rev.push(x);
        assert(ranked_views(rev@)[rb.len() as int] == x@);
        assert forall|j: int| 0 <= j < rev@.len() implies #[trigger] ranked_views(rev@)[j] == all[total - 1 - j] by {
            if j < rb.len() {
                assert(ranked_views(rev@)[j] == ranked_views(rb)[j]);
            }
        }
        assert(ranked_views(items@) =~= all.take(items@.len() as int));
    }
    let mut sorted: Vec<Ranked> = Vec::new();
    let mut n: usize = 0;
    assert(ranked_views(sorted@) =~= sort_by_score(all.take(0)));
    while rev.len() > 0
        invariant
            n + rev@.len() == total == all.len(),
            forall|j: int| 0 <= j < rev@.len() ==> #[trigger] ranked_views(rev@)[j] == all[total - 1 - j],
            ranked_views(sorted@) =~= sort_by_score(all.take(n as int)),
        decreases rev.len(),
    {
        let ghost rb = rev@;
        let x = rev.pop().unwrap();
        assert(ranked_views(rb)[rb.len() - 1] == x@);
        assert(x@ == all[n as int]);
        assert forall|j: int| 0 <= j < rev@.len() implies #[trigger] ranked_views(rev@)[j] == all[total - 1 - j] by {
            assert(ranked_views(rev@)[j] == ranked_views(rb)[j]);
        }
        let ghost s = ranked_views(sorted@);
        let mut p = sorted.len();
        while p > 0 && sorted[p - 1].score_key < x.score_key
            invariant
                p <= sorted@.len(),
                s == ranked_views(sorted@),
                forall|k: int| p <= k < s.len() ==> #[trigger] s[k].score_key < x.score_key,
            decreases p,
        {
            assert(s[p - 1] == sorted@[p - 1]@);
            p = p - 1;
        }
        proof {
            if p > 0 {
                assert(s[p - 1] == sorted@[p - 1]@);
            }
            lemma_insert_by_score(s, x@, p as int);
            assert(all.take(n + 1).drop_last() =~= all.take(n as int));
        }
        let ghost xv = x@;
        sorted.insert(p, x);
        assert(ranked_views(sorted@) =~= s.insert(p as int, xv));
        n = n + 1;
    }
    assert(all.take(n as int) =~= all);
    sorted
}

/// Keeps `frequent` on the first item only.
fn relabel(items: &mut Vec<Ranked>)
    ensures
        ranked_views(final(items)@) =~= relabel_popular(ranked_views(old(items)@)),
{
    let ghost s = ranked_views(items@);
    let mut i: usize = 1;
    if items.len() == 0 {
        assert(ranked_views(items@) =~= relabel_popular(s));
        return;
    }
    while i < items.len()
        invariant
            1 <= i <= items@.len(),
            items@.len() == s.len(),
            forall|k: int| 0 <= k < i ==> #[trigger] ranked_views(items@)[k] == relabel_popular(s)[k],
            forall|k: int| i <= k < s.len() ==> #[trigger] ranked_views(items@)[k] == s[k],
        decreases items.len() - i,
    {
        assert(ranked_views(items@)[i as int] == items@[i as int]@);
        if !str_eq(items[i].source.as_str(), "history-local") {
            let ghost before = items@;
            let mut x = items.remove(i);
            x.source = to_string("history-global");
            let ghost xv = x@;
            items.insert(i, x);
            assert(items@[i as int]@ == xv);
            assert(xv == RankedView { source: "history-global"@, ..s[i as int] });
            assert forall|k: int| 0 <= k < items@.len() && k != i implies #[trigger] ranked_views(items@)[k] == ranked_views(before)[k] by {
                assert(items@[k] == before[k]);
            }
        }
        i = i + 1;
    }
}

/// The first occurrence of each command, until `limit` are collected.
fn take_unique(items: Vec<Ranked>, limit: usize) -> (r: Vec<Ranked>)
    ensures
        ranked_views(r@) =~= unique_prefix(ranked_views(items@), limit as int),
{
    let ghost all = ranked_views(items@);
    let mut items = items;
    let mut rev: Vec<Ranked> = Vec::new();
    let total = items.len();
    while items.len() > 0
        invariant
            ranked_views(items@) =~= all.take(items@.len() as int),
            items@.len() + rev@.len() == total == all.len(),
            forall|j: int| 0 <= j < rev@.len() ==> #[trigger] ranked_views(rev@)[j] == all[total - 1 - j],
        decreases items.len(),
    {
        let ghost before = items@;
        let x = items.pop().unwrap();
        assert(ranked_views(before)[before.len() - 1] == x@);
        let ghost rb = rev@;
        rev.push(x);
        assert(ranked_views(rev@)[rb.len() as int] == x@);
        assert forall|j: int| 0 <= j < rev@.len() implies #[trigger] ranked_views(rev@)[j] == all[total - 1 - j] by {
            if j < rb.len() {
                assert(ranked_views(rev@)[j] == ranked_views(rb)[j]);
            }
        }
        assert(ranked_views(items@) =~= all.take(items@.len() as int));
    }
    let mut acc: Vec<Ranked> = Vec::new();
    let mut n: usize = 0;
    assert(ranked_views(acc@) =~= unique_prefix(all.take(0), limit as int));
    while rev.len() > 0
        invariant
            n + rev@.len() == total == all.len(),
            forall|j: int| 0 <= j < rev@.len() ==> #[trigger] ranked_views(rev@)[j] == all[total - 1 - j],
            ranked_views(acc@) =~= unique_prefix(all.take(n as int), limit as int),
        decreases rev.len(),
    {
        let ghost rb = rev@;
        let x = rev.pop().unwrap();
        assert(ranked_views(rb)[rb.len() - 1] == x@);
        assert(x@ == all[n as int]);
        assert forall|j: int| 0 <= j < rev@.len() implies #[trigger] ranked_views(rev@)[j] == all[total - 1 - j] by {
            assert(ranked_views(rev@)[j] == ranked_views(rb)[j]);
        }
        assert(all.take(n + 1).drop_last() =~= all.take(n as int));
        assert(all.take(n + 1).last() == x@);
        let ghost a = ranked_views(acc@);
        if !(acc.len() > 0 && acc.len() >= limit) {
            let mut seen = false;
            let mut j: usize = 0;
            while j < acc.len()
                invariant
                    j <= acc@.len(),
                    a == ranked_views(acc@),
                    seen == exists|k: int| 0 <= k < j && #[trigger] a[k].command == x@.command,
                decreases acc.len() - j,
            {
                assert(a[j as int] == acc@[j as int]@);
                if str_eq(acc[j].command.as_str(), x.command.as_str()) {
                    seen = true;
                }
                proof {
                    if seen && !(a[j as int].command == x@.command) {
                        let k = choose|k: int| 0 <= k < j && #[trigger] a[k].command == x@.command;
                        assert(0 <= k < j + 1 && a[k].command == x@.command);
                    }
                }
                j = j + 1;
            }
            if !seen {
                push_ranked(&mut acc, x);
            }
        }
        n = n + 1;
    }
    assert(all.take(n as int) =~= all);
    acc
}


/// The history ranking (see [`spec_multipass`]).
pub fn multipass_rank(recent: Option<ScoredEntry>, entries: &Vec<ScoredEntry>, limit: usize) -> (r: Vec<Ranked>)
    ensures
        ranked_views(r@) =~= spec_multipass(
            match recent {
                Some(e) => Some(e@),
                None => None,
            },
            scored_views(entries@),
            limit as int,
        ),
{
    let ghost rv = match &recent {
        Some(e) => Some(e@),
        None => None::<ScoredView>,
    };
    let ghost es = scored_views(entries@);
    let ghost rest = match rv {
        Some(r) => without_command(es, r.command),
        None => es,
    };
    let mut tiers: Vec<Ranked> = Vec::new();
    let recent_command: Option<String> = match &recent {
        Some(e) => Some(e.command.clone()),
        None => None,
    };
    match &recent {
        Some(e) => {
            let label = if e.is_local { "history-local" } else { "history-global" };
            push_ranked(&mut tiers, ranked_from(e, label));
        },
        None => {},
    }
    let ghost first = ranked_views(tiers@);
    let mut defaults: Vec<Ranked> = Vec::new();
    let mut popular: Vec<Ranked> = Vec::new();
    let mut others: Vec<Ranked> = Vec::new();
    let mut i: usize = 0;
    let ghost mut kept: Seq<ScoredView> = seq![];
    while i < entries.len()
        invariant
            i <= entries@.len(),
            es == scored_views(entries@),
            rest == (match rv {
                Some(r) => without_command(es, r.command),
                None => es,
            }),
            match recent_command {
                Some(c) => rv is Some && rv->0.command == c@,
                None => rv is None,
            },
            kept == (match rv {
                Some(r) => without_command(es.take(i as int), r.command),
                None => es.take(i as int),
            }),
            ranked_views(defaults@) =~= tier_items(kept, 0),
            ranked_views(popular@) =~= tier_items(kept, 1),
            ranked_views(others@) =~= tier_items(kept, 2),
        decreases entries.len() - i,
    {
        let e = &entries[i];
        assert(es.take(i + 1).drop_last() =~= es.take(i as int));
        assert(es.take(i + 1).last() == e@);
        let skip = match &recent_command {
            Some(c) => str_eq(c.as_str(), e.command.as_str()),
            None => false,
        };
        if !skip {
            let x = ranked_from(e, label_of(e));
            if e.is_default {
                push_ranked(&mut defaults, x);
            } else if e.frequency >= 3 {
                push_ranked(&mut popular, x);
            } else {
                push_ranked(&mut others, x);
            }
            proof {
                assert(kept.push(e@).drop_last() =~= kept);
                kept = kept.push(e@);
            }
        }
        i = i + 1;
    }
    assert(es.take(entries@.len() as int) =~= es);
    let d = stable_sort_by_score(defaults);
    let mut p = stable_sort_by_score(popular);
    relabel(&mut p);
    let o = stable_sort_by_score(others);
    let mut d = d;
    let mut o = o;
    tiers.append(&mut d);
    tiers.append(&mut p);
    tiers.append(&mut o);
    let ghost all = first + sort_by_score(tier_items(rest, 0)) + relabel_popular(sort_by_score(tier_items(rest, 1)))
        + sort_by_score(tier_items(rest, 2));
    proof {
        assert(ranked_views(tiers@) =~= all);
        let expected_first = match rv {
            Some(x) => seq![labelled(x, if x.is_local { "history-local"@ } else { "history-global"@ })],
            None => seq![],
        };
        assert(first =~= expected_first);
        assert(spec_multipass(rv, es, limit as int) == unique_prefix(all, limit as int));
    }
    let r = take_unique(tiers, limit);
    proof {
        assert(ranked_views(r@) =~= unique_prefix(all, limit as int));
    }
    r
}

/// The last position of an item whose normalized command is `key`.
pub open spec fn index_of_key(acc: Seq<RankedView>, key: Seq<char>) -> Option<int>
    decreases acc.len(),
{
    if acc.len() == 0 {
        None
    } else if spec_normalize_command(acc.last().command) == key {
        Some(acc.len() - 1)
    } else {
        index_of_key(acc.drop_last(), key)
    }
}

/// Adds a suggestion, keyed by its normalized command: an already present one stays unless
/// the new one scores strictly higher, in which case it is replaced.
pub open spec fn merge_into(acc: Seq<RankedView>, x: RankedView) -> Seq<RankedView> {
    match index_of_key(acc, spec_normalize_command(x.command)) {
        Some(i) => if acc[i].score_key >= x.score_key {
            acc
        } else {
            acc.update(i, x)
        },
        None => acc.push(x),
    }
}

pub open spec fn merged(items: Seq<RankedView>) -> Seq<RankedView>
    decreases items.len(),
{
    if items.len() == 0 {
        seq![]
    } else {
        merge_into(merged(items.drop_last()), items.last())
    }
}

pub open spec fn opt_le(a: Option<Seq<char>>, b: Option<Seq<char>>) -> bool {
    match (a, b) {
        (None, _) => true,
        (Some(_), None) => false,
        (Some(x), Some(y)) => name_le(x, y),
    }
}

/// The merged order: by tier, then by descending score, then by command (the other fields
/// only break ties between identical commands).
pub open spec fn rank_le(input: Seq<char>, a: RankedView, b: RankedView) -> bool {
    let ta = spec_match_tier(a.command, a.source, input);
    let tb = spec_match_tier(b.command, b.source, input);
    if ta != tb {
        ta < tb
    } else if a.score_key != b.score_key {
        a.score_key > b.score_key
    } else if a.command != b.command {
        name_le(a.command, b.command)
    } else if a.source != b.source {
        name_le(a.source, b.source)
    } else if a.frequency != b.frequency {
        a.frequency < b.frequency
    } else {
        opt_le(a.description, b.description)
    }
}

pub open spec fn rank_leq(input: Seq<char>) -> spec_fn(RankedView, RankedView) -> bool {
    |a: RankedView, b: RankedView| rank_le(input, a, b)
}

proof fn lemma_names_differ_strict(a: Seq<char>, b: Seq<char>)
    requires
        a != b,
        name_le(a, b),
    ensures
        !name_le(b, a),
{
    if name_le(b, a) {
        lemma_name_le_antisym(a, b);
    }
}

/// The merged order is a total order.
pub proof fn lemma_rank_order_total(input: Seq<char>)
    ensures
        total_ordering(rank_leq(input)),
{
    let r = rank_leq(input);
    assert forall|x: RankedView| #[trigger] r(x, x) by {
        match x.description {
            Some(d) => lemma_name_le_refl(d),
            None => {},
        }
    }
    assert forall|x: RankedView, y: RankedView| #[trigger] r(x, y) && #[trigger] r(y, x) implies x == y by {
        if x.command != y.command {
            if name_le(x.command, y.command) {
                lemma_names_differ_strict(x.command, y.command);
            }
        } else if x.source != y.source {
            if name_le(x.source, y.source) {
                lemma_names_differ_strict(x.source, y.source);
            }
        } else {
            match (x.description, y.description) {
                (Some(a), Some(b)) => lemma_name_le_antisym(a, b),
                _ => {},
            }
        }
    }
    assert forall|x: RankedView, y: RankedView, z: RankedView| #[trigger] r(x, y) && #[trigger] r(y, z) implies r(x, z) by {
        lemma_rank_trans(input, x, y, z);
    }
    assert forall|x: RankedView, y: RankedView| #[trigger] r(x, y) || #[trigger] r(y, x) by {
        lemma_name_le_total(x.command, y.command);
        lemma_name_le_total(x.source, y.source);
        match (x.description, y.description) {
            (Some(a), Some(b)) => lemma_name_le_total(a, b),
            _ => {},
        }
    }
}

proof fn lemma_name_step(a: Seq<char>, b: Seq<char>, c: Seq<char>)
    requires
        a == b || name_le(a, b),
        b == c || name_le(b, c),
        a != b || b != c,
    ensures
        a != c ==> name_le(a, c),
        a == c ==> a == b && b == c,
{
    if a != b && b != c {
        lemma_name_le_trans(a, b, c);
        if a == c {
            lemma_name_le_antisym(a, b);
        }
    }
}

proof fn lemma_rank_trans(input: Seq<char>, x: RankedView, y: RankedView, z: RankedView)
    requires
        rank_le(input, x, y),
        rank_le(input, y, z),
    ensures
        rank_le(input, x, z),
{
    let tx = spec_match_tier(x.command, x.source, input);
    let ty = spec_match_tier(y.command, y.source, input);
    let tz = spec_match_tier(z.command, z.source, input);
    if tx == ty && ty == tz && x.score_key == y.score_key && y.score_key == z.score_key {
        if x.command != y.command || y.command != z.command {
            lemma_name_step(x.command, y.command, z.command);
        } else if x.source != y.source || y.source != z.source {
            lemma_name_step(x.source, y.source, z.source);
        } else if x.frequency == y.frequency && y.frequency == z.frequency {
            match (x.description, y.description, z.description) {
                (Some(a), Some(b), Some(c)) => lemma_name_le_trans(a, b, c),
                _ => {},
            }
        }
    }
}

/// The suggestions merged by normalized command (the higher score wins, the earlier one on
/// a tie), in the merged order, at most `limit` of them.
pub open spec fn spec_merge(input: Seq<char>, items: Seq<RankedView>, limit: int) -> Seq<RankedView> {
    let s = merged(items).sort_by(rank_leq(input));
    s.take(if limit < s.len() { limit } else { s.len() as int })
}

fn opt_le_exec(a: &Option<String>, b: &Option<String>) -> (r: bool)
    ensures
        r == opt_le(opt_view(*a), opt_view(*b)),
{
    match (a, b) {
        (None, _) => true,
        (Some(_), None) => false,
        (Some(x), Some(y)) => {
            let xv = chars_of(x.as_str());
            let yv = chars_of(y.as_str());
            name_le_exec(&xv, &yv)
        },
    }
}

fn names_le(a: &str, b: &str) -> (r: bool)
    ensures
        r == name_le(a@, b@),
{
    let av = chars_of(a);
    let bv = chars_of(b);
    name_le_exec(&av, &bv)
}

fn rank_le_exec(input: &str, a: &Ranked, b: &Ranked) -> (r: bool)
    ensures
        r == rank_le(input@, a@, b@),
{
    let ta = match_tier(a, input);
    let tb = match_tier(b, input);
    if ta != tb {
        ta < tb
    } else if a.score_key != b.score_key {
        a.score_key > b.score_key
    } else if !str_eq(a.command.as_str(), b.command.as_str()) {
        names_le(a.command.as_str(), b.command.as_str())
    } else if !str_eq(a.source.as_str(), b.source.as_str()) {
        names_le(a.source.as_str(), b.source.as_str())
    } else if a.frequency != b.frequency {
        a.frequency < b.frequency
    } else {
        opt_le_exec(&a.description, &b.description)
    }
}

fn insert_ranked(sorted: &mut Vec<Ranked>, x: Ranked, input: &str)
    requires
        sorted_by(ranked_views(old(sorted)@), rank_leq(input@)),
        total_ordering(rank_leq(input@)),
    ensures
        sorted_by(ranked_views(final(sorted)@), rank_leq(input@)),
        ranked_views(final(sorted)@).to_multiset() == ranked_views(old(sorted)@).to_multiset().insert(x@),
{
    let ghost s = ranked_views(sorted@);
    let ghost xv = x@;
    let ghost leq = rank_leq(input@);
    let mut p: usize = 0;
    while p < sorted.len() && rank_le_exec(input, &sorted[p], &x)
        invariant
            p <= sorted@.len(),
            s == ranked_views(sorted@),
            xv == x@,
            leq == rank_leq(input@),
            forall|i: int| 0 <= i < p ==> leq(#[trigger] s[i], xv),
        decreases sorted.len() - p,
    {
        assert(s[p as int] == sorted@[p as int]@);
        p = p + 1;
    }
    proof {
        if p < s.len() {
            assert(s[p as int] == sorted@[p as int]@);
            assert(!leq(s[p as int], xv));
            assert(leq(xv, s[p as int]));
            assert forall|j: int| p <= j < s.len() implies leq(xv, #[trigger] s[j]) by {
                if j > p {
                    assert(leq(s[p as int], s[j]));
                }
            }
        }
    }
    sorted.insert(p, x);
    proof {
        let t = ranked_views(sorted@);
        assert(t =~= s.insert(p as int, xv));
        assert forall|i: int, j: int| 0 <= i < j < t.len() implies #[trigger] leq(t[i], t[j]) by {
            if j < p {
                assert(t[i] == s[i] && t[j] == s[j]);
            } else if j == p {
                assert(t[i] == s[i]);
            } else if i < p {
                assert(t[i] == s[i] && t[j] == s[j - 1]);
                assert(leq(s[i], xv));
                assert(leq(xv, s[j - 1]));
            } else if i == p {
                assert(t[j] == s[j - 1]);
            } else {
                assert(t[i] == s[i - 1] && t[j] == s[j - 1]);
            }
        }
        vstd::seq_lib::to_multiset_insert(s, p as int, xv);
    }
}

/// Merges history suggestions with context candidates: one suggestion per normalized
/// command (the higher score wins), ordered by tier, then by descending score, then by
/// command, at most `limit` of them.
pub fn merge_suggestions(input: &str, history: Vec<Ranked>, contextual: Vec<Ranked>, limit: usize) -> (r: Vec<Ranked>)
    ensures
        ranked_views(r@) =~= spec_merge(input@, ranked_views(history@) + ranked_views(contextual@), limit as int),
{
    let ghost all = ranked_views(history@) + ranked_views(contextual@);
    let mut items = history;
    let mut rest = contextual;
    items.append(&mut rest);
    assert(ranked_views(items@) =~= all);
    let mut rev: Vec<Ranked> = Vec::new();
    let total = items.len();
    while items.len() > 0
        invariant
            ranked_views(items@) =~= all.take(items@.len() as int),
            items@.len() + rev@.len() == total == all.len(),
            forall|j: int| 0 <= j < rev@.len() ==> #[trigger] ranked_views(rev@)[j] == all[total - 1 - j],
        decreases items.len(),
    {
        let ghost before = items@;
        let x = items.pop().unwrap();
        assert(ranked_views(before)[before.len() - 1] == x@);
        let ghost rb = rev@;
        rev.push(x);
        assert(ranked_views(rev@)[rb.len() as int] == x@);
        assert forall|j: int| 0 <= j < rev@.len() implies #[trigger] ranked_views(rev@)[j] == all[total - 1 - j] by {
            if j < rb.len() {
                assert(ranked_views(rev@)[j] == ranked_views(rb)[j]);
            }
        }
        assert(ranked_views(items@) =~= all.take(items@.len() as int));
    }
    let mut acc: Vec<Ranked> = Vec::new();
    let mut keys: Vec<String> = Vec::new();
    let mut n: usize = 0;
    assert(ranked_views(acc@) =~= merged(all.take(0)));
    while rev.len() > 0
        invariant
            n + rev@.len() == total == all.len(),
            forall|j: int| 0 <= j < rev@.len() ==> #[trigger] ranked_views(rev@)[j] == all[total - 1 - j],
            ranked_views(acc@) =~= merged(all.take(n as int)),
            keys@.len() == acc@.len(),
            forall|j: int| 0 <= j < acc@.len() ==> #[trigger] keys@[j]@ == spec_normalize_command(acc@[j].command@),
        decreases rev.len(),
    {
        let ghost rb = rev@;
        let x = rev.pop().unwrap();
        assert(ranked_views(rb)[rb.len() - 1] == x@);
        assert(x@ == all[n as int]);
        assert forall|j: int| 0 <= j < rev@.len() implies #[trigger] ranked_views(rev@)[j] == all[total - 1 - j] by {
            assert(ranked_views(rev@)[j] == ranked_views(rb)[j]);
        }
        assert(all.take(n + 1).drop_last() =~= all.take(n as int));
        assert(all.take(n + 1).last() == x@);
        let ghost a = ranked_views(acc@);
        let k = normalize_command(x.command.as_str());
        let mut j = acc.len();
        let mut found = false;
        assert(a.take(j as int) =~= a);
        while j > 0 && !found
            invariant
                j <= acc@.len(),
                keys@.len() == acc@.len(),
                a == ranked_views(acc@),
                forall|i: int| 0 <= i < acc@.len() ==> #[trigger] keys@[i]@ == spec_normalize_command(acc@[i].command@),
                !found ==> index_of_key(a, k@) == index_of_key(a.take(j as int), k@),
                found ==> j > 0 && index_of_key(a, k@) == Some(j - 1),
            decreases j + (if found { 0int } else { 1int }),
        {
            assert(a.take(j as int).drop_last() =~= a.take(j - 1));
            assert(a.take(j as int).last() == acc@[j - 1]@);
            if str_eq(keys[j - 1].as_str(), k.as_str()) {
                found = true;
            } else {
                j = j - 1;
            }
        }
        if found {
            let j = j - 1;
            assert(a[j as int] == acc@[j as int]@);
            if acc[j].score_key < x.score_key {
                let ghost xv = x@;
                let ghost old_acc = acc@;
                let ghost old_keys = keys@;
                let ghost xc = x.command@;
                let _ = acc.remove(j);
                acc.insert(j, x);
                assert(ranked_views(acc@) =~= a.update(j as int, xv));
                let _ = keys.remove(j);
                keys.insert(j, k);
                assert forall|i: int| 0 <= i < acc@.len() implies #[trigger] keys@[i]@ == spec_normalize_command(acc@[i].command@) by {
                    if i != j {
                        assert(acc@[i] == old_acc[i]);
                        assert(keys@[i] == old_keys[i]);
                    } else {
                        assert(acc@[i].command@ == xc);
                    }
                }
            }
        } else {
            assert(a.take(0) =~= seq![]);
            let ghost old_acc = acc@;
            let ghost old_keys = keys@;
            let ghost xc = x.command@;
            push_ranked(&mut acc, x);
            keys.push(k);
            assert forall|i: int| 0 <= i < acc@.len() implies #[trigger] keys@[i]@ == spec_normalize_command(acc@[i].command@) by {
                if i < old_acc.len() {
                    assert(acc@[i] == old_acc[i]);
                    assert(keys@[i] == old_keys[i]);
                } else {
                    assert(acc@[i].command@ == xc);
                }
            }
        }
        n = n + 1;
    }
    assert(all.take(n as int) =~= all);
    let ghost m = ranked_views(acc@);
    proof {
        lemma_rank_order_total(input@);
    }
    let mut sorted: Vec<Ranked> = Vec::new();
    let mut acc = acc;
    assert(ranked_views(sorted@) =~= seq![]);
    proof {
        broadcast use vstd::multiset::group_multiset_axioms;
        broadcast use vstd::seq_lib::group_to_multiset_ensures;
        assert(ranked_views(sorted@).to_multiset() =~= vstd::multiset::Multiset::empty());
        assert(m.take(acc@.len() as int) =~= m);
        assert(m.to_multiset().add(vstd::multiset::Multiset::empty()) =~= m.to_multiset());
    }
    while acc.len() > 0
        invariant
            ranked_views(acc@) =~= m.take(acc@.len() as int),
            acc@.len() <= m.len(),
            total_ordering(rank_leq(input@)),
            sorted_by(ranked_views(sorted@), rank_leq(input@)),
            ranked_views(acc@).to_multiset().add(ranked_views(sorted@).to_multiset()) == m.to_multiset(),
        decreases acc.len(),
    {
        let ghost before = ranked_views(acc@);
        let ghost before_sorted = ranked_views(sorted@);
        let x = acc.pop().unwrap();
        proof {
            assert(ranked_views(acc@) =~= before.drop_last());
            assert(before.last() == x@);
            assert(ranked_views(acc@) =~= m.take(acc@.len() as int));
        }
        let ghost xv = x@;
        insert_ranked(&mut sorted, x, input);
        proof {
            let k0 = ranked_views(acc@);
            assert(before =~= k0.push(xv));
            assert(k0.push(xv).to_multiset() =~= k0.to_multiset().insert(xv)) by {
                broadcast use vstd::seq_lib::group_to_multiset_ensures;
            }
            assert(k0.to_multiset().add(ranked_views(sorted@).to_multiset()) =~= k0.to_multiset().insert(xv).add(before_sorted.to_multiset())) by {
                broadcast use vstd::multiset::group_multiset_axioms;
            }
        }
    }
    let ghost s = ranked_views(sorted@);
    proof {
        assert(ranked_views(acc@) =~= seq![]);
        assert(seq![].to_multiset().add(s.to_multiset()) =~= s.to_multiset()) by {
            broadcast use vstd::multiset::group_multiset_axioms;
            broadcast use vstd::seq_lib::group_to_multiset_ensures;
        }
        m.lemma_sort_by_ensures(rank_leq(input@));
        vstd::seq_lib::lemma_sorted_unique(s, m.sort_by(rank_leq(input@)), rank_leq(input@));
    }
    assert(s.take(s.len() as int) =~= s);
    while sorted.len() > limit
        invariant
            ranked_views(sorted@) =~= s.take(sorted@.len() as int),
            sorted@.len() <= s.len(),
            sorted@.len() == s.len() || sorted@.len() >= limit,
        decreases sorted.len(),
    {
        let _ = sorted.pop();
        assert(ranked_views(sorted@) =~= s.take(sorted@.len() as int));
    }
    sorted
}

/// Whether no two items share a command.
pub open spec fn distinct_commands(r: Seq<RankedView>) -> bool {
    forall|i: int, j: int| 0 <= i < j < r.len() ==> #[trigger] r[i].command != #[trigger] r[j].command
}

/// Whether no two items share a normalized command.
pub open spec fn distinct_keys(r: Seq<RankedView>) -> bool {
    forall|i: int, j: int|
        0 <= i < j < r.len() ==> spec_normalize_command(#[trigger] r[i].command) != spec_normalize_command(
            #[trigger] r[j].command,
        )
}

proof fn lemma_unique_prefix(items: Seq<RankedView>, limit: int)
    requires
        limit >= 0,
    ensures
        distinct_commands(unique_prefix(items, limit)),
        unique_prefix(items, limit).len() <= (if limit > 0 { limit } else { 1 }),
        items.len() > 0 ==> unique_prefix(items, limit).len() > 0 && unique_prefix(items, limit)[0] == items[0],
    decreases items.len(),
{
    if items.len() > 0 {
        lemma_unique_prefix(items.drop_last(), limit);
        if items.len() > 1 {
            assert(items.drop_last()[0] == items[0]);
        }
    }
}

/// The history ranking holds each command once, at most `limit` of them (one when the limit
/// is zero), and puts the most recent match first.
pub proof fn lemma_multipass_shape(recent: Option<ScoredView>, entries: Seq<ScoredView>, limit: int)
    requires
        limit >= 0,
    ensures
        distinct_commands(spec_multipass(recent, entries, limit)),
        spec_multipass(recent, entries, limit).len() <= (if limit > 0 { limit } else { 1 }),
        recent matches Some(r) ==> spec_multipass(recent, entries, limit).len() > 0 && spec_multipass(
            recent,
            entries,
            limit,
        )[0].command == r.command,
{
    let first = match recent {
        Some(r) => seq![labelled(r, if r.is_local { "history-local"@ } else { "history-global"@ })],
        None => seq![],
    };
    let rest = match recent {
        Some(r) => without_command(entries, r.command),
        None => entries,
    };
    let tiers = first + sort_by_score(tier_items(rest, 0)) + relabel_popular(sort_by_score(tier_items(rest, 1)))
        + sort_by_score(tier_items(rest, 2));
    lemma_unique_prefix(tiers, limit);
    if recent is Some {
        assert(tiers[0] == first[0]);
    }
}

proof fn lemma_index_of_key(acc: Seq<RankedView>, k: Seq<char>)
    ensures
        match index_of_key(acc, k) {
            Some(i) => 0 <= i < acc.len() && spec_normalize_command(acc[i].command) == k,
            None => forall|i: int| 0 <= i < acc.len() ==> spec_normalize_command(#[trigger] acc[i].command) != k,
        },
    decreases acc.len(),
{
    if acc.len() > 0 {
        lemma_index_of_key(acc.drop_last(), k);
        if index_of_key(acc, k) is None {
            assert forall|i: int| 0 <= i < acc.len() implies spec_normalize_command(#[trigger] acc[i].command) != k by {
                if i < acc.len() - 1 {
                    assert(acc[i] == acc.drop_last()[i]);
                }
            }
        }
    }
}

proof fn lemma_merged_distinct(items: Seq<RankedView>)
    ensures
        distinct_keys(merged(items)),
    decreases items.len(),
{
    if items.len() > 0 {
        let acc = merged(items.drop_last());
        let x = items.last();
        let k = spec_normalize_command(x.command);
        lemma_merged_distinct(items.drop_last());
        lemma_index_of_key(acc, k);
        let m = merged(items);
        assert forall|i: int, j: int| 0 <= i < j < m.len() implies spec_normalize_command(#[trigger] m[i].command)
            != spec_normalize_command(#[trigger] m[j].command) by {
            match index_of_key(acc, k) {
                Some(p) => {
                    if !(acc[p].score_key >= x.score_key) {
                        if i != p {
                            assert(m[i] == acc[i]);
                        }
                        if j != p {
                            assert(m[j] == acc[j]);
                        }
                    }
                },
                None => {
                    if j < acc.len() {
                        assert(m[i] == acc[i] && m[j] == acc[j]);
                    } else {
                        assert(m[i] == acc[i]);
                    }
                },
            }
        }
    }
}

proof fn lemma_merged_complete(items: Seq<RankedView>)
    ensures
        forall|j: int|
            0 <= j < items.len() ==> exists|i: int|
                0 <= i < merged(items).len() && spec_normalize_command(#[trigger] merged(items)[i].command)
                    == spec_normalize_command(#[trigger] items[j].command),
    decreases items.len(),
{
    if items.len() > 0 {
        let prev = items.drop_last();
        let acc = merged(prev);
        let x = items.last();
        let k = spec_normalize_command(x.command);
        lemma_merged_complete(prev);
        lemma_index_of_key(acc, k);
        let m = merged(items);
        assert forall|j: int| 0 <= j < items.len() implies exists|i: int|
            0 <= i < m.len() && spec_normalize_command(#[trigger] m[i].command) == spec_normalize_command(
                #[trigger] items[j].command,
            ) by {
            if j < items.len() - 1 {
                assert(items[j] == prev[j]);
                let i0 = choose|i: int|
                    0 <= i < acc.len() && spec_normalize_command(#[trigger] acc[i].command) == spec_normalize_command(
                        #[trigger] prev[j].command,
                    );
                assert(spec_normalize_command(m[i0].command) == spec_normalize_command(acc[i0].command));
            } else {
                match index_of_key(acc, k) {
                    Some(i) => {
                        assert(spec_normalize_command(m[i].command) == k);
                    },
                    None => {
                        assert(m[acc.len() as int] == x);
                    },
                }
            }
        }
    }
}

proof fn lemma_merged_wins(items: Seq<RankedView>)
    ensures
        forall|i: int, j: int|
            0 <= i < merged(items).len() && 0 <= j < items.len() && spec_normalize_command(items[j].command)
                == spec_normalize_command(#[trigger] merged(items)[i].command) ==> merged(items)[i].score_key
                >= #[trigger] items[j].score_key,
    decreases items.len(),
{
    if items.len() > 0 {
        let prev = items.drop_last();
        let acc = merged(prev);
        let x = items.last();
        let k = spec_normalize_command(x.command);
        lemma_merged_wins(prev);
        lemma_merged_distinct(prev);
        lemma_merged_complete(prev);
        lemma_index_of_key(acc, k);
        let m = merged(items);
        assert forall|i: int, j: int|
            0 <= i < m.len() && 0 <= j < items.len() && spec_normalize_command(items[j].command)
                == spec_normalize_command(#[trigger] m[i].command) implies m[i].score_key >= #[trigger] items[j].score_key by {
            if j < items.len() - 1 {
                assert(items[j] == prev[j]);
                match index_of_key(acc, k) {
                    Some(p) => {
                        if i == p && !(acc[p].score_key >= x.score_key) {
                            assert(acc[p].score_key >= prev[j].score_key);
                        } else {
                            assert(m[i] == acc[i]);
                        }
                    },
                    None => {
                        if i < acc.len() {
                            assert(m[i] == acc[i]);
                        } else {
                            assert(m[i] == x);
                            let i0 = choose|i0: int|
                                0 <= i0 < acc.len() && spec_normalize_command(#[trigger] acc[i0].command)
                                    == spec_normalize_command(#[trigger] prev[j].command);
                            assert(spec_normalize_command(acc[i0].command) != k);
                        }
                    },
                }
            } else {
                assert(items[j] == x);
                match index_of_key(acc, k) {
                    Some(p) => {
                        if i != p {
                            assert(m[i] == acc[i]);
                            if i < p {
                                assert(spec_normalize_command(acc[i].command) != spec_normalize_command(acc[p].command));
                            } else {
                                assert(spec_normalize_command(acc[p].command) != spec_normalize_command(acc[i].command));
                            }
                        }
                    },
                    None => {
                        if i < acc.len() {
                            assert(m[i] == acc[i]);
                        } else {
                            assert(m[i] == x);
                        }
                    },
                }
            }
        }
    }
}

proof fn lemma_merged_from_items(items: Seq<RankedView>)
    ensures
        forall|i: int| 0 <= i < merged(items).len() ==> items.contains(#[trigger] merged(items)[i]),
    decreases items.len(),
{
    if items.len() > 0 {
        let prev = items.drop_last();
        let acc = merged(prev);
        let x = items.last();
        let k = spec_normalize_command(x.command);
        lemma_merged_from_items(prev);
        lemma_index_of_key(acc, k);
        let m = merged(items);
        assert forall|i: int| 0 <= i < m.len() implies items.contains(#[trigger] m[i]) by {
            let from_prev = match index_of_key(acc, k) {
                Some(p) => !(i == p && !(acc[p].score_key >= x.score_key)),
                None => i < acc.len(),
            };
            if from_prev {
                assert(m[i] == acc[i]);
                assert(prev.contains(acc[i]));
                let q = choose|q: int| 0 <= q < prev.len() && prev[q] == acc[i];
                assert(items[q] == prev[q]);
            } else {
                assert(items[items.len() - 1] == x);
            }
        }
    }
}

proof fn lemma_same_multiset_keys(s: Seq<RankedView>, m: Seq<RankedView>)
    requires
        s.to_multiset() == m.to_multiset(),
        distinct_keys(m),
    ensures
        distinct_keys(s),
        forall|i: int| 0 <= i < s.len() ==> m.contains(#[trigger] s[i]),
{
    broadcast use vstd::seq_lib::to_multiset_contains;
    broadcast use vstd::multiset::group_multiset_axioms;

    assert forall|i: int| 0 <= i < s.len() implies m.contains(#[trigger] s[i]) by {
        assert(s.contains(s[i]));
        assert(s.to_multiset().count(s[i]) > 0);
    }
    assert(m.no_duplicates()) by {
        assert forall|i: int, j: int| 0 <= i < m.len() && 0 <= j < m.len() && i != j implies m[i] != m[j] by {
            if i < j {
                assert(spec_normalize_command(m[i].command) != spec_normalize_command(m[j].command));
            } else {
                assert(spec_normalize_command(m[j].command) != spec_normalize_command(m[i].command));
            }
        }
    }
    m.lemma_multiset_has_no_duplicates();
    s.lemma_multiset_has_no_duplicates_conv();
    assert forall|i: int, j: int| 0 <= i < j < s.len() implies spec_normalize_command(#[trigger] s[i].command)
        != spec_normalize_command(#[trigger] s[j].command) by {
        assert(m.contains(s[i]));
        assert(m.contains(s[j]));
        let p = choose|p: int| 0 <= p < m.len() && m[p] == s[i];
        let q = choose|q: int| 0 <= q < m.len() && m[q] == s[j];
        assert(s[i] != s[j]);
        if p < q {
            assert(spec_normalize_command(m[p].command) != spec_normalize_command(m[q].command));
        } else {
            assert(spec_normalize_command(m[q].command) != spec_normalize_command(m[p].command));
        }
    }
}

/// The merged suggestions hold each normalized command once, in the merged order, at most
/// `limit` of them; each scores at least as high as every suggestion with its normalized
/// command (a weaker candidate never displaces a stronger one), and each comes from the
/// input.
pub proof fn lemma_merge_shape(input: Seq<char>, items: Seq<RankedView>, limit: int)
    requires
        limit >= 0,
    ensures
        ({
            let r = spec_merge(input, items, limit);
            &&& r.len() <= limit
            &&& sorted_by(r, rank_leq(input))
            &&& distinct_keys(r)
            &&& forall|i: int| 0 <= i < r.len() ==> items.contains(#[trigger] r[i])
            &&& forall|i: int, j: int|
                0 <= i < r.len() && 0 <= j < items.len() && spec_normalize_command(items[j].command)
                    == spec_normalize_command(#[trigger] r[i].command) ==> r[i].score_key >= #[trigger] items[j].score_key
        }),
{
    let m = merged(items);
    lemma_merged_distinct(items);
    lemma_merged_wins(items);
    lemma_merged_from_items(items);
    lemma_rank_order_total(input);
    m.lemma_sort_by_ensures(rank_leq(input));
    let s = m.sort_by(rank_leq(input));
    lemma_same_multiset_keys(s, m);
    let n = if limit < s.len() { limit } else { s.len() as int };
    let r = s.take(n);
    assert(r == spec_merge(input, items, limit));
    assert forall|i: int| 0 <= i < r.len() implies items.contains(#[trigger] r[i]) && m.contains(r[i]) by {
        assert(r[i] == s[i]);
        assert(m.contains(s[i]));
        let p = choose|p: int| 0 <= p < m.len() && m[p] == s[i];
        assert(items.contains(m[p]));
    }
    assert forall|i: int, j: int|
        0 <= i < r.len() && 0 <= j < items.len() && spec_normalize_command(items[j].command)
            == spec_normalize_command(#[trigger] r[i].command) implies r[i].score_key >= #[trigger] items[j].score_key by {
        assert(m.contains(r[i]));
        let p = choose|p: int| 0 <= p < m.len() && m[p] == r[i];
        assert(spec_normalize_command(items[j].command) == spec_normalize_command(m[p].command));
    }
    assert forall|i: int, j: int| 0 <= i < j < r.len() implies spec_normalize_command(#[trigger] r[i].command)
        != spec_normalize_command(#[trigger] r[j].command) by {
        assert(r[i] == s[i] && r[j] == s[j]);
    }
    assert forall|i: int, j: int| 0 <= i < j < r.len() implies #[trigger] rank_leq(input)(r[i], r[j]) by {
        assert(r[i] == s[i] && r[j] == s[j]);
    }
}

/// Whether the items come by descending score.
pub open spec fn by_score(s: Seq<RankedView>) -> bool {
    forall|i: int, j: int| 0 <= i < j < s.len() ==> #[trigger] s[i].score_key >= #[trigger] s[j].score_key
}

proof fn lemma_insert_sorted(sorted: Seq<RankedView>, x: RankedView)
    requires
        by_score(sorted),
    ensures
        by_score(insert_by_score(sorted, x)),
        forall|i: int| 0 <= i < insert_by_score(sorted, x).len() ==> #[trigger] insert_by_score(sorted, x)[i] == x
            || sorted.contains(insert_by_score(sorted, x)[i]),
    decreases sorted.len(),
{
    let r = insert_by_score(sorted, x);
    if sorted.len() == 0 {
    } else if sorted.last().score_key >= x.score_key {
        assert forall|i: int| 0 <= i < r.len() implies #[trigger] r[i] == x || sorted.contains(r[i]) by {
            if i < sorted.len() {
                assert(r[i] == sorted[i]);
            }
        }
        assert forall|i: int, j: int| 0 <= i < j < r.len() implies #[trigger] r[i].score_key >= #[trigger] r[j].score_key by {
            if j == sorted.len() {
                assert(r[i] == sorted[i]);
                if i < sorted.len() - 1 {
                    assert(sorted[i].score_key >= sorted[sorted.len() - 1].score_key);
                }
            } else {
                assert(r[i] == sorted[i] && r[j] == sorted[j]);
            }
        }
    } else {
        let d = sorted.drop_last();
        assert(by_score(d)) by {
            assert forall|i: int, j: int| 0 <= i < j < d.len() implies #[trigger] d[i].score_key >= #[trigger] d[j].score_key by {
                assert(d[i] == sorted[i] && d[j] == sorted[j]);
            }
        }
        lemma_insert_sorted(d, x);
        let inner = insert_by_score(d, x);
        assert(r == inner.push(sorted.last()));
        assert forall|i: int| 0 <= i < r.len() implies #[trigger] r[i] == x || sorted.contains(r[i]) by {
            if i < inner.len() {
                assert(r[i] == inner[i]);
                if inner[i] != x {
                    let k = choose|k: int| 0 <= k < d.len() && d[k] == inner[i];
                    assert(sorted[k] == inner[i]);
                }
            } else {
                assert(r[i] == sorted[sorted.len() - 1]);
            }
        }
        assert forall|i: int, j: int| 0 <= i < j < r.len() implies #[trigger] r[i].score_key >= #[trigger] r[j].score_key by {
            if j < inner.len() {
                assert(r[i] == inner[i] && r[j] == inner[j]);
            } else {
                assert(r[i] == inner[i]);
                assert(r[j] == sorted.last());
                if inner[i] != x {
                    let k = choose|k: int| 0 <= k < d.len() && d[k] == inner[i];
                    assert(sorted[k] == inner[i]);
                    assert(sorted[k].score_key >= sorted[sorted.len() - 1].score_key);
                }
            }
        }
    }
}

/// Sorting by score orders the items by descending score and keeps only items of the input.
pub proof fn lemma_sort_by_score(s: Seq<RankedView>)
    ensures
        by_score(sort_by_score(s)),
        forall|i: int| 0 <= i < sort_by_score(s).len() ==> s.contains(#[trigger] sort_by_score(s)[i]),
    decreases s.len(),
{
    if s.len() > 0 {
        lemma_sort_by_score(s.drop_last());
        let inner = sort_by_score(s.drop_last());
        lemma_insert_sorted(inner, s.last());
        let r = sort_by_score(s);
        assert forall|i: int| 0 <= i < r.len() implies s.contains(#[trigger] r[i]) by {
            if r[i] == s.last() {
                assert(s[s.len() - 1] == r[i]);
            } else {
                let k = choose|k: int| 0 <= k < inner.len() && inner[k] == r[i];
                let m = choose|m: int| 0 <= m < s.drop_last().len() && s.drop_last()[m] == inner[k];
                assert(s[m] == r[i]);
            }
        }
    }
}

/// Whether an entry is another command than the most recent match.
pub open spec fn not_recent(recent: Option<ScoredView>, e: ScoredView) -> bool {
    match recent {
        Some(r) => e.command != r.command,
        None => true,
    }
}

/// Whether no command occurs twice among the entries.
pub open spec fn distinct_entries(es: Seq<ScoredView>) -> bool {
    forall|a: int, b: int| 0 <= a < b < es.len() ==> #[trigger] es[a].command != #[trigger] es[b].command
}

/// Whether `x` may come before `y` within a tier: when both name entries of the same tier
/// (other than the most recent match), `x` scores at least as high as `y`.
pub open spec fn tier_ordered(entries: Seq<ScoredView>, recent: Option<ScoredView>, x: RankedView, y: RankedView) -> bool {
    forall|a: int, b: int|
        #![trigger entries[a], entries[b]]
        0 <= a < entries.len() && 0 <= b < entries.len() && entries[a].command == x.command && entries[b].command
            == y.command && history_tier(entries[a]) == history_tier(entries[b]) && not_recent(recent, entries[a])
            && not_recent(recent, entries[b]) ==> x.score_key >= y.score_key
}

pub open spec fn pairwise_tier_ordered(entries: Seq<ScoredView>, recent: Option<ScoredView>, s: Seq<RankedView>) -> bool {
    forall|i: int, j: int| 0 <= i < j < s.len() ==> tier_ordered(entries, recent, #[trigger] s[i], #[trigger] s[j])
}

/// Every item of the block names an entry of tier `t` other than the most recent match.
pub open spec fn block_in_tier(entries: Seq<ScoredView>, recent: Option<ScoredView>, b: Seq<RankedView>, t: int) -> bool {
    forall|i: int|
        #![trigger b[i]]
        0 <= i < b.len() ==> exists|a: int|
            #![trigger entries[a]]
            0 <= a < entries.len() && entries[a].command == b[i].command && history_tier(entries[a]) == t
                && not_recent(recent, entries[a])
}

proof fn lemma_tier_items_from(es: Seq<ScoredView>, t: int)
    ensures
        forall|i: int|
            0 <= i < tier_items(es, t).len() ==> exists|a: int|
                0 <= a < es.len() && es[a].command == (#[trigger] tier_items(es, t)[i]).command && history_tier(es[a]) == t,
    decreases es.len(),
{
    if es.len() > 0 {
        lemma_tier_items_from(es.drop_last(), t);
        let rest = tier_items(es.drop_last(), t);
        let r = tier_items(es, t);
        assert forall|i: int| 0 <= i < r.len() implies exists|a: int|
            0 <= a < es.len() && es[a].command == (#[trigger] r[i]).command && history_tier(es[a]) == t by {
            if i < rest.len() {
                assert(r[i] == rest[i]);
                let a = choose|a: int| 0 <= a < es.drop_last().len() && es.drop_last()[a].command == rest[i].command
                    && history_tier(es.drop_last()[a]) == t;
                assert(es[a] == es.drop_last()[a]);
            } else {
                assert(es[es.len() - 1].command == r[i].command);
            }
        }
    }
}

proof fn lemma_without_command_from(es: Seq<ScoredView>, c: Seq<char>)
    ensures
        forall|i: int|
            0 <= i < without_command(es, c).len() ==> es.contains(#[trigger] without_command(es, c)[i])
                && without_command(es, c)[i].command != c,
    decreases es.len(),
{
    if es.len() > 0 {
        lemma_without_command_from(es.drop_last(), c);
        let rest = without_command(es.drop_last(), c);
        let r = without_command(es, c);
        assert forall|i: int| 0 <= i < r.len() implies es.contains(#[trigger] r[i]) && r[i].command != c by {
            if i < rest.len() {
                assert(r[i] == rest[i]);
                let a = choose|a: int| 0 <= a < es.drop_last().len() && es.drop_last()[a] == rest[i];
                assert(es[a] == r[i]);
            } else {
                assert(es[es.len() - 1] == r[i]);
            }
        }
    }
}

proof fn lemma_concat_tier_ordered(entries: Seq<ScoredView>, recent: Option<ScoredView>, x: Seq<RankedView>, y: Seq<RankedView>)
    requires
        pairwise_tier_ordered(entries, recent, x),
        pairwise_tier_ordered(entries, recent, y),
        forall|i: int, j: int| 0 <= i < x.len() && 0 <= j < y.len() ==> tier_ordered(entries, recent, #[trigger] x[i], #[trigger] y[j]),
    ensures
        pairwise_tier_ordered(entries, recent, x + y),
{
    let s = x + y;
    assert forall|i: int, j: int| 0 <= i < j < s.len() implies tier_ordered(entries, recent, #[trigger] s[i], #[trigger] s[j]) by {
        if j < x.len() {
            assert(s[i] == x[i] && s[j] == x[j]);
        } else if i < x.len() {
            assert(s[i] == x[i] && s[j] == y[j - x.len()]);
        } else {
            assert(s[i] == y[i - x.len()] && s[j] == y[j - x.len()]);
        }
    }
}

proof fn lemma_blocks_apart(
    entries: Seq<ScoredView>,
    recent: Option<ScoredView>,
    x: Seq<RankedView>,
    tx: int,
    y: Seq<RankedView>,
    ty: int,
)
    requires
        distinct_entries(entries),
        block_in_tier(entries, recent, x, tx),
        block_in_tier(entries, recent, y, ty),
        tx != ty,
    ensures
        forall|i: int, j: int| 0 <= i < x.len() && 0 <= j < y.len() ==> tier_ordered(entries, recent, #[trigger] x[i], #[trigger] y[j]),
{
    assert forall|i: int, j: int| 0 <= i < x.len() && 0 <= j < y.len() implies tier_ordered(entries, recent, #[trigger] x[i], #[trigger] y[j]) by {
        let ax = choose|a: int| #![trigger entries[a]] 0 <= a < entries.len() && entries[a].command == x[i].command
            && history_tier(entries[a]) == tx && not_recent(recent, entries[a]);
        let ay = choose|a: int| #![trigger entries[a]] 0 <= a < entries.len() && entries[a].command == y[j].command
            && history_tier(entries[a]) == ty && not_recent(recent, entries[a]);
        assert forall|a: int, b: int|
            #![trigger entries[a], entries[b]]
            0 <= a < entries.len() && 0 <= b < entries.len() && entries[a].command == x[i].command && entries[b].command
                == y[j].command && history_tier(entries[a]) == history_tier(entries[b]) && not_recent(recent, entries[a])
                && not_recent(recent, entries[b]) implies x[i].score_key >= y[j].score_key by {
            if a != ax {
                if a < ax {
                    assert(entries[a].command != entries[ax].command);
                } else {
                    assert(entries[ax].command != entries[a].command);
                }
            }
            if b != ay {
                if b < ay {
                    assert(entries[b].command != entries[ay].command);
                } else {
                    assert(entries[ay].command != entries[b].command);
                }
            }
        }
    }
}

proof fn lemma_sorted_block(entries: Seq<ScoredView>, recent: Option<ScoredView>, b: Seq<RankedView>)
    requires
        by_score(b),
    ensures
        pairwise_tier_ordered(entries, recent, b),
{
    assert forall|i: int, j: int| 0 <= i < j < b.len() implies tier_ordered(entries, recent, #[trigger] b[i], #[trigger] b[j]) by {
        assert(b[i].score_key >= b[j].score_key);
    }
}

proof fn lemma_unique_prefix_ordered(entries: Seq<ScoredView>, recent: Option<ScoredView>, items: Seq<RankedView>, limit: int)
    requires
        pairwise_tier_ordered(entries, recent, items),
    ensures
        pairwise_tier_ordered(entries, recent, unique_prefix(items, limit)),
        forall|i: int| 0 <= i < unique_prefix(items, limit).len() ==> items.contains(#[trigger] unique_prefix(items, limit)[i]),
    decreases items.len(),
{
    if items.len() > 0 {
        let d = items.drop_last();
        assert(pairwise_tier_ordered(entries, recent, d)) by {
            assert forall|i: int, j: int| 0 <= i < j < d.len() implies tier_ordered(entries, recent, #[trigger] d[i], #[trigger] d[j]) by {
                assert(d[i] == items[i] && d[j] == items[j]);
            }
        }
        lemma_unique_prefix_ordered(entries, recent, d, limit);
        let acc = unique_prefix(d, limit);
        let r = unique_prefix(items, limit);
        let x = items.last();
        assert forall|i: int| 0 <= i < r.len() implies items.contains(#[trigger] r[i]) by {
            if i < acc.len() {
                assert(r[i] == acc[i]);
                let k = choose|k: int| 0 <= k < d.len() && d[k] == acc[i];
                assert(items[k] == r[i]);
            } else {
                assert(items[items.len() - 1] == r[i]);
            }
        }
        assert forall|i: int, j: int| 0 <= i < j < r.len() implies tier_ordered(entries, recent, #[trigger] r[i], #[trigger] r[j]) by {
            if j < acc.len() {
                assert(r[i] == acc[i] && r[j] == acc[j]);
            } else {
                assert(r[i] == acc[i] && r[j] == x);
                let k = choose|k: int| 0 <= k < d.len() && d[k] == acc[i];
                assert(items[k] == acc[i]);
                assert(items[items.len() - 1] == x);
                assert(tier_ordered(entries, recent, items[k], items[items.len() - 1]));
            }
        }
    }
}

/// The entries left after the most recent match are entries other than it.
pub open spec fn rest_of(recent: Option<ScoredView>, entries: Seq<ScoredView>) -> Seq<ScoredView> {
    match recent {
        Some(r) => without_command(entries, r.command),
        None => entries,
    }
}

proof fn lemma_rest_from_entries(recent: Option<ScoredView>, entries: Seq<ScoredView>)
    ensures
        forall|c: int|
            #![trigger rest_of(recent, entries)[c]]
            0 <= c < rest_of(recent, entries).len() ==> exists|a: int|
                #![trigger entries[a]]
                0 <= a < entries.len() && entries[a] == rest_of(recent, entries)[c] && not_recent(recent, entries[a]),
{
    assert forall|c: int|
        #![trigger rest_of(recent, entries)[c]]
        0 <= c < rest_of(recent, entries).len() implies exists|a: int|
            #![trigger entries[a]]
            0 <= a < entries.len() && entries[a] == rest_of(recent, entries)[c] && not_recent(recent, entries[a]) by {
        let x = rest_of(recent, entries)[c];
        match recent {
            Some(r) => {
                lemma_without_command_from(entries, r.command);
                assert(x == without_command(entries, r.command)[c]);
                assert(entries.contains(x));
                let a = choose|a: int| 0 <= a < entries.len() && entries[a] == x;
                assert(entries[a] == x && not_recent(recent, entries[a]));
            },
            None => {
                assert(entries[c] == x);
            },
        }
    }
}

#[verifier::spinoff_prover]
proof fn lemma_tier_block(recent: Option<ScoredView>, entries: Seq<ScoredView>, t: int)
    ensures
        block_in_tier(entries, recent, sort_by_score(tier_items(rest_of(recent, entries), t)), t),
        by_score(sort_by_score(tier_items(rest_of(recent, entries), t))),
{
    let rest = rest_of(recent, entries);
    let ti = tier_items(rest, t);
    let sb = sort_by_score(ti);
    lemma_rest_from_entries(recent, entries);
    lemma_sort_by_score(ti);
    lemma_tier_items_from(rest, t);
    assert forall|i: int| #![trigger sb[i]] 0 <= i < sb.len() implies exists|a: int|
        #![trigger entries[a]]
        0 <= a < entries.len() && entries[a].command == sb[i].command && history_tier(entries[a]) == t
            && not_recent(recent, entries[a]) by {
        assert(ti.contains(sb[i]));
        let k = choose|k: int| 0 <= k < ti.len() && ti[k] == sb[i];
        assert(ti[k] == ti[k]);
        let c = choose|c: int| 0 <= c < rest.len() && rest[c].command == (#[trigger] ti[k]).command && history_tier(rest[c]) == t;
        assert(rest_of(recent, entries)[c] == rest[c]);
        let a = choose|a: int| #![trigger entries[a]] 0 <= a < entries.len() && entries[a] == rest[c] && not_recent(recent, entries[a]);
        assert(entries[a].command == sb[i].command);
    }
}

proof fn lemma_relabel_block(entries: Seq<ScoredView>, recent: Option<ScoredView>, b: Seq<RankedView>, t: int)
    requires
        block_in_tier(entries, recent, b, t),
        by_score(b),
    ensures
        block_in_tier(entries, recent, relabel_popular(b), t),
        by_score(relabel_popular(b)),
{
    let r = relabel_popular(b);
    assert forall|i: int| #![trigger r[i]] 0 <= i < r.len() implies exists|a: int|
        #![trigger entries[a]]
        0 <= a < entries.len() && entries[a].command == r[i].command && history_tier(entries[a]) == t
            && not_recent(recent, entries[a]) by {
        assert(r[i].command == b[i].command);
        let a = choose|a: int| #![trigger entries[a]] 0 <= a < entries.len() && entries[a].command == b[i].command
            && history_tier(entries[a]) == t && not_recent(recent, entries[a]);
        assert(entries[a].command == r[i].command);
    }
    assert forall|i: int, j: int| 0 <= i < j < r.len() implies #[trigger] r[i].score_key >= #[trigger] r[j].score_key by {
        assert(r[i].score_key == b[i].score_key && r[j].score_key == b[j].score_key);
        assert(b[i].score_key >= b[j].score_key);
    }
}

/// Within each tier of the history ranking (the default catalog, the commands used at least
/// three times, the others), a suggestion placed before another scores at least as high:
/// for any two suggestions in the result that name entries of the same tier (other than the
/// most recent match), the earlier one has the higher or equal score key.  Stated for
/// entries that name each command once.
#[verifier::spinoff_prover]
pub proof fn lemma_multipass_tiers_by_score(recent: Option<ScoredView>, entries: Seq<ScoredView>, limit: int)
    requires
        distinct_entries(entries),
    ensures
        forall|i: int, j: int|
            0 <= i < j < spec_multipass(recent, entries, limit).len() ==> tier_ordered(
                entries,
                recent,
                #[trigger] spec_multipass(recent, entries, limit)[i],
                #[trigger] spec_multipass(recent, entries, limit)[j],
            ),
{
    let first = match recent {
        Some(r) => seq![labelled(r, if r.is_local { "history-local"@ } else { "history-global"@ })],
        None => seq![],
    };
    let rest = rest_of(recent, entries);
    let b0 = sort_by_score(tier_items(rest, 0));
    let b1s = sort_by_score(tier_items(rest, 1));
    let b1 = relabel_popular(b1s);
    let b2 = sort_by_score(tier_items(rest, 2));
    lemma_tier_block(recent, entries, 0);
    lemma_tier_block(recent, entries, 1);
    lemma_tier_block(recent, entries, 2);
    lemma_relabel_block(entries, recent, b1s, 1);
    lemma_sorted_block(entries, recent, b0);
    lemma_sorted_block(entries, recent, b1);
    lemma_sorted_block(entries, recent, b2);
    lemma_blocks_apart(entries, recent, b0, 0, b1, 1);
    lemma_blocks_apart(entries, recent, b0, 0, b2, 2);
    lemma_blocks_apart(entries, recent, b1, 1, b2, 2);
    lemma_concat_tier_ordered(entries, recent, b0, b1);
    let b01 = b0 + b1;
    assert forall|i: int, j: int| 0 <= i < b01.len() && 0 <= j < b2.len() implies tier_ordered(
        entries,
        recent,
        #[trigger] b01[i],
        #[trigger] b2[j],
    ) by {
        if i < b0.len() {
            assert(b01[i] == b0[i]);
        } else {
            assert(b01[i] == b1[i - b0.len()]);
        }
    }
    lemma_concat_tier_ordered(entries, recent, b01, b2);
    let blocks = b01 + b2;
    assert(pairwise_tier_ordered(entries, recent, first)) by {
        assert forall|i: int, j: int| 0 <= i < j < first.len() implies tier_ordered(entries, recent, #[trigger] first[i], #[trigger] first[j]) by {
        }
    }
    assert forall|i: int, j: int| 0 <= i < first.len() && 0 <= j < blocks.len() implies tier_ordered(
        entries,
        recent,
        #[trigger] first[i],
        #[trigger] blocks[j],
    ) by {
        let r = recent->Some_0;
        assert(first[i].command == r.command);
    }
    lemma_concat_tier_ordered(entries, recent, first, blocks);
    let tiers = first + b0 + b1 + b2;
    assert(tiers =~= first + blocks);
    lemma_unique_prefix_ordered(entries, recent, tiers, limit);
}

} // verus!
