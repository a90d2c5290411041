//! Context candidates: completions that come from the project, the working tree, the tools
//! that can be queried and the paths around the working directory.
use vstd::prelude::*;
use crate::context::CommandContext;
use crate::overlay::skip_chars;
use crate::path::{path_views, PathCandidate};
pub use crate::workspace::WorkspaceFacts;
use crate::text::{
    chars_of, split_whitespace, words, contains_seq, contains_str, join_strings, join_with, starts_with, starts_with_str,
    str_eq, string_of, to_string, trim, trim_chars, views,
};

verus! {

/// A completion offered from the context, ranked by a score in tenths.
#[derive(Debug)]
pub struct ContextCandidate {
    pub command: String,
    pub description: Option<String>,
    pub source: String,
    pub score_tenths: u32,
}

/// A candidate with its texts taken by value.
pub struct CandidateView {
    pub command: Seq<char>,
    pub description: Option<Seq<char>>,
    pub source: Seq<char>,
    pub score_tenths: u32,
}

pub open spec fn opt_view(o: Option<String>) -> Option<Seq<char>> {
    match o {
        Some(s) => Some(s@),
        None => None,
    }
}

impl View for ContextCandidate {
    type V = CandidateView;

    open spec fn view(&self) -> CandidateView {
        CandidateView {
            command: self.command@,
            description: opt_view(self.description),
            source: self.source@,
            score_tenths: self.score_tenths,
        }
    }
}

pub open spec fn cands_view(v: Seq<ContextCandidate>) -> Seq<CandidateView> {
    v.map_values(|c: ContextCandidate| c@)
}

fn push_candidate(list: &mut Vec<ContextCandidate>, c: ContextCandidate)
    ensures
        cands_view(final(list)@) =~= cands_view(old(list)@).push(c@),
{
    list.push(c);
    assert(cands_view(list@) =~= cands_view(old(list)@).push(c@));
}

fn candidate(command: String, description: &str, source: &str, score_tenths: u32) -> (r: ContextCandidate)
    ensures
        r@ == (CandidateView {
            command: command@,
            description: Some(description@),
            source: source@,
            score_tenths,
        }),
{
    ContextCandidate {
        command,
        description: Some(to_string(description)),
        source: to_string(source),
        score_tenths,
    }
}

/// A project command is offered while the typed line is empty or occurs in it.
pub open spec fn keep_for(cmd: Seq<char>, t: Seq<char>) -> bool {
    t.len() == 0 || starts_with(cmd, t) || contains_seq(cmd, t)
}

/// The commands (with their descriptions) that the typed line selects, in order.
pub open spec fn offers(items: Seq<(Seq<char>, Seq<char>)>, t: Seq<char>, source: Seq<char>, score: u32) -> Seq<CandidateView>
    decreases items.len(),
{
    if items.len() == 0 {
        seq![]
    } else {
        let rest = offers(items.drop_last(), t, source, score);
        let cmd = items.last().0;
        if keep_for(cmd, t) {
            rest.push(CandidateView { command: cmd, description: Some(items.last().1), source, score_tenths: score })
        } else {
            rest
        }
    }
}

pub open spec fn with_desc(cmds: Seq<Seq<char>>, d: Seq<char>) -> Seq<(Seq<char>, Seq<char>)> {
    cmds.map_values(|c: Seq<char>| (c, d))
}

pub open spec fn pair_views(s: Seq<(&str, &str)>) -> Seq<(Seq<char>, Seq<char>)> {
    s.map_values(|p: (&str, &str)| (p.0@, p.1@))
}

fn offer_all(list: &mut Vec<ContextCandidate>, items: &[(&str, &str)], token: &str, source: &str, score: u32)
    ensures
        cands_view(final(list)@) =~= cands_view(old(list)@) + offers(pair_views(items@), token@, source@, score),
{
    let empty = chars_of(token).len() == 0;
    let mut i: usize = 0;
    while i < items.len()
        invariant
            i <= items@.len(),
            empty == (token@.len() == 0),
            cands_view(list@) =~= cands_view(old(list)@) + offers(pair_views(items@).take(i as int), token@, source@, score),
        decreases items.len() - i,
    {
        let (cmd, desc) = items[i];
        assert(pair_views(items@).take(i + 1).drop_last() =~= pair_views(items@).take(i as int));
        assert(pair_views(items@).take(i + 1).last() == (cmd@, desc@));
        if empty || starts_with_str(cmd, token) || contains_str(cmd, token) {
            push_candidate(list, candidate(to_string(cmd), desc, source, score));
        }
        i = i + 1;
    }
    assert(pair_views(items@).take(items@.len() as int) =~= pair_views(items@));
}

pub open spec fn pnpm_offers(t: Seq<char>) -> Seq<CandidateView> {
    offers(
        with_desc(
            seq!["pnpm dev"@, "pnpm install"@, "pnpm build"@, "pnpm test"@, "pnpm run"@],
            "pnpm project command"@,
        ),
        t,
        "pnpm"@,
        240,
    )
}

pub open spec fn bun_offers(t: Seq<char>) -> Seq<CandidateView> {
    offers(
        with_desc(seq!["bun run dev"@, "bun install"@, "bun test"@, "bun run build"@], "bun project command"@),
        t,
        "bun"@,
        240,
    )
}

pub open spec fn yarn_offers(t: Seq<char>) -> Seq<CandidateView> {
    offers(
        with_desc(seq!["yarn dev"@, "yarn install"@, "yarn build"@, "yarn test"@], "yarn project command"@),
        t,
        "yarn"@,
        240,
    )
}

pub open spec fn cargo_offers(t: Seq<char>) -> Seq<CandidateView> {
    offers(
        with_desc(
            seq!["cargo check"@, "cargo test"@, "cargo run"@, "cargo build --release"@, "cargo clippy"@],
            "cargo project command"@,
        ),
        t,
        "cargo"@,
        240,
    )
}

pub open spec fn compose_offers(t: Seq<char>) -> Seq<CandidateView> {
    offers(
        with_desc(
            seq![
                "docker compose up -d"@,
                "docker compose down"@,
                "docker compose logs -f"@,
                "docker compose ps"@,
            ],
            "docker compose stack"@,
        ),
        t,
        "docker"@,
        230,
    )
}

/// The project commands that the lock files, the cargo manifest and the compose files
/// suggest, filtered by the trimmed input line.
pub open spec fn spec_project_stack(input: Seq<char>, w: WorkspaceFacts) -> Seq<CandidateView> {
    let t = trim(input);
    let managers = if w.has_marker("pnpm-lock.yaml"@) {
        pnpm_offers(t)
    } else if w.has_marker("bun.lockb"@) || w.has_marker("bun.lock"@) {
        bun_offers(t)
    } else if w.has_marker("yarn.lock"@) {
        yarn_offers(t)
    } else {
        seq![]
    };
    let cargo = if w.has_marker("Cargo.toml"@) { cargo_offers(t) } else { seq![] };
    let compose = if w.has_marker("docker-compose.yml"@) || w.has_marker("docker-compose.yaml"@)
        || w.has_marker("compose.yml"@) || w.has_marker("compose.yaml"@) {
        compose_offers(t)
    } else {
        seq![]
    };
    managers + cargo + compose
}

fn trimmed(s: &str) -> (r: String)
    ensures
        r@ == trim(s@),
{
    let cs = chars_of(s);
    let t = trim_chars(&cs);
    string_of(t.as_slice())
}

/// Commands that the project's tooling suggests.
pub fn project_stack_candidates(context: &CommandContext, workspace: &WorkspaceFacts) -> (r: Vec<ContextCandidate>)
    ensures
        cands_view(r@) =~= spec_project_stack(context.input@, *workspace),
{
    let mut list: Vec<ContextCandidate> = Vec::new();
    assert(cands_view(list@) =~= seq![]);
    let t = trimmed(context.input.as_str());
    let token = t.as_str();
    if workspace.has("pnpm-lock.yaml") {
        let d = "pnpm project command";
        let items = [("pnpm dev", d), ("pnpm install", d), ("pnpm build", d), ("pnpm test", d), ("pnpm run", d)];
        assert(pair_views(items@) =~= with_desc(
            seq!["pnpm dev"@, "pnpm install"@, "pnpm build"@, "pnpm test"@, "pnpm run"@],
            d@,
        ));
        offer_all(&mut list, &items, token, "pnpm", 240);
    } else if workspace.has("bun.lockb") || workspace.has("bun.lock") {
        let d = "bun project command";
        let items = [("bun run dev", d), ("bun install", d), ("bun test", d), ("bun run build", d)];
        assert(pair_views(items@) =~= with_desc(
            seq!["bun run dev"@, "bun install"@, "bun test"@, "bun run build"@],
            d@,
        ));
        offer_all(&mut list, &items, token, "bun", 240);
    } else if workspace.has("yarn.lock") {
        let d = "yarn project command";
        let items = [("yarn dev", d), ("yarn install", d), ("yarn build", d), ("yarn test", d)];
        assert(pair_views(items@) =~= with_desc(
            seq!["yarn dev"@, "yarn install"@, "yarn build"@, "yarn test"@],
            d@,
        ));
        offer_all(&mut list, &items, token, "yarn", 240);
    }
    let ghost managers = cands_view(list@);
    if workspace.has("Cargo.toml") {
        let d = "cargo project command";
        let items = [
            ("cargo check", d),
            ("cargo test", d),
            ("cargo run", d),
            ("cargo build --release", d),
            ("cargo clippy", d),
        ];
        assert(pair_views(items@) =~= with_desc(
            seq!["cargo check"@, "cargo test"@, "cargo run"@, "cargo build --release"@, "cargo clippy"@],
            d@,
        ));
        offer_all(&mut list, &items, token, "cargo", 240);
    }
    let ghost with_cargo = cands_view(list@);
    if workspace.has("docker-compose.yml") || workspace.has("docker-compose.yaml") || workspace.has(
        "compose.yml",
    ) || workspace.has("compose.yaml") {
        let d = "docker compose stack";
        let items = [
            ("docker compose up -d", d),
            ("docker compose down", d),
            ("docker compose logs -f", d),
            ("docker compose ps", d),
        ];
        assert(pair_views(items@) =~= with_desc(
            seq![
                "docker compose up -d"@,
                "docker compose down"@,
                "docker compose logs -f"@,
                "docker compose ps"@,
            ],
            d@,
        ));
        offer_all(&mut list, &items, token, "docker", 230);
    }
    list
}

/// The state of splitting text at line feeds: the finished lines and the current one.
pub struct LineState {
    pub lines: Seq<Seq<char>>,
    pub cur: Seq<char>,
}

pub open spec fn lines_run(s: Seq<char>) -> LineState
    decreases s.len(),
{
    if s.len() == 0 {
        LineState { lines: seq![], cur: seq![] }
    } else {
        let st = lines_run(s.drop_last());
        if s.last() == '\n' {
            LineState { lines: st.lines.push(st.cur), cur: seq![] }
        } else {
            LineState { lines: st.lines, cur: st.cur.push(s.last()) }
        }
    }
}

/// The trimmed lines that are not blank, in order.
pub open spec fn kept_lines(segments: Seq<Seq<char>>) -> Seq<Seq<char>>
    decreases segments.len(),
{
    if segments.len() == 0 {
        seq![]
    } else {
        let rest = kept_lines(segments.drop_last());
        let t = trim(segments.last());
        if t.len() > 0 {
            rest.push(t)
        } else {
            rest
        }
    }
}

/// The lines of a tool's output, trimmed, without the blank ones.
pub open spec fn spec_lines(s: Seq<char>) -> Seq<Seq<char>> {
    let st = lines_run(s);
    kept_lines(st.lines.push(st.cur))
}

fn keep_line(out: &mut Vec<String>, cur: &Vec<char>)
    ensures
        views(final(out)@) =~= (if trim(cur@).len() > 0 { views(old(out)@).push(trim(cur@)) } else { views(old(out)@) }),
{
    let t = trim_chars(cur);
    if t.len() > 0 {
        let ghost before = out@;
        out.push(string_of(t.as_slice()));
        assert(views(out@) =~= views(before).push(trim(cur@)));
    }
}

/// The non-blank lines of `text`, trimmed.
pub fn nonempty_lines(text: &str) -> (r: Vec<String>)
    ensures
        views(r@) == spec_lines(text@),
{
    let cs = chars_of(text);
    let mut out: Vec<String> = Vec::new();
    let mut cur: Vec<char> = Vec::new();
    let mut i: usize = 0;
    assert(views(out@) =~= seq![]);
    while i < cs.len()
        invariant
            i <= cs@.len(),
            cs@ == text@,
            views(out@) == kept_lines(lines_run(text@.take(i as int)).lines),
            cur@ == lines_run(text@.take(i as int)).cur,
        decreases cs.len() - i,
    {
        assert(text@.take(i + 1).drop_last() =~= text@.take(i as int));
        if cs[i] == '\n' {
            keep_line(&mut out, &cur);
            cur = Vec::new();
            proof {
                let st = lines_run(text@.take(i as int));
                assert(st.lines.push(st.cur).drop_last() =~= st.lines);
            }
        } else {
            cur.push(cs[i]);
        }
        i = i + 1;
    }
    assert(text@.take(cs@.len() as int) =~= text@);
    keep_line(&mut out, &cur);
    proof {
        let st = lines_run(text@);
        assert(st.lines.push(st.cur).drop_last() =~= st.lines);
    }
    out
}

/// The typed tokens with the unfinished one replaced by `value`, joined by spaces.
pub open spec fn spec_format(c: CommandContext, value: Seq<char>) -> Seq<char> {
    let toks = views(c.tokens@);
    let prefix = if !c.has_trailing_space && toks.len() > 0 { toks.drop_last() } else { toks };
    join_with(prefix.push(value), " "@)
}

/// The command line that completes the token being typed with `value`.
pub fn format_command(context: &CommandContext, value: &str) -> (r: String)
    ensures
        r@ == spec_format(*context, value@),
{
    let mut prefix: Vec<String> = Vec::new();
    let n = context.tokens.len();
    let keep = if !context.has_trailing_space && n > 0 { n - 1 } else { n };
    let mut i: usize = 0;
    while i < keep
        invariant
            i <= keep <= n,
            n == context.tokens@.len(),
            views(prefix@) =~= views(context.tokens@).take(i as int),
        decreases keep - i,
    {
        let ghost before = prefix@;
        prefix.push(context.tokens[i].clone());
        assert(views(prefix@) =~= views(before).push(context.tokens@[i as int]@));
        i = i + 1;
    }
    let ghost before = prefix@;
    prefix.push(to_string(value));
    proof {
        let toks = views(context.tokens@);
        if !context.has_trailing_space && n > 0 {
            assert(toks.take(keep as int) =~= toks.drop_last());
        } else {
            assert(toks.take(keep as int) =~= toks);
        }
        assert(views(prefix@) =~= views(before).push(value@));
    }
    join_strings(&prefix, " ")
}

/// The values that complete the token being typed, as candidates.
pub open spec fn value_offers(
    values: Seq<Seq<char>>,
    c: CommandContext,
    description: Seq<char>,
    source: Seq<char>,
    score: u32,
) -> Seq<CandidateView>
    decreases values.len(),
{
    if values.len() == 0 {
        seq![]
    } else {
        let rest = value_offers(values.drop_last(), c, description, source, score);
        let v = values.last();
        if starts_with(v, c.current_token@) {
            rest.push(CandidateView {
                command: spec_format(c, v),
                description: Some(description),
                source,
                score_tenths: score,
            })
        } else {
            rest
        }
    }
}

/// The values that begin with the token being typed, each completing the line.
pub fn value_candidates(context: &CommandContext, values: &Vec<String>, description: &str, source: &str, score: u32) -> (r: Vec<ContextCandidate>)
    ensures
        cands_view(r@) =~= value_offers(views(values@), *context, description@, source@, score),
{
    let mut list: Vec<ContextCandidate> = Vec::new();
    assert(cands_view(list@) =~= seq![]);
    let mut i: usize = 0;
    while i < values.len()
        invariant
            i <= values@.len(),
            cands_view(list@) =~= value_offers(views(values@).take(i as int), *context, description@, source@, score),
        decreases values.len() - i,
    {
        assert(views(values@).take(i + 1).drop_last() =~= views(values@).take(i as int));
        assert(views(values@).take(i + 1).last() == values@[i as int]@);
        let v = values[i].as_str();
        if starts_with_str(v, context.current_token.as_str()) {
            let command = format_command(context, v);
            push_candidate(&mut list, candidate(command, description, source, score));
        }
        i = i + 1;
    }
    assert(views(values@).take(values@.len() as int) =~= views(values@));
    list
}

/// A tool to run for completions, with the key its output is cached under.
#[derive(Debug)]
pub struct ProcessQuery {
    pub cache_key: String,
    pub program: String,
    pub arguments: Vec<String>,
}

fn strings_of(items: &[&str]) -> (r: Vec<String>)
    ensures
        views(r@) =~= items@.map_values(|x: &str| x@),
{
    let mut r: Vec<String> = Vec::new();
    let mut i: usize = 0;
    while i < items.len()
        invariant
            i <= items@.len(),
            views(r@) =~= items@.map_values(|x: &str| x@).take(i as int),
        decreases items.len() - i,
    {
        let ghost before = r@;
        r.push(to_string(items[i]));
        assert(views(r@) =~= views(before).push(items@[i as int]@));
        i = i + 1;
    }
    r
}

fn concat3(a: &str, b: &str, c: &str) -> (r: String)
    ensures
        r@ == a@ + b@ + c@,
{
    let mut r = to_string(a);
    r.append(b);
    r.append(c);
    r
}

/// The first argument after the command.
pub open spec fn first_argument(c: CommandContext) -> Option<Seq<char>> {
    if c.arguments@.len() > 0 {
        Some(c.arguments@[0]@)
    } else {
        None
    }
}

/// The git arguments that list what a subcommand can take next.
pub open spec fn spec_git_arguments(sub: Seq<char>) -> Option<Seq<Seq<char>>> {
    if sub == "switch"@ || sub == "checkout"@ || sub == "merge"@ || sub == "rebase"@ {
        Some(seq!["branch"@, "--format=%(refname:short)"@])
    } else if sub == "push"@ || sub == "pull"@ {
        Some(seq!["remote"@])
    } else if sub == "tag"@ {
        Some(seq!["tag"@, "--list"@])
    } else {
        None
    }
}

/// The git command whose output completes the current subcommand, cached per subcommand
/// and directory; none for other subcommands.
pub fn git_query(context: &CommandContext, cwd: &str) -> (r: Option<ProcessQuery>)
    ensures
        match r {
            Some(q) => {
                &&& first_argument(*context) is Some
                &&& spec_git_arguments(first_argument(*context)->0) == Some(views(q.arguments@))
                &&& q.program@ == "git"@
                &&& q.cache_key@ == "git:"@ + first_argument(*context)->0 + ":"@ + cwd@
            },
            None => first_argument(*context) is None || spec_git_arguments(first_argument(*context)->0) is None,
        },
{
    if context.arguments.len() == 0 {
        return None;
    }
    let sub = context.arguments[0].as_str();
    let arguments = if str_eq(sub, "switch") || str_eq(sub, "checkout") || str_eq(sub, "merge") || str_eq(sub, "rebase") {
        strings_of(&["branch", "--format=%(refname:short)"])
    } else if str_eq(sub, "push") || str_eq(sub, "pull") {
        strings_of(&["remote"])
    } else if str_eq(sub, "tag") {
        strings_of(&["tag", "--list"])
    } else {
        return None;
    };
    let key = concat3("git:", sub, ":");
    let mut cache_key = key;
    cache_key.append(cwd);
    Some(ProcessQuery { cache_key, program: to_string("git"), arguments })
}

/// Branches, remotes or tags from git's output that complete the token being typed.
pub fn git_candidates(context: &CommandContext, stdout: &str) -> (r: Vec<ContextCandidate>)
    ensures
        cands_view(r@) =~= value_offers(spec_lines(stdout@), *context, "git git"@, "git"@, 180),
{
    let values = nonempty_lines(stdout);
    value_candidates(context, &values, "git git", "git", 180)
}

/// The docker arguments that list what a subcommand can take next.
pub open spec fn spec_docker_arguments(sub: Seq<char>) -> Option<Seq<Seq<char>>> {
    if sub == "run"@ || sub == "rmi"@ {
        Some(seq!["image"@, "ls"@, "--format"@, "{{.Repository}}:{{.Tag}}"@])
    } else if sub == "exec"@ || sub == "logs"@ || sub == "stop"@ || sub == "rm"@ {
        Some(seq!["ps"@, "-a"@, "--format"@, "{{.Names}}"@])
    } else {
        None
    }
}

/// The docker subcommand being completed.
pub fn docker_subcommand(context: &CommandContext) -> (r: Option<String>)
    ensures
        match r {
            Some(s) => first_argument(*context) == Some(s@),
            None => first_argument(*context) is None,
        },
{
    if context.arguments.len() > 0 {
        Some(context.arguments[0].clone())
    } else {
        None
    }
}

/// The docker command whose output completes the current subcommand.
pub fn docker_query(context: &CommandContext) -> (r: Option<ProcessQuery>)
    ensures
        match r {
            Some(q) => {
                &&& first_argument(*context) is Some
                &&& spec_docker_arguments(first_argument(*context)->0) == Some(views(q.arguments@))
                &&& q.program@ == "docker"@
                &&& q.cache_key@ == "docker:"@ + first_argument(*context)->0
            },
            None => first_argument(*context) is None || spec_docker_arguments(first_argument(*context)->0) is None,
        },
{
    let sub = match docker_subcommand(context) {
        Some(s) => s,
        None => return None,
    };
    let s = sub.as_str();
    let arguments = if str_eq(s, "run") || str_eq(s, "rmi") {
        strings_of(&["image", "ls", "--format", "{{.Repository}}:{{.Tag}}"])
    } else if str_eq(s, "exec") || str_eq(s, "logs") || str_eq(s, "stop") || str_eq(s, "rm") {
        strings_of(&["ps", "-a", "--format", "{{.Names}}"])
    } else {
        return None;
    };
    let mut cache_key = to_string("docker:");
    cache_key.append(s);
    Some(ProcessQuery { cache_key, program: to_string("docker"), arguments })
}

/// Images or containers from docker's output that complete the token being typed.
pub fn docker_candidates(context: &CommandContext, stdout: &str) -> (r: Vec<ContextCandidate>)
    ensures
        cands_view(r@) =~= value_offers(spec_lines(stdout@), *context, "docker resource"@, "docker"@, 160),
{
    let values = nonempty_lines(stdout);
    value_candidates(context, &values, "docker resource", "docker", 160)
}

/// The zoxide command that lists its directories.
pub fn zoxide_query() -> (r: ProcessQuery)
    ensures
        r.cache_key@ == "zoxide:query:list"@,
        r.program@ == "zoxide"@,
        views(r.arguments@) == seq!["query"@, "--list"@],
{
    ProcessQuery {
        cache_key: to_string("zoxide:query:list"),
        program: to_string("zoxide"),
        arguments: strings_of(&["query", "--list"]),
    }
}

/// Directories from zoxide's output that complete the token being typed.
pub fn zoxide_candidates(context: &CommandContext, stdout: &str) -> (r: Vec<ContextCandidate>)
    ensures
        cands_view(r@) =~= value_offers(spec_lines(stdout@), *context, "zoxide directory"@, "zoxide"@, 140),
{
    let values = nonempty_lines(stdout);
    value_candidates(context, &values, "zoxide directory", "zoxide", 140)
}

/// Host patterns (with `*`, `?` or `!`) name no single host.
pub open spec fn is_host_pattern(h: Seq<char>) -> bool {
    h.contains('*') || h.contains('?') || h.contains('!')
}

pub open spec fn plain_hosts(ws: Seq<Seq<char>>) -> Seq<Seq<char>>
    decreases ws.len(),
{
    if ws.len() == 0 {
        seq![]
    } else {
        let rest = plain_hosts(ws.drop_last());
        if is_host_pattern(ws.last()) {
            rest
        } else {
            rest.push(ws.last())
        }
    }
}

/// The hosts named on `Host` lines, in order, patterns left out.
pub open spec fn host_names(lines: Seq<Seq<char>>) -> Seq<Seq<char>>
    decreases lines.len(),
{
    if lines.len() == 0 {
        seq![]
    } else {
        let l = lines.last();
        host_names(lines.drop_last()) + (if starts_with(l, "Host "@) {
            plain_hosts(words(l.skip(5)))
        } else {
            seq![]
        })
    }
}

fn has_char(s: &str, c: char) -> (r: bool)
    ensures
        r == s@.contains(c),
{
    let cs = chars_of(s);
    let mut i: usize = 0;
    while i < cs.len()
        invariant
            i <= cs@.len(),
            cs@ == s@,
            forall|j: int| 0 <= j < i ==> cs@[j] != c,
        decreases cs.len() - i,
    {
        if cs[i] == c {
            return true;
        }
        i = i + 1;
    }
    false
}

fn push_plain_hosts(out: &mut Vec<String>, ws: Vec<String>)
    ensures
        views(final(out)@) =~= views(old(out)@) + plain_hosts(views(ws@)),
{
    let mut i: usize = 0;
    while i < ws.len()
        invariant
            i <= ws@.len(),
            views(out@) =~= views(old(out)@) + plain_hosts(views(ws@).take(i as int)),
        decreases ws.len() - i,
    {
        assert(views(ws@).take(i + 1).drop_last() =~= views(ws@).take(i as int));
        let h = ws[i].as_str();
        if !(has_char(h, '*') || has_char(h, '?') || has_char(h, '!')) {
            let ghost before = out@;
            out.push(ws[i].clone());
            assert(views(out@) =~= views(before).push(ws@[i as int]@));
        }
        i = i + 1;
    }
    assert(views(ws@).take(ws@.len() as int) =~= views(ws@));
}

/// The host names that an SSH config file declares, without patterns.
pub fn ssh_hosts(content: &str) -> (r: Vec<String>)
    ensures
        views(r@) =~= host_names(spec_lines(content@)),
{
    let lines = nonempty_lines(content);
    let mut out: Vec<String> = Vec::new();
    assert(views(out@) =~= seq![]);
    let mut i: usize = 0;
    while i < lines.len()
        invariant
            i <= lines@.len(),
            views(lines@) == spec_lines(content@),
            views(out@) =~= host_names(views(lines@).take(i as int)),
        decreases lines.len() - i,
    {
        assert(views(lines@).take(i + 1).drop_last() =~= views(lines@).take(i as int));
        let l = lines[i].as_str();
        if starts_with_str(l, "Host ") {
            proof {
                reveal_strlit("Host ");
            }
            let rest = skip_chars(l, 5);
            let ws = split_whitespace(rest.as_str());
            push_plain_hosts(&mut out, ws);
        } else {
            assert(views(out@) =~= views(out@) + seq![]);
        }
        i = i + 1;
    }
    assert(views(lines@).take(lines@.len() as int) =~= views(lines@));
    out
}

/// SSH hosts from the user's config that complete the token being typed.
pub fn ssh_candidates(context: &CommandContext, config: &str) -> (r: Vec<ContextCandidate>)
    ensures
        cands_view(r@) =~= value_offers(host_names(spec_lines(config@)), *context, "SSH host"@, "ssh"@, 160),
{
    let hosts = ssh_hosts(config);
    value_candidates(context, &hosts, "SSH host", "ssh", 160)
}

/// The names of the `scripts` object of a `package.json`, as serde_json reads them; none
/// when the text is not JSON or has no such object.
pub uninterp spec fn package_scripts(content: Seq<char>) -> Option<Seq<Seq<char>>>;

/// The script names of a `package.json` text (serde_json's `from_str` into a `Value`, then
/// the keys of its `scripts` object). The contract only names the result.
#[verifier::external_body]
fn script_names(content: &str) -> (r: Option<Vec<String>>)
    ensures
        match r {
            Some(v) => package_scripts(content@) == Some(views(v@)),
            None => package_scripts(content@) is None,
        },
{
    let value = serde_json::from_str::<serde_json::Value>(content).ok()?;
    let scripts = value.get("scripts")?.as_object()?;
    Some(scripts.keys().cloned().collect())
}

/// The rank of the well-known scripts; the others come last.
pub open spec fn spec_script_priority(name: Seq<char>) -> usize {
    if name == "dev"@ {
        0
    } else if name == "start"@ {
        1
    } else if name == "build"@ {
        2
    } else if name == "test"@ {
        3
    } else if name == "lint"@ {
        4
    } else {
        usize::MAX
    }
}

pub fn script_priority(name: &str) -> (r: usize)
    ensures
        r == spec_script_priority(name@),
{
    if str_eq(name, "dev") {
        0
    } else if str_eq(name, "start") {
        1
    } else if str_eq(name, "build") {
        2
    } else if str_eq(name, "test") {
        3
    } else if str_eq(name, "lint") {
        4
    } else {
        usize::MAX
    }
}

/// The names of rank `p`, in their order.
pub open spec fn ranked(names: Seq<Seq<char>>, p: usize) -> Seq<Seq<char>>
    decreases names.len(),
{
    if names.len() == 0 {
        seq![]
    } else {
        let rest = ranked(names.drop_last(), p);
        if spec_script_priority(names.last()) == p {
            rest.push(names.last())
        } else {
            rest
        }
    }
}

/// The names stably sorted by rank.
pub open spec fn by_priority(names: Seq<Seq<char>>) -> Seq<Seq<char>> {
    ranked(names, 0) + ranked(names, 1) + ranked(names, 2) + ranked(names, 3) + ranked(names, 4)
        + ranked(names, usize::MAX)
}

fn push_ranked(out: &mut Vec<String>, names: &Vec<String>, p: usize)
    ensures
        views(final(out)@) =~= views(old(out)@) + ranked(views(names@), p),
{
    let mut i: usize = 0;
    while i < names.len()
        invariant
            i <= names@.len(),
            views(out@) =~= views(old(out)@) + ranked(views(names@).take(i as int), p),
        decreases names.len() - i,
    {
        assert(views(names@).take(i + 1).drop_last() =~= views(names@).take(i as int));
        if script_priority(names[i].as_str()) == p {
            let ghost before = out@;
            out.push(names[i].clone());
            assert(views(out@) =~= views(before).push(names@[i as int]@));
        }
        i = i + 1;
    }
    assert(views(names@).take(names@.len() as int) =~= views(names@));
}

/// Candidates for `npm run` (and the other package managers) from the script names: the
/// well-known scripts first, each completing the token being typed.
pub fn script_candidates(context: &CommandContext, names: Vec<String>) -> (r: Vec<ContextCandidate>)
    ensures
        cands_view(r@) =~= (if first_argument(*context) == Some("run"@) {
            value_offers(by_priority(views(names@)), *context, "package script"@, "npm"@, 200)
        } else {
            seq![]
        }),
{
    if !(context.arguments.len() > 0 && str_eq(context.arguments[0].as_str(), "run")) {
        let r: Vec<ContextCandidate> = Vec::new();
        assert(cands_view(r@) =~= seq![]);
        return r;
    }
    let mut sorted: Vec<String> = Vec::new();
    assert(views(sorted@) =~= seq![]);
    push_ranked(&mut sorted, &names, 0);
    push_ranked(&mut sorted, &names, 1);
    push_ranked(&mut sorted, &names, 2);
    push_ranked(&mut sorted, &names, 3);
    push_ranked(&mut sorted, &names, 4);
    push_ranked(&mut sorted, &names, usize::MAX);
    value_candidates(context, &sorted, "package script", "npm", 200)
}

/// Candidates from the scripts of a `package.json` text.
pub fn package_script_candidates(context: &CommandContext, package_json: &str) -> (r: Vec<ContextCandidate>)
    ensures
        cands_view(r@) =~= (if first_argument(*context) == Some("run"@) {
            match package_scripts(package_json@) {
                Some(names) => value_offers(by_priority(names), *context, "package script"@, "npm"@, 200),
                None => seq![],
            }
        } else {
            seq![]
        }),
{
    if !(context.arguments.len() > 0 && str_eq(context.arguments[0].as_str(), "run")) {
        let r: Vec<ContextCandidate> = Vec::new();
        assert(cands_view(r@) =~= seq![]);
        return r;
    }
    match script_names(package_json) {
        Some(names) => script_candidates(context, names),
        None => {
            let r: Vec<ContextCandidate> = Vec::new();
            assert(cands_view(r@) =~= seq![]);
            r
        },
    }
}

/// The branch that `HEAD` points at, or nothing when it is detached or unreadable.
pub open spec fn branch_of(head: Option<Seq<char>>) -> Seq<char> {
    match head {
        Some(h) => {
            let t = trim(h);
            if starts_with(t, "ref: refs/heads/"@) {
                t.skip(16)
            } else {
                seq![]
            }
        },
        None => seq![],
    }
}

pub open spec fn git_state_items(branch: Seq<char>) -> Seq<(Seq<char>, Seq<char>)> {
    let push = if branch.len() > 0 { "git push origin "@ + branch } else { "git push"@ };
    seq![
        ("git status"@, "show working tree status"@),
        ("git add ."@, "stage all changes"@),
        ("git commit -m \""@, "commit staged changes"@),
        ("git diff"@, "view unstaged changes"@),
        (push, "push branch to remote"@),
        ("git pull"@, "pull latest from remote"@),
        ("git stash"@, "stash dirty working tree"@),
        ("git stash pop"@, "restore stashed changes"@),
    ]
}

/// Everyday git commands for a working tree with an index, pushing to the current branch.
pub open spec fn spec_git_state(input: Seq<char>, head: Option<Seq<char>>, has_index: bool) -> Seq<CandidateView> {
    if has_index {
        offers(git_state_items(branch_of(head)), trim(input), "git"@, 250)
    } else {
        seq![]
    }
}

fn branch_name(head: Option<&str>) -> (r: String)
    ensures
        r@ == branch_of(match head {
            Some(h) => Some(h@),
            None => None,
        }),
{
    match head {
        Some(h) => {
            let t = trimmed(h);
            if starts_with_str(t.as_str(), "ref: refs/heads/") {
                proof {
                    reveal_strlit("ref: refs/heads/");
                }
                skip_chars(t.as_str(), 16)
            } else {
                String::new()
            }
        },
        None => String::new(),
    }
}

/// Git commands for the working tree, given the text of `.git/HEAD` and whether an index
/// exists.
pub fn git_state_candidates(context: &CommandContext, head: Option<&str>, has_index: bool) -> (r: Vec<ContextCandidate>)
    ensures
        cands_view(r@) =~= spec_git_state(
            context.input@,
            match head {
                Some(h) => Some(h@),
                None => None,
            },
            has_index,
        ),
{
    let mut list: Vec<ContextCandidate> = Vec::new();
    assert(cands_view(list@) =~= seq![]);
    if !has_index {
        return list;
    }
    let branch = branch_name(head);
    let push_cmd = if chars_of(branch.as_str()).len() > 0 {
        let mut p = to_string("git push origin ");
        p.append(branch.as_str());
        p
    } else {
        to_string("git push")
    };
    let t = trimmed(context.input.as_str());
    let items = [
        ("git status", "show working tree status"),
        ("git add .", "stage all changes"),
        ("git commit -m \"", "commit staged changes"),
        ("git diff", "view unstaged changes"),
        (push_cmd.as_str(), "push branch to remote"),
        ("git pull", "pull latest from remote"),
        ("git stash", "stash dirty working tree"),
        ("git stash pop", "restore stashed changes"),
    ];
    assert(pair_views(items@) =~= git_state_items(branch@));
    offer_all(&mut list, &items, t.as_str(), "git", 250);
    list
}

/// Which paths a command completes: directories only, or files (with the allowed suffixes,
/// none meaning any).
#[derive(Debug)]
pub struct FilesystemSpecification {
    pub directories_only: bool,
    pub suffixes: Vec<String>,
}

/// The suffixes of the source files that `git add` and `docker build` complete.
pub open spec fn source_file_suffixes() -> Seq<Seq<char>> {
    seq![
        ".rs"@, ".toml"@, ".json"@, ".js"@, ".ts"@, ".tsx"@, ".jsx"@, ".py"@, ".go"@, ".md"@, ".txt"@,
    ]
}

/// `cd`, `pushd`, `mkdir` and `rmdir` complete directories; `cat`, `less`, `code`, `nvim`
/// and `rg` complete any path; `git add` and `docker build` complete directories and source
/// files; other commands complete no path.
pub open spec fn spec_fs_specification(command: Seq<char>, first: Option<Seq<char>>) -> Option<(bool, Seq<Seq<char>>)> {
    if command == "cd"@ || command == "pushd"@ || command == "mkdir"@ || command == "rmdir"@ {
        Some((true, seq![]))
    } else if command == "cat"@ || command == "less"@ || command == "code"@ || command == "nvim"@
        || command == "rg"@ {
        Some((false, seq![]))
    } else if (command == "git"@ && first == Some("add"@)) || (command == "docker"@ && first == Some(
        "build"@,
    )) {
        Some((false, source_file_suffixes()))
    } else {
        None
    }
}

pub open spec fn fs_view(f: Option<FilesystemSpecification>) -> Option<(bool, Seq<Seq<char>>)> {
    match f {
        Some(x) => Some((x.directories_only, views(x.suffixes@))),
        None => None,
    }
}

pub fn filesystem_specification(command: &str, arguments: &Vec<String>) -> (r: Option<FilesystemSpecification>)
    ensures
        fs_view(r) == spec_fs_specification(
            command@,
            if arguments@.len() > 0 { Some(arguments@[0]@) } else { None },
        ),
{
    let c = command;
    if str_eq(c, "cd") || str_eq(c, "pushd") || str_eq(c, "mkdir") || str_eq(c, "rmdir") {
        let v: Vec<String> = Vec::new();
        assert(views(v@) =~= seq![]);
        return Some(FilesystemSpecification { directories_only: true, suffixes: v });
    }
    if str_eq(c, "cat") || str_eq(c, "less") || str_eq(c, "code") || str_eq(c, "nvim") || str_eq(c, "rg") {
        let v: Vec<String> = Vec::new();
        assert(views(v@) =~= seq![]);
        return Some(FilesystemSpecification { directories_only: false, suffixes: v });
    }
    let first_is = |w: &str| -> (b: bool)
        ensures
            b == (arguments@.len() > 0 && arguments@[0]@ == w@),
        { arguments.len() > 0 && str_eq(arguments[0].as_str(), w) };
    if (str_eq(c, "git") && first_is("add")) || (str_eq(c, "docker") && first_is("build")) {
        let v = strings_of(&[".rs", ".toml", ".json", ".js", ".ts", ".tsx", ".jsx", ".py", ".go", ".md", ".txt"]);
        return Some(FilesystemSpecification { directories_only: false, suffixes: v });
    }
    None
}

/// Whether the token being typed is an option (other than for `cd`), so that no path is
/// listed for it.
pub open spec fn completes_option(c: CommandContext, command: Seq<char>) -> bool {
    c.current_token@.len() > 0 && c.current_token@[0] == '-' && command != "cd"@
}

/// What to list for a context: the command's path specification, unless the token being
/// typed is an option.
pub fn listing_request(context: &CommandContext) -> (r: Option<FilesystemSpecification>)
    ensures
        fs_view(r) == (match context.command {
            Some(c) => if completes_option(*context, c@) {
                None
            } else {
                spec_fs_specification(c@, first_argument(*context))
            },
            None => None,
        }),
{
    match &context.command {
        Some(c) => {
            let t = chars_of(context.current_token.as_str());
            if t.len() > 0 && t[0] == '-' && !str_eq(c.as_str(), "cd") {
                None
            } else {
                filesystem_specification(c.as_str(), &context.arguments)
            }
        },
        None => None,
    }
}

/// The most path candidates offered.
pub const MAX_PATH_CANDIDATES: usize = 24;

/// The listed paths as candidates.
pub open spec fn path_offers(listed: Seq<(Seq<char>, bool)>, c: CommandContext) -> Seq<CandidateView> {
    listed.map_values(
        |p: (Seq<char>, bool)|
            CandidateView {
                command: spec_format(c, p.0),
                description: Some(if p.1 { "directory"@ } else { "file"@ }),
                source: "path"@,
                score_tenths: 120,
            },
    )
}

/// `cd ..` and `cd -`, when the token being typed could begin them.
pub open spec fn cd_extras(token: Seq<char>) -> Seq<CandidateView> {
    let parent = if token.len() == 0 || starts_with(".."@, token) {
        seq![
            CandidateView {
                command: "cd .."@,
                description: Some("parent directory"@),
                source: "path"@,
                score_tenths: 115,
            },
        ]
    } else {
        seq![]
    };
    let previous = if token.len() == 0 || starts_with("-"@, token) {
        seq![
            CandidateView {
                command: "cd -"@,
                description: Some("previous directory"@),
                source: "path"@,
                score_tenths: 110,
            },
        ]
    } else {
        seq![]
    };
    parent + previous
}

/// Path completions for a command that takes paths, from the listing of the searched
/// directory: at most `MAX_PATH_CANDIDATES` of them, and for `cd` the parent and previous
/// directories.
pub open spec fn spec_filesystem_candidates(c: CommandContext, listed: Seq<(Seq<char>, bool)>) -> Seq<CandidateView> {
    match c.command {
        None => seq![],
        Some(cmd) => match spec_fs_specification(cmd@, first_argument(c)) {
            None => seq![],
            Some(_) => {
                let values = if completes_option(c, cmd@) { seq![] } else { listed };
                let shown = values.take(if values.len() < 24 { values.len() as int } else { 24 });
                path_offers(shown, c) + (if cmd@ == "cd"@ { cd_extras(c.current_token@) } else { seq![] })
            },
        },
    }
}

pub fn generate_filesystem_candidates(context: &CommandContext, listed: &Vec<PathCandidate>) -> (r: Vec<ContextCandidate>)
    ensures
        cands_view(r@) =~= spec_filesystem_candidates(*context, path_views(listed@)),
{
    let mut list: Vec<ContextCandidate> = Vec::new();
    assert(cands_view(list@) =~= seq![]);
    let command = match &context.command {
        Some(c) => c,
        None => return list,
    };
    if filesystem_specification(command.as_str(), &context.arguments).is_none() {
        return list;
    }
    let t = chars_of(context.current_token.as_str());
    let is_cd = str_eq(command.as_str(), "cd");
    let option = t.len() > 0 && t[0] == '-' && !is_cd;
    let ghost lv = path_views(listed@);
    let ghost values = if option { seq![] } else { lv };
    let n = if option { 0 } else if listed.len() < MAX_PATH_CANDIDATES { listed.len() } else { MAX_PATH_CANDIDATES };
    let mut i: usize = 0;
    while i < n
        invariant
            i <= n <= listed@.len(),
            lv == path_views(listed@),
            cands_view(list@) =~= path_offers(lv.take(i as int), *context),
        decreases n - i,
    {
        let p = &listed[i];
        let command_text = format_command(context, p.value.as_str());
        let d = if p.is_directory { "directory" } else { "file" };
        push_candidate(&mut list, candidate(command_text, d, "path", 120));
        assert(lv.take(i + 1) =~= lv.take(i as int).push(lv[i as int]));
        i = i + 1;
    }
    proof {
        let shown = values.take(if values.len() < 24 { values.len() as int } else { 24 });
        if option {
            assert(lv.take(0) =~= shown);
        } else {
            assert(lv.take(n as int) =~= shown);
        }
    }
    if is_cd {
        let token = context.current_token.as_str();
        let empty = t.len() == 0;
        if empty || starts_with_str("..", token) {
            push_candidate(&mut list, candidate(to_string("cd .."), "parent directory", "path", 115));
        }
        if empty || starts_with_str("-", token) {
            push_candidate(&mut list, candidate(to_string("cd -"), "previous directory", "path", 110));
        }
    }
    list
}

/// Where the dynamic candidates for a command line come from.
#[derive(Debug, Clone, Copy, PartialEq, Eq, Structural)]
pub enum DynamicSource {
    /// Only the project commands.
    Project,
    /// git's branches, remotes or tags, and the working-tree commands.
    Git,
    /// The scripts of `package.json`.
    PackageScripts,
    /// docker's images or containers.
    Docker,
    /// The hosts of the SSH config.
    Ssh,
    /// zoxide's directories.
    Zoxide,
}

/// The source that `git`, the package managers, `docker`, the SSH tools and zoxide consult,
/// when the workspace has what it needs.
pub open spec fn spec_dynamic_source(c: CommandContext, w: WorkspaceFacts) -> DynamicSource {
    match c.command {
        None => DynamicSource::Project,
        Some(cmd) => {
            let n = cmd@;
            if n == "git"@ && w.has_marker(".git"@) {
                DynamicSource::Git
            } else if (n == "npm"@ || n == "pnpm"@ || n == "yarn"@ || n == "bun"@) && w.has_marker(
                "package.json"@,
            ) {
                DynamicSource::PackageScripts
            } else if n == "docker"@ && first_argument(c) is Some {
                DynamicSource::Docker
            } else if n == "ssh"@ || n == "scp"@ || n == "rsync"@ {
                DynamicSource::Ssh
            } else if n == "z"@ || n == "zoxide"@ {
                DynamicSource::Zoxide
            } else {
                DynamicSource::Project
            }
        },
    }
}

pub fn dynamic_source(context: &CommandContext, workspace: &WorkspaceFacts) -> (r: DynamicSource)
    ensures
        r == spec_dynamic_source(*context, *workspace),
{
    match &context.command {
        None => DynamicSource::Project,
        Some(cmd) => {
            let n = cmd.as_str();
            if str_eq(n, "git") && workspace.has(".git") {
                DynamicSource::Git
            } else if (str_eq(n, "npm") || str_eq(n, "pnpm") || str_eq(n, "yarn") || str_eq(n, "bun"))
                && workspace.has("package.json") {
                DynamicSource::PackageScripts
            } else if str_eq(n, "docker") && context.arguments.len() > 0 {
                DynamicSource::Docker
            } else if str_eq(n, "ssh") || str_eq(n, "scp") || str_eq(n, "rsync") {
                DynamicSource::Ssh
            } else if str_eq(n, "z") || str_eq(n, "zoxide") {
                DynamicSource::Zoxide
            } else {
                DynamicSource::Project
            }
        },
    }
}

/// `cat`, `less`, `code`, `nvim` and `rg` complete any path (files and directories, with no
/// suffix filter), whatever follows them; `cd`, `pushd`, `mkdir` and `rmdir` complete
/// directories only.
pub proof fn lemma_path_commands(command: Seq<char>, first: Option<Seq<char>>)
    ensures
        seq!["cat"@, "less"@, "code"@, "nvim"@, "rg"@].contains(command) ==> spec_fs_specification(command, first)
            == Some((false, Seq::<Seq<char>>::empty())),
        seq!["cd"@, "pushd"@, "mkdir"@, "rmdir"@].contains(command) ==> spec_fs_specification(command, first)
            == Some((true, Seq::<Seq<char>>::empty())),
{
    reveal_strlit("cat");
    reveal_strlit("less");
    reveal_strlit("code");
    reveal_strlit("nvim");
    reveal_strlit("rg");
    reveal_strlit("cd");
    reveal_strlit("pushd");
    reveal_strlit("mkdir");
    reveal_strlit("rmdir");
    let files = seq!["cat"@, "less"@, "code"@, "nvim"@, "rg"@];
    let dirs = seq!["cd"@, "pushd"@, "mkdir"@, "rmdir"@];
    if files.contains(command) {
        let i = choose|i: int| 0 <= i < files.len() && files[i] == command;
        assert(command == files[i]);
        assert(command != "cd"@ && command != "pushd"@ && command != "mkdir"@ && command != "rmdir"@) by {
            assert("cat"@[0] != "cd"@[1]);
            if command == "code"@ {
                assert("code"@[1] != "cd"@[1]);
            }
            if command == "rg"@ {
                assert("rg"@[0] != "cd"@[0]);
            }
        }
    }
    if dirs.contains(command) {
        let i = choose|i: int| 0 <= i < dirs.len() && dirs[i] == command;
        assert(command == dirs[i]);
    }
}

proof fn lemma_plain_hosts_keep(ws: Seq<Seq<char>>, j: int)
    requires
        0 <= j < ws.len(),
        !ws[j].contains('*'),
        !ws[j].contains('?'),
        !ws[j].contains('!'),
    ensures
        plain_hosts(ws).contains(ws[j]),
    decreases ws.len(),
{
    if j < ws.len() - 1 {
        lemma_plain_hosts_keep(ws.drop_last(), j);
        let rest = plain_hosts(ws.drop_last());
        let k = choose|k: int| 0 <= k < rest.len() && rest[k] == ws[j];
        if !is_host_pattern(ws.last()) {
            assert(rest.push(ws.last())[k] == ws[j]);
        }
    } else {
        let rest = plain_hosts(ws.drop_last());
        assert(rest.push(ws.last())[rest.len() as int] == ws[j]);
    }
}

proof fn lemma_plain_hosts_sound(ws: Seq<Seq<char>>, h: Seq<char>)
    requires
        plain_hosts(ws).contains(h),
    ensures
        ws.contains(h),
        !is_host_pattern(h),
    decreases ws.len(),
{
    let rest = plain_hosts(ws.drop_last());
    let k = choose|k: int| 0 <= k < plain_hosts(ws).len() && plain_hosts(ws)[k] == h;
    if k < rest.len() {
        assert(rest[k] == h);
        lemma_plain_hosts_sound(ws.drop_last(), h);
        let i = choose|i: int| 0 <= i < ws.drop_last().len() && ws.drop_last()[i] == h;
        assert(ws[i] == h);
    } else {
        assert(ws[ws.len() - 1] == h);
    }
}

/// The SSH hosts are the words after `Host ` on the `Host` lines that are no patterns: every
/// such word, on any `Host` line, is offered (all the names of a line, not only the first),
/// and every offered host is one of them.
pub proof fn lemma_ssh_hosts_are_host_words(lines: Seq<Seq<char>>, k: int, j: int, h: Seq<char>)
    ensures
        0 <= k < lines.len() && starts_with(lines[k], "Host "@) && 0 <= j < words(lines[k].skip(5)).len()
            && !words(lines[k].skip(5))[j].contains('*') && !words(lines[k].skip(5))[j].contains('?')
            && !words(lines[k].skip(5))[j].contains('!') ==> host_names(lines).contains(words(lines[k].skip(5))[j]),
        host_names(lines).contains(h) ==> !h.contains('*') && !h.contains('?') && !h.contains('!') && exists|m: int|
            0 <= m < lines.len() && starts_with(lines[m], "Host "@) && #[trigger] words(lines[m].skip(5)).contains(h),
    decreases lines.len(),
{
    if lines.len() > 0 {
        let l = lines.last();
        let before = host_names(lines.drop_last());
        let extra = if starts_with(l, "Host "@) {
            plain_hosts(words(l.skip(5)))
        } else {
            seq![]
        };
        assert(host_names(lines) == before + extra);
        lemma_ssh_hosts_are_host_words(lines.drop_last(), k, j, h);
        if 0 <= k < lines.len() && starts_with(lines[k], "Host "@) && 0 <= j < words(lines[k].skip(5)).len()
            && !words(lines[k].skip(5))[j].contains('*') && !words(lines[k].skip(5))[j].contains('?')
            && !words(lines[k].skip(5))[j].contains('!') {
            let w = words(lines[k].skip(5))[j];
            if k == lines.len() - 1 {
                lemma_plain_hosts_keep(words(l.skip(5)), j);
                let q = choose|q: int| 0 <= q < extra.len() && extra[q] == w;
                assert((before + extra)[before.len() + q] == w);
            } else {
                assert(lines.drop_last()[k] == lines[k]);
                let q = choose|q: int| 0 <= q < before.len() && before[q] == w;
                assert((before + extra)[q] == w);
            }
        }
        if host_names(lines).contains(h) {
            let q = choose|q: int| 0 <= q < (before + extra).len() && (before + extra)[q] == h;
            if q < before.len() {
                assert(before[q] == h);
                let m = choose|m: int| 0 <= m < lines.drop_last().len() && starts_with(lines.drop_last()[m], "Host "@)
                    && #[trigger] words(lines.drop_last()[m].skip(5)).contains(h);
                assert(lines[m] == lines.drop_last()[m]);
            } else {
                assert(extra[q - before.len()] == h);
                assert(extra.contains(h));
                lemma_plain_hosts_sound(words(l.skip(5)), h);
                assert(lines[lines.len() - 1] == l);
            }
        }
    }
}

} // verus!
