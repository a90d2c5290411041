//! Shell integration: hook scripts, install blocks and the paths they name.
pub mod bash;
pub mod powershell;
pub mod zsh;

use vstd::prelude::*;
use crate::path::{join_path_on, spec_join_on};
use crate::text::occurs_at;
use crate::text::{
    all_ascii, ascii_lowercase, ascii_lower, ascii_lower_char, chars_of, contains_seq, contains_str, find_chars_from, find_from,
    forward_slashes, lowercase, push_char, string_of, to_forward_slashes, to_lowercase, to_string,
};

verus! {

/// What the generated hooks depend on: the user's home directory (if known) and whether the
/// binaries are Windows executables.
pub struct Host {
    pub home_dir: Option<String>,
    pub windows: bool,
}

pub open spec fn spec_home(host: Host) -> Seq<char> {
    match host.home_dir {
        Some(h) => h@,
        None => seq!['.'],
    }
}

/// `~/.hintshell`, or `./.hintshell` without a home directory.
pub open spec fn spec_hintshell_home(host: Host) -> Seq<char> {
    spec_join_on(spec_home(host), ".hintshell"@, host.windows)
}

pub open spec fn spec_bin_dir(host: Host) -> Seq<char> {
    spec_join_on(spec_hintshell_home(host), "bin"@, host.windows)
}

pub open spec fn spec_cli_name(host: Host) -> Seq<char> {
    if host.windows {
        "hintshell.exe"@
    } else {
        "hintshell"@
    }
}

pub open spec fn spec_core_name(host: Host) -> Seq<char> {
    if host.windows {
        "hintshell-core.exe"@
    } else {
        "hintshell-core"@
    }
}

/// A Windows path in Git Bash / MSYS form: backslashes become slashes and a drive prefix
/// `C:` (a one-byte first character followed by `:`) becomes `/c`.
pub open spec fn spec_to_posix(path: Seq<char>) -> Seq<char> {
    let s = forward_slashes(path);
    if s.len() >= 2 && (s[0] as u32) < 128 && s[1] == ':' {
        seq!['/', ascii_lower(s[0])] + s.skip(2)
    } else {
        s
    }
}

pub open spec fn spec_cli_bin_posix(host: Host) -> Seq<char> {
    spec_to_posix(spec_join_on(spec_bin_dir(host), spec_cli_name(host), host.windows))
}

pub open spec fn spec_core_bin_posix(host: Host) -> Seq<char> {
    spec_to_posix(spec_join_on(spec_bin_dir(host), spec_core_name(host), host.windows))
}

pub open spec fn spec_bin_dir_posix(host: Host) -> Seq<char> {
    spec_to_posix(spec_bin_dir(host))
}

/// The HintShell home directory, `~/.hintshell`.
pub fn hintshell_home(host: &Host) -> (r: String)
    ensures
        r@ == spec_hintshell_home(*host),
{
    match &host.home_dir {
        Some(h) => join_path_on(h.as_str(), ".hintshell", host.windows),
        None => {
            let r = join_path_on(".", ".hintshell", host.windows);
            proof {
                reveal_strlit(".");
            }
            r
        },
    }
}

fn bin_dir(host: &Host) -> (r: String)
    ensures
        r@ == spec_bin_dir(*host),
{
    let home = hintshell_home(host);
    join_path_on(home.as_str(), "bin", host.windows)
}

/// Converts a Windows path to a Git Bash / MSYS path (`C:\Users\x` becomes `/c/Users/x`);
/// other paths only get forward slashes.
pub fn to_posix_path(path: &str) -> (r: String)
    ensures
        r@ == spec_to_posix(path@),
{
    let s = to_forward_slashes(path);
    let cs = chars_of(s.as_str());
    if cs.len() >= 2 && (cs[0] as u32) < 128 && cs[1] == ':' {
        let mut r = String::new();
        push_char(&mut r, '/');
        push_char(&mut r, ascii_lower_char(cs[0]));
        let ghost head = r@;
        let mut i: usize = 2;
        while i < cs.len()
            invariant
                2 <= i <= cs.len(),
                r@ == head + cs@.subrange(2, i as int),
            decreases cs.len() - i,
        {
            push_char(&mut r, cs[i]);
            assert(cs@.subrange(2, i + 1) =~= cs@.subrange(2, i as int).push(cs@[i as int]));
            i = i + 1;
        }
        assert(cs@.subrange(2, cs.len() as int) =~= cs@.skip(2));
        assert(head =~= seq!['/', ascii_lower(cs@[0])]);
        r
    } else {
        s
    }
}

/// The CLI binary as the shell hooks call it (`.exe` on Windows).
pub fn cli_bin_posix(host: &Host) -> (r: String)
    ensures
        r@ == spec_cli_bin_posix(*host),
{
    let dir = bin_dir(host);
    let name = if host.windows { "hintshell.exe" } else { "hintshell" };
    let p = join_path_on(dir.as_str(), name, host.windows);
    to_posix_path(p.as_str())
}

/// The daemon binary as the shell hooks call it.
pub fn core_bin_posix(host: &Host) -> (r: String)
    ensures
        r@ == spec_core_bin_posix(*host),
{
    let dir = bin_dir(host);
    let name = if host.windows { "hintshell-core.exe" } else { "hintshell-core" };
    let p = join_path_on(dir.as_str(), name, host.windows);
    to_posix_path(p.as_str())
}

/// The binary directory in POSIX form, for `PATH`.
pub fn bin_dir_posix(host: &Host) -> (r: String)
    ensures
        r@ == spec_bin_dir_posix(*host),
{
    let dir = bin_dir(host);
    to_posix_path(dir.as_str())
}

/// Shell functions that find a working `fzf` binary (Git Bash cannot run WinGet link shims).
pub const FZF_RESOLVE_FUNCTIONS: &'static str = "\n# Resolve a working fzf binary (caches in _HINTSHELL_FZF_BIN).\n# Never exec WinGet/Links shims — they print \"Permission denied\" under Git Bash.\n_hintshell_try_fzf() {\n    local p=\"$1\"\n    [[ -z \"$p\" ]] && return 1\n    # command -v on MSYS often omits .exe\n    if [[ ! -e \"$p\" && -e \"${p}.exe\" ]]; then\n        p=\"${p}.exe\"\n    fi\n    # WinGet Links: resolve symlink only, never execute the shim path\n    case \"$p\" in\n        */WinGet/Links/*|*/Microsoft/WinGet/Links/*)\n            local real=\"\"\n            if [[ -L \"$p\" ]]; then\n                real=$(readlink -f \"$p\" 2>/dev/null || readlink \"$p\" 2>/dev/null || true)\n            elif [[ -L \"${p}.exe\" ]]; then\n                real=$(readlink -f \"${p}.exe\" 2>/dev/null || readlink \"${p}.exe\" 2>/dev/null || true)\n            fi\n            [[ -n \"$real\" ]] || return 1\n            p=\"$real\"\n            ;;\n    esac\n    if [[ -L \"$p\" ]]; then\n        local real2\n        real2=$(readlink -f \"$p\" 2>/dev/null || readlink \"$p\" 2>/dev/null || true)\n        if [[ -n \"$real2\" ]]; then\n            if [[ \"$real2\" != /* && \"$real2\" != [A-Za-z]:* ]]; then\n                real2=\"$(cd \"$(dirname \"$p\")\" 2>/dev/null && pwd)/$real2\"\n            fi\n            if [[ -e \"$real2\" ]]; then\n                p=\"$real2\"\n            elif [[ -e \"${real2}.exe\" ]]; then\n                p=\"${real2}.exe\"\n            fi\n        fi\n    fi\n    # Still a Links path after resolve? refuse\n    case \"$p\" in\n        */WinGet/Links/*|*/Microsoft/WinGet/Links/*) return 1 ;;\n    esac\n    [[ -f \"$p\" ]] || return 1\n    if ! \"$p\" --version >/dev/null 2>&1; then\n        return 1\n    fi\n    _HINTSHELL_FZF_BIN=\"$p\"\n    printf '%s\\n' \"$p\"\n    return 0\n}\n\n_hintshell_resolve_fzf() {\n    if [[ -n \"${_HINTSHELL_FZF_BIN:-}\" ]]; then\n        printf '%s\\n' \"$_HINTSHELL_FZF_BIN\"\n        return 0\n    fi\n    local p uname_s\n    if [[ -n \"${HINTSHELL_FZF:-}\" ]]; then\n        _hintshell_try_fzf \"$HINTSHELL_FZF\" && return 0\n    fi\n    # On Git Bash / MSYS: prefer real WinGet package binary FIRST\n    # (PATH often points at Links shim which is not executable)\n    uname_s=$(uname -s 2>/dev/null || true)\n    case \"$uname_s\" in\n        MINGW*|MSYS*|CYGWIN*)\n            for p in \\\n                /c/Users/*/AppData/Local/Microsoft/WinGet/Packages/junegunn.fzf_*/fzf.exe \\\n                /d/Users/*/AppData/Local/Microsoft/WinGet/Packages/junegunn.fzf_*/fzf.exe\n            do\n                [[ -f \"$p\" ]] || continue\n                _hintshell_try_fzf \"$p\" && return 0\n            done\n            ;;\n    esac\n    for p in fzf.exe fzf; do\n        if command -v \"$p\" >/dev/null 2>&1; then\n            _hintshell_try_fzf \"$(command -v \"$p\" 2>/dev/null)\" && return 0\n        fi\n    done\n    return 1\n}\n";

/// The fzf options shared by the Bash and Zsh pickers.
pub const FZF_PICKER_ARGS: &'static str = "--height 40% --reverse --no-sort --cycle --delimiter='\\t' --with-nth=1,2 --nth=1 --tabstop=4 --prompt='HintShell> ' --header='Tab/Enter: select'";

/// The fzf resolver shared by the Bash and Zsh hooks.
pub fn fzf_resolve_functions() -> (r: String)
    ensures
        r@ == FZF_RESOLVE_FUNCTIONS@,
{
    to_string(FZF_RESOLVE_FUNCTIONS)
}

/// The fzf picker options.
pub fn fzf_picker_args() -> (r: &'static str)
    ensures
        r@ == FZF_PICKER_ARGS@,
{
    FZF_PICKER_ARGS
}

/// The shells that HintShell integrates with.
#[derive(Debug, Clone, Copy, PartialEq, Eq, Structural)]
pub enum Shell {
    PowerShell,
    Bash,
    Zsh,
}

/// The shell named by a (case-insensitive) name.
pub open spec fn spec_shell_named(lower: Seq<char>) -> Option<Shell> {
    if lower == "powershell"@ || lower == "pwsh"@ {
        Some(Shell::PowerShell)
    } else if lower == "bash"@ {
        Some(Shell::Bash)
    } else if lower == "zsh"@ {
        Some(Shell::Zsh)
    } else {
        None
    }
}

/// The display name of a shell.
pub open spec fn spec_shell_name(shell: Shell) -> Seq<char> {
    match shell {
        Shell::PowerShell => "PowerShell"@,
        Shell::Bash => "Bash"@,
        Shell::Zsh => "Zsh"@,
    }
}

/// Every shell's display name parses back to that shell (the names are ASCII, so parsing
/// lowers them as ASCII), and so do their spellings in any case.
pub proof fn lemma_shell_name_round_trip(shell: Shell)
    ensures
        all_ascii(spec_shell_name(shell)),
        spec_shell_named(ascii_lowercase(spec_shell_name(shell))) == Some(shell),
        spec_shell_named(ascii_lowercase("BASH"@)) == Some(Shell::Bash),
        spec_shell_named(ascii_lowercase("Pwsh"@)) == Some(Shell::PowerShell),
{
    reveal_strlit("PowerShell");
    reveal_strlit("Bash");
    reveal_strlit("Zsh");
    reveal_strlit("powershell");
    reveal_strlit("pwsh");
    reveal_strlit("bash");
    reveal_strlit("zsh");
    reveal_strlit("BASH");
    reveal_strlit("Pwsh");
    assert(ascii_lowercase("PowerShell"@) =~= "powershell"@);
    assert(ascii_lowercase("Bash"@) =~= "bash"@);
    assert(ascii_lowercase("Zsh"@) =~= "zsh"@);
    assert(ascii_lowercase("BASH"@) =~= "bash"@);
    assert(ascii_lowercase("Pwsh"@) =~= "pwsh"@);
    assert("bash"@[0] != "pwsh"@[0]);
    assert("bash"@ != "pwsh"@);
    assert("bash"@ != "powershell"@);
    assert("zsh"@ != "powershell"@ && "zsh"@ != "pwsh"@ && "zsh"@ != "bash"@);
}

pub open spec fn spec_module_dir(host: Host) -> Seq<char> {
    forward_slashes(spec_join_on(spec_hintshell_home(host), "module"@, host.windows))
}

pub open spec fn spec_daemon_path(host: Host) -> Seq<char> {
    forward_slashes(spec_join_on(spec_bin_dir(host), spec_core_name(host), host.windows))
}

/// The marker line that opens an installed block.
pub const INIT_MARKER: &'static str = "# HintShell Initialization";

/// The line that closes an installed block.
pub const END_MARKER: &'static str = "# End HintShell";

impl Shell {
    /// Parses a shell name, ignoring case (`pwsh` names PowerShell).
    pub fn from_str(s: &str) -> (r: Option<Shell>)
        ensures
            r == spec_shell_named(lowercase(s@)),
            all_ascii(s@) ==> r == spec_shell_named(ascii_lowercase(s@)),
    {
        let lower = to_lowercase(s);
        let l = lower.as_str();
        if crate::text::str_eq(l, "powershell") || crate::text::str_eq(l, "pwsh") {
            Some(Shell::PowerShell)
        } else if crate::text::str_eq(l, "bash") {
            Some(Shell::Bash)
        } else if crate::text::str_eq(l, "zsh") {
            Some(Shell::Zsh)
        } else {
            None
        }
    }

    /// Whether installing again replaces an existing block (PowerShell's profile block is
    /// refreshed; the Bash and Zsh blocks are left as they are).
    pub fn refreshes_block(&self) -> (r: bool)
        ensures
            r == (*self == Shell::PowerShell),
    {
        match self {
            Shell::PowerShell => true,
            _ => false,
        }
    }

    /// The display name of the shell.
    pub fn name(&self) -> (r: &'static str)
        ensures
            r@ == spec_shell_name(*self),
    {
        match self {
            Shell::PowerShell => "PowerShell",
            Shell::Bash => "Bash",
            Shell::Zsh => "Zsh",
        }
    }

    /// The hook script that the shell evaluates at startup.
    pub fn get_hook(&self, host: &Host) -> (r: String)
        ensures
            r@ == (match *self {
                Shell::PowerShell => powershell::powershell_hook_text(
                    spec_daemon_path(*host),
                    spec_module_dir(*host),
                ),
                Shell::Bash => bash::bash_hook_text(
                    spec_cli_bin_posix(*host),
                    spec_core_bin_posix(*host),
                    FZF_RESOLVE_FUNCTIONS@,
                    FZF_PICKER_ARGS@,
                ),
                Shell::Zsh => zsh::zsh_hook_text(
                    spec_cli_bin_posix(*host),
                    spec_core_bin_posix(*host),
                    FZF_RESOLVE_FUNCTIONS@,
                    FZF_PICKER_ARGS@,
                ),
            }),
    {
        match self {
            Shell::PowerShell => {
                let home = hintshell_home(host);
                let module_dir = join_path_on(home.as_str(), "module", host.windows);
                let module = to_forward_slashes(module_dir.as_str());
                let dir = bin_dir(host);
                let name = if host.windows { "hintshell-core.exe" } else { "hintshell-core" };
                let daemon_path = join_path_on(dir.as_str(), name, host.windows);
                let daemon = to_forward_slashes(daemon_path.as_str());
                powershell::hook_script(daemon.as_str(), module.as_str())
            },
            Shell::Bash => bash::hook_script(host),
            Shell::Zsh => zsh::hook_script(host),
        }
    }

    /// The block that `install` appends to the shell's configuration file.
    pub fn install_line(&self, host: &Host) -> (r: String)
        ensures
            r@ == (match *self {
                Shell::PowerShell => powershell::powershell_init_text(spec_module_dir(*host)),
                Shell::Bash => bash::bash_init_text(
                    spec_bin_dir_posix(*host),
                    spec_cli_bin_posix(*host),
                ),
                Shell::Zsh => zsh::zsh_init_text(
                    spec_bin_dir_posix(*host),
                    spec_cli_bin_posix(*host),
                ),
            }),
    {
        match self {
            Shell::PowerShell => {
                let home = hintshell_home(host);
                let module_dir = join_path_on(home.as_str(), "module", host.windows);
                let module = to_forward_slashes(module_dir.as_str());
                powershell::install_line(module.as_str())
            },
            Shell::Bash => bash::install_line(host),
            Shell::Zsh => zsh::install_line(host),
        }
    }
}

/// The shells whose programs are available, in the order PowerShell, Bash, Zsh.
pub fn detect_shells(pwsh: bool, powershell: bool, bash: bool, zsh: bool) -> (r: Vec<Shell>)
    ensures
        r@ == (if pwsh || powershell {
            seq![Shell::PowerShell]
        } else {
            seq![]
        }) + (if bash {
            seq![Shell::Bash]
        } else {
            seq![]
        }) + (if zsh {
            seq![Shell::Zsh]
        } else {
            seq![]
        }),
{
    let mut shells: Vec<Shell> = Vec::new();
    if pwsh || powershell {
        shells.push(Shell::PowerShell);
    }
    if bash {
        shells.push(Shell::Bash);
    }
    if zsh {
        shells.push(Shell::Zsh);
    }
    assert(shells@ =~= (if pwsh || powershell {
        seq![Shell::PowerShell]
    } else {
        seq![]
    }) + (if bash {
        seq![Shell::Bash]
    } else {
        seq![]
    }) + (if zsh {
        seq![Shell::Zsh]
    } else {
        seq![]
    }));
    shells
}

/// The word that every line of a HintShell block holds.
pub const HINTSHELL_WORD: &'static str = "HintShell";

/// The start of the line that holds position `i`.
pub open spec fn line_start(c: Seq<char>, i: int) -> int
    decreases i,
{
    if i <= 0 {
        0
    } else if c[i - 1] == '\n' {
        i
    } else {
        line_start(c, i - 1)
    }
}

/// The end of the line that starts at `i`, after its line break (or the end of the text).
pub open spec fn line_end(c: Seq<char>, i: int) -> int
    decreases c.len() - i,
{
    if i < 0 || i >= c.len() {
        i
    } else if c[i] == '\n' {
        i + 1
    } else {
        line_end(c, i + 1)
    }
}

/// The end of the run of lines from `i` on that each hold the word `HintShell`.
pub open spec fn hintshell_run_end(c: Seq<char>, i: int) -> int
    decreases c.len() - i,
{
    if i < 0 || i >= c.len() {
        i
    } else {
        let e = line_end(c, i);
        if i < e <= c.len() && contains_seq(c.subrange(i, e), HINTSHELL_WORD@) {
            hintshell_run_end(c, e)
        } else {
            i
        }
    }
}

/// Where a block whose marker is at `k` ends: after the end marker (and the line break that
/// follows it), or, for an older block without an end marker, after the run of its lines
/// that name HintShell.
pub open spec fn block_end(c: Seq<char>, k: int) -> int {
    match find_from(c, END_MARKER@, k) {
        Some(j) => {
            let e = j + END_MARKER@.len();
            if e < c.len() && c[e] == '\n' {
                e + 1
            } else {
                e
            }
        },
        None => hintshell_run_end(c, line_start(c, k)),
    }
}

/// A block as it stands at the start of a line: without the line break that opens it.
pub open spec fn block_body(block: Seq<char>) -> Seq<char> {
    if block.len() > 0 && block[0] == '\n' {
        block.skip(1)
    } else {
        block
    }
}

/// The configuration text after installing `init_line`: appended when no block is there,
/// else (when the block is refreshed) put in the place of the existing block, every other
/// line kept.
pub open spec fn spec_add_init_block(content: Seq<char>, init_line: Seq<char>) -> Seq<char> {
    match find_from(content, INIT_MARKER@, 0) {
        None => content + init_line,
        Some(k) => content.take(line_start(content, k)) + block_body(init_line) + content.skip(
            block_end(content, k),
        ),
    }
}

/// The configuration text with the HintShell block removed; `None` when there is no block.
pub open spec fn spec_remove_init_block(c: Seq<char>) -> Option<Seq<char>> {
    match find_from(c, INIT_MARKER@, 0) {
        None => None,
        Some(k) => Some(c.take(line_start(c, k)) + c.skip(block_end(c, k))),
    }
}

fn line_end_exec(c: &Vec<char>, i: usize) -> (r: usize)
    requires
        i < c@.len(),
    ensures
        r == line_end(c@, i as int),
        i < r <= c@.len(),
{
    let mut j = i;
    while j < c.len() && c[j] != '\n'
        invariant
            i <= j <= c@.len(),
            line_end(c@, i as int) == line_end(c@, j as int),
        decreases c@.len() - j,
    {
        j = j + 1;
    }
    if j < c.len() {
        j + 1
    } else {
        j
    }
}

fn hintshell_run_end_exec(c: &Vec<char>, from: usize) -> (r: usize)
    requires
        from <= c@.len(),
    ensures
        r == hintshell_run_end(c@, from as int),
        from <= r <= c@.len(),
{
    let word = chars_of(HINTSHELL_WORD);
    let mut i = from;
    while i < c.len()
        invariant
            from <= i <= c@.len(),
            word@ == HINTSHELL_WORD@,
            hintshell_run_end(c@, from as int) == hintshell_run_end(c@, i as int),
        decreases c@.len() - i,
    {
        let e = line_end_exec(c, i);
        let mut line: Vec<char> = Vec::new();
        let mut p = i;
        while p < e
            invariant
                i <= p <= e <= c@.len(),
                line@ == c@.subrange(i as int, p as int),
            decreases e - p,
        {
            line.push(c[p]);
            assert(c@.subrange(i as int, p + 1) =~= c@.subrange(i as int, p as int).push(c@[p as int]));
            p = p + 1;
        }
        if find_chars_from(&line, &word, 0).is_some() {
            i = e;
        } else {
            return i;
        }
    }
    i
}

/// Installs the HintShell block in a configuration file's text: appended when there is
/// none; when there is one, put in its place (the lines around it kept) if `refresh`, else
/// refused as already installed.
pub fn add_init_block(content: &str, init_line: &str, refresh: bool) -> (r: Result<String, String>)
    ensures
        match r {
            Ok(t) => (refresh || !contains_seq(content@, INIT_MARKER@)) && t@ == spec_add_init_block(
                content@,
                init_line@,
            ),
            Err(e) => !refresh && contains_seq(content@, INIT_MARKER@) && e@ == "Already installed"@,
        },
{
    match remove_parts(content) {
        None => {
            let mut t = to_string(content);
            t.append(init_line);
            Ok(t)
        },
        Some((c, start, end)) => {
            if !refresh {
                return Err(to_string("Already installed"));
            }
            let b = chars_of(init_line);
            let mut out: Vec<char> = Vec::new();
            let mut i: usize = 0;
            while i < start
                invariant
                    start <= end <= c@.len(),
                    i <= start,
                    out@ == c@.take(i as int),
                decreases start - i,
            {
                out.push(c[i]);
                assert(c@.take(i + 1) =~= c@.take(i as int).push(c@[i as int]));
                i = i + 1;
            }
            let mut j: usize = if b.len() > 0 && b[0] == '\n' { 1 } else { 0 };
            let ghost j0 = j;
            let ghost head = out@;
            while j < b.len()
                invariant
                    j0 <= j <= b@.len(),
                    out@ == head + b@.subrange(j0 as int, j as int),
                decreases b@.len() - j,
            {
                out.push(b[j]);
                assert(b@.subrange(j0 as int, j + 1) =~= b@.subrange(j0 as int, j as int).push(b@[j as int]));
                j = j + 1;
            }
            assert(b@.subrange(j0 as int, b@.len() as int) =~= block_body(init_line@));
            let ghost mid = out@;
            let mut i: usize = end;
            while i < c.len()
                invariant
                    end <= i <= c@.len(),
                    out@ == mid + c@.subrange(end as int, i as int),
                decreases c@.len() - i,
            {
                out.push(c[i]);
                assert(c@.subrange(end as int, i + 1) =~= c@.subrange(end as int, i as int).push(
                    c@[i as int],
                ));
                i = i + 1;
            }
            assert(c@.subrange(end as int, c@.len() as int) =~= c@.skip(end as int));
            Ok(string_of(out.as_slice()))
        },
    }
}

/// The characters of `content` with the start and end of its HintShell block.
fn remove_parts(content: &str) -> (r: Option<(Vec<char>, usize, usize)>)
    ensures
        match r {
            None => find_from(content@, INIT_MARKER@, 0) is None,
            Some((c, start, end)) => c@ == content@ && (match find_from(content@, INIT_MARKER@, 0) {
                Some(k) => start == line_start(content@, k) && end == block_end(content@, k),
                None => false,
            }) && start <= end <= c@.len(),
        },
{
    let c = chars_of(content);
    let marker = chars_of(INIT_MARKER);
    let end_marker = chars_of(END_MARKER);
    let k = match find_chars_from(&c, &marker, 0) {
        None => return None,
        Some(k) => k,
    };
    proof {
        crate::text::lemma_find_from(c@, marker@, 0);
        reveal_strlit("# HintShell Initialization");
    }
    let mut start = k;
    while start > 0 && c[start - 1] != '\n'
        invariant
            start <= k,
            k <= c@.len(),
            line_start(c@, k as int) == line_start(c@, start as int),
        decreases start,
    {
        start = start - 1;
    }
    let end = match find_chars_from(&c, &end_marker, k) {
        Some(j) => {
            proof {
                crate::text::lemma_find_from(c@, end_marker@, k as int);
                assert(crate::text::occurs_at(c@, end_marker@, j as int));
                assert(c@.len() == c.len());
            }
            let e = j + end_marker.len();
            if e < c.len() && c[e] == '\n' {
                e + 1
            } else {
                e
            }
        },
        None => hintshell_run_end_exec(&c, start),
    };
    assert(start <= k);
    if end < start {
        proof {
            reveal_strlit("# End HintShell");
        }
    }
    Some((c, start, end))
}

/// Removes the HintShell block from a configuration file's text: from the start of the
/// marker's line through the end marker, or, for an older block without one, through the
/// lines that follow it naming HintShell.  `None` when the text holds no block.
pub fn remove_init_block(content: &str) -> (r: Option<String>)
    ensures
        match r {
            Some(t) => spec_remove_init_block(content@) == Some(t@),
            None => spec_remove_init_block(content@) is None,
        },
{
    let (c, start, end) = match remove_parts(content) {
        None => return None,
        Some(p) => p,
    };
    let mut out: Vec<char> = Vec::new();
    let mut i: usize = 0;
    while i < start
        invariant
            start <= end <= c@.len(),
            i <= start,
            out@ == c@.take(i as int),
        decreases start - i,
    {
        out.push(c[i]);
        assert(c@.take(i + 1) =~= c@.take(i as int).push(c@[i as int]));
        i = i + 1;
    }
    let ghost head = out@;
    let mut i: usize = end;
    while i < c.len()
        invariant
            end <= i <= c@.len(),
            out@ == head + c@.subrange(end as int, i as int),
        decreases c@.len() - i,
    {
        out.push(c[i]);
        assert(c@.subrange(end as int, i + 1) =~= c@.subrange(end as int, i as int).push(
            c@[i as int],
        ));
        i = i + 1;
    }
    assert(c@.subrange(end as int, c@.len() as int) =~= c@.skip(end as int));
    Some(string_of(out.as_slice()))
}

/// `find_from` finds the first occurrence at or after `i`.
proof fn lemma_find_first(s: Seq<char>, m: Seq<char>, i: int, k: int)
    requires
        0 <= i <= k,
        occurs_at(s, m, k),
        forall|j: int| i <= j < k ==> !occurs_at(s, m, j),
    ensures
        find_from(s, m, i) == Some(k),
    decreases k - i,
{
    if i < k {
        assert(!occurs_at(s, m, i));
        if m.len() == 0 {
            assert(s.subrange(i, i) =~= m);
            assert(occurs_at(s, m, i));
        }
        assert(s.subrange(i, i + m.len()) != m);
        lemma_find_first(s, m, i + 1, k);
    } else {
        assert(s.subrange(k, k + m.len()) == m);
    }
}

/// Where the marker of a block appended to `c` is found, and where its line starts.
proof fn lemma_block_found(c: Seq<char>, block: Seq<char>)
    requires
        !contains_seq(c, INIT_MARKER@),
        block.len() > INIT_MARKER@.len(),
        block[0] == '\n',
        block.subrange(1, 1 + INIT_MARKER@.len() as int) == INIT_MARKER@,
    ensures
        find_from(c + block, INIT_MARKER@, 0) == Some(c.len() as int + 1),
        line_start(c + block, c.len() as int + 1) == c.len() as int + 1,
{
    let t = c + block;
    let m = INIT_MARKER@;
    let k = c.len() as int + 1;
    reveal_strlit("# HintShell Initialization");
    assert(t.subrange(k, k + m.len() as int) =~= block.subrange(1, 1 + m.len() as int));
    assert forall|j: int| 0 <= j < k implies !occurs_at(t, m, j) by {
        if occurs_at(t, m, j) {
            if j + m.len() <= c.len() {
                assert(c.subrange(j, j + m.len()) =~= t.subrange(j, j + m.len()));
                crate::text::lemma_find_from(c, m, 0);
                assert(occurs_at(c, m, j));
            } else {
                let q = c.len() - j;
                assert(0 <= q < m.len());
                assert(t.subrange(j, j + m.len())[q] == t[c.len() as int]);
                assert(t[c.len() as int] == '\n');
                assert(m[q] != '\n');
            }
        }
    }
    lemma_find_first(t, m, 0, k);
    assert(t[k - 1] == '\n');
}

/// Where the block `block`, written after `c` and before `v`, ends.
proof fn lemma_block_end(c: Seq<char>, block: Seq<char>, v: Seq<char>)
    requires
        !contains_seq(c, INIT_MARKER@),
        block.len() > INIT_MARKER@.len() + END_MARKER@.len() + 1,
        block[0] == '\n',
        block.subrange(1, 1 + INIT_MARKER@.len() as int) == INIT_MARKER@,
        block.last() == '\n',
        block.subrange(block.len() as int - 1 - END_MARKER@.len() as int, block.len() as int - 1) == END_MARKER@,
        forall|j: int| 1 <= j < block.len() as int - 1 - END_MARKER@.len() as int ==> !occurs_at(block, END_MARKER@, j),
    ensures
        find_from(c + block + v, INIT_MARKER@, 0) == Some(c.len() as int + 1),
        line_start(c + block + v, c.len() as int + 1) == c.len() as int + 1,
        block_end(c + block + v, c.len() as int + 1) == c.len() + block.len() as int,
{
    let t = c + block + v;
    let k = c.len() as int + 1;
    let e = END_MARKER@;
    assert(t =~= c + (block + v));
    assert((block + v).subrange(1, 1 + INIT_MARKER@.len() as int) =~= block.subrange(1, 1 + INIT_MARKER@.len() as int));
    lemma_block_found(c, block + v);
    let j0 = c.len() as int + block.len() as int - 1 - e.len() as int;
    assert(t.subrange(j0, j0 + e.len() as int) =~= block.subrange(block.len() - 1 - e.len(), block.len() as int - 1));
    assert forall|j: int| k <= j < j0 implies !occurs_at(t, e, j) by {
        let jb = j - c.len() as int;
        if occurs_at(t, e, j) {
            assert(block.subrange(jb, jb + e.len() as int) =~= t.subrange(j, j + e.len() as int));
            assert(occurs_at(block, e, jb));
        }
    }
    lemma_find_first(t, e, k, j0);
    assert(t[j0 + e.len() as int] == block.last());
}

/// Installing into a text without a block appends the block; uninstalling then removes it
/// and keeps every other line, whatever follows the block (only the line break that opened
/// the block stays); and installing again, where the block is refreshed, puts the new block in the old one's place: for
/// blocks that begin with a line break and the marker and hold the end marker only as
/// their last line.
pub proof fn lemma_uninstall_after_install(c: Seq<char>, block: Seq<char>, v: Seq<char>, again: Seq<char>)
    requires
        !contains_seq(c, INIT_MARKER@),
        block.len() > INIT_MARKER@.len() + END_MARKER@.len() + 1,
        block[0] == '\n',
        block.subrange(1, 1 + INIT_MARKER@.len() as int) == INIT_MARKER@,
        block.last() == '\n',
        block.subrange(block.len() as int - 1 - END_MARKER@.len() as int, block.len() as int - 1) == END_MARKER@,
        forall|j: int| 1 <= j < block.len() as int - 1 - END_MARKER@.len() as int ==> !occurs_at(block, END_MARKER@, j),
        again.len() > 0,
        again[0] == '\n',
    ensures
        spec_add_init_block(c, block) == c + block,
        spec_remove_init_block(c + block + v) == Some(c + seq!['\n'] + v),
        spec_add_init_block(c + block + v, again) == c + again + v,
{
    let t = c + block + v;
    let k = c.len() as int + 1;
    crate::text::lemma_find_from(c, INIT_MARKER@, 0);
    lemma_block_end(c, block, v);
    assert(t.take(k) =~= c + seq!['\n']);
    assert(t.skip(c.len() + block.len() as int) =~= v);
    assert(c + seq!['\n'] + again.skip(1) =~= c + again);
}

/// Lines joined in order.
pub open spec fn lines_text(lines: Seq<Seq<char>>) -> Seq<char>
    decreases lines.len(),
{
    if lines.len() == 0 {
        seq![]
    } else {
        lines[0] + lines_text(lines.skip(1))
    }
}

/// A line of an older HintShell block: it ends with its only line break and names HintShell.
pub open spec fn hintshell_line(line: Seq<char>) -> bool {
    &&& line.len() > 0
    &&& line.last() == '\n'
    &&& forall|i: int| 0 <= i < line.len() - 1 ==> line[i] != '\n'
    &&& contains_seq(line, HINTSHELL_WORD@)
}

proof fn lemma_line_end_in(t: Seq<char>, pos: int, line: Seq<char>, j: int)
    requires
        0 <= pos <= j < pos + line.len(),
        pos + line.len() <= t.len(),
        t.subrange(pos, pos + line.len()) == line,
        line.last() == '\n',
        forall|i: int| 0 <= i < line.len() - 1 ==> line[i] != '\n',
    ensures
        line_end(t, j) == pos + line.len(),
    decreases pos + line.len() - j,
{
    assert(t[j] == t.subrange(pos, pos + line.len())[j - pos]);
    assert(line.last() == line[line.len() - 1]);
    if j < pos + line.len() - 1 {
        lemma_line_end_in(t, pos, line, j + 1);
    }
}

proof fn lemma_line_end_shift(t: Seq<char>, q: int, j: int)
    requires
        0 <= q <= t.len(),
        0 <= j <= t.len() - q,
    ensures
        line_end(t, q + j) == q + line_end(t.skip(q), j),
    decreases t.len() - q - j,
{
    if j < t.len() - q {
        assert(t[q + j] == t.skip(q)[j]);
        lemma_line_end_shift(t, q, j + 1);
    }
}

proof fn lemma_run_over_lines(t: Seq<char>, pos: int, lines: Seq<Seq<char>>)
    requires
        0 <= pos,
        pos + lines_text(lines).len() <= t.len(),
        t.subrange(pos, pos + lines_text(lines).len()) == lines_text(lines),
        forall|i: int| 0 <= i < lines.len() ==> hintshell_line(#[trigger] lines[i]),
        hintshell_run_end(t, pos + lines_text(lines).len()) == pos + lines_text(lines).len(),
    ensures
        hintshell_run_end(t, pos) == pos + lines_text(lines).len(),
    decreases lines.len(),
{
    if lines.len() > 0 {
        let l = lines[0];
        let rest = lines.skip(1);
        assert(hintshell_line(lines[0]));
        assert(lines_text(lines) == l + lines_text(rest));
        assert(t.subrange(pos, pos + l.len()) =~= lines_text(lines).subrange(0, l.len() as int));
        assert(lines_text(lines).subrange(0, l.len() as int) =~= l);
        lemma_line_end_in(t, pos, l, pos);
        assert(t.subrange(pos + l.len(), pos + l.len() + lines_text(rest).len()) =~= lines_text(
            lines,
        ).subrange(l.len() as int, lines_text(lines).len() as int));
        assert(lines_text(lines).subrange(l.len() as int, lines_text(lines).len() as int) =~= lines_text(rest));
        assert forall|i: int| 0 <= i < rest.len() implies hintshell_line(#[trigger] rest[i]) by {
            assert(rest[i] == lines[i + 1]);
        }
        lemma_run_over_lines(t, pos + l.len(), rest);
    }
}

/// An older block without an end marker (as PowerShell blocks once were) is removed line by
/// line while its lines name HintShell: uninstalling keeps every line after it, and
/// installing, where the block is refreshed, puts the new block in its place.  For a block that begins with a line break
/// and the marker line, followed by text whose first line does not name HintShell, with no
/// end marker anywhere after the text before it.
pub proof fn lemma_older_block_removed(c: Seq<char>, lines: Seq<Seq<char>>, v: Seq<char>, again: Seq<char>)
    requires
        !contains_seq(c, INIT_MARKER@),
        lines.len() > 0,
        lines[0].len() > INIT_MARKER@.len(),
        lines[0].take(INIT_MARKER@.len() as int) == INIT_MARKER@,
        forall|i: int| 0 <= i < lines.len() ==> hintshell_line(#[trigger] lines[i]),
        !contains_seq(seq!['\n'] + lines_text(lines) + v, END_MARKER@),
        v.len() == 0 || !contains_seq(v.take(line_end(v, 0)), HINTSHELL_WORD@),
        again.len() > 0,
        again[0] == '\n',
    ensures
        spec_remove_init_block(c + (seq!['\n'] + lines_text(lines)) + v) == Some(c + seq!['\n'] + v),
        spec_add_init_block(c + (seq!['\n'] + lines_text(lines)) + v, again) == c + again + v,
{
    let old = seq!['\n'] + lines_text(lines);
    let t = c + old + v;
    let k = c.len() as int + 1;
    let body = lines_text(lines);
    assert(body == lines[0] + lines_text(lines.skip(1)));
    assert(old.len() > INIT_MARKER@.len());
    assert(old.subrange(1, 1 + INIT_MARKER@.len() as int) =~= lines[0].take(INIT_MARKER@.len() as int));
    assert(t =~= c + (old + v));
    assert((old + v).subrange(1, 1 + INIT_MARKER@.len() as int) =~= old.subrange(1, 1 + INIT_MARKER@.len() as int));
    lemma_block_found(c, old + v);
    // No end marker after the text before the block.
    let ov = old + v;
    crate::text::lemma_find_from(ov, END_MARKER@, 0);
    lemma_find_shift_mod(t, END_MARKER@, c.len() as int, k);
    assert(t.skip(c.len() as int) =~= ov);
    crate::text::lemma_find_from(ov, END_MARKER@, 1);
    assert(find_from(ov, END_MARKER@, 1) is None);
    assert(find_from(t, END_MARKER@, k) is None);
    // The run of HintShell lines ends where `v` begins.
    let q: int = c.len() + old.len() as int;
    if v.len() > 0 {
        lemma_line_end_shift(t, q, 0);
        assert(t.skip(q) =~= v);
        let e = line_end(t, q);
        crate::shell::lemma_line_end_bounds(v, 0);
        assert(t.subrange(q, e) =~= v.take(line_end(v, 0)));
    }
    assert(t.subrange(k, k + body.len()) =~= body);
    lemma_run_over_lines(t, k, lines);
    assert(t.take(k) =~= c + seq!['\n']);
    assert(t.skip(q) =~= v);
    assert(c + seq!['\n'] + again.skip(1) =~= c + again);
}

/// `line_end` stays within the text.
proof fn lemma_line_end_bounds(v: Seq<char>, j: int)
    requires
        0 <= j < v.len(),
    ensures
        j < line_end(v, j) <= v.len(),
    decreases v.len() - j,
{
    if v[j] != '\n' {
        if j + 1 < v.len() {
            lemma_line_end_bounds(v, j + 1);
        } else {
            assert(line_end(v, j + 1) == j + 1);
        }
    }
}

/// `find_from` in a text from `p` equals `find_from` in its suffix from `q`, shifted by `q`.
proof fn lemma_find_shift_mod(s: Seq<char>, m: Seq<char>, q: int, p: int)
    requires
        0 <= q <= p,
        q <= s.len(),
    ensures
        find_from(s, m, p) == (match find_from(s.skip(q), m, p - q) {
            Some(k) => Some(k + q),
            None => None,
        }),
    decreases s.len() - p,
{
    let t = s.skip(q);
    if p + m.len() > s.len() {
    } else {
        assert(s.subrange(p, p + m.len()) =~= t.subrange(p - q, p - q + m.len()));
        if !(m.len() == 0 || s.subrange(p, p + m.len()) == m) {
            lemma_find_shift_mod(s, m, q, p + 1);
        }
    }
}

/// Joining a plain name (no separator, no drive) to a non-empty directory appends it after a
/// separator, unless the directory already ends with one or is a bare drive.
proof fn lemma_join_plain(base: Seq<char>, name: Seq<char>, w: bool)
    requires
        base.len() > 0,
        name.len() > 0,
        forall|i: int| 0 <= i < name.len() ==> name[i] != '/' && name[i] != '\\',
        !(name.len() >= 2 && name[1] == ':'),
    ensures
        spec_join_on(base, name, w) == base + name || spec_join_on(base, name, w) == base + seq![
            crate::path::sep_char(w),
        ] + name,
        !(crate::path::is_sep(base.last(), w)) && !(crate::path::prefix_len(base, w) == 2
            && base.len() == 2) ==> spec_join_on(base, name, w) == base + seq![crate::path::sep_char(w)]
            + name,
{
    assert(!crate::path::is_sep(name[0], w));
}

proof fn lemma_forward_slashes_concat(a: Seq<char>, b: Seq<char>)
    ensures
        forward_slashes(a + b) == forward_slashes(a) + forward_slashes(b),
{
    assert(forward_slashes(a + b) =~= forward_slashes(a) + forward_slashes(b));
}

/// The binaries that the shell hooks call sit in the binary directory: the CLI and the
/// daemon paths are the directory's path, a `/` and the file name (with `.exe` on Windows),
/// and none of the three holds a backslash.
pub proof fn lemma_posix_binaries(host: Host)
    ensures
        spec_cli_bin_posix(host) == spec_bin_dir_posix(host) + "/"@ + spec_cli_name(host),
        spec_core_bin_posix(host) == spec_bin_dir_posix(host) + "/"@ + spec_core_name(host),
        !spec_bin_dir_posix(host).contains('\\'),
        !spec_cli_bin_posix(host).contains('\\'),
        !spec_core_bin_posix(host).contains('\\'),
{
    reveal_strlit("/");
    reveal_strlit(".hintshell");
    reveal_strlit("bin");
    reveal_strlit("hintshell");
    reveal_strlit("hintshell.exe");
    reveal_strlit("hintshell-core");
    reveal_strlit("hintshell-core.exe");
    let w = host.windows;
    let home = spec_home(host);
    let hs = ".hintshell"@;
    assert(hs.len() == 10);
    let hh = spec_join_on(home, hs, w);
    assert(hh.len() > 0) by {
        if home.len() == 0 {
        } else {
            lemma_join_plain(home, hs, w);
        }
    }
    let bin = "bin"@;
    lemma_join_plain(hh, bin, w);
    let bd = spec_bin_dir(host);
    assert(bd.len() >= 3 && bd.last() == 'n') by {
        if bd == hh + bin {
            assert(bd.last() == bin.last());
        } else {
            assert(bd.last() == bin.last());
        }
    }
    assert(!crate::path::is_sep(bd.last(), w));
    assert(!(crate::path::prefix_len(bd, w) == 2 && bd.len() == 2));
    let sep = seq![crate::path::sep_char(w)];
    assert(forward_slashes(sep) =~= "/"@);
    let fb = forward_slashes(bd);
    assert forall|i: int| 0 <= i < fb.len() implies fb[i] != '\\' by {}
    assert(!fb.contains('\\'));
    let names = seq![spec_cli_name(host), spec_core_name(host)];
    assert forall|k: int| 0 <= k < 2 implies ({
        let name = #[trigger] names[k];
        let j = spec_join_on(bd, name, w);
        &&& spec_to_posix(j) == spec_to_posix(bd) + "/"@ + name
        &&& !spec_to_posix(j).contains('\\')
    }) by {
        let name = names[k];
        assert(name.len() > 2);
        assert(forall|i: int| 0 <= i < name.len() ==> name[i] != '/' && name[i] != '\\');
        assert(name[1] != ':');
        lemma_join_plain(bd, name, w);
        let j = spec_join_on(bd, name, w);
        assert(j == bd + sep + name);
        lemma_forward_slashes_concat(bd + sep, name);
        lemma_forward_slashes_concat(bd, sep);
        assert(forward_slashes(name) =~= name);
        let fj = forward_slashes(j);
        assert(fj == fb + "/"@ + name);
        assert(fj[0] == fb[0] && fj[1] == fb[1]);
        if fb.len() >= 2 && (fb[0] as u32) < 128 && fb[1] == ':' {
            assert(fj.skip(2) =~= fb.skip(2) + "/"@ + name);
            assert(seq!['/', ascii_lower(fj[0])] + fj.skip(2) =~= (seq!['/', ascii_lower(fb[0])]
                + fb.skip(2)) + "/"@ + name);
            let r = seq!['/', ascii_lower(fj[0])] + fj.skip(2);
            assert forall|i: int| 0 <= i < r.len() implies r[i] != '\\' by {
                if i >= 2 {
                    assert(r[i] == fj[i]);
                }
            }
        } else {
            assert forall|i: int| 0 <= i < fj.len() implies fj[i] != '\\' by {}
        }
    }
    assert(names[0] == spec_cli_name(host));
    assert(names[1] == spec_core_name(host));
    if fb.len() >= 2 && (fb[0] as u32) < 128 && fb[1] == ':' {
        let r = seq!['/', ascii_lower(fb[0])] + fb.skip(2);
        assert forall|i: int| 0 <= i < r.len() implies r[i] != '\\' by {
            if i >= 2 {
                assert(r[i] == fb[i]);
            }
        }
    }
}

} // verus!
