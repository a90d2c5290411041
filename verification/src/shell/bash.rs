//! The Bash integration: the hook evaluated by `.bashrc` and the block installed there.
use vstd::prelude::*;
use crate::shell::{
    bin_dir_posix, cli_bin_posix, core_bin_posix, fzf_picker_args, fzf_resolve_functions,
    spec_bin_dir_posix, spec_cli_bin_posix, spec_core_bin_posix, Host, FZF_PICKER_ARGS,
    FZF_RESOLVE_FUNCTIONS,
};
use crate::text::to_string;

verus! {

pub const BASH_HOOK_1: &'static str = "\n# --- HintShell Bash Integration ---\nexport HINTSHELL_BIN=\"";
pub const BASH_HOOK_2: &'static str = "\"\nexport HINTSHELL_CORE=\"";
pub const BASH_HOOK_3: &'static str = "\"\n";
pub const BASH_HOOK_4: &'static str = "\n_hintshell_ensure_daemon() {\n    [[ -n \"${HINTSHELL_SKIP_DAEMON_START:-}\" ]] && return\n    \"$HINTSHELL_BIN\" status >/dev/null 2>&1 && return\n    [[ -x \"$HINTSHELL_CORE\" ]] && (\"$HINTSHELL_CORE\" >/dev/null 2>&1 &)\n    sleep 0.2\n}\n\nif [[ -z \"${HINTSHELL_LIVE_BASH:-}\" ]]; then\n_hintshell_tab() {\n    _hintshell_ensure_daemon\n    local typed=\"$READLINE_LINE\"\n    [[ -z \"$typed\" ]] && return\n    case \"$typed\" in *$'\\n'*|*$'\\r'*) return ;; esac\n    local suggestions\n    suggestions=$(\"$HINTSHELL_BIN\" suggest \"$typed\" --limit 10 --cwd \"$PWD\" --shell bash --format fzf 2>/dev/null)\n    [[ -z \"$suggestions\" ]] && return\n    local count\n    count=$(printf '%s\\n' \"$suggestions\" | wc -l | tr -d ' ')\n    local selected=\"\"\n    if [[ \"$count\" -eq 1 ]]; then\n        selected=\"$suggestions\"\n    else\n        local fzf_bin\n        if fzf_bin=$(_hintshell_resolve_fzf); then\n            selected=$(printf '%s\\n' \"$suggestions\" | \"$fzf_bin\" ";
pub const BASH_HOOK_5: &'static str = " 2>/dev/null)\n        else\n            selected=$(printf '%s\\n' \"$suggestions\" | head -n 1)\n        fi\n    fi\n    if [[ -n \"$selected\" ]]; then\n        READLINE_LINE=$(printf '%s\\n' \"$selected\" | awk -F'\\t' '{sub(/ +$/, \"\", $1); print $1}')\n        READLINE_POINT=${#READLINE_LINE}\n    fi\n}\nbind -x '\"\\t\": _hintshell_tab'\nfi\n\n_hintshell_preexec() {\n    [[ -z \"${HINTSHELL_LIVE_BASH:-}\" ]] && _hintshell_ensure_daemon\n    local last_cmd\n    last_cmd=$(HISTTIMEFORMAT=\"\" history 1 | sed 's/^[ ]*[0-9]*[ ]*//')\n    [[ -n \"$last_cmd\" ]] && (\"$HINTSHELL_BIN\" add --command \"$last_cmd\" --directory \"$PWD\" --shell bash >/dev/null 2>&1 &)\n}\n[[ \"$PROMPT_COMMAND\" != *_hintshell_preexec* ]] && PROMPT_COMMAND=\"_hintshell_preexec;$PROMPT_COMMAND\"\n\nif [[ -n \"${HINTSHELL_LIVE_BASH:-}\" && -z \"${MSYSTEM:-}\" ]]; then\n_hintshell_emit_prompt() { printf '\\036HINTSHELL_CWD:%s\\037\\036HINTSHELL_PROMPT\\037' \"$PWD\"; }\nPROMPT_COMMAND=\"_hintshell_emit_prompt;$PROMPT_COMMAND\"\nfi\n\n# Daemon startup is deferred until a command or non-live Tab query needs it.\n";
pub const BASH_INIT_1: &'static str = "\n# HintShell Initialization\n# Enable the PTY-based live suggestion overlay by default on macOS.\nif [[ \"$(uname -s 2>/dev/null)\" == \"Darwin\" ]]; then\n  export HINTSHELL_ENABLE_MACOS_LIVE_OVERLAY=1\nfi\n# Use POSIX path so Git Bash finds binaries before npm global shims\nexport PATH=\"";
pub const BASH_INIT_2: &'static str = ":$PATH\"\nif [ -x \"";
pub const BASH_INIT_3: &'static str = "\" ]; then\n  _hs_hook=\"$(\"";
pub const BASH_INIT_4: &'static str = "\" hook bash 2>/dev/null)\" && [ -n \"$_hs_hook\" ] && eval \"$_hs_hook\"\n  unset _hs_hook\nfi\n# Start the live overlay for Git Bash/WSL2, or macOS only when explicitly enabled.\n# Set HINTSHELL_DISABLE_AUTO_BASH=1 to bypass it for one session.\nif [[ ( -n \"${MSYSTEM:-}\" || -n \"${WSL_INTEROP:-}\" || -n \"${WSL_DISTRO_NAME:-}\" || ( \"$(uname -s 2>/dev/null)\" == \"Darwin\" && -n \"${HINTSHELL_ENABLE_MACOS_LIVE_OVERLAY:-}\" ) ) && $- == *i* && -t 0 && -t 1 && -z \"${BASH_EXECUTION_STRING:-}\" && -z \"${HINTSHELL_LIVE_BASH:-}\" && -z \"${HINTSHELL_DISABLE_AUTO_BASH:-}\" ]]; then\n  exec \"";
pub const BASH_INIT_5: &'static str = "\" bash\nfi\n# End HintShell\n";

/// The Bash hook text, around the CLI and daemon paths and the fzf helpers.
pub open spec fn bash_hook_text(cli: Seq<char>, core: Seq<char>, fzf_fns: Seq<char>, fzf_args: Seq<char>) -> Seq<char> {
    BASH_HOOK_1@ + cli + BASH_HOOK_2@ + core + BASH_HOOK_3@ + fzf_fns + BASH_HOOK_4@ + fzf_args + BASH_HOOK_5@
}

/// The block appended to `.bashrc`.
pub open spec fn bash_init_text(bin_dir: Seq<char>, cli: Seq<char>) -> Seq<char> {
    BASH_INIT_1@ + bin_dir + BASH_INIT_2@ + cli + BASH_INIT_3@ + cli + BASH_INIT_4@ + cli + BASH_INIT_5@
}

/// The Bash hook script for `host` (compatible with macOS Bash 3.2+).
pub fn hook_script(host: &Host) -> (r: String)
    ensures
        r@ == bash_hook_text(
            spec_cli_bin_posix(*host),
            spec_core_bin_posix(*host),
            FZF_RESOLVE_FUNCTIONS@,
            FZF_PICKER_ARGS@,
        ),
{
    let cli = cli_bin_posix(host);
    let core = core_bin_posix(host);
    let fzf_fns = fzf_resolve_functions();
    let fzf_args = to_string(fzf_picker_args());
    let mut r = to_string(BASH_HOOK_1);
    r.append(cli.as_str());
    r.append(BASH_HOOK_2);
    r.append(core.as_str());
    r.append(BASH_HOOK_3);
    r.append(fzf_fns.as_str());
    r.append(BASH_HOOK_4);
    r.append(fzf_args.as_str());
    r.append(BASH_HOOK_5);
    r
}

/// The block that initializes HintShell from `.bashrc`; it calls the installed binary by its
/// absolute path and starts the live overlay where it is supported.
pub fn install_line(host: &Host) -> (r: String)
    ensures
        r@ == bash_init_text(spec_bin_dir_posix(*host), spec_cli_bin_posix(*host)),
{
    let bin_dir = bin_dir_posix(host);
    let cli = cli_bin_posix(host);
    let mut r = to_string(BASH_INIT_1);
    r.append(bin_dir.as_str());
    r.append(BASH_INIT_2);
    r.append(cli.as_str());
    r.append(BASH_INIT_3);
    r.append(cli.as_str());
    r.append(BASH_INIT_4);
    r.append(cli.as_str());
    r.append(BASH_INIT_5);
    r
}

} // verus!
