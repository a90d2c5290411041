//! The Zsh integration: the hook evaluated by `.zshrc` and the block installed there.
use vstd::prelude::*;
use crate::shell::{
    bin_dir_posix, cli_bin_posix, core_bin_posix, fzf_picker_args, fzf_resolve_functions,
    spec_bin_dir_posix, spec_cli_bin_posix, spec_core_bin_posix, Host, FZF_PICKER_ARGS,
    FZF_RESOLVE_FUNCTIONS,
};
use crate::text::to_string;

verus! {

pub const ZSH_HOOK_1: &'static str = "\n# --- HintShell Zsh Integration ---\nexport HINTSHELL_BIN=\"";
pub const ZSH_HOOK_2: &'static str = "\"\nexport HINTSHELL_CORE=\"";
pub const ZSH_HOOK_3: &'static str = "\"\n";
pub const ZSH_HOOK_4: &'static str = "\n_hintshell_ensure_daemon() {\n    \"$HINTSHELL_BIN\" status >/dev/null 2>&1 && return\n    [[ -x \"$HINTSHELL_CORE\" ]] && (\"$HINTSHELL_CORE\" >/dev/null 2>&1 &)\n    sleep 0.2\n}\n\n_hintshell_tab() {\n    _hintshell_ensure_daemon\n    local typed=\"$LBUFFER\"\n    [[ -z \"$typed\" ]] && { zle expand-or-complete; return }\n    case \"$typed\" in *$'\\n'*|*$'\\r'*) zle expand-or-complete; return ;; esac\n    local suggestions\n    suggestions=$(\"$HINTSHELL_BIN\" suggest \"$typed\" --limit 15 --cwd \"$PWD\" --shell zsh --format fzf 2>/dev/null)\n    [[ -z \"$suggestions\" ]] && { zle expand-or-complete; return }\n    local count selected=\"\"\n    count=$(printf '%s\\n' \"$suggestions\" | wc -l | tr -d ' ')\n    if [[ \"$count\" -eq 1 ]]; then\n        selected=\"$suggestions\"\n    else\n        local fzf_bin\n        if fzf_bin=$(_hintshell_resolve_fzf); then\n            selected=$(printf '%s\\n' \"$suggestions\" | \"$fzf_bin\" ";
pub const ZSH_HOOK_5: &'static str = " 2>/dev/null)\n        else\n            selected=$(printf '%s\\n' \"$suggestions\" | head -n 1)\n        fi\n    fi\n    if [[ -n \"$selected\" ]]; then\n        LBUFFER=$(printf '%s\\n' \"$selected\" | awk -F'\\t' '{sub(/ +$/, \"\", $1); print $1}')\n    fi\n    zle reset-prompt\n}\nzle -N _hintshell_tab\nbindkey '^I' _hintshell_tab\n\n_hintshell_precmd() {\n    _hintshell_ensure_daemon\n    local last_cmd=$(fc -ln -1 2>/dev/null | sed 's/^[[:space:]]*//')\n    [[ -n \"$last_cmd\" ]] && (\"$HINTSHELL_BIN\" add --command \"$last_cmd\" --directory \"$PWD\" --shell zsh >/dev/null 2>&1 &)\n}\nprecmd_functions=(${precmd_functions:#_hintshell_precmd} _hintshell_precmd)\n\n# Auto-start daemon\n_hintshell_ensure_daemon\n";
pub const ZSH_INIT_1: &'static str = "\n# HintShell Initialization\n# Enable the PTY-based live suggestion overlay by default on macOS.\nif [[ \"$(uname -s 2>/dev/null)\" == \"Darwin\" ]]; then\n  export HINTSHELL_ENABLE_MACOS_LIVE_OVERLAY=1\nfi\nexport PATH=\"";
pub const ZSH_INIT_2: &'static str = ":$PATH\"\nif [ -x \"";
pub const ZSH_INIT_3: &'static str = "\" ]; then\n  _hs_hook=\"$(\"";
pub const ZSH_INIT_4: &'static str = "\" hook zsh 2>/dev/null)\" && [ -n \"$_hs_hook\" ] && eval \"$_hs_hook\"\n  unset _hs_hook\nfi\n# Start the live overlay for interactive macOS Zsh.\n# Set HINTSHELL_DISABLE_AUTO_ZSH=1 to bypass it for one session.\nif [[ \"$(uname -s 2>/dev/null)\" == \"Darwin\" && -o interactive && -t 0 && -t 1 && -z \"${HINTSHELL_LIVE_ZSH:-}\" && -z \"${HINTSHELL_DISABLE_AUTO_ZSH:-}\" ]]; then\n  exec \"";
pub const ZSH_INIT_5: &'static str = "\" zsh\nfi\n# End HintShell\n";

/// The Zsh hook text, around the CLI and daemon paths and the fzf helpers.
pub open spec fn zsh_hook_text(cli: Seq<char>, core: Seq<char>, fzf_fns: Seq<char>, fzf_args: Seq<char>) -> Seq<char> {
    ZSH_HOOK_1@ + cli + ZSH_HOOK_2@ + core + ZSH_HOOK_3@ + fzf_fns + ZSH_HOOK_4@ + fzf_args + ZSH_HOOK_5@
}

/// The block appended to `.zshrc`: it puts the binaries on the path, evaluates the hook, and
/// on macOS starts an interactive session inside the live overlay (unless
/// `HINTSHELL_DISABLE_AUTO_ZSH` is set or the session already runs in it).
pub open spec fn zsh_init_text(bin_dir: Seq<char>, cli: Seq<char>) -> Seq<char> {
    ZSH_INIT_1@ + bin_dir + ZSH_INIT_2@ + cli + ZSH_INIT_3@ + cli + ZSH_INIT_4@ + cli + ZSH_INIT_5@
}

/// The Zsh hook script for `host` (Tab opens the picker; works beside zsh-autosuggestions).
pub fn hook_script(host: &Host) -> (r: String)
    ensures
        r@ == zsh_hook_text(
            spec_cli_bin_posix(*host),
            spec_core_bin_posix(*host),
            FZF_RESOLVE_FUNCTIONS@,
            FZF_PICKER_ARGS@,
        ),
{
    let cli = cli_bin_posix(host);
    let core = core_bin_posix(host);
    let fzf_fns = fzf_resolve_functions();
    let fzf_args = to_string(fzf_picker_args());
    let mut r = to_string(ZSH_HOOK_1);
    r.append(cli.as_str());
    r.append(ZSH_HOOK_2);
    r.append(core.as_str());
    r.append(ZSH_HOOK_3);
    r.append(fzf_fns.as_str());
    r.append(ZSH_HOOK_4);
    r.append(fzf_args.as_str());
    r.append(ZSH_HOOK_5);
    r
}

/// The block that initializes HintShell from `.zshrc`.
pub fn install_line(host: &Host) -> (r: String)
    ensures
        r@ == zsh_init_text(spec_bin_dir_posix(*host), spec_cli_bin_posix(*host)),
{
    let bin_dir = bin_dir_posix(host);
    let cli = cli_bin_posix(host);
    let mut r = to_string(ZSH_INIT_1);
    r.append(bin_dir.as_str());
    r.append(ZSH_INIT_2);
    r.append(cli.as_str());
    r.append(ZSH_INIT_3);
    r.append(cli.as_str());
    r.append(ZSH_INIT_4);
    r.append(cli.as_str());
    r.append(ZSH_INIT_5);
    r
}

} // verus!
