//! The PowerShell integration: the hook text and the profile block.
use vstd::prelude::*;
use crate::text::to_string;

verus! {

pub const PS_HOOK_1: &'static str = "\n# --- HintShell PowerShell Integration ---\n$env:HINTSHELL_DAEMON = \"";
pub const PS_HOOK_2: &'static str = "\"\nImport-Module \"";
pub const PS_HOOK_3: &'static str = "/HintShellModule.psd1\" -DisableNameChecking -ErrorAction SilentlyContinue\nif (-not (Get-Module -Name HintShellModule)) {\n    Write-Warning \"HintShell: Module not found at ";
pub const PS_HOOK_4: &'static str = ". Re-run: hintshell init\"\n}\n";
pub const PS_INIT_1: &'static str = "\n# HintShell Initialization\nImport-Module \"";
pub const PS_INIT_2: &'static str = "/HintShellModule.psd1\" -DisableNameChecking -ErrorAction SilentlyContinue\nStart-HintShell\n# End HintShell\n";

/// The PowerShell hook text, around the daemon path and the module directory.
pub open spec fn powershell_hook_text(daemon: Seq<char>, module: Seq<char>) -> Seq<char> {
    PS_HOOK_1@ + daemon + PS_HOOK_2@ + module + PS_HOOK_3@ + module + PS_HOOK_4@
}

/// The block appended to the PowerShell profile.
pub open spec fn powershell_init_text(module: Seq<char>) -> Seq<char> {
    PS_INIT_1@ + module + PS_INIT_2@
}

/// The PowerShell hook: sets the daemon path and imports the module from `module`.
pub fn hook_script(daemon: &str, module: &str) -> (r: String)
    ensures
        r@ == powershell_hook_text(daemon@, module@),
{
    let daemon = to_string(daemon);
    let module = to_string(module);
    let mut r = to_string(PS_HOOK_1);
    r.append(daemon.as_str());
    r.append(PS_HOOK_2);
    r.append(module.as_str());
    r.append(PS_HOOK_3);
    r.append(module.as_str());
    r.append(PS_HOOK_4);
    r
}

/// The block appended to the PowerShell profile; it imports the module and starts HintShell.
pub fn install_line(module: &str) -> (r: String)
    ensures
        r@ == powershell_init_text(module@),
{
    let module = to_string(module);
    let mut r = to_string(PS_INIT_1);
    r.append(module.as_str());
    r.append(PS_INIT_2);
    r
}

} // verus!
