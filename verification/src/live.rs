//! Decisions of the live suggestion overlay that wraps an interactive Bash or Zsh.
use vstd::prelude::*;
use crate::protocol::HintShellRequest;
use crate::text::{
    all_ws, ascii_lowercase, lemma_find_from, occurs_at, chars_of, contains_seq, contains_str, find_chars_from, find_from,
    is_blank, is_whitespace, is_ws, push_char, split_whitespace, starts_with, starts_with_str,
    str_eq, string_of, to_ascii_lowercase, to_string, trim, trim_chars, views, words,
};

verus! {

/// Startup tracing is on only when the variable is exactly `1`.
pub fn trace_startup_enabled(value: Option<&str>) -> (r: bool)
    ensures
        r == (match value {
            Some(v) => v@ == "1"@,
            None => false,
        }),
{
    match value {
        Some(v) => str_eq(v, "1"),
        None => false,
    }
}

/// The shells that the live overlay can wrap.
#[derive(Debug, Clone, Copy, PartialEq, Eq, Structural)]
pub enum LiveShell {
    Bash,
    Zsh,
}

impl LiveShell {
    /// The shell name sent with suggestion requests.
    pub fn request_shell(self) -> (r: &'static str)
        ensures
            r@ == (match self {
                LiveShell::Bash => "bash"@,
                LiveShell::Zsh => "zsh"@,
            }),
    {
        match self {
            LiveShell::Bash => "bash",
            LiveShell::Zsh => "zsh",
        }
    }

    /// The environment variable that tells the child shell it runs inside the wrapper.
    pub fn marker(self) -> (r: &'static str)
        ensures
            r@ == (match self {
                LiveShell::Bash => "HINTSHELL_LIVE_BASH"@,
                LiveShell::Zsh => "HINTSHELL_LIVE_ZSH"@,
            }),
    {
        match self {
            LiveShell::Bash => "HINTSHELL_LIVE_BASH",
            LiveShell::Zsh => "HINTSHELL_LIVE_ZSH",
        }
    }

    /// The shell's display name.
    pub fn display_name(self) -> (r: &'static str)
        ensures
            r@ == (match self {
                LiveShell::Bash => "Bash"@,
                LiveShell::Zsh => "Zsh"@,
            }),
    {
        match self {
            LiveShell::Bash => "Bash",
            LiveShell::Zsh => "Zsh",
        }
    }
}

/// The live overlay on a platform that offers it no terminal: always refused, with the
/// reason.
pub fn run(shell: LiveShell, args: Vec<String>) -> (r: Result<(), String>)
    ensures
        r matches Err(e) && e@ == "live shell overlay is unsupported on this platform"@,
{
    Err(to_string("live shell overlay is unsupported on this platform"))
}

/// WSL is detected from either of its runtime variables.
pub fn is_wsl_environment(has_interop: bool, has_distro_name: bool) -> (r: bool)
    ensures
        r == (has_interop || has_distro_name),
{
    has_interop || has_distro_name
}

/// On Unix the overlay wraps Bash under WSL or on macOS when enabled, and Zsh only on macOS
/// when enabled.
pub fn supports_unix_live_shell(shell: LiveShell, wsl_runtime: bool, macos_overlay_enabled: bool) -> (r: bool)
    ensures
        r == (match shell {
            LiveShell::Bash => wsl_runtime || macos_overlay_enabled,
            LiveShell::Zsh => macos_overlay_enabled,
        }),
{
    match shell {
        LiveShell::Bash => wsl_runtime || macos_overlay_enabled,
        LiveShell::Zsh => macos_overlay_enabled,
    }
}

/// Every double quote preceded by a backslash.
pub open spec fn escape_quotes(v: Seq<char>) -> Seq<char>
    decreases v.len(),
{
    if v.len() == 0 {
        seq![]
    } else if v.last() == '"' {
        escape_quotes(v.drop_last()) + seq!['\\', '"']
    } else {
        escape_quotes(v.drop_last()).push(v.last())
    }
}

/// A Windows command-line argument, quoted when it holds a space, a tab or a quote.
pub open spec fn spec_quote_windows_argument(v: Seq<char>) -> Seq<char> {
    if v.contains(' ') || v.contains('\t') || v.contains('"') {
        seq!['"'] + escape_quotes(v) + seq!['"']
    } else {
        v
    }
}

/// Quotes a Windows argument: values with a space, a tab or a double quote are wrapped in
/// quotes, with inner quotes escaped by a backslash.
pub fn quote_windows_argument(value: &str) -> (r: String)
    ensures
        r@ == spec_quote_windows_argument(value@),
{
    let cs = chars_of(value);
    let mut needs = false;
    let mut i: usize = 0;
    while i < cs.len()
        invariant
            cs@ == value@,
            i <= cs.len(),
            needs == (cs@.take(i as int).contains(' ') || cs@.take(i as int).contains('\t')
                || cs@.take(i as int).contains('"')),
        decreases cs.len() - i,
    {
        proof {
            let t = cs@.take(i + 1);
            assert(t =~= cs@.take(i as int).push(cs@[i as int]));
            assert(forall|c: char| t.contains(c) <==> (cs@.take(i as int).contains(c) || cs@[i as int] == c)) by {
                assert forall|c: char| t.contains(c) implies (cs@.take(i as int).contains(c) || cs@[i as int] == c) by {
                    let j = choose|j: int| 0 <= j < t.len() && t[j] == c;
                    if j < i {
                        assert(cs@.take(i as int)[j] == c);
                    }
                }
                assert forall|c: char| (cs@.take(i as int).contains(c) || cs@[i as int] == c) implies t.contains(c) by {
                    if cs@[i as int] == c {
                        assert(t[i as int] == c);
                    } else {
                        let j = choose|j: int| 0 <= j < i && cs@.take(i as int)[j] == c;
                        assert(t[j] == c);
                    }
                }
            }
        }
        let c = cs[i];
        if c == ' ' || c == '\t' || c == '"' {
            needs = true;
        }
        i = i + 1;
    }
    assert(cs@.take(cs.len() as int) =~= cs@);
    if !needs {
        return to_string(value);
    }
    let mut r = String::new();
    push_char(&mut r, '"');
    let mut i: usize = 0;
    while i < cs.len()
        invariant
            cs@ == value@,
            i <= cs.len(),
            r@ == seq!['"'] + escape_quotes(cs@.take(i as int)),
        decreases cs.len() - i,
    {
        let c = cs[i];
        proof {
            assert(cs@.take(i + 1).drop_last() =~= cs@.take(i as int));
        }
        if c == '"' {
            push_char(&mut r, '\\');
            push_char(&mut r, '"');
            assert(r@ =~= seq!['"'] + escape_quotes(cs@.take(i + 1)));
        } else {
            push_char(&mut r, c);
            assert(r@ =~= seq!['"'] + escape_quotes(cs@.take(i + 1)));
        }
        i = i + 1;
    }
    assert(cs@.take(cs.len() as int) =~= cs@);
    push_char(&mut r, '"');
    r
}

/// The suggestion request that the overlay sends for the current line.
pub fn query_request(input: String, cwd: Option<String>, shell: &str) -> (r: HintShellRequest)
    ensures
        r == (HintShellRequest::Suggest {
            input: input,
            limit: 30,
            cwd: cwd,
            shell: Some(r->Suggest_shell->0),
        }),
        r->Suggest_shell->0@ == shell@,
{
    HintShellRequest::Suggest { input, limit: 30, cwd, shell: Some(to_string(shell)) }
}

/// The word being typed: the last white-space separated word, or nothing.
pub open spec fn spec_current_token(buffer: Seq<char>) -> Seq<char> {
    let w = words(buffer);
    if w.len() > 0 {
        w.last()
    } else {
        seq![]
    }
}

/// The last white-space separated word of the buffer (empty when there is none).
pub fn current_token(buffer: &str) -> (r: String)
    ensures
        r@ == spec_current_token(buffer@),
{
    let w = split_whitespace(buffer);
    if w.len() > 0 {
        proof {
            assert(views(w@).last() == w@[w.len() - 1]@);
        }
        crate::text::copy_string(&w[w.len() - 1])
    } else {
        String::new()
    }
}

/// A token that looks like a path: it starts with `.` or `~`, or holds `/`, `\\` or `:`.
pub open spec fn spec_looks_like_path(t: Seq<char>) -> bool {
    (t.len() > 0 && (t[0] == '.' || t[0] == '~')) || t.contains('/') || t.contains('\\')
        || t.contains(':')
}

pub fn looks_like_path(token: &str) -> (r: bool)
    ensures
        r == spec_looks_like_path(token@),
{
    let cs = chars_of(token);
    if cs.len() > 0 && (cs[0] == '.' || cs[0] == '~') {
        return true;
    }
    let mut i: usize = 0;
    while i < cs.len()
        invariant
            cs@ == token@,
            i <= cs.len(),
            forall|j: int| 0 <= j < i ==> cs@[j] != '/' && cs@[j] != '\\' && cs@[j] != ':',
        decreases cs.len() - i,
    {
        if cs[i] == '/' || cs[i] == '\\' || cs[i] == ':' {
            assert(cs@[i as int] == cs@[i as int]);
            return true;
        }
        i = i + 1;
    }
    false
}

/// Whether the overlay asks for suggestions for this buffer: some text is typed, it is a
/// single line, and the current word is neither a flag nor a path.
pub open spec fn spec_is_suggestable(b: Seq<char>) -> bool {
    let t = spec_current_token(b);
    &&& !all_ws(b)
    &&& !b.contains('\n')
    &&& !b.contains('\r')
    &&& !(t.len() > 0 && t[0] == '-')
    &&& !spec_looks_like_path(t)
}

pub fn is_suggestable(buffer: &str) -> (r: bool)
    ensures
        r == spec_is_suggestable(buffer@),
{
    if is_blank(buffer) {
        return false;
    }
    let cs = chars_of(buffer);
    let mut i: usize = 0;
    while i < cs.len()
        invariant
            cs@ == buffer@,
            i <= cs.len(),
            forall|j: int| 0 <= j < i ==> cs@[j] != '\n' && cs@[j] != '\r',
        decreases cs.len() - i,
    {
        if cs[i] == '\n' || cs[i] == '\r' {
            assert(cs@[i as int] == cs@[i as int]);
            return false;
        }
        i = i + 1;
    }
    let token = current_token(buffer);
    let tv = chars_of(token.as_str());
    if tv.len() > 0 && tv[0] == '-' {
        return false;
    }
    !looks_like_path(token.as_str())
}

/// What Tab does in the overlay.
#[derive(Debug, Clone, Copy, PartialEq, Eq, Structural)]
pub enum TabAction {
    /// Replace the line with the selected suggestion.
    AcceptHintShell,
    /// Let the shell's own completion handle the key.
    ForwardToBash,
}

/// Tab accepts the selected suggestion when the buffer is suggestable and the suggestion
/// contains the typed text (ignoring ASCII case); otherwise the shell completes.
pub open spec fn spec_tab_action(buffer: Seq<char>, suggestion: Option<Seq<char>>) -> TabAction {
    match suggestion {
        Some(cmd) => {
            let c = ascii_lowercase(cmd);
            let b = ascii_lowercase(buffer);
            if spec_is_suggestable(buffer) && (starts_with(c, b) || contains_seq(c, b)) {
                TabAction::AcceptHintShell
            } else {
                TabAction::ForwardToBash
            }
        },
        None => TabAction::ForwardToBash,
    }
}

pub fn tab_action(buffer: &str, suggestion: Option<&str>) -> (r: TabAction)
    ensures
        r == spec_tab_action(buffer@, match suggestion {
            Some(s) => Some(s@),
            None => None,
        }),
{
    match suggestion {
        Some(cmd) => {
            if !is_suggestable(buffer) {
                return TabAction::ForwardToBash;
            }
            let c = to_ascii_lowercase(cmd);
            let b = to_ascii_lowercase(buffer);
            if starts_with_str(c.as_str(), b.as_str()) || contains_str(c.as_str(), b.as_str()) {
                TabAction::AcceptHintShell
            } else {
                TabAction::ForwardToBash
            }
        },
        None => TabAction::ForwardToBash,
    }
}

/// The width inside the overlay's border.
pub fn overlay_inner_width(width: usize) -> (r: usize)
    ensures
        r == (if width >= 2 { width - 2 } else { 0 }),
{
    width.saturating_sub(2)
}

/// The width of the command column (the rest holds the marker and the source).
pub fn overlay_command_width(width: usize) -> (r: usize)
    ensures
        r == (if width >= 28 { width - 28 } else { 0 }),
{
    overlay_inner_width(width).saturating_sub(26)
}

pub open spec fn clamp(v: int, lo: int, hi: int) -> int {
    if v < lo {
        lo
    } else if v > hi {
        hi
    } else {
        v
    }
}

pub open spec fn min_int(a: int, b: int) -> int {
    if a < b {
        a
    } else {
        b
    }
}

/// The number of suggestion rows shown: at most `total`, at most `max_visible` (kept
/// between 3 and 10), and only as many as fit below the prompt with the frame's three other
/// lines, so that the overlay never scrolls the terminal.
pub open spec fn spec_visible_rows(cursor_row: int, terminal_height: int, total: int, max_visible: int) -> int {
    let below = if terminal_height > cursor_row + 1 { terminal_height - (cursor_row + 1) } else { 0 };
    let room = if below > 3 { below - 3 } else { 0 };
    min_int(min_int(total, clamp(max_visible, 3, 10)), room)
}

pub fn visible_suggestion_rows(cursor_row: u16, terminal_height: u16, total: usize, max_visible: usize) -> (r: usize)
    ensures
        r == spec_visible_rows(cursor_row as int, terminal_height as int, total as int, max_visible as int),
        r <= total,
        r <= 10,
        cursor_row as int + 1 + r + 3 <= terminal_height || r == 0,
{
    let rows_below_prompt = terminal_height.saturating_sub(cursor_row.saturating_add(1));
    let rows_for_suggestions = rows_below_prompt.saturating_sub(3) as usize;
    let cap = if max_visible < 3 { 3 } else if max_visible > 10 { 10 } else { max_visible };
    let a = if total < cap { total } else { cap };
    if a < rows_for_suggestions { a } else { rows_for_suggestions }
}

/// The first suggestion shown in a viewport of `viewport_size` rows, scrolled just enough to
/// keep `selected` visible.
pub fn viewport_start(selected: usize, total: usize, viewport_size: usize) -> (r: usize)
    ensures
        r == (if total <= viewport_size {
            0
        } else {
            min_int(
                if selected as int + 1 >= viewport_size { selected as int + 1 - viewport_size } else { 0 },
                total - viewport_size,
            )
        }),
        selected < total && 0 < viewport_size ==> r <= selected < r + viewport_size,
        total > viewport_size ==> r + viewport_size <= total,
{
    if total <= viewport_size {
        return 0;
    }
    let a = selected.saturating_add(1).saturating_sub(viewport_size);
    let b = total - viewport_size;
    if a < b { a } else { b }
}

/// `text` with line breaks and tabs turned into spaces.
pub open spec fn sanitize(t: Seq<char>) -> Seq<char> {
    t.map_values(|c: char| if c == '\r' || c == '\n' || c == '\t' { ' ' } else { c })
}

fn sanitize_chars(text: &str) -> (r: Vec<char>)
    ensures
        r@ == sanitize(text@),
{
    let cs = chars_of(text);
    let mut r: Vec<char> = Vec::new();
    let mut i: usize = 0;
    while i < cs.len()
        invariant
            cs@ == text@,
            i <= cs.len(),
            r@ == sanitize(text@).take(i as int),
        decreases cs.len() - i,
    {
        let c = cs[i];
        r.push(if c == '\r' || c == '\n' || c == '\t' { ' ' } else { c });
        assert(sanitize(text@).take(i + 1) =~= sanitize(text@).take(i as int).push(sanitize(text@)[i as int]));
        i = i + 1;
    }
    assert(sanitize(text@).take(cs.len() as int) =~= sanitize(text@));
    r
}

/// Text cut to fit `max_width` characters: longer text keeps `max_width - 1` characters and
/// ends in an ellipsis.
pub open spec fn spec_fit_width(text: Seq<char>, max_width: int) -> Seq<char> {
    let s = sanitize(text);
    let keep = if max_width >= 1 { max_width - 1 } else { 0 };
    if s.len() > keep {
        s.take(keep) + seq!['\u{2026}']
    } else {
        s
    }
}

pub fn fit_width(text: &str, max_width: usize) -> (r: String)
    ensures
        r@ == spec_fit_width(text@, max_width as int),
        r@.len() <= (if max_width >= 1 { max_width as int } else { 1 }),
{
    let s = sanitize_chars(text);
    let keep = max_width.saturating_sub(1);
    if s.len() > keep {
        let mut r: Vec<char> = Vec::new();
        let mut i: usize = 0;
        while i < keep
            invariant
                keep < s.len(),
                i <= keep,
                r@ == s@.take(i as int),
            decreases keep - i,
        {
            r.push(s[i]);
            assert(s@.take(i + 1) =~= s@.take(i as int).push(s@[i as int]));
            i = i + 1;
        }
        r.push('\u{2026}');
        string_of(r.as_slice())
    } else {
        string_of(s.as_slice())
    }
}

/// `n` spaces.
pub open spec fn spaces(n: int) -> Seq<char> {
    Seq::new(if n > 0 { n as nat } else { 0 }, |i: int| ' ')
}

fn push_spaces(r: &mut String, n: usize)
    ensures
        final(r)@ == old(r)@ + spaces(n as int),
{
    let mut i: usize = 0;
    while i < n
        invariant
            i <= n,
            r@ == old(r)@ + spaces(i as int),
        decreases n - i,
    {
        push_char(r, ' ');
        assert(spaces(i + 1) =~= spaces(i as int).push(' '));
        i = i + 1;
    }
}

/// The colour codes around a highlighted match.
pub const HIGHLIGHT_ON: &'static str = "\x1b[1;38;5;220m";
pub const SELECTED_ROW_STYLE: &'static str = "\x1b[48;5;60m\x1b[38;5;255m";
pub const STYLE_RESET: &'static str = "\x1b[0m";

/// A command padded to `width` characters, with the first (ASCII case-insensitive) match of
/// the trimmed buffer shown in bold yellow; the style after the match restores the row style.
pub open spec fn spec_highlight_match(command: Seq<char>, buffer: Seq<char>, is_selected: bool, width: int) -> Seq<char> {
    let clean = command.map_values(|c: char| if c == '\r' || c == '\n' || c == '\t' { ' ' } else { c });
    let needle = ascii_lowercase(trim(buffer));
    let pad = spaces(width - clean.len());
    if needle.len() == 0 {
        clean + pad
    } else {
        match find_from(ascii_lowercase(clean), needle, 0) {
            Some(pos) => {
                let end = pos + needle.len();
                let reset = if is_selected { SELECTED_ROW_STYLE@ } else { STYLE_RESET@ };
                clean.take(pos) + HIGHLIGHT_ON@ + clean.subrange(pos, end) + reset + clean.skip(end) + pad
            },
            None => clean + pad,
        }
    }
}

fn append_chars(r: &mut String, cs: &Vec<char>, from: usize, to: usize)
    requires
        from <= to <= cs@.len(),
    ensures
        final(r)@ == old(r)@ + cs@.subrange(from as int, to as int),
{
    let mut i = from;
    while i < to
        invariant
            from <= i <= to <= cs@.len(),
            r@ == old(r)@ + cs@.subrange(from as int, i as int),
        decreases to - i,
    {
        push_char(r, cs[i]);
        assert(cs@.subrange(from as int, i + 1) =~= cs@.subrange(from as int, i as int).push(cs@[i as int]));
        i = i + 1;
    }
}

pub fn highlight_match(command: &str, buffer: &str, is_selected: bool, target_width: usize) -> (r: String)
    ensures
        r@ == spec_highlight_match(command@, buffer@, is_selected, target_width as int),
{
    let clean = sanitize_chars(command);
    proof {
        assert(clean@ =~= command@.map_values(|c: char| if c == '\r' || c == '\n' || c == '\t' { ' ' } else { c }));
    }
    let bv = chars_of(buffer);
    let trimmed = trim_chars(&bv);
    let mut needle: Vec<char> = Vec::new();
    let mut i: usize = 0;
    while i < trimmed.len()
        invariant
            i <= trimmed.len(),
            needle@ == ascii_lowercase(trimmed@).take(i as int),
        decreases trimmed.len() - i,
    {
        needle.push(crate::text::ascii_lower_char(trimmed[i]));
        assert(ascii_lowercase(trimmed@).take(i + 1) =~= ascii_lowercase(trimmed@).take(i as int).push(ascii_lowercase(trimmed@)[i as int]));
        i = i + 1;
    }
    assert(ascii_lowercase(trimmed@).take(trimmed.len() as int) =~= ascii_lowercase(trimmed@));
    let mut lower: Vec<char> = Vec::new();
    let mut i: usize = 0;
    while i < clean.len()
        invariant
            i <= clean.len(),
            lower@ == ascii_lowercase(clean@).take(i as int),
        decreases clean.len() - i,
    {
        lower.push(crate::text::ascii_lower_char(clean[i]));
        assert(ascii_lowercase(clean@).take(i + 1) =~= ascii_lowercase(clean@).take(i as int).push(ascii_lowercase(clean@)[i as int]));
        i = i + 1;
    }
    assert(ascii_lowercase(clean@).take(clean.len() as int) =~= ascii_lowercase(clean@));
    let pad = target_width.saturating_sub(clean.len());
    let mut r = String::new();
    if needle.len() == 0 {
        append_chars(&mut r, &clean, 0, clean.len());
        push_spaces(&mut r, pad);
        assert(clean@.subrange(0, clean@.len() as int) =~= clean@);
        return r;
    }
    match find_chars_from(&lower, &needle, 0) {
        Some(pos) => {
            proof {
                crate::text::lemma_find_from(lower@, needle@, 0);
            }
            let end = pos + needle.len();
            append_chars(&mut r, &clean, 0, pos);
            r.append(HIGHLIGHT_ON);
            append_chars(&mut r, &clean, pos, end);
            if is_selected {
                r.append(SELECTED_ROW_STYLE);
            } else {
                r.append(STYLE_RESET);
            }
            append_chars(&mut r, &clean, end, clean.len());
            push_spaces(&mut r, pad);
            assert(clean@.subrange(0, pos as int) =~= clean@.take(pos as int));
            assert(clean@.subrange(end as int, clean@.len() as int) =~= clean@.skip(end as int));
            r
        },
        None => {
            append_chars(&mut r, &clean, 0, clean.len());
            push_spaces(&mut r, pad);
            assert(clean@.subrange(0, clean@.len() as int) =~= clean@);
            r
        },
    }
}

/// Tab accepts the selected suggestion exactly when the buffer is suggestable and the typed
/// text occurs somewhere in the suggestion (as a prefix or further in), ignoring ASCII case;
/// without a suggestion it always goes to the shell.
pub proof fn lemma_tab_accepts_contained_text(buffer: Seq<char>, cmd: Seq<char>)
    ensures
        (spec_tab_action(buffer, Some(cmd)) == TabAction::AcceptHintShell) <==> (spec_is_suggestable(buffer)
            && exists|i: int| occurs_at(ascii_lowercase(cmd), ascii_lowercase(buffer), i)),
        spec_tab_action(buffer, None) == TabAction::ForwardToBash,
{
    let c = ascii_lowercase(cmd);
    let b = ascii_lowercase(buffer);
    lemma_find_from(c, b, 0);
    if starts_with(c, b) {
        assert(c.subrange(0, b.len() as int) =~= c.take(b.len() as int));
        assert(occurs_at(c, b, 0));
    }
    match find_from(c, b, 0) {
        Some(k) => {
            assert(occurs_at(c, b, k));
        },
        None => {},
    }
}

} // verus!
