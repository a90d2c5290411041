//! The overlay's state machine: what each key, paste, prompt and suggestion result does to
//! the tracked input line, and which effects (clear, render, write to the shell, pause, ask
//! for suggestions) the terminal loop has to carry out, in order.
use vstd::prelude::*;
use crate::live::{
    clamp, fit_width, highlight_match, is_suggestable, overlay_command_width, overlay_inner_width,
    spaces, spec_fit_width, spec_highlight_match, spec_is_suggestable, spec_tab_action,
    spec_visible_rows, tab_action, viewport_start, visible_suggestion_rows, TabAction,
};
use crate::text::{
    ascii_lowercase, chars_of, contains_seq, contains_str, is_whitespace, is_ws, push_char, starts_with, starts_with_str,
    string_of, to_ascii_lowercase, to_string,
};

verus! {

/// The pause, in milliseconds, between discarding the shell's line and inserting an accepted
/// suggestion, so that the shell finishes redrawing first.
pub const TAB_ACCEPT_CLEAR_DELAY_MS: u64 = 8;

/// What the overlay shows of one suggestion.
#[derive(Debug, Clone)]
pub struct OverlayItem {
    pub command: String,
    pub source: String,
    pub description: Option<String>,
}

/// The overlay's view of the line being typed.
#[derive(Debug)]
pub struct OverlayState {
    /// What the user typed since the prompt, as far as it could be followed.
    pub buffer: String,
    /// False once the line was edited in a way the overlay cannot follow.
    pub tracking_valid: bool,
    /// Bumped on every change, so that late suggestion results can be recognised.
    pub generation: u64,
    pub selected: usize,
    pub suggestions: Vec<OverlayItem>,
    /// How many terminal lines the overlay occupies below the prompt.
    pub rendered_lines: usize,
}

/// The mathematical value of an `OverlayState`.
#[verifier::ext_equal]
pub struct OverlayModel {
    pub buffer: Seq<char>,
    pub tracking_valid: bool,
    pub generation: u64,
    pub selected: usize,
    pub suggestions: Seq<OverlayItem>,
    pub rendered_lines: usize,
}

impl View for OverlayState {
    type V = OverlayModel;

    open spec fn view(&self) -> OverlayModel {
        OverlayModel {
            buffer: self.buffer@,
            tracking_valid: self.tracking_valid,
            generation: self.generation,
            selected: self.selected,
            suggestions: self.suggestions@,
            rendered_lines: self.rendered_lines,
        }
    }
}

/// One thing the terminal loop has to do.
#[derive(Debug)]
pub enum OverlayEffect {
    /// Erase the given number of overlay lines below the prompt.
    Clear(usize),
    /// Draw the overlay for the current state.
    Render,
    /// Send text to the shell.
    Write(String),
    /// Wait the given number of milliseconds.
    Pause(u64),
    /// Ask for suggestions for a buffer, tagged with its generation.
    Query(u64, String),
}

/// An effect with its text taken by value.
pub enum EffectView {
    Clear(usize),
    Render,
    Write(Seq<char>),
    Pause(u64),
    Query(u64, Seq<char>),
}

impl View for OverlayEffect {
    type V = EffectView;

    open spec fn view(&self) -> EffectView {
        match self {
            OverlayEffect::Clear(n) => EffectView::Clear(*n),
            OverlayEffect::Render => EffectView::Render,
            OverlayEffect::Write(s) => EffectView::Write(s@),
            OverlayEffect::Pause(ms) => EffectView::Pause(*ms),
            OverlayEffect::Query(g, s) => EffectView::Query(*g, s@),
        }
    }
}

pub open spec fn effects_view(v: Seq<OverlayEffect>) -> Seq<EffectView> {
    v.map_values(|e: OverlayEffect| e@)
}

/// The keys that the overlay tells apart.
#[derive(Debug, Clone, Copy, PartialEq, Eq, Structural)]
pub enum KeyCode {
    Tab,
    Up,
    Down,
    Left,
    Right,
    Home,
    End,
    Delete,
    Esc,
    Backspace,
    Enter,
    Char(char),
    Other,
}

/// The modifiers held with a key; `other` covers Shift and the rarer ones.
#[derive(Debug, Clone, Copy, PartialEq, Eq, Structural)]
pub struct KeyMods {
    pub control: bool,
    pub alt: bool,
    pub other: bool,
}

#[derive(Debug, Clone, Copy, PartialEq, Eq, Structural)]
pub struct Key {
    pub code: KeyCode,
    pub mods: KeyMods,
}

/// A state and the effects that lead to it.
#[verifier::ext_equal]
pub struct Outcome {
    pub state: OverlayModel,
    pub effects: Seq<EffectView>,
}

pub open spec fn next_gen(g: u64) -> u64 {
    if g == u64::MAX {
        0
    } else {
        (g + 1) as u64
    }
}

/// The effects of erasing the overlay: nothing when nothing is drawn.
pub open spec fn clear_fx(s: OverlayModel) -> Seq<EffectView> {
    if s.rendered_lines > 0 {
        seq![EffectView::Clear(s.rendered_lines)]
    } else {
        seq![]
    }
}

pub open spec fn cleared(s: OverlayModel) -> OverlayModel {
    OverlayModel { rendered_lines: 0, ..s }
}

/// No suggestions and the first one selected.
pub open spec fn emptied(s: OverlayModel) -> OverlayModel {
    OverlayModel { suggestions: Seq::empty(), selected: 0, ..s }
}

pub open spec fn bumped(s: OverlayModel) -> OverlayModel {
    OverlayModel { generation: next_gen(s.generation), ..s }
}

/// The selected suggestion, if the selection points at one.
pub open spec fn current(s: OverlayModel) -> Option<OverlayItem> {
    if s.selected < s.suggestions.len() {
        Some(s.suggestions[s.selected as int])
    } else {
        None
    }
}

pub open spec fn current_command(s: OverlayModel) -> Option<Seq<char>> {
    match current(s) {
        Some(item) => Some(item.command@),
        None => None,
    }
}

/// After a change of the buffer: a new generation, no suggestions, and a query when the
/// line is followed and suggestable.
pub open spec fn requested(s: OverlayModel) -> Outcome {
    let t = emptied(bumped(s));
    Outcome {
        state: t,
        effects: if t.tracking_valid && spec_is_suggestable(t.buffer) {
            seq![EffectView::Query(t.generation, t.buffer)]
        } else {
            seq![]
        },
    }
}

/// Erase, forget the suggestions, stop following the line, and pass the key on.
pub open spec fn forwarded(s: OverlayModel, bytes: Seq<char>) -> Outcome {
    Outcome {
        state: OverlayModel { tracking_valid: false, ..bumped(emptied(cleared(s))) },
        effects: clear_fx(s).push(EffectView::Write(bytes)),
    }
}

pub open spec fn unchanged(s: OverlayModel) -> Outcome {
    Outcome { state: s, effects: seq![] }
}

/// The text without trailing line breaks, with the remaining ones turned into spaces.
pub open spec fn strip_line_ends(c: Seq<char>) -> Seq<char>
    decreases c.len(),
{
    if c.len() > 0 && (c.last() == '\r' || c.last() == '\n') {
        strip_line_ends(c.drop_last())
    } else {
        c
    }
}

pub open spec fn spec_clean_command(c: Seq<char>) -> Seq<char> {
    strip_line_ends(c).map_values(|x: char| if x == '\r' || x == '\n' { ' ' } else { x })
}

/// The number of leading characters whose white-space-ness is `ws`.
pub open spec fn lead_len(r: Seq<char>, ws: bool) -> nat
    decreases r.len(),
{
    if r.len() > 0 && is_ws(r[0]) == ws {
        1 + lead_len(r.skip(1), ws)
    } else {
        0
    }
}

/// Leading white space and the word after it.
pub open spec fn spec_next_chunk(r: Seq<char>) -> Seq<char> {
    let k = lead_len(r, true);
    r.take((k + lead_len(r.skip(k as int), false)) as int)
}

/// Whether the accepted text extends the typed buffer (ASCII case aside).
pub open spec fn extends(clean: Seq<char>, buffer: Seq<char>) -> bool {
    starts_with(ascii_lowercase(clean), ascii_lowercase(buffer)) && clean.len() > buffer.len()
}

/// Right arrow or End on a suggestion that extends the buffer: type the rest of it.
pub open spec fn accept_rest(s: OverlayModel, fallback: Seq<char>) -> Outcome {
    match current_command(s) {
        Some(cmd) => {
            let clean = spec_clean_command(cmd);
            if extends(clean, s.buffer) {
                Outcome {
                    state: bumped(emptied(OverlayModel { buffer: clean, ..cleared(s) })),
                    effects: clear_fx(s).push(EffectView::Write(clean.skip(s.buffer.len() as int))),
                }
            } else {
                forwarded(s, fallback)
            }
        },
        None => forwarded(s, fallback),
    }
}

/// Alt (or Ctrl) with Right on a suggestion that extends the buffer: type its next word.
pub open spec fn accept_word(s: OverlayModel) -> Outcome {
    match current_command(s) {
        Some(cmd) => {
            let clean = spec_clean_command(cmd);
            if extends(clean, s.buffer) {
                let chunk = spec_next_chunk(clean.skip(s.buffer.len() as int));
                if chunk.len() > 0 {
                    let r = requested(OverlayModel { buffer: s.buffer + chunk, ..cleared(s) });
                    Outcome {
                        state: r.state,
                        effects: clear_fx(s).push(EffectView::Write(chunk)) + r.effects,
                    }
                } else {
                    forwarded(s, "\x1b[1;5C"@)
                }
            } else {
                forwarded(s, "\x1b[1;5C"@)
            }
        },
        None => forwarded(s, "\x1b[1;5C"@),
    }
}

pub open spec fn tab_outcome(s: OverlayModel) -> Outcome {
    match spec_tab_action(s.buffer, current_command(s)) {
        TabAction::AcceptHintShell => match current_command(s) {
            Some(cmd) => {
                let clean = spec_clean_command(cmd);
                Outcome {
                    state: bumped(OverlayModel { buffer: clean, ..emptied(cleared(s)) }),
                    effects: clear_fx(s) + seq![
                        EffectView::Write("\x15"@),
                        EffectView::Pause(TAB_ACCEPT_CLEAR_DELAY_MS),
                        EffectView::Write(clean),
                    ],
                }
            },
            None => unchanged(s),
        },
        TabAction::ForwardToBash => Outcome {
            state: emptied(cleared(s)),
            effects: clear_fx(s).push(EffectView::Write("\t"@)),
        },
    }
}

/// Moving the selection redraws the overlay.
pub open spec fn reselected(s: OverlayModel, selected: usize) -> Outcome {
    Outcome {
        state: OverlayModel { selected, ..cleared(s) },
        effects: clear_fx(s).push(EffectView::Render),
    }
}

pub open spec fn typed(s: OverlayModel, c: char) -> Outcome {
    let t = if s.tracking_valid {
        OverlayModel { buffer: s.buffer.push(c), ..cleared(s) }
    } else {
        cleared(s)
    };
    let r = requested(t);
    Outcome { state: r.state, effects: clear_fx(s).push(EffectView::Write(seq![c])) + r.effects }
}

pub open spec fn backspaced(s: OverlayModel) -> Outcome {
    if !s.tracking_valid {
        forwarded(s, "\x7f"@)
    } else {
        let t = OverlayModel {
            buffer: if s.buffer.len() > 0 { s.buffer.drop_last() } else { s.buffer },
            ..cleared(s)
        };
        let r = requested(t);
        Outcome { state: r.state, effects: clear_fx(s).push(EffectView::Write("\x7f"@)) + r.effects }
    }
}

/// Ctrl-C and Ctrl-U drop the typed line (the suggestions stay until the next change).
pub open spec fn line_dropped(s: OverlayModel, bytes: Seq<char>) -> Outcome {
    Outcome {
        state: bumped(OverlayModel { buffer: seq![], ..cleared(s) }),
        effects: clear_fx(s).push(EffectView::Write(bytes)),
    }
}

pub open spec fn plain(m: KeyMods) -> bool {
    !m.control && !m.alt && !m.other
}

pub open spec fn only_control(m: KeyMods) -> bool {
    m.control && !m.alt && !m.other
}

/// What a key press does.
pub open spec fn key_outcome(key: Key, s: OverlayModel) -> Outcome {
    let has = s.suggestions.len() > 0;
    match key.code {
        KeyCode::Tab => tab_outcome(s),
        KeyCode::Up => if has {
            reselected(s, if s.selected > 0 { (s.selected - 1) as usize } else { 0 })
        } else {
            forwarded(s, "\x1b[A"@)
        },
        KeyCode::Down => if has {
            reselected(
                s,
                if s.selected + 1 < s.suggestions.len() {
                    (s.selected + 1) as usize
                } else {
                    (s.suggestions.len() - 1) as usize
                },
            )
        } else {
            forwarded(s, "\x1b[B"@)
        },
        KeyCode::Esc => if has {
            Outcome { state: emptied(cleared(s)), effects: clear_fx(s) }
        } else {
            forwarded(s, "\x1b"@)
        },
        KeyCode::Backspace => backspaced(s),
        KeyCode::Enter => Outcome {
            state: bumped(
                OverlayModel { tracking_valid: true, buffer: seq![], ..emptied(cleared(s)) },
            ),
            effects: clear_fx(s).push(EffectView::Write("\r"@)),
        },
        KeyCode::Char(c) => if !key.mods.control {
            typed(s, c)
        } else if c == 'c' {
            line_dropped(s, "\x03"@)
        } else if c == 'u' {
            line_dropped(s, "\x15"@)
        } else if c == 'z' {
            Outcome {
                state: bumped(OverlayModel { tracking_valid: false, ..emptied(cleared(s)) }),
                effects: clear_fx(s).push(EffectView::Write("\x1a"@)),
            }
        } else {
            unchanged(s)
        },
        KeyCode::Right => if has && (plain(key.mods) || only_control(key.mods)) {
            accept_rest(s, "\x1b[C"@)
        } else if has && (key.mods.alt || key.mods.control) {
            accept_word(s)
        } else {
            forwarded(s, "\x1b[C"@)
        },
        KeyCode::End => if has && (plain(key.mods) || only_control(key.mods)) {
            accept_rest(s, "\x05"@)
        } else {
            forwarded(s, "\x05"@)
        },
        KeyCode::Left => forwarded(s, "\x1b[D"@),
        KeyCode::Home => forwarded(s, "\x01"@),
        KeyCode::Delete => forwarded(s, "\x1b[3~"@),
        KeyCode::Other => unchanged(s),
    }
}

fn emit(fx: &mut Vec<OverlayEffect>, e: OverlayEffect)
    ensures
        effects_view(final(fx)@) =~= effects_view(old(fx)@).push(e@),
{
    fx.push(e);
    assert(effects_view(fx@) =~= effects_view(old(fx)@).push(e@));
}

fn next_generation(g: u64) -> (r: u64)
    ensures
        r == next_gen(g),
{
    if g == u64::MAX {
        0
    } else {
        g + 1
    }
}

impl OverlayState {
    /// An empty line, followed from the start.
    pub fn new() -> (r: OverlayState)
        ensures
            r@ == (OverlayModel {
                buffer: seq![],
                tracking_valid: true,
                generation: 0,
                selected: 0,
                suggestions: seq![],
                rendered_lines: 0,
            }),
    {
        OverlayState {
            buffer: String::new(),
            tracking_valid: true,
            generation: 0,
            selected: 0,
            suggestions: Vec::new(),
            rendered_lines: 0,
        }
    }

    /// Forgets the suggestions and selects the first row.
    pub fn clear(&mut self)
        ensures
            final(self)@ == emptied(old(self)@),
    {
        self.suggestions = Vec::new();
        self.selected = 0;
    }

    /// The selected suggestion's command.
    pub fn current_command(&self) -> (r: Option<String>)
        ensures
            match r {
                Some(c) => current_command(self@) == Some(c@),
                None => current_command(self@) is None,
            },
    {
        if self.selected < self.suggestions.len() {
            Some(self.suggestions[self.selected].command.clone())
        } else {
            None
        }
    }

    fn erase(&mut self, fx: &mut Vec<OverlayEffect>)
        ensures
            final(self)@ == cleared(old(self)@),
            effects_view(final(fx)@) =~= effects_view(old(fx)@) + clear_fx(old(self)@),
    {
        if self.rendered_lines > 0 {
            emit(fx, OverlayEffect::Clear(self.rendered_lines));
            self.rendered_lines = 0;
        } else {
            assert(effects_view(fx@) =~= effects_view(fx@) + seq![]);
        }
    }

    fn bump(&mut self)
        ensures
            final(self)@ == bumped(old(self)@),
    {
        self.generation = next_generation(self.generation);
    }

    fn request(&mut self, fx: &mut Vec<OverlayEffect>)
        ensures
            final(self)@ == requested(old(self)@).state,
            effects_view(final(fx)@) =~= effects_view(old(fx)@) + requested(old(self)@).effects,
    {
        self.bump();
        self.clear();
        if self.tracking_valid && is_suggestable(self.buffer.as_str()) {
            let b = self.buffer.clone();
            emit(fx, OverlayEffect::Query(self.generation, b));
        } else {
            assert(effects_view(fx@) =~= effects_view(fx@) + seq![]);
        }
    }

    fn forward(&mut self, fx: &mut Vec<OverlayEffect>, bytes: &str)
        ensures
            final(self)@ == forwarded(old(self)@, bytes@).state,
            effects_view(final(fx)@) =~= effects_view(old(fx)@) + forwarded(old(self)@, bytes@).effects,
    {
        self.erase(fx);
        self.clear();
        self.tracking_valid = false;
        self.bump();
        emit(fx, OverlayEffect::Write(to_string(bytes)));
    }
}

/// `s` and `fx` moved as `o` says.
pub open spec fn steps(s: OverlayModel, fx: Seq<OverlayEffect>, s2: OverlayModel, fx2: Seq<OverlayEffect>, o: Outcome) -> bool {
    &&& s2 =~= o.state
    &&& effects_view(fx2) =~= effects_view(fx) + o.effects
}

/// What a paste does: the pasted text goes to the shell and the line is no longer followed.
pub open spec fn pasted(s: OverlayModel, text: Seq<char>) -> Outcome {
    forwarded(s, text)
}

/// A new prompt: an empty line, followed again.
pub open spec fn prompted(s: OverlayModel) -> OverlayModel {
    bumped(OverlayModel { buffer: seq![], tracking_valid: true, ..emptied(s) })
}

/// A suggestion result is shown only when it answers the current generation and buffer.
pub open spec fn result_outcome(s: OverlayModel, generation: u64, buffer: Seq<char>, items: Seq<OverlayItem>) -> Outcome {
    if generation == s.generation && buffer == s.buffer {
        Outcome {
            state: OverlayModel { suggestions: items, selected: 0, ..cleared(s) },
            effects: clear_fx(s).push(EffectView::Render),
        }
    } else {
        unchanged(s)
    }
}

/// A resize erases and draws the overlay again.
pub open spec fn redrawn(s: OverlayModel) -> Outcome {
    Outcome { state: cleared(s), effects: clear_fx(s).push(EffectView::Render) }
}

impl OverlayState {
    fn select(&mut self, fx: &mut Vec<OverlayEffect>, selected: usize)
        ensures
            steps(old(self)@, old(fx)@, final(self)@, final(fx)@, reselected(old(self)@, selected)),
    {
        self.erase(fx);
        self.selected = selected;
        emit(fx, OverlayEffect::Render);
    }

    fn tab(&mut self, fx: &mut Vec<OverlayEffect>)
        ensures
            steps(old(self)@, old(fx)@, final(self)@, final(fx)@, tab_outcome(old(self)@)),
    {
        let ghost s = self@;
        let ghost f = fx@;
        let cur = self.current_command();
        let action = match &cur {
            Some(c) => tab_action(self.buffer.as_str(), Some(c.as_str())),
            None => tab_action(self.buffer.as_str(), None),
        };
        match action {
            TabAction::AcceptHintShell => {
                match cur {
                    Some(c) => {
                        let clean = clean_command(c.as_str());
                        self.erase(fx);
                        self.clear();
                        emit(fx, OverlayEffect::Write(to_string("\x15")));
                        emit(fx, OverlayEffect::Pause(TAB_ACCEPT_CLEAR_DELAY_MS));
                        let w = clean.clone();
                        emit(fx, OverlayEffect::Write(w));
                        self.buffer = clean;
                        self.bump();
                        assert(effects_view(fx@) =~= effects_view(f) + tab_outcome(s).effects);
                    },
                    None => {
                        assert(effects_view(fx@) =~= effects_view(f) + seq![]);
                    },
                }
            },
            TabAction::ForwardToBash => {
                self.erase(fx);
                self.clear();
                emit(fx, OverlayEffect::Write(to_string("\t")));
            },
        }
    }

    fn type_char(&mut self, fx: &mut Vec<OverlayEffect>, c: char)
        ensures
            steps(old(self)@, old(fx)@, final(self)@, final(fx)@, typed(old(self)@, c)),
    {
        let ghost s = self@;
        let ghost f = fx@;
        self.erase(fx);
        if self.tracking_valid {
            push_char(&mut self.buffer, c);
        }
        let mut t = String::new();
        push_char(&mut t, c);
        assert(t@ =~= seq![c]);
        emit(fx, OverlayEffect::Write(t));
        let ghost f2 = fx@;
        self.request(fx);
        assert(effects_view(fx@) =~= effects_view(f) + typed(s, c).effects);
    }

    fn backspace(&mut self, fx: &mut Vec<OverlayEffect>)
        ensures
            steps(old(self)@, old(fx)@, final(self)@, final(fx)@, backspaced(old(self)@)),
    {
        let ghost s = self@;
        let ghost f = fx@;
        if !self.tracking_valid {
            self.forward(fx, "\x7f");
        } else {
            self.erase(fx);
            self.buffer = drop_last_char(&self.buffer);
            emit(fx, OverlayEffect::Write(to_string("\x7f")));
            self.request(fx);
            assert(effects_view(fx@) =~= effects_view(f) + backspaced(s).effects);
        }
    }

    fn drop_line(&mut self, fx: &mut Vec<OverlayEffect>, bytes: &str)
        ensures
            steps(old(self)@, old(fx)@, final(self)@, final(fx)@, line_dropped(old(self)@, bytes@)),
    {
        self.erase(fx);
        self.buffer = String::new();
        self.bump();
        emit(fx, OverlayEffect::Write(to_string(bytes)));
    }

    fn accept_rest(&mut self, fx: &mut Vec<OverlayEffect>, fallback: &str)
        ensures
            steps(old(self)@, old(fx)@, final(self)@, final(fx)@, accept_rest(old(self)@, fallback@)),
    {
        let cur = self.current_command();
        match cur {
            Some(c) => {
                let clean = clean_command(c.as_str());
                if extends_buffer(clean.as_str(), self.buffer.as_str()) {
                    self.erase(fx);
                    let n = chars_of(self.buffer.as_str()).len();
                    let rest = skip_chars(clean.as_str(), n);
                    emit(fx, OverlayEffect::Write(rest));
                    self.buffer = clean;
                    self.clear();
                    self.bump();
                } else {
                    self.forward(fx, fallback);
                }
            },
            None => self.forward(fx, fallback),
        }
    }

    fn accept_word(&mut self, fx: &mut Vec<OverlayEffect>)
        ensures
            steps(old(self)@, old(fx)@, final(self)@, final(fx)@, accept_word(old(self)@)),
    {
        let ghost s = self@;
        let ghost f = fx@;
        let cur = self.current_command();
        match cur {
            Some(c) => {
                let clean = clean_command(c.as_str());
                if extends_buffer(clean.as_str(), self.buffer.as_str()) {
                    self.erase(fx);
                    let n = chars_of(self.buffer.as_str()).len();
                    let rest = skip_chars(clean.as_str(), n);
                    let chunk = next_chunk(rest.as_str());
                    if chars_of(chunk.as_str()).len() > 0 {
                        emit(fx, OverlayEffect::Write(chunk.clone()));
                        self.buffer.append(chunk.as_str());
                        self.request(fx);
                        assert(effects_view(fx@) =~= effects_view(f) + accept_word(s).effects);
                    } else {
                        self.forward(fx, "\x1b[1;5C");
                        assert(effects_view(fx@) =~= effects_view(f) + accept_word(s).effects);
                    }
                } else {
                    self.forward(fx, "\x1b[1;5C");
                }
            },
            None => self.forward(fx, "\x1b[1;5C"),
        }
    }

    /// What a key press does to the line and the overlay, and the effects it asks for.
    pub fn handle_key(&mut self, key: Key) -> (fx: Vec<OverlayEffect>)
        ensures
            steps(old(self)@, seq![], final(self)@, fx@, key_outcome(key, old(self)@)),
    {
        let mut fx: Vec<OverlayEffect> = Vec::new();
        assert(effects_view(fx@) =~= seq![]);
        let has = self.suggestions.len() > 0;
        let plain = !key.mods.control && !key.mods.alt && !key.mods.other;
        let only_control = key.mods.control && !key.mods.alt && !key.mods.other;
        match key.code {
            KeyCode::Tab => self.tab(&mut fx),
            KeyCode::Up => {
                if has {
                    let sel = if self.selected > 0 { self.selected - 1 } else { 0 };
                    self.select(&mut fx, sel);
                } else {
                    self.forward(&mut fx, "\x1b[A");
                }
            },
            KeyCode::Down => {
                if has {
                    let last = self.suggestions.len() - 1;
                    let sel = if self.selected < last { self.selected + 1 } else { last };
                    self.select(&mut fx, sel);
                } else {
                    self.forward(&mut fx, "\x1b[B");
                }
            },
            KeyCode::Esc => {
                if has {
                    self.erase(&mut fx);
                    self.clear();
                } else {
                    self.forward(&mut fx, "\x1b");
                }
            },
            KeyCode::Backspace => self.backspace(&mut fx),
            KeyCode::Enter => {
                self.erase(&mut fx);
                self.clear();
                self.tracking_valid = true;
                emit(&mut fx, OverlayEffect::Write(to_string("\r")));
                self.buffer = String::new();
                self.bump();
            },
            KeyCode::Char(c) => {
                if !key.mods.control {
                    self.type_char(&mut fx, c);
                } else if c == 'c' {
                    self.drop_line(&mut fx, "\x03");
                } else if c == 'u' {
                    self.drop_line(&mut fx, "\x15");
                } else if c == 'z' {
                    self.erase(&mut fx);
                    self.clear();
                    self.tracking_valid = false;
                    self.bump();
                    emit(&mut fx, OverlayEffect::Write(to_string("\x1a")));
                }
            },
            KeyCode::Right => {
                if has && (plain || only_control) {
                    self.accept_rest(&mut fx, "\x1b[C");
                } else if has && (key.mods.alt || key.mods.control) {
                    self.accept_word(&mut fx);
                } else {
                    self.forward(&mut fx, "\x1b[C");
                }
            },
            KeyCode::End => {
                if has && (plain || only_control) {
                    self.accept_rest(&mut fx, "\x05");
                } else {
                    self.forward(&mut fx, "\x05");
                }
            },
            KeyCode::Left => self.forward(&mut fx, "\x1b[D"),
            KeyCode::Home => self.forward(&mut fx, "\x01"),
            KeyCode::Delete => self.forward(&mut fx, "\x1b[3~"),
            KeyCode::Other => {},
        }
        fx
    }

    /// Pasted text goes to the shell as it is; the overlay stops following the line.
    pub fn handle_paste(&mut self, text: String) -> (fx: Vec<OverlayEffect>)
        ensures
            steps(old(self)@, seq![], final(self)@, fx@, pasted(old(self)@, text@)),
    {
        let mut fx: Vec<OverlayEffect> = Vec::new();
        assert(effects_view(fx@) =~= seq![]);
        self.erase(&mut fx);
        self.clear();
        self.tracking_valid = false;
        self.bump();
        emit(&mut fx, OverlayEffect::Write(text));
        fx
    }

    /// The shell printed a new prompt.
    pub fn prompt_ready(&mut self)
        ensures
            final(self)@ =~= prompted(old(self)@),
    {
        self.clear();
        self.buffer = String::new();
        self.tracking_valid = true;
        self.bump();
    }

    /// A suggestion result arrived; it is shown only if it still answers the current line.
    pub fn accept_result(&mut self, generation: u64, buffer: &str, suggestions: Vec<OverlayItem>) -> (fx: Vec<OverlayEffect>)
        ensures
            steps(
                old(self)@,
                seq![],
                final(self)@,
                fx@,
                result_outcome(old(self)@, generation, buffer@, suggestions@),
            ),
    {
        let mut fx: Vec<OverlayEffect> = Vec::new();
        assert(effects_view(fx@) =~= seq![]);
        if generation == self.generation && crate::text::str_eq(buffer, self.buffer.as_str()) {
            self.erase(&mut fx);
            self.suggestions = suggestions;
            self.selected = 0;
            emit(&mut fx, OverlayEffect::Render);
        }
        fx
    }

    /// The terminal changed size: erase and draw again.
    pub fn redraw(&mut self) -> (fx: Vec<OverlayEffect>)
        ensures
            steps(old(self)@, seq![], final(self)@, fx@, redrawn(old(self)@)),
    {
        let mut fx: Vec<OverlayEffect> = Vec::new();
        assert(effects_view(fx@) =~= seq![]);
        self.erase(&mut fx);
        emit(&mut fx, OverlayEffect::Render);
        fx
    }
}

/// Whether a suggestion's command begins with (`prefix`) or contains the lower-cased buffer.
pub open spec fn item_matches(item: OverlayItem, lower_buffer: Seq<char>, prefix: bool) -> bool {
    let c = ascii_lowercase(item.command@);
    if prefix {
        starts_with(c, lower_buffer)
    } else {
        contains_seq(c, lower_buffer)
    }
}

/// The items that match, in their order.
pub open spec fn matching(items: Seq<OverlayItem>, lower_buffer: Seq<char>, prefix: bool) -> Seq<OverlayItem>
    decreases items.len(),
{
    if items.len() == 0 {
        seq![]
    } else {
        let rest = matching(items.drop_last(), lower_buffer, prefix);
        if item_matches(items.last(), lower_buffer, prefix) {
            rest.push(items.last())
        } else {
            rest
        }
    }
}

/// The suggestions whose command begins with the typed buffer (ASCII case aside); when
/// none does, those that contain it.
pub open spec fn spec_filter_live(items: Seq<OverlayItem>, buffer: Seq<char>) -> Seq<OverlayItem> {
    let b = ascii_lowercase(buffer);
    if matching(items, b, true).len() > 0 {
        matching(items, b, true)
    } else {
        matching(items, b, false)
    }
}

proof fn lemma_matching_nonempty(items: Seq<OverlayItem>, b: Seq<char>, prefix: bool)
    ensures
        matching(items, b, prefix).len() > 0 <==> exists|j: int|
            0 <= j < items.len() && #[trigger] item_matches(items[j], b, prefix),
    decreases items.len(),
{
    if items.len() > 0 {
        lemma_matching_nonempty(items.drop_last(), b, prefix);
        if matching(items.drop_last(), b, prefix).len() > 0 {
            let j = choose|j: int| 0 <= j < items.drop_last().len() && #[trigger] item_matches(items.drop_last()[j], b, prefix);
            assert(item_matches(items[j], b, prefix));
        }
        if exists|j: int| 0 <= j < items.len() && #[trigger] item_matches(items[j], b, prefix) {
            let j = choose|j: int| 0 <= j < items.len() && #[trigger] item_matches(items[j], b, prefix);
            if j < items.len() - 1 {
                assert(item_matches(items.drop_last()[j], b, prefix));
            }
        }
    }
}

/// Keeps the suggestions that match the typed buffer: those that begin with it, or, when
/// none does, those that contain it (ASCII case aside).
pub fn filter_live_suggestions(raw: Vec<OverlayItem>, buffer: &str) -> (r: Vec<OverlayItem>)
    ensures
        r@ == spec_filter_live(raw@, buffer@),
{
    let ghost items = raw@;
    let b = to_ascii_lowercase(buffer);
    let mut any_prefix = false;
    let mut i: usize = 0;
    while i < raw.len()
        invariant
            i <= raw@.len(),
            raw@ == items,
            b@ == ascii_lowercase(buffer@),
            any_prefix == exists|j: int| 0 <= j < i && #[trigger] item_matches(items[j], b@, true),
        decreases raw.len() - i,
    {
        let c = to_ascii_lowercase(raw[i].command.as_str());
        if starts_with_str(c.as_str(), b.as_str()) {
            any_prefix = true;
        }
        proof {
            assert(item_matches(items[i as int], b@, true) == starts_with(c@, b@));
            if any_prefix && !item_matches(items[i as int], b@, true) {
                let j = choose|j: int| 0 <= j < i && #[trigger] item_matches(items[j], b@, true);
                assert(0 <= j < i + 1 && item_matches(items[j], b@, true));
            }
        }
        i = i + 1;
    }
    proof {
        lemma_matching_nonempty(items, b@, true);
    }
    let mut raw = raw;
    let mut out: Vec<OverlayItem> = Vec::new();
    while raw.len() > 0
        invariant
            raw@ == items.take(raw@.len() as int),
            raw@.len() <= items.len(),
            b@ == ascii_lowercase(buffer@),
            matching(items, b@, any_prefix) == matching(raw@, b@, any_prefix) + out@,
        decreases raw.len(),
    {
        let ghost before = raw@;
        let item = raw.pop().unwrap();
        let c = to_ascii_lowercase(item.command.as_str());
        let keep = if any_prefix {
            starts_with_str(c.as_str(), b.as_str())
        } else {
            contains_str(c.as_str(), b.as_str())
        };
        proof {
            assert(before.drop_last() =~= raw@);
            assert(before.last() == item);
            assert(raw@ =~= items.take(raw@.len() as int));
        }
        let ghost old_out = out@;
        if keep {
            out.insert(0, item);
            assert(matching(before, b@, any_prefix) =~= matching(raw@, b@, any_prefix).push(item));
            assert(matching(raw@, b@, any_prefix).push(item) + old_out =~= matching(raw@, b@, any_prefix) + out@);
        } else {
            assert(matching(before, b@, any_prefix) =~= matching(raw@, b@, any_prefix));
        }
    }
    assert(matching(raw@, b@, any_prefix) =~= seq![]);
    assert(matching(items, b@, any_prefix) =~= out@);
    out
}

/// Text without trailing line breaks, the others turned into spaces.
pub fn clean_command(cmd: &str) -> (r: String)
    ensures
        r@ == spec_clean_command(cmd@),
{
    let cs = chars_of(cmd);
    let mut end = cs.len();
    assert(cs@.take(end as int) =~= cmd@);
    while end > 0 && (cs[end - 1] == '\r' || cs[end - 1] == '\n')
        invariant
            end <= cs@.len(),
            cs@ == cmd@,
            strip_line_ends(cmd@) == strip_line_ends(cs@.take(end as int)),
        decreases end,
    {
        assert(cs@.take(end as int).drop_last() =~= cs@.take(end - 1));
        end = end - 1;
    }
    assert(cs@.take(end as int) =~= strip_line_ends(cmd@));
    let mut out: Vec<char> = Vec::new();
    let mut i: usize = 0;
    while i < end
        invariant
            end <= cs@.len(),
            i <= end,
            cs@.take(end as int) == strip_line_ends(cmd@),
            out@ == spec_clean_command(cmd@).take(i as int),
        decreases end - i,
    {
        let c = cs[i];
        out.push(if c == '\r' || c == '\n' { ' ' } else { c });
        assert(spec_clean_command(cmd@).take(i + 1) =~= spec_clean_command(cmd@).take(i as int).push(
            spec_clean_command(cmd@)[i as int],
        ));
        i = i + 1;
    }
    assert(spec_clean_command(cmd@).take(end as int) =~= spec_clean_command(cmd@));
    string_of(out.as_slice())
}

/// The characters of `s` from position `n` on.
pub fn skip_chars(s: &str, n: usize) -> (r: String)
    requires
        n <= s@.len(),
    ensures
        r@ == s@.skip(n as int),
{
    let cs = chars_of(s);
    let mut out: Vec<char> = Vec::new();
    let mut i = n;
    while i < cs.len()
        invariant
            n <= i <= cs@.len(),
            cs@ == s@,
            out@ == cs@.subrange(n as int, i as int),
        decreases cs.len() - i,
    {
        out.push(cs[i]);
        assert(cs@.subrange(n as int, i + 1) =~= cs@.subrange(n as int, i as int).push(cs@[i as int]));
        i = i + 1;
    }
    assert(cs@.subrange(n as int, cs@.len() as int) =~= s@.skip(n as int));
    string_of(out.as_slice())
}

proof fn lemma_lead_len(r: Seq<char>, ws: bool, i: int)
    requires
        0 <= i <= r.len(),
        forall|j: int| 0 <= j < i ==> is_ws(#[trigger] r[j]) == ws,
    ensures
        i < r.len() && is_ws(r[i]) != ws ==> lead_len(r, ws) == i,
        i == r.len() ==> lead_len(r, ws) == i,
    decreases i,
{
    if i > 0 {
        lemma_lead_len(r.skip(1), ws, i - 1);
    }
}

/// Leading white space and the word that follows it.
pub fn next_chunk(rest: &str) -> (r: String)
    ensures
        r@ == spec_next_chunk(rest@),
{
    let cs = chars_of(rest);
    let mut i: usize = 0;
    while i < cs.len() && is_whitespace(cs[i])
        invariant
            i <= cs@.len(),
            cs@ == rest@,
            forall|j: int| 0 <= j < i ==> is_ws(#[trigger] cs@[j]),
        decreases cs.len() - i,
    {
        i = i + 1;
    }
    proof {
        lemma_lead_len(rest@, true, i as int);
    }
    let k = i;
    while i < cs.len() && !is_whitespace(cs[i])
        invariant
            k <= i <= cs@.len(),
            cs@ == rest@,
            forall|j: int| k <= j < i ==> !is_ws(#[trigger] cs@[j]),
        decreases cs.len() - i,
    {
        i = i + 1;
    }
    proof {
        let t = rest@.skip(k as int);
        assert forall|j: int| 0 <= j < i - k implies is_ws(#[trigger] t[j]) == false by {
            assert(t[j] == cs@[k + j]);
        }
        lemma_lead_len(t, false, i - k);
    }
    let mut out: Vec<char> = Vec::new();
    let mut j: usize = 0;
    while j < i
        invariant
            j <= i <= cs@.len(),
            out@ == cs@.take(j as int),
        decreases i - j,
    {
        out.push(cs[j]);
        assert(cs@.take(j + 1) =~= cs@.take(j as int).push(cs@[j as int]));
        j = j + 1;
    }
    string_of(out.as_slice())
}

/// The line without its last character, when it has one.
fn drop_last_char(s: &String) -> (r: String)
    ensures
        r@ == (if s@.len() > 0 { s@.drop_last() } else { s@ }),
{
    let cs = chars_of(s.as_str());
    let n = if cs.len() > 0 { cs.len() - 1 } else { 0 };
    let mut out: Vec<char> = Vec::new();
    let mut j: usize = 0;
    while j < n
        invariant
            j <= n <= cs@.len(),
            n == (if cs@.len() > 0 { cs@.len() - 1 } else { 0 }),
            out@ == cs@.take(j as int),
        decreases n - j,
    {
        out.push(cs[j]);
        assert(cs@.take(j + 1) =~= cs@.take(j as int).push(cs@[j as int]));
        j = j + 1;
    }
    assert(cs@.take(n as int) =~= (if s@.len() > 0 { s@.drop_last() } else { s@ }));
    string_of(out.as_slice())
}

/// Whether `clean` extends `buffer`, ignoring ASCII case.
fn extends_buffer(clean: &str, buffer: &str) -> (r: bool)
    ensures
        r == extends(clean@, buffer@),
{
    let a = to_ascii_lowercase(clean);
    let b = to_ascii_lowercase(buffer);
    let n = chars_of(clean).len();
    let m = chars_of(buffer).len();
    starts_with_str(a.as_str(), b.as_str()) && n > m
}

/// The decimal digits of `n`.
pub open spec fn decimal(n: nat) -> Seq<char>
    decreases n,
{
    if n < 10 {
        seq![digit(n)]
    } else {
        decimal(n / 10).push(digit(n % 10))
    }
}

pub open spec fn digit(d: nat) -> char {
    if d == 0 { '0' } else if d == 1 { '1' } else if d == 2 { '2' } else if d == 3 { '3' } else if d
        == 4 { '4' } else if d == 5 { '5' } else if d == 6 { '6' } else if d == 7 { '7' } else if d
        == 8 { '8' } else { '9' }
}

fn digit_char(d: u64) -> (r: char)
    requires
        d < 10,
    ensures
        r == digit(d as nat),
{
    if d == 0 { '0' } else if d == 1 { '1' } else if d == 2 { '2' } else if d == 3 { '3' } else if d
        == 4 { '4' } else if d == 5 { '5' } else if d == 6 { '6' } else if d == 7 { '7' } else if d
        == 8 { '8' } else { '9' }
}

/// `n` written in decimal.
pub fn decimal_string(n: u64) -> (r: String)
    ensures
        r@ == decimal(n as nat),
    decreases n,
{
    if n < 10 {
        let mut r = String::new();
        push_char(&mut r, digit_char(n));
        assert(r@ =~= decimal(n as nat));
        r
    } else {
        let mut r = decimal_string(n / 10);
        push_char(&mut r, digit_char(n % 10));
        r
    }
}

/// The eight colours that the rainbow border cycles through.
pub open spec fn rainbow(i: int) -> Seq<char> {
    let k = i % 8;
    if k == 0 {
        "\x1b[38;5;75m"@
    } else if k == 1 {
        "\x1b[38;5;51m"@
    } else if k == 2 {
        "\x1b[38;5;48m"@
    } else if k == 3 {
        "\x1b[38;5;220m"@
    } else if k == 4 {
        "\x1b[38;5;208m"@
    } else if k == 5 {
        "\x1b[38;5;212m"@
    } else if k == 6 {
        "\x1b[38;5;141m"@
    } else {
        "\x1b[38;5;69m"@
    }
}

fn rainbow_color(i: usize) -> (r: &'static str)
    ensures
        r@ == rainbow(i as int),
{
    let k = i % 8;
    if k == 0 {
        "\x1b[38;5;75m"
    } else if k == 1 {
        "\x1b[38;5;51m"
    } else if k == 2 {
        "\x1b[38;5;48m"
    } else if k == 3 {
        "\x1b[38;5;220m"
    } else if k == 4 {
        "\x1b[38;5;208m"
    } else if k == 5 {
        "\x1b[38;5;212m"
    } else if k == 6 {
        "\x1b[38;5;141m"
    } else {
        "\x1b[38;5;69m"
    }
}

/// `n` horizontal box lines, each in the next rainbow colour (counting down when `reverse`).
pub open spec fn rainbow_run(n: nat, reverse: bool) -> Seq<char>
    decreases n,
{
    if n == 0 {
        seq![]
    } else {
        let i = n - 1;
        rainbow_run((n - 1) as nat, reverse) + (if reverse { rainbow(7 - i % 8) } else { rainbow(i) })
            + "\u{2500}"@
    }
}

fn push_rainbow_run(r: &mut String, n: usize, reverse: bool)
    ensures
        final(r)@ == old(r)@ + rainbow_run(n as nat, reverse),
{
    let mut i: usize = 0;
    while i < n
        invariant
            i <= n,
            r@ == old(r)@ + rainbow_run(i as nat, reverse),
        decreases n - i,
    {
        let color = if reverse { rainbow_color(7 - i % 8) } else { rainbow_color(i) };
        proof {
            if reverse {
                assert((7 - i % 8) % 8 == 7 - i % 8);
            }
        }
        r.append(color);
        r.append("\u{2500}");
        i = i + 1;
    }
}

/// `n` horizontal box lines.
pub open spec fn dashes(n: int) -> Seq<char> {
    Seq::new(if n > 0 { n as nat } else { 0 }, |i: int| '\u{2500}')
}

fn push_dashes(r: &mut String, n: usize)
    ensures
        final(r)@ == old(r)@ + dashes(n as int),
{
    let mut i: usize = 0;
    while i < n
        invariant
            i <= n,
            r@ == old(r)@ + dashes(i as int),
        decreases n - i,
    {
        push_char(r, '\u{2500}');
        assert(dashes(i + 1) =~= dashes(i as int).push('\u{2500}'));
        i = i + 1;
    }
}

fn push_spaces(r: &mut String, n: usize)
    ensures
        final(r)@ == old(r)@ + spaces(n as int),
{
    let mut i: usize = 0;
    while i < n
        invariant
            i <= n,
            r@ == old(r)@ + spaces(i as int),
        decreases n - i,
    {
        push_char(r, ' ');
        assert(spaces(i + 1) =~= spaces(i as int).push(' '));
        i = i + 1;
    }
}

/// How the overlay is drawn: the rainbow border or a border in one colour, and the most rows.
pub struct OverlayStyle {
    pub rainbow: bool,
    pub border: String,
    pub max_visible: usize,
}

/// The text that draws the overlay, and how many lines it covers (none when nothing is drawn).
pub struct OverlayFrame {
    pub text: String,
    pub lines: usize,
}

/// Moves one line down and erases it.
pub open spec fn next_line() -> Seq<char> {
    "\x1b[1B\r\x1b[2K"@
}

pub open spec fn saturating_sub(a: int, b: int) -> int {
    if a > b {
        a - b
    } else {
        0
    }
}

/// The top border, with the selection counter in its right corner.
pub open spec fn top_line(rainbow_on: bool, border: Seq<char>, inner: int, counter: Seq<char>) -> Seq<char> {
    let rep = saturating_sub(inner, counter.len() as int);
    if rainbow_on {
        next_line() + "\x1b[38;5;75m\u{256d}"@ + rainbow_run(rep as nat, false) + "\x1b[38;5;141m"@ + counter
            + "\u{256e}\x1b[0m"@
    } else {
        next_line() + border + "\u{256d}"@ + dashes(rep) + counter + "\u{256e}\x1b[0m"@
    }
}

/// One suggestion row: the marker, the command with its match highlighted, and the source.
pub open spec fn row_line(
    item: OverlayItem,
    buffer: Seq<char>,
    index: int,
    is_selected: bool,
    rainbow_on: bool,
    border: Seq<char>,
    command_width: int,
) -> Seq<char> {
    let command = spec_fit_width(item.command@, command_width);
    let source = spec_fit_width(item.source@, 20);
    let source_cell = source + spaces(20 - source.len());
    let marker = if is_selected { "\u{25b6}"@ } else { " "@ };
    let shown = spec_highlight_match(command, buffer, is_selected, command_width);
    let left = if rainbow_on { rainbow(index) } else { border };
    let right = if rainbow_on { rainbow(index + 3) } else { border };
    if is_selected {
        next_line() + left + "\u{2502}\x1b[48;5;60m\x1b[38;5;255m "@ + marker + " "@ + shown + "  "@
            + source_cell + " \x1b[0m"@ + right + "\u{2502}\x1b[0m"@
    } else {
        next_line() + left + "\u{2502}\x1b[0m "@ + marker + " "@ + shown + "  "@ + source_cell + " "@
            + right + "\u{2502}\x1b[0m"@
    }
}

/// The rows `start .. start + k` of the suggestions.
pub open spec fn rows(
    items: Seq<OverlayItem>,
    buffer: Seq<char>,
    start: int,
    k: nat,
    selected: int,
    rainbow_on: bool,
    border: Seq<char>,
    command_width: int,
) -> Seq<char>
    decreases k,
{
    if k == 0 {
        seq![]
    } else {
        let i = k - 1;
        rows(items, buffer, start, (k - 1) as nat, selected, rainbow_on, border, command_width)
            + row_line(items[start + i], buffer, i, start + i == selected, rainbow_on, border, command_width)
    }
}

/// The selected suggestion's description, or a generic one.
pub open spec fn description_of(item: OverlayItem) -> Seq<char> {
    match item.description {
        Some(d) => d@,
        None => "history suggestion"@,
    }
}

pub open spec fn description_line(rainbow_on: bool, border: Seq<char>, inner: int, description: Seq<char>) -> Seq<char> {
    let text = spec_fit_width(description, saturating_sub(inner, 2));
    let edge = if rainbow_on { "\x1b[38;5;212m"@ } else { border };
    next_line() + edge + "\u{2502}\x1b[38;5;244m  "@ + text + spaces(saturating_sub(inner, (text.len() + 2) as int))
        + edge + "\u{2502}\x1b[0m"@
}

pub open spec fn bottom_line(rainbow_on: bool, border: Seq<char>, inner: int) -> Seq<char> {
    if rainbow_on {
        next_line() + "\x1b[38;5;141m\u{2570}"@ + rainbow_run(inner as nat, true) + "\x1b[38;5;75m\u{256f}\x1b[0m"@
    } else {
        next_line() + border + "\u{2570}"@ + dashes(inner) + "\u{256f}\x1b[0m"@
    }
}

/// The lines drawn below the prompt: the top border with the counter, the visible rows, the
/// description of the selected suggestion and the bottom border; nothing when there are no
/// suggestions or no room.
pub open spec fn spec_frame(
    s: OverlayModel,
    rainbow_on: bool,
    border: Seq<char>,
    max_visible: int,
    terminal_width: int,
    terminal_height: int,
    cursor_row: int,
) -> (Seq<char>, int) {
    let total = s.suggestions.len() as int;
    let shown = spec_visible_rows(cursor_row, terminal_height, total, max_visible);
    if total == 0 || shown == 0 {
        (seq![], 0)
    } else {
        let width = clamp(terminal_width, 44, 78);
        let inner = width - 2;
        let command_width = inner - 26;
        let selected = if (s.selected as int) < total { s.selected as int } else { total - 1 };
        let start = if total <= shown {
            0
        } else {
            let a = if selected + 1 >= shown { selected + 1 - shown } else { 0 };
            if a < total - shown { a } else { total - shown }
        };
        let counter = " "@ + decimal((selected + 1) as nat) + "/"@ + decimal(total as nat) + " "@;
        (
            top_line(rainbow_on, border, inner, counter) + rows(
                s.suggestions,
                s.buffer,
                start,
                shown as nat,
                selected,
                rainbow_on,
                border,
                command_width,
            ) + description_line(rainbow_on, border, inner, description_of(s.suggestions[selected]))
                + bottom_line(rainbow_on, border, inner),
            shown + 3,
        )
    }
}

fn row_text(
    item: &OverlayItem,
    buffer: &str,
    index: usize,
    is_selected: bool,
    rainbow_on: bool,
    border: &str,
    command_width: usize,
) -> (r: String)
    requires
        index + 3 <= usize::MAX,
    ensures
        r@ == row_line(*item, buffer@, index as int, is_selected, rainbow_on, border@, command_width as int),
{
    let command = fit_width(item.command.as_str(), command_width);
    let source = fit_width(item.source.as_str(), 20);
    let source_len = chars_of(source.as_str()).len();
    let shown = highlight_match(command.as_str(), buffer, is_selected, command_width);
    let left = if rainbow_on { rainbow_color(index) } else { border };
    let right = if rainbow_on { rainbow_color(index + 3) } else { border };
    let mut r = to_string("\x1b[1B\r\x1b[2K");
    r.append(left);
    if is_selected {
        r.append("\u{2502}\x1b[48;5;60m\x1b[38;5;255m ");
        r.append("\u{25b6}");
    } else {
        r.append("\u{2502}\x1b[0m ");
        r.append(" ");
    }
    r.append(" ");
    r.append(shown.as_str());
    r.append("  ");
    r.append(source.as_str());
    push_spaces(&mut r, 20 - source_len);
    if is_selected {
        r.append(" \x1b[0m");
    } else {
        r.append(" ");
    }
    r.append(right);
    r.append("\u{2502}\x1b[0m");
    r
}

fn counter_text(selected: usize, total: usize) -> (r: String)
    requires
        selected < total,
    ensures
        r@ == " "@ + decimal((selected + 1) as nat) + "/"@ + decimal(total as nat) + " "@,
{
    let mut counter = to_string(" ");
    let a = decimal_string((selected + 1) as u64);
    counter.append(a.as_str());
    counter.append("/");
    let b = decimal_string(total as u64);
    counter.append(b.as_str());
    counter.append(" ");
    counter
}

fn top_text(rainbow_on: bool, border: &str, inner: usize, counter: &str) -> (r: String)
    ensures
        r@ == top_line(rainbow_on, border@, inner as int, counter@),
{
    let counter_len = chars_of(counter).len();
    let rep = inner.saturating_sub(counter_len);
    let mut frame = to_string("\x1b[1B\r\x1b[2K");
    if rainbow_on {
        frame.append("\x1b[38;5;75m\u{256d}");
        push_rainbow_run(&mut frame, rep, false);
        frame.append("\x1b[38;5;141m");
        frame.append(counter);
        frame.append("\u{256e}\x1b[0m");
    } else {
        frame.append(border);
        frame.append("\u{256d}");
        push_dashes(&mut frame, rep);
        frame.append(counter);
        frame.append("\u{256e}\x1b[0m");
    }
    frame
}

fn description_text(rainbow_on: bool, border: &str, inner: usize, item: &OverlayItem) -> (r: String)
    ensures
        r@ == description_line(rainbow_on, border@, inner as int, description_of(*item)),
{
    let description = match &item.description {
        Some(d) => fit_width(d.as_str(), inner.saturating_sub(2)),
        None => fit_width("history suggestion", inner.saturating_sub(2)),
    };
    let description_len = chars_of(description.as_str()).len();
    let mut frame = to_string("\x1b[1B\r\x1b[2K");
    let edge = if rainbow_on { "\x1b[38;5;212m" } else { border };
    frame.append(edge);
    frame.append("\u{2502}\x1b[38;5;244m  ");
    frame.append(description.as_str());
    push_spaces(&mut frame, inner.saturating_sub(description_len + 2));
    frame.append(edge);
    frame.append("\u{2502}\x1b[0m");
    frame
}

fn bottom_text(rainbow_on: bool, border: &str, inner: usize) -> (r: String)
    ensures
        r@ == bottom_line(rainbow_on, border@, inner as int),
{
    let mut frame = to_string("\x1b[1B\r\x1b[2K");
    if rainbow_on {
        frame.append("\x1b[38;5;141m\u{2570}");
        push_rainbow_run(&mut frame, inner, true);
        frame.append("\x1b[38;5;75m\u{256f}\x1b[0m");
    } else {
        frame.append(border);
        frame.append("\u{2570}");
        push_dashes(&mut frame, inner);
        frame.append("\u{256f}\x1b[0m");
    }
    frame
}

/// Draws the overlay for the current state: the text written below the prompt and the
/// number of lines it covers.
#[verifier::spinoff_prover]
#[verifier::rlimit(40)]
pub fn render_overlay(
    state: &OverlayState,
    style: &OverlayStyle,
    terminal_width: u16,
    terminal_height: u16,
    cursor_row: u16,
) -> (r: OverlayFrame)
    ensures
        (r.text@, r.lines as int) == spec_frame(
            state@,
            style.rainbow,
            style.border@,
            style.max_visible as int,
            terminal_width as int,
            terminal_height as int,
            cursor_row as int,
        ),
{
    let total = state.suggestions.len();
    let shown = visible_suggestion_rows(cursor_row, terminal_height, total, style.max_visible);
    if total == 0 || shown == 0 {
        return OverlayFrame { text: String::new(), lines: 0 };
    }
    let tw = terminal_width as usize;
    let width = if tw < 44 { 44 } else if tw > 78 { 78 } else { tw };
    let inner = overlay_inner_width(width);
    let command_width = overlay_command_width(width);
    let selected = if state.selected < total { state.selected } else { total - 1 };
    let start = viewport_start(selected, total, shown);
    let rainbow_on = style.rainbow;
    let border = style.border.as_str();
    let counter = counter_text(selected, total);
    let mut frame = top_text(rainbow_on, border, inner, counter.as_str());
    let ghost top = frame@;
    let mut i: usize = 0;
    while i < shown
        invariant
            i <= shown <= 10,
            start + shown <= total,
            total == state.suggestions@.len(),
            frame@ == top + rows(
                state.suggestions@,
                state.buffer@,
                start as int,
                i as nat,
                selected as int,
                rainbow_on,
                border@,
                command_width as int,
            ),
        decreases shown - i,
    {
        let line = row_text(
            &state.suggestions[start + i],
            state.buffer.as_str(),
            i,
            start + i == selected,
            rainbow_on,
            border,
            command_width,
        );
        frame.append(line.as_str());
        i = i + 1;
    }
    let description = description_text(rainbow_on, border, inner, &state.suggestions[selected]);
    frame.append(description.as_str());
    let bottom = bottom_text(rainbow_on, border, inner);
    frame.append(bottom.as_str());
    OverlayFrame { text: frame, lines: shown + 3 }
}

/// Whether an outcome asks for suggestions.
pub open spec fn queries(o: Outcome) -> bool {
    exists|i: int| 0 <= i < o.effects.len() && #[trigger] o.effects[i] is Query
}

/// A key asks for suggestions only as its last effect, and only for the line and generation
/// that the new state holds, so that the answer is accepted; every key that asks for
/// suggestions has moved to a new generation, so that answers to earlier lines are refused.
pub proof fn lemma_query_matches_state(key: Key, s: OverlayModel)
    ensures
        ({
            let o = key_outcome(key, s);
            forall|i: int|
                0 <= i < o.effects.len() && #[trigger] o.effects[i] is Query ==> {
                    &&& i == o.effects.len() - 1
                    &&& o.effects[i] == EffectView::Query(o.state.generation, o.state.buffer)
                    &&& o.state.generation == next_gen(s.generation)
                    &&& o.state.tracking_valid
                    &&& o.state.suggestions.len() == 0
                }
        }),
{
    let o = key_outcome(key, s);
    assert forall|i: int| 0 <= i < o.effects.len() && #[trigger] o.effects[i] is Query implies {
        &&& i == o.effects.len() - 1
        &&& o.effects[i] == EffectView::Query(o.state.generation, o.state.buffer)
        &&& o.state.generation == next_gen(s.generation)
        &&& o.state.tracking_valid
        &&& o.state.suggestions.len() == 0
    } by {
        let c = clear_fx(s);
        assert(c.len() <= 1);
        assert(forall|j: int| 0 <= j < c.len() ==> c[j] is Clear);
    }
}

/// Whatever a key does, a drawn overlay is erased first: when lines are drawn and the key
/// has any effect, the first effect clears exactly those lines; and the overlay is never
/// left marked as drawn once something was written to the shell.
pub proof fn lemma_erase_before_write(key: Key, s: OverlayModel)
    ensures
        ({
            let o = key_outcome(key, s);
            &&& (s.rendered_lines > 0 && o.effects.len() > 0) ==> o.effects[0] == EffectView::Clear(s.rendered_lines)
            &&& (exists|i: int| 0 <= i < o.effects.len() && #[trigger] o.effects[i] is Write) ==> o.state.rendered_lines == 0
        }),
{
}

/// Up and Down keep the selection on a listed suggestion.
pub proof fn lemma_selection_stays_in_list(key: Key, s: OverlayModel)
    requires
        s.selected < s.suggestions.len(),
        key.code == KeyCode::Up || key.code == KeyCode::Down,
    ensures
        key_outcome(key, s).state.selected < key_outcome(key, s).state.suggestions.len(),
{
}

/// Enter runs the line in the shell and starts a new, followed, empty line.
pub proof fn lemma_enter_starts_new_line(key: Key, s: OverlayModel)
    requires
        key.code == KeyCode::Enter,
    ensures
        ({
            let o = key_outcome(key, s);
            &&& o.state.buffer.len() == 0
            &&& o.state.tracking_valid
            &&& o.state.suggestions.len() == 0
            &&& o.state.rendered_lines == 0
            &&& o.state.generation == next_gen(s.generation)
            &&& o.effects.last() == EffectView::Write("\r"@)
        }),
{
}

/// Every suggestion the live filter keeps contains the typed buffer, ignoring ASCII case.
pub proof fn lemma_filtered_contain_buffer(items: Seq<OverlayItem>, buffer: Seq<char>)
    ensures
        forall|i: int| 0 <= i < spec_filter_live(items, buffer).len() ==> contains_seq(
            ascii_lowercase(#[trigger] spec_filter_live(items, buffer)[i].command@),
            ascii_lowercase(buffer),
        ),
{
    let b = ascii_lowercase(buffer);
    lemma_matching_sound(items, b, true);
    lemma_matching_sound(items, b, false);
}

proof fn lemma_matching_sound(items: Seq<OverlayItem>, b: Seq<char>, prefix: bool)
    ensures
        forall|i: int| 0 <= i < matching(items, b, prefix).len() ==> contains_seq(
            ascii_lowercase(#[trigger] matching(items, b, prefix)[i].command@),
            b,
        ),
    decreases items.len(),
{
    if items.len() > 0 {
        lemma_matching_sound(items.drop_last(), b, prefix);
        let c = ascii_lowercase(items.last().command@);
        if prefix && starts_with(c, b) {
            crate::text::lemma_starts_with_contains(c, b);
        }
    }
}

/// Where the user's input goes: to the overlay while a prompt is being edited, else
/// straight to the shell.
#[derive(Debug, Clone, Copy, PartialEq, Eq, Structural)]
pub enum InputMode {
    PromptOverlay,
    ChildPassthrough,
}

/// What changes where input goes: the shell showing a prompt, or a key read in the overlay.
#[derive(Debug, Clone, Copy, PartialEq, Eq, Structural)]
pub enum ModeEvent {
    PromptReady,
    KeyRead { enter: bool },
}

/// Where input goes after `event`: a prompt hands it to the overlay, Enter in the overlay
/// (which runs the line) hands it back to the shell, and anything else keeps it where it is.
pub fn next_input_mode(mode: InputMode, event: ModeEvent) -> (r: InputMode)
    ensures
        r == (match event {
            ModeEvent::PromptReady => InputMode::PromptOverlay,
            ModeEvent::KeyRead { enter } => if mode == InputMode::PromptOverlay && enter {
                InputMode::ChildPassthrough
            } else {
                mode
            },
        }),
{
    match event {
        ModeEvent::PromptReady => InputMode::PromptOverlay,
        ModeEvent::KeyRead { enter } => {
            if enter {
                match mode {
                    InputMode::PromptOverlay => InputMode::ChildPassthrough,
                    InputMode::ChildPassthrough => InputMode::ChildPassthrough,
                }
            } else {
                mode
            }
        },
    }
}

/// Down moves the selection one row down and Up one row up, stopping at the last and the
/// first suggestion; the list itself does not change (for any list that a vector can hold).
pub proof fn lemma_arrows_move_one_row(key: Key, s: OverlayModel)
    requires
        s.suggestions.len() > 0,
        s.selected < s.suggestions.len(),
        s.suggestions.len() <= usize::MAX,
    ensures
        key.code == KeyCode::Down && s.selected + 1 < s.suggestions.len() ==> key_outcome(key, s).state.selected
            == s.selected + 1,
        key.code == KeyCode::Down && s.selected + 1 == s.suggestions.len() ==> key_outcome(key, s).state.selected
            == s.selected,
        key.code == KeyCode::Up && s.selected > 0 ==> key_outcome(key, s).state.selected == s.selected - 1,
        key.code == KeyCode::Up && s.selected == 0 ==> key_outcome(key, s).state.selected == 0,
        key.code == KeyCode::Up || key.code == KeyCode::Down ==> key_outcome(key, s).state.suggestions
            == s.suggestions,
{
}

} // verus!
