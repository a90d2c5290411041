//! Shell-like tokenization of a partially typed command line.
use vstd::prelude::*;
use crate::text::{chars_of, copy_string, is_whitespace, is_ws, string_of, to_string, views, words, words_run};

verus! {

/// Scanner state while splitting a command line into tokens.
pub struct TokState {
    pub tokens: Seq<Seq<char>>,
    pub token: Seq<char>,
    pub quote: Option<char>,
    pub escaped: bool,
    pub started: bool,
}

pub open spec fn tok_init() -> TokState {
    TokState { tokens: seq![], token: seq![], quote: None, escaped: false, started: false }
}

/// One character of the scanner: backslash escapes the next character (also inside quotes),
/// a quote character opens or closes a quoted run, and unquoted white space ends a token.
pub open spec fn tok_step(st: TokState, c: char) -> TokState {
    if st.escaped {
        TokState { token: st.token.push(c), started: true, escaped: false, ..st }
    } else if c == '\\' {
        TokState { escaped: true, ..st }
    } else if st.quote == Some(c) {
        TokState { quote: None, ..st }
    } else if st.quote is None && (c == '\'' || c == '"') {
        TokState { quote: Some(c), started: true, ..st }
    } else if st.quote is None && is_ws(c) {
        if st.started {
            TokState { tokens: st.tokens.push(st.token), token: seq![], started: false, ..st }
        } else {
            st
        }
    } else {
        TokState { token: st.token.push(c), started: true, ..st }
    }
}

/// The scanner state after reading all of `s`.
pub open spec fn tok_run(s: Seq<char>) -> TokState
    decreases s.len(),
{
    if s.len() == 0 {
        tok_init()
    } else {
        tok_step(tok_run(s.drop_last()), s.last())
    }
}

/// The tokens of a command line: a dangling backslash is kept literally, and the
/// unfinished last token (an open quote included) counts as a token.
pub open spec fn spec_tokenize(s: Seq<char>) -> Seq<Seq<char>> {
    let st = tok_run(s);
    let token = if st.escaped { st.token.push('\\') } else { st.token };
    if st.started { st.tokens.push(token) } else { st.tokens }
}

/// Scanner state for detecting trailing unquoted white space.
pub struct TrailState {
    pub quote: Option<char>,
    pub escaped: bool,
    pub last: Option<char>,
}

pub open spec fn trail_step(st: TrailState, c: char) -> TrailState {
    if st.escaped {
        TrailState { escaped: false, last: Some(c), ..st }
    } else if c == '\\' {
        TrailState { escaped: true, last: Some(c), ..st }
    } else if st.quote == Some(c) {
        TrailState { quote: None, last: Some(c), ..st }
    } else if st.quote is None && (c == '\'' || c == '"') {
        TrailState { quote: Some(c), last: Some(c), ..st }
    } else {
        TrailState { last: Some(c), ..st }
    }
}

pub open spec fn trail_run(s: Seq<char>) -> TrailState
    decreases s.len(),
{
    if s.len() == 0 {
        TrailState { quote: None, escaped: false, last: None }
    } else {
        trail_step(trail_run(s.drop_last()), s.last())
    }
}

/// Whether the line ends in white space that is neither quoted nor escaped.
pub open spec fn spec_ends_unquoted_ws(s: Seq<char>) -> bool {
    let st = trail_run(s);
    st.quote is None && !st.escaped && (st.last matches Some(c) && is_ws(c))
}

/// Whether a line holds no quote and no backslash.
pub open spec fn plain(s: Seq<char>) -> bool {
    forall|i: int| 0 <= i < s.len() ==> #[trigger] s[i] != '\\' && s[i] != '\'' && s[i] != '"'
}

proof fn lemma_tok_run_plain(s: Seq<char>)
    requires
        plain(s),
    ensures
        tok_run(s).quote is None,
        !tok_run(s).escaped,
        tok_run(s).tokens == words_run(s).words,
        tok_run(s).token == words_run(s).cur,
        tok_run(s).started == (words_run(s).cur.len() > 0),
    decreases s.len(),
{
    if s.len() > 0 {
        let p = s.drop_last();
        assert forall|i: int| 0 <= i < p.len() implies #[trigger] p[i] != '\\' && p[i] != '\'' && p[i] != '"' by {
            assert(p[i] == s[i]);
        }
        lemma_tok_run_plain(p);
        assert(s.last() == s[s.len() - 1]);
    }
}

/// On a line without quotes and backslashes, tokenizing is splitting on white space.
pub proof fn lemma_tokenize_plain(s: Seq<char>)
    requires
        plain(s),
    ensures
        spec_tokenize(s) == words(s),
{
    lemma_tok_run_plain(s);
}

/// Splits a command line into tokens, honouring quotes and backslash escapes.
pub fn tokenize_command_line(input: &str) -> (r: Vec<String>)
    ensures
        views(r@) == spec_tokenize(input@),
{
    let cs = chars_of(input);
    let mut tokens: Vec<String> = Vec::new();
    let mut token: Vec<char> = Vec::new();
    let mut quote: Option<char> = None;
    let mut escaped = false;
    let mut started = false;
    let mut i: usize = 0;
    while i < cs.len()
        invariant
            cs@ == input@,
            i <= cs.len(),
            ({
                let st = tok_run(cs@.take(i as int));
                &&& views(tokens@) == st.tokens
                &&& token@ == st.token
                &&& quote == st.quote
                &&& escaped == st.escaped
                &&& started == st.started
            }),
        decreases cs.len() - i,
    {
        let c = cs[i];
        proof {
            assert(cs@.take(i + 1).drop_last() =~= cs@.take(i as int));
        }
        if escaped {
            token.push(c);
            started = true;
            escaped = false;
        } else if c == '\\' {
            escaped = true;
        } else if quote == Some(c) {
            quote = None;
        } else if quote.is_none() && (c == '\'' || c == '"') {
            quote = Some(c);
            started = true;
        } else if quote.is_none() && is_whitespace(c) {
            if started {
                let t = string_of(token.as_slice());
                let ghost old_tokens = tokens@;
                tokens.push(t);
                assert(views(tokens@) =~= views(old_tokens).push(t@));
                token = Vec::new();
                started = false;
            }
        } else {
            token.push(c);
            started = true;
        }
        i = i + 1;
    }
    assert(cs@.take(cs.len() as int) =~= cs@);
    if escaped {
        token.push('\\');
    }
    if started {
        let t = string_of(token.as_slice());
        let ghost old_tokens = tokens@;
        tokens.push(t);
        assert(views(tokens@) =~= views(old_tokens).push(t@));
    }
    tokens
}

/// Whether the line ends in white space outside quotes and not escaped.
pub fn ends_with_unquoted_whitespace(input: &str) -> (r: bool)
    ensures
        r == spec_ends_unquoted_ws(input@),
{
    let cs = chars_of(input);
    let mut quote: Option<char> = None;
    let mut escaped = false;
    let mut last: Option<char> = None;
    let mut i: usize = 0;
    while i < cs.len()
        invariant
            cs@ == input@,
            i <= cs.len(),
            trail_run(cs@.take(i as int)) == (TrailState { quote, escaped, last }),
        decreases cs.len() - i,
    {
        let c = cs[i];
        proof {
            assert(cs@.take(i + 1).drop_last() =~= cs@.take(i as int));
        }
        if escaped {
            escaped = false;
        } else if c == '\\' {
            escaped = true;
        } else if quote == Some(c) {
            quote = None;
        } else if quote.is_none() && (c == '\'' || c == '"') {
            quote = Some(c);
        }
        last = Some(c);
        i = i + 1;
    }
    assert(cs@.take(cs.len() as int) =~= cs@);
    quote.is_none() && !escaped && match last {
        Some(c) => is_whitespace(c),
        None => false,
    }
}

/// A parsed command line: its tokens, the command word, the arguments after it, and the
/// token that is still being typed.
#[derive(Debug, Clone, PartialEq, Eq)]
pub struct CommandContext {
    pub input: String,
    pub tokens: Vec<String>,
    pub command: Option<String>,
    pub arguments: Vec<String>,
    pub current_token: String,
    pub has_trailing_space: bool,
}

/// The token being typed: empty after trailing white space, else the last token.
pub open spec fn spec_current_token(s: Seq<char>) -> Seq<char> {
    let tokens = spec_tokenize(s);
    if spec_ends_unquoted_ws(s) || tokens.len() == 0 {
        seq![]
    } else {
        tokens.last()
    }
}

impl CommandContext {
    /// How every field of a context follows from its input line.
    pub open spec fn describes(self, s: Seq<char>) -> bool {
        let tokens = spec_tokenize(s);
        &&& self.input@ == s
        &&& views(self.tokens@) == tokens
        &&& self.has_trailing_space == spec_ends_unquoted_ws(s)
        &&& (match self.command {
            Some(c) => tokens.len() > 0 && c@ == tokens[0],
            None => tokens.len() == 0,
        })
        &&& views(self.arguments@) == (if tokens.len() == 0 { tokens } else { tokens.skip(1) })
        &&& self.current_token@ == spec_current_token(s)
    }

    /// Parses a (possibly unfinished) command line.
    pub fn parse(input: &str) -> (r: CommandContext)
        ensures
            r.describes(input@),
    {
        let tokens = tokenize_command_line(input);
        let has_trailing_space = ends_with_unquoted_whitespace(input);
        let command = if tokens.len() > 0 {
            Some(copy_string(&tokens[0]))
        } else {
            None
        };
        let mut arguments: Vec<String> = Vec::new();
        let start: usize = if tokens.len() == 0 { 0 } else { 1 };
        let mut i: usize = start;
        while i < tokens.len()
            invariant
                start == (if tokens.len() == 0 { 0usize } else { 1usize }),
                start <= i <= tokens.len(),
                views(arguments@) =~= views(tokens@).subrange(start as int, i as int),
            decreases tokens.len() - i,
        {
            let t = copy_string(&tokens[i]);
            let ghost old_args = arguments@;
            arguments.push(t);
            assert(views(arguments@) =~= views(old_args).push(t@));
            i = i + 1;
        }
        proof {
            if tokens.len() == 0 {
                assert(views(arguments@) =~= views(tokens@));
            } else {
                assert(views(tokens@)[0] == tokens@[0]@);
                assert(views(tokens@).last() == tokens@[tokens.len() - 1]@);
                assert(views(tokens@).skip(1) =~= views(tokens@).subrange(1, tokens.len() as int));
            }
        }
        let current_token = if has_trailing_space || tokens.len() == 0 {
            String::new()
        } else {
            copy_string(&tokens[tokens.len() - 1])
        };
        CommandContext {
            input: to_string(input),
            tokens,
            command,
            arguments,
            current_token,
            has_trailing_space,
        }
    }
}

} // verus!
