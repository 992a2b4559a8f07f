//! Splitting an input line into words and operators, and deciding whether a
//! line is complete or needs a continuation line.

use vstd::prelude::*;
use crate::text::{char_is_whitespace, chars_of, string_of, whitespace_flags, word1, word2};

verus! {

/// The tokenizer's state between two characters of the input.
pub struct LexState {
    /// The words and operators emitted so far.
    pub tokens: Seq<Seq<char>>,
    /// The word being built.
    pub current: Seq<char>,
    /// The previous character was an unconsumed backslash.
    pub escape: bool,
    pub single_quoted: bool,
    pub double_quoted: bool,
}

pub open spec fn lex_start() -> LexState {
    LexState {
        tokens: seq![],
        current: seq![],
        escape: false,
        single_quoted: false,
        double_quoted: false,
    }
}

/// Ends the word being built, if it is not empty.
pub open spec fn lex_flush(st: LexState) -> LexState {
    if st.current.len() > 0 {
        LexState { tokens: st.tokens.push(st.current), current: seq![], ..st }
    } else {
        st
    }
}

/// Ends the word being built and emits the operator `w`.
pub open spec fn lex_emit(st: LexState, w: Seq<char>) -> LexState {
    let f = lex_flush(st);
    LexState { tokens: f.tokens.push(w), ..f }
}

/// Adds `c` to the word being built.
pub open spec fn lex_add(st: LexState, c: char) -> LexState {
    LexState { current: st.current.push(c), ..st }
}

/// Whether the character after position `i` is `d`.
pub open spec fn followed_by(chars: Seq<char>, i: int, d: char) -> bool {
    i + 1 < chars.len() && chars[i + 1] == d
}

/// One step of the tokenizer at position `i`: how many characters it consumes
/// (one, or two for `&&`, `||` and `>>`) and the state after them. `ws[i]` tells
/// whether `chars[i]` is whitespace.
pub open spec fn lex_step(chars: Seq<char>, ws: Seq<bool>, i: int, st: LexState) -> (int, LexState) {
    let c = chars[i];
    let unquoted = !st.single_quoted && !st.double_quoted;
    if st.escape {
        (1, LexState { escape: false, ..lex_add(st, c) })
    } else if c == '"' {
        if !st.single_quoted {
            (1, LexState { double_quoted: !st.double_quoted, ..st })
        } else {
            (1, lex_add(st, c))
        }
    } else if c == '\\' {
        (1, LexState { escape: true, ..st })
    } else if c == '\'' {
        if !st.double_quoted {
            (1, LexState { single_quoted: !st.single_quoted, ..st })
        } else {
            (1, lex_add(st, c))
        }
    } else if unquoted && (c == '(' || c == ')' || c == '=') {
        (1, lex_emit(st, seq![c]))
    } else if unquoted && ws[i] {
        (1, lex_flush(st))
    } else if unquoted && c == '&' {
        if followed_by(chars, i, '&') {
            (2, lex_emit(st, seq!['&', '&']))
        } else {
            (1, lex_add(lex_flush(st), '&'))
        }
    } else if unquoted && c == '|' {
        if followed_by(chars, i, '|') {
            (2, lex_emit(st, seq!['|', '|']))
        } else {
            (1, lex_emit(st, seq!['|']))
        }
    } else if unquoted && c == '>' {
        if followed_by(chars, i, '>') {
            (2, lex_emit(st, seq!['>', '>']))
        } else {
            (1, lex_emit(st, seq!['>']))
        }
    } else if unquoted && (c == '<' || c == ';') {
        (1, lex_emit(st, seq![c]))
    } else {
        (1, lex_add(st, c))
    }
}

/// The tokenizer's state after reading `chars` from position `i` on, starting in `st`.
pub open spec fn lex_run(chars: Seq<char>, ws: Seq<bool>, i: int, st: LexState) -> LexState
    decreases chars.len() - i,
{
    if i < 0 || i >= chars.len() {
        st
    } else {
        let (n, next) = lex_step(chars, ws, i, st);
        if n >= 1 {
            lex_run(chars, ws, i + n, next)
        } else {
            next
        }
    }
}

/// The tokens of `chars`, given for each character whether it is whitespace.
pub open spec fn lex_tokens(chars: Seq<char>, ws: Seq<bool>) -> Seq<Seq<char>> {
    lex_flush(lex_run(chars, ws, 0, lex_start())).tokens
}

/// The state the tokenizer ends in on the line `s`.
pub open spec fn lex_final(s: Seq<char>) -> LexState {
    lex_run(s, s.map_values(|c: char| char_is_whitespace(c)), 0, lex_start())
}

/// The tokens of the line `s`.
pub open spec fn tokens_of(s: Seq<char>) -> Seq<Seq<char>> {
    lex_tokens(s, s.map_values(|c: char| char_is_whitespace(c)))
}

/// The tokenizer's working state.
struct Lexer {
    tokens: Vec<String>,
    current: Vec<char>,
    escape: bool,
    single_quoted: bool,
    double_quoted: bool,
}

impl Lexer {
    spec fn state(&self) -> LexState {
        LexState {
            tokens: self.tokens.deep_view(),
            current: self.current@,
            escape: self.escape,
            single_quoted: self.single_quoted,
            double_quoted: self.double_quoted,
        }
    }

    /// Every emitted token is non-empty.
    spec fn wf(&self) -> bool {
        forall|k: int| 0 <= k < self.tokens.len() ==> (#[trigger] self.tokens@[k])@.len() > 0
    }

    fn flush(&mut self)
        requires
            old(self).wf(),
        ensures
            final(self).wf(),
            final(self).state() == lex_flush(old(self).state()),
    {
        if self.current.len() > 0 {
            let w = string_of(&self.current);
            let ghost before = self.tokens.deep_view();
            self.tokens.push(w);
            self.current = Vec::new();
            assert(self.tokens.deep_view() =~= before.push(w@));
        }
    }

    fn emit(&mut self, w: String)
        requires
            old(self).wf(),
            w@.len() > 0,
        ensures
            final(self).wf(),
            final(self).state() == lex_emit(old(self).state(), w@),
    {
        self.flush();
        let ghost before = self.tokens.deep_view();
        self.tokens.push(w);
        assert(self.tokens.deep_view() =~= before.push(w@));
    }

    fn add(&mut self, c: char)
        ensures
            final(self).tokens == old(self).tokens,
            final(self).state() == lex_add(old(self).state(), c),
    {
        self.current.push(c);
    }
}

/// Splits `chars` into tokens; `ws[i]` tells whether `chars[i]` is whitespace.
///
/// Outside quotes, whitespace separates words; `(`, `)`, `=`, `<`, `;`, `|`,
/// `||`, `>`, `>>` and `&&` are tokens of their own, and a lone `&` starts a
/// word. Quotes are removed, a backslash takes the next character literally,
/// and a quoted empty string yields no token.
pub fn tokenize_chars(chars: &Vec<char>, ws: &Vec<bool>) -> (tokens: Vec<String>)
    requires
        chars.len() == ws.len(),
    ensures
        tokens.deep_view() == lex_tokens(chars@, ws@),
        forall|k: int| 0 <= k < tokens.len() ==> (#[trigger] tokens@[k])@.len() > 0,
{
    let mut lx = Lexer {
        tokens: Vec::new(),
        current: Vec::new(),
        escape: false,
        single_quoted: false,
        double_quoted: false,
    };
    assert(lx.tokens.deep_view() =~= seq![]);
    let mut i: usize = 0;
    let n = chars.len();
    while i < n
        invariant
            n == chars.len(),
            n == ws.len(),
            i <= n,
            lx.wf(),
            lex_run(chars@, ws@, 0, lex_start()) == lex_run(chars@, ws@, i as int, lx.state()),
        decreases n - i,
    {
        let c = chars[i];
        let unquoted = !lx.single_quoted && !lx.double_quoted;
        let ghost st = lx.state();
        let ghost step = lex_step(chars@, ws@, i as int, st);
        let mut used: usize = 1;
        if lx.escape {
            lx.add(c);
            lx.escape = false;
        } else if c == '"' {
            if !lx.single_quoted {
                lx.double_quoted = !lx.double_quoted;
            } else {
                lx.add(c);
            }
        } else if c == '\\' {
            lx.escape = true;
        } else if c == '\'' {
            if !lx.double_quoted {
                lx.single_quoted = !lx.single_quoted;
            } else {
                lx.add(c);
            }
        } else if unquoted && (c == '(' || c == ')' || c == '=') {
            lx.emit(word1(c));
        } else if unquoted && ws[i] {
            lx.flush();
        } else if unquoted && c == '&' {
            if i + 1 < n && chars[i + 1] == '&' {
                lx.emit(word2('&', '&'));
                used = 2;
            } else {
                lx.flush();
                lx.add('&');
            }
        } else if unquoted && c == '|' {
            if i + 1 < n && chars[i + 1] == '|' {
                lx.emit(word2('|', '|'));
                used = 2;
            } else {
                lx.emit(word1('|'));
            }
        } else if unquoted && c == '>' {
            if i + 1 < n && chars[i + 1] == '>' {
                lx.emit(word2('>', '>'));
                used = 2;
            } else {
                lx.emit(word1('>'));
            }
        } else if unquoted && (c == '<' || c == ';') {
            lx.emit(word1(c));
        } else {
            lx.add(c);
        }
        assert(lx.state() == step.1);
        assert(used as int == step.0);
        i = i + used;
    }
    lx.flush();
    lx.tokens
}

/// Splits an input line into words and operators.
pub fn tokenize(input: &str) -> (tokens: Vec<String>)
    ensures
        tokens.deep_view() == tokens_of(input@),
        forall|k: int| 0 <= k < tokens.len() ==> (#[trigger] tokens@[k])@.len() > 0,
{
    let chars = chars_of(input);
    let ws = whitespace_flags(&chars);
    tokenize_chars(&chars, &ws)
}

/// The state tracked while deciding whether a line is complete.
pub struct ContinuationState {
    pub escape: bool,
    pub single_quoted: bool,
    pub double_quoted: bool,
    /// Unquoted `(` not yet matched by an unquoted `)`.
    pub parentheses: nat,
}

pub open spec fn continuation_start() -> ContinuationState {
    ContinuationState { escape: false, single_quoted: false, double_quoted: false, parentheses: 0 }
}

/// The continuation check's state after the character `c`.
pub open spec fn continuation_step(c: char, st: ContinuationState) -> ContinuationState {
    let unquoted = !st.single_quoted && !st.double_quoted;
    if st.escape {
        ContinuationState { escape: false, ..st }
    } else if c == '\\' {
        ContinuationState { escape: true, ..st }
    } else if c == '"' && !st.single_quoted {
        ContinuationState { double_quoted: !st.double_quoted, ..st }
    } else if c == '\'' && !st.double_quoted {
        ContinuationState { single_quoted: !st.single_quoted, ..st }
    } else if c == '(' && unquoted {
        ContinuationState { parentheses: st.parentheses + 1, ..st }
    } else if c == ')' && unquoted && st.parentheses > 0 {
        ContinuationState { parentheses: (st.parentheses - 1) as nat, ..st }
    } else {
        st
    }
}

/// The continuation check's state after reading `s` from position `i` on, starting in `st`.
pub open spec fn continuation_run(s: Seq<char>, i: int, st: ContinuationState) -> ContinuationState
    decreases s.len() - i,
{
    if i < 0 || i >= s.len() {
        st
    } else {
        continuation_run(s, i + 1, continuation_step(s[i], st))
    }
}

/// The line `s` ends inside quotes or with an unclosed parenthesis.
pub open spec fn line_needs_more(s: Seq<char>) -> bool {
    let st = continuation_run(s, 0, continuation_start());
    st.single_quoted || st.double_quoted || st.parentheses > 0
}

/// Whether the line `input` ends inside single or double quotes, or with an
/// unquoted `(` that no unquoted `)` closes, so that the shell should read a
/// continuation line.
pub fn needs_more_input(input: &str) -> (b: bool)
    ensures
        b == line_needs_more(input@),
{
    let chars = chars_of(input);
    let n = chars.len();
    let mut single_quoted = false;
    let mut double_quoted = false;
    let mut parentheses: usize = 0;
    let mut escape = false;
    let mut i: usize = 0;
    while i < n
        invariant
            n == chars.len(),
            chars@ == input@,
            i <= n,
            parentheses <= i,
            continuation_run(input@, 0, continuation_start()) == continuation_run(
                input@,
                i as int,
                ContinuationState { escape, single_quoted, double_quoted, parentheses: parentheses as nat },
            ),
        decreases n - i,
    {
        let c = chars[i];
        if escape {
            escape = false;
        } else if c == '\\' {
            escape = true;
        } else if c == '"' && !single_quoted {
            double_quoted = !double_quoted;
        } else if c == '\'' && !double_quoted {
            single_quoted = !single_quoted;
        } else if c == '(' && !single_quoted && !double_quoted {
            parentheses = parentheses + 1;
        } else if c == ')' && !single_quoted && !double_quoted && parentheses > 0 {
            parentheses = parentheses - 1;
        }
        i = i + 1;
    }
    single_quoted || double_quoted || parentheses > 0
}

/// The tokenizer and the continuation check move through quotes alike: from
/// states with the same escape and quote flags, they end with the same quote flags.
proof fn lemma_quote_flags_agree(
    chars: Seq<char>,
    ws: Seq<bool>,
    i: int,
    st: LexState,
    q: ContinuationState,
)
    requires
        0 <= i,
        st.escape == q.escape,
        st.single_quoted == q.single_quoted,
        st.double_quoted == q.double_quoted,
    ensures
        lex_run(chars, ws, i, st).single_quoted == continuation_run(chars, i, q).single_quoted,
        lex_run(chars, ws, i, st).double_quoted == continuation_run(chars, i, q).double_quoted,
    decreases chars.len() - i,
{
    if i < chars.len() {
        let (n, next) = lex_step(chars, ws, i, st);
        let q1 = continuation_step(chars[i], q);
        if n == 1 {
            lemma_quote_flags_agree(chars, ws, i + 1, next, q1);
        } else {
            let q2 = continuation_step(chars[i + 1], q1);
            assert(continuation_run(chars, i + 1, q1) == continuation_run(chars, i + 2, q2));
            lemma_quote_flags_agree(chars, ws, i + 2, next, q2);
        }
    }
}

/// The tokenizer ends a line inside single (double) quotes exactly when the
/// continuation check sees an open single (double) quote; in particular a line
/// that needs no continuation is tokenized with every quote closed.
pub proof fn lemma_complete_line_closes_quotes(s: Seq<char>)
    ensures
        lex_final(s).single_quoted == continuation_run(s, 0, continuation_start()).single_quoted,
        lex_final(s).double_quoted == continuation_run(s, 0, continuation_start()).double_quoted,
        !line_needs_more(s) ==> !lex_final(s).single_quoted && !lex_final(s).double_quoted,
{
    lemma_quote_flags_agree(
        s,
        s.map_values(|c: char| char_is_whitespace(c)),
        0,
        lex_start(),
        continuation_start(),
    );
}

} // verus!
