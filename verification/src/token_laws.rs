//! Laws of the tokenizer: what survives tokenization, quoting, and how the
//! tokens of a line joined by a space relate to the tokens of its parts.

use vstd::prelude::*;
use crate::input::join_words;
use crate::text::char_is_whitespace;
use crate::tokenize::{
    followed_by, lemma_complete_line_closes_quotes, lex_final, lex_flush, lex_run, lex_start,
    continuation_run, continuation_start, continuation_step, lex_step, line_needs_more, tokens_of,
    ContinuationState, LexState,
};

verus! {

/// The characters of the tokens, one token after another.
pub open spec fn concat_tokens(ts: Seq<Seq<char>>) -> Seq<char>
    decreases ts.len(),
{
    if ts.len() == 0 {
        seq![]
    } else {
        concat_tokens(ts.drop_last()) + ts.last()
    }
}

/// The characters of `s` from position `i` on that are not whitespace, in order.
pub open spec fn non_whitespace_from(s: Seq<char>, i: int) -> Seq<char>
    decreases s.len() - i,
{
    if i < 0 || i >= s.len() {
        seq![]
    } else if char_is_whitespace(s[i]) {
        non_whitespace_from(s, i + 1)
    } else {
        seq![s[i]] + non_whitespace_from(s, i + 1)
    }
}

/// `s` holds no quote mark and no backslash.
pub open spec fn plain_text(s: Seq<char>) -> bool {
    forall|k: int| 0 <= k < s.len() ==> #[trigger] s[k] != '"' && s[k] != '\'' && s[k] != '\\'
}

/// The whitespace flags of `s` are those of its characters.
pub open spec fn flags_of(s: Seq<char>, ws: Seq<bool>) -> bool {
    ws.len() == s.len() && forall|k: int| 0 <= k < s.len() ==> #[trigger] ws[k] == char_is_whitespace(s[k])
}

proof fn lemma_concat_push(ts: Seq<Seq<char>>, t: Seq<char>)
    ensures
        concat_tokens(ts.push(t)) == concat_tokens(ts) + t,
{
    assert(ts.push(t).drop_last() =~= ts);
}

proof fn lemma_flush_keeps_chars(st: LexState)
    ensures
        concat_tokens(lex_flush(st).tokens) + lex_flush(st).current == concat_tokens(st.tokens)
            + st.current,
{
    if st.current.len() > 0 {
        lemma_concat_push(st.tokens, st.current);
        assert(concat_tokens(st.tokens.push(st.current)) + seq![] =~= concat_tokens(st.tokens)
            + st.current);
    }
}

/// Outside quotes, with no quote marks or backslashes ahead, every character
/// that is not whitespace ends up in the tokens, in order.
proof fn lemma_plain_run_keeps_chars(s: Seq<char>, ws: Seq<bool>, i: int, st: LexState)
    requires
        flags_of(s, ws),
        plain_text(s),
        0 <= i <= s.len(),
        !st.escape,
        !st.single_quoted,
        !st.double_quoted,
    ensures
        concat_tokens(lex_flush(lex_run(s, ws, i, st)).tokens) == concat_tokens(st.tokens)
            + st.current + non_whitespace_from(s, i),
    decreases s.len() - i,
{
    if i == s.len() {
        lemma_flush_keeps_chars(st);
        assert(lex_flush(st).current.len() == 0 ==> concat_tokens(lex_flush(st).tokens) + lex_flush(
            st,
        ).current =~= concat_tokens(lex_flush(st).tokens));
        if lex_flush(st).current.len() > 0 {
            assert(false);
        }
        assert(concat_tokens(st.tokens) + st.current + seq![] =~= concat_tokens(st.tokens)
            + st.current);
    } else {
        let c = s[i];
        let (n, next) = lex_step(s, ws, i, st);
        assert(c != '"' && c != '\'' && c != '\\');
        assert(ws[i] == char_is_whitespace(c));
        assert(!next.escape && !next.single_quoted && !next.double_quoted);
        lemma_plain_run_keeps_chars(s, ws, i + n, next);
        let f = lex_flush(st);
        lemma_flush_keeps_chars(st);
        let before = concat_tokens(st.tokens) + st.current;
        if n == 2 {
            let d = s[i + 1];
            assert(d == c);
            assert(!char_is_whitespace(c));
            assert(next.tokens == f.tokens.push(seq![c, d]) && next.current.len() == 0);
            lemma_concat_push(f.tokens, seq![c, d]);
            assert(non_whitespace_from(s, i + 1) == seq![d] + non_whitespace_from(s, i + 2));
            assert(concat_tokens(next.tokens) + next.current + non_whitespace_from(s, i + 2)
                =~= before + non_whitespace_from(s, i));
        } else if ws[i] {
            assert(next == f);
            assert(before + non_whitespace_from(s, i + 1) =~= before + non_whitespace_from(s, i));
        } else if c == '(' || c == ')' || c == '=' || c == '|' || c == '>' || c == '<' || c == ';' {
            assert(next.tokens == f.tokens.push(seq![c]) && next.current.len() == 0);
            lemma_concat_push(f.tokens, seq![c]);
            assert(concat_tokens(next.tokens) + next.current + non_whitespace_from(s, i + 1)
                =~= before + non_whitespace_from(s, i));
        } else if c == '&' {
            assert(next.tokens == f.tokens && next.current == seq![c]);
            assert(concat_tokens(next.tokens) + next.current + non_whitespace_from(s, i + 1)
                =~= before + non_whitespace_from(s, i));
        } else {
            assert(next.tokens == st.tokens && next.current == st.current.push(c));
            assert(concat_tokens(next.tokens) + next.current + non_whitespace_from(s, i + 1)
                =~= before + non_whitespace_from(s, i));
        }
    }
}

/// In a line without quote marks and backslashes, the tokens hold exactly the
/// characters that are not whitespace: each in one token, in order.
pub proof fn lemma_tokens_keep_non_whitespace(s: Seq<char>)
    requires
        plain_text(s),
    ensures
        concat_tokens(tokens_of(s)) == non_whitespace_from(s, 0),
{
    let ws = s.map_values(|c: char| char_is_whitespace(c));
    lemma_plain_run_keeps_chars(s, ws, 0, lex_start());
    assert(concat_tokens(seq![]) + seq![] + non_whitespace_from(s, 0) =~= non_whitespace_from(s, 0));
}

/// Inside quotes, every character up to `m` is added to the word, as long as
/// none of them is the closing quote mark or a backslash.
proof fn lemma_run_inside_quotes(s: Seq<char>, ws: Seq<bool>, i: int, m: int, st: LexState)
    requires
        0 <= i <= m <= s.len(),
        ws.len() == s.len(),
        !st.escape,
        st.double_quoted != st.single_quoted,
        forall|k: int|
            i <= k < m ==> #[trigger] s[k] != '\\' && s[k] != (if st.double_quoted {
                '"'
            } else {
                '\''
            }),
    ensures
        lex_run(s, ws, i, st) == lex_run(
            s,
            ws,
            m,
            LexState { current: st.current + s.subrange(i, m), ..st },
        ),
    decreases m - i,
{
    if i < m {
        let next = LexState { current: st.current.push(s[i]), ..st };
        assert(s[i] != '\\');
        assert(lex_step(s, ws, i, st) == (1int, next));
        lemma_run_inside_quotes(s, ws, i + 1, m, next);
        assert(next.current + s.subrange(i + 1, m) =~= st.current + s.subrange(i, m));
    } else {
        assert(st.current + s.subrange(i, i) =~= st.current);
    }
}

/// The tokens of `w` between a pair of the quote mark `q`.
proof fn lemma_quoted(w: Seq<char>, q: char)
    requires
        q == '"' || q == '\'',
        forall|k: int| 0 <= k < w.len() ==> #[trigger] w[k] != '\\' && w[k] != q,
    ensures
        tokens_of(seq![q] + w + seq![q]) == (if w.len() == 0 {
            seq![]
        } else {
            seq![w]
        }),
{
    let s = seq![q] + w + seq![q];
    let ws = s.map_values(|c: char| char_is_whitespace(c));
    let n = w.len() as int;
    let st0 = lex_start();
    let st1 = if q == '"' {
        LexState { double_quoted: true, ..st0 }
    } else {
        LexState { single_quoted: true, ..st0 }
    };
    assert(s[0] == q);
    assert(lex_step(s, ws, 0, st0) == (1int, st1));
    assert(lex_run(s, ws, 0, st0) == lex_run(s, ws, 1, st1));
    assert forall|k: int| 1 <= k < n + 1 implies #[trigger] s[k] != '\\' && s[k] != (
    if st1.double_quoted {
        '"'
    } else {
        '\''
    }) by {
        assert(s[k] == w[k - 1]);
    }
    lemma_run_inside_quotes(s, ws, 1, n + 1, st1);
    let st2 = LexState { current: st1.current + s.subrange(1, n + 1), ..st1 };
    assert(s.subrange(1, n + 1) =~= w);
    assert(st2.current =~= w);
    let st3 = LexState { current: w, ..st0 };
    assert(s[n + 1] == q);
    assert(lex_step(s, ws, n + 1, st2) == (1int, st3));
    assert(lex_run(s, ws, n + 1, st2) == lex_run(s, ws, n + 2, st3));
    assert(lex_run(s, ws, n + 2, st3) == st3);
    if w.len() == 0 {
        assert(lex_flush(st3).tokens =~= seq![]);
    } else {
        assert(lex_flush(st3).tokens =~= seq![w]);
    }
}

/// A word between double quotes, or between single quotes, is one token holding
/// exactly that word (whitespace, operators and the other quote mark included),
/// and no token when the word is empty; the word holds no backslash and not the
/// quote mark around it.
pub proof fn lemma_quoted_word_is_one_token(w: Seq<char>)
    requires
        !w.contains('\\'),
    ensures
        !w.contains('"') ==> tokens_of(seq!['"'] + w + seq!['"']) == (if w.len() == 0 {
            seq![]
        } else {
            seq![w]
        }),
        !w.contains('\'') ==> tokens_of(seq!['\''] + w + seq!['\'']) == (if w.len() == 0 {
            seq![]
        } else {
            seq![w]
        }),
{
    if !w.contains('"') {
        assert forall|k: int| 0 <= k < w.len() implies #[trigger] w[k] != '\\' && w[k] != '"' by {
            if w[k] == '\\' {
                assert(w.contains('\\'));
            }
            if w[k] == '"' {
                assert(w.contains('"'));
            }
        }
        lemma_quoted(w, '"');
    }
    if !w.contains('\'') {
        assert forall|k: int| 0 <= k < w.len() implies #[trigger] w[k] != '\\' && w[k] != '\'' by {
            if w[k] == '\\' {
                assert(w.contains('\\'));
            }
            if w[k] == '\'' {
                assert(w.contains('\''));
            }
        }
        lemma_quoted(w, '\'');
    }
}

/// Reading `a` followed by `rest` up to the end of `a` is reading `a` alone,
/// when `rest` does not start with a character that could pair with the last
/// one of `a` (`&`, `|` or `>`).
proof fn lemma_run_prefix(
    a: Seq<char>,
    wsa: Seq<bool>,
    rest: Seq<char>,
    wsr: Seq<bool>,
    i: int,
    st: LexState,
)
    requires
        wsa.len() == a.len(),
        wsr.len() == rest.len(),
        rest.len() > 0,
        rest[0] != '&' && rest[0] != '|' && rest[0] != '>',
        0 <= i <= a.len(),
    ensures
        lex_run(a + rest, wsa + wsr, i, st) == lex_run(
            a + rest,
            wsa + wsr,
            a.len() as int,
            lex_run(a, wsa, i, st),
        ),
    decreases a.len() - i,
{
    if i < a.len() {
        let s = a + rest;
        let ws = wsa + wsr;
        assert(s[i] == a[i]);
        assert(ws[i] == wsa[i]);
        if i + 1 < a.len() {
            assert(s[i + 1] == a[i + 1]);
        } else {
            assert(s[i + 1] == rest[0]);
        }
        assert(followed_by(s, i, '&') == followed_by(a, i, '&'));
        assert(followed_by(s, i, '|') == followed_by(a, i, '|'));
        assert(followed_by(s, i, '>') == followed_by(a, i, '>'));
        assert(lex_step(s, ws, i, st) == lex_step(a, wsa, i, st));
        let (n, next) = lex_step(a, wsa, i, st);
        lemma_run_prefix(a, wsa, rest, wsr, i + n, next);
    }
}

/// Reading `p` followed by `b` from a position inside `b` is reading `b` alone.
proof fn lemma_run_suffix(
    p: Seq<char>,
    wsp: Seq<bool>,
    b: Seq<char>,
    wsb: Seq<bool>,
    j: int,
    st: LexState,
)
    requires
        wsp.len() == p.len(),
        wsb.len() == b.len(),
        0 <= j,
    ensures
        lex_run(p + b, wsp + wsb, p.len() + j, st) == lex_run(b, wsb, j, st),
    decreases b.len() - j,
{
    if j < b.len() {
        let s = p + b;
        let ws = wsp + wsb;
        let i = p.len() + j;
        assert(s[i] == b[j]);
        assert(ws[i] == wsb[j]);
        if j + 1 < b.len() {
            assert(s[i + 1] == b[j + 1]);
        }
        assert(followed_by(s, i, '&') == followed_by(b, j, '&'));
        assert(followed_by(s, i, '|') == followed_by(b, j, '|'));
        assert(followed_by(s, i, '>') == followed_by(b, j, '>'));
        assert(lex_step(s, ws, i, st) == lex_step(b, wsb, j, st));
        let (n, next) = lex_step(b, wsb, j, st);
        lemma_run_suffix(p, wsp, b, wsb, j + n, next);
    }
}

/// Tokens emitted before a run are kept in front of those the run emits.
proof fn lemma_run_tokens_prefix(
    s: Seq<char>,
    ws: Seq<bool>,
    i: int,
    st1: LexState,
    st2: LexState,
    t: Seq<Seq<char>>,
)
    requires
        0 <= i,
        st1.tokens == t + st2.tokens,
        st1.current == st2.current,
        st1.escape == st2.escape,
        st1.single_quoted == st2.single_quoted,
        st1.double_quoted == st2.double_quoted,
    ensures
        lex_flush(lex_run(s, ws, i, st1)).tokens == t + lex_flush(lex_run(s, ws, i, st2)).tokens,
    decreases s.len() - i,
{
    if i < s.len() {
        let (n1, x1) = lex_step(s, ws, i, st1);
        let (n2, x2) = lex_step(s, ws, i, st2);
        assert(lex_flush(st1).tokens =~= t + lex_flush(st2).tokens);
        assert(n1 == n2);
        assert(x1.tokens =~= t + x2.tokens);
        lemma_run_tokens_prefix(s, ws, i + n1, x1, x2, t);
    } else {
        assert(lex_flush(st1).tokens =~= t + lex_flush(st2).tokens);
    }
}

/// When the tokenizer ends `a` outside quotes and not after a backslash, the
/// tokens of `a`, a space and `b` are the tokens of `a` followed by those of `b`.
pub proof fn lemma_tokens_of_spaced_concat(a: Seq<char>, b: Seq<char>)
    requires
        !lex_final(a).escape,
        !lex_final(a).single_quoted,
        !lex_final(a).double_quoted,
    ensures
        tokens_of(a + seq![' '] + b) == tokens_of(a) + tokens_of(b),
{
    let p = a + seq![' '];
    let s = p + b;
    let wsa = a.map_values(|c: char| char_is_whitespace(c));
    let wsb = b.map_values(|c: char| char_is_whitespace(c));
    let wsp = wsa + seq![true];
    let ws = s.map_values(|c: char| char_is_whitespace(c));
    assert(ws =~= wsp + wsb);
    assert(s =~= a + (seq![' '] + b));
    assert(ws =~= wsa + (seq![true] + wsb));
    lemma_run_prefix(a, wsa, seq![' '] + b, seq![true] + wsb, 0, lex_start());
    let fa = lex_final(a);
    let n = a.len() as int;
    assert(s[n] == ' ');
    assert(ws[n]);
    assert(lex_step(s, ws, n, fa) == (1int, lex_flush(fa)));
    assert(lex_run(s, ws, n, fa) == lex_run(s, ws, n + 1, lex_flush(fa)));
    lemma_run_suffix(p, wsp, b, wsb, 0, lex_flush(fa));
    let ff = lex_flush(fa);
    assert(ff.current.len() == 0);
    assert(ff.tokens == tokens_of(a));
    let st2 = lex_start();
    assert(ff.tokens =~= tokens_of(a) + st2.tokens);
    assert(ff.current =~= st2.current);
    lemma_run_tokens_prefix(b, wsb, 0, ff, st2, tokens_of(a));
}

/// Without a backslash ahead, the tokenizer never ends after one.
proof fn lemma_no_backslash_no_escape(s: Seq<char>, ws: Seq<bool>, i: int, st: LexState)
    requires
        0 <= i,
        !st.escape,
        forall|k: int| i <= k < s.len() ==> #[trigger] s[k] != '\\',
    ensures
        !lex_run(s, ws, i, st).escape,
    decreases s.len() - i,
{
    if i < s.len() {
        let (n, next) = lex_step(s, ws, i, st);
        assert(s[i] != '\\');
        lemma_no_backslash_no_escape(s, ws, i + n, next);
    }
}

/// A line that needs no continuation and holds no backslash, followed by a
/// space and any text `b`, is tokenized as the line followed by the tokens of
/// `b`; a leading space changes no tokens.
pub proof fn lemma_tokens_of_complete_line_then_more(a: Seq<char>, b: Seq<char>)
    requires
        !line_needs_more(a),
        !a.contains('\\'),
    ensures
        tokens_of(a + seq![' '] + b) == tokens_of(a) + tokens_of(b),
        tokens_of(seq![' '] + b) == tokens_of(b),
{
    lemma_complete_line_closes_quotes(a);
    assert forall|k: int| 0 <= k < a.len() implies #[trigger] a[k] != '\\' by {
        if a[k] == '\\' {
            assert(a.contains('\\'));
        }
    }
    lemma_no_backslash_no_escape(a, a.map_values(|c: char| char_is_whitespace(c)), 0, lex_start());
    lemma_tokens_of_spaced_concat(a, b);
    let e: Seq<char> = seq![];
    lemma_tokens_of_spaced_concat(e, b);
    assert(e + seq![' '] + b =~= seq![' '] + b);
    assert(tokens_of(e) =~= seq![]);
    assert(tokens_of(e) + tokens_of(b) =~= tokens_of(b));
}

/// The characters that end a word outside quotes.
pub open spec fn is_special(c: char) -> bool {
    c == '(' || c == ')' || c == '=' || c == '<' || c == ';' || c == '|' || c == '>' || c == '&'
}

/// The operator tokens.
pub open spec fn is_operator_token(t: Seq<char>) -> bool {
    ||| t == seq!['(']
    ||| t == seq![')']
    ||| t == seq!['=']
    ||| t == seq!['<']
    ||| t == seq![';']
    ||| t == seq!['|']
    ||| t == seq!['|', '|']
    ||| t == seq!['>']
    ||| t == seq!['>', '>']
    ||| t == seq!['&', '&']
}

/// A word token of plain text: non-empty, with no whitespace, quote mark or
/// backslash, and no operator character except a `&` in front.
pub open spec fn is_word_token(t: Seq<char>) -> bool {
    &&& t.len() > 0
    &&& forall|k: int|
        0 <= k < t.len() ==> {
            &&& #[trigger] t[k] != '"'
            &&& t[k] != '\''
            &&& t[k] != '\\'
            &&& !char_is_whitespace(t[k])
            &&& is_special(t[k]) ==> k == 0 && t[k] == '&'
        }
}

pub open spec fn is_plain_token(t: Seq<char>) -> bool {
    is_operator_token(t) || is_word_token(t)
}

/// Plain text keeps the tokenizer outside quotes and escapes.
proof fn lemma_plain_stays_unquoted(s: Seq<char>, ws: Seq<bool>, i: int, st: LexState)
    requires
        0 <= i,
        plain_text(s),
        !st.escape,
        !st.single_quoted,
        !st.double_quoted,
    ensures
        !lex_run(s, ws, i, st).escape,
        !lex_run(s, ws, i, st).single_quoted,
        !lex_run(s, ws, i, st).double_quoted,
    decreases s.len() - i,
{
    if i < s.len() {
        let (n, next) = lex_step(s, ws, i, st);
        assert(s[i] != '"' && s[i] != '\'' && s[i] != '\\');
        lemma_plain_stays_unquoted(s, ws, i + n, next);
    }
}

/// Every token that plain text yields is an operator or a word token.
proof fn lemma_plain_tokens_shaped(s: Seq<char>, ws: Seq<bool>, i: int, st: LexState)
    requires
        flags_of(s, ws),
        plain_text(s),
        0 <= i <= s.len(),
        !st.escape,
        !st.single_quoted,
        !st.double_quoted,
        forall|k: int| 0 <= k < st.tokens.len() ==> is_plain_token(#[trigger] st.tokens[k]),
        st.current.len() == 0 || is_word_token(st.current),
    ensures
        forall|k: int|
            0 <= k < lex_flush(lex_run(s, ws, i, st)).tokens.len() ==> is_plain_token(
                #[trigger] lex_flush(lex_run(s, ws, i, st)).tokens[k],
            ),
    decreases s.len() - i,
{
    let f = lex_flush(st);
    assert forall|k: int| 0 <= k < f.tokens.len() implies is_plain_token(#[trigger] f.tokens[k]) by {
        if k < st.tokens.len() {
            assert(f.tokens[k] == st.tokens[k]);
        } else {
            assert(f.tokens[k] == st.current);
        }
    }
    if i == s.len() {
        assert(lex_run(s, ws, i, st) == st);
    }
    if i < s.len() {
        let c = s[i];
        let (n, next) = lex_step(s, ws, i, st);
        assert(c != '"' && c != '\'' && c != '\\');
        assert(ws[i] == char_is_whitespace(c));
        if n == 1 && !ws[i] && !is_special(c) {
            assert(next.tokens == st.tokens);
            assert(next.current == st.current.push(c));
            assert forall|k: int| 0 <= k < next.current.len() implies {
                &&& #[trigger] next.current[k] != '"'
                &&& next.current[k] != '\''
                &&& next.current[k] != '\\'
                &&& !char_is_whitespace(next.current[k])
                &&& is_special(next.current[k]) ==> k == 0 && next.current[k] == '&'
            } by {
                if k < st.current.len() {
                    assert(next.current[k] == st.current[k]);
                }
            }
        } else if n == 1 && !ws[i] && c == '&' {
            assert(next.tokens == f.tokens);
            assert(next.current == seq!['&']);
        } else if n == 1 && ws[i] {
            assert(next == f);
        } else {
            let w = next.tokens.last();
            assert(next.tokens == f.tokens.push(w));
            assert(is_operator_token(w));
            assert forall|k: int| 0 <= k < next.tokens.len() implies is_plain_token(
                #[trigger] next.tokens[k],
            ) by {
                if k < f.tokens.len() {
                    assert(next.tokens[k] == f.tokens[k]);
                }
            }
        }
        assert(n == 1 || n == 2);
        assert(lex_run(s, ws, i, st) == lex_run(s, ws, i + n, next));
        lemma_plain_tokens_shaped(s, ws, i + n, next);
    }
}

/// Reading the rest of a word adds it to the word being built.
proof fn lemma_run_word(t: Seq<char>, ws: Seq<bool>, i: int, st: LexState)
    requires
        flags_of(t, ws),
        1 <= i <= t.len(),
        is_word_token(t),
        !st.escape,
        !st.single_quoted,
        !st.double_quoted,
    ensures
        lex_run(t, ws, i, st) == (LexState {
            current: st.current + t.subrange(i, t.len() as int),
            ..st
        }),
    decreases t.len() - i,
{
    if i < t.len() {
        let c = t[i];
        assert(!is_special(c) && !char_is_whitespace(c) && c != '"' && c != '\'' && c != '\\');
        let next = LexState { current: st.current.push(c), ..st };
        assert(lex_step(t, ws, i, st) == (1int, next));
        lemma_run_word(t, ws, i + 1, next);
        assert(next.current + t.subrange(i + 1, t.len() as int) =~= st.current + t.subrange(
            i,
            t.len() as int,
        ));
    } else {
        assert(st.current + t.subrange(i, i) =~= st.current);
    }
}

/// An operator or word token of plain text is tokenized as itself.
proof fn lemma_plain_token_alone(t: Seq<char>)
    requires
        is_plain_token(t),
    ensures
        tokens_of(t) == seq![t],
{
    let ws = t.map_values(|c: char| char_is_whitespace(c));
    let st0 = lex_start();
    if is_operator_token(t) {
        let (n, next) = lex_step(t, ws, 0, st0);
        assert(next.tokens =~= seq![t]);
        assert(next.current.len() == 0);
        assert(n == t.len());
        assert(lex_run(t, ws, 0, st0) == lex_run(t, ws, n, next));
        assert(lex_run(t, ws, n, next) == next);
    } else {
        let c = t[0];
        assert(c != '"' && c != '\'' && c != '\\' && !char_is_whitespace(c));
        let st1 = LexState { current: seq![c], ..st0 };
        if t.len() > 1 {
            assert(t[1] != '&');
        }
        assert(lex_step(t, ws, 0, st0) == (1int, st1));
        lemma_run_word(t, ws, 1, st1);
        assert(st1.current + t.subrange(1, t.len() as int) =~= t);
        assert(lex_flush(lex_run(t, ws, 0, st0)).tokens =~= seq![t]);
    }
}

/// Plain tokens joined by spaces are plain text.
proof fn lemma_join_plain(ts: Seq<Seq<char>>)
    requires
        forall|k: int| 0 <= k < ts.len() ==> is_plain_token(#[trigger] ts[k]),
    ensures
        plain_text(join_words(ts)),
    decreases ts.len(),
{
    if ts.len() == 1 {
        let t = ts[0];
        assert(is_plain_token(t));
        assert forall|k: int| 0 <= k < t.len() implies #[trigger] t[k] != '"' && t[k] != '\''
            && t[k] != '\\' by {
            if is_operator_token(t) {
                assert(is_special(t[k]));
            }
        }
    } else if ts.len() > 1 {
        lemma_join_plain(ts.drop_last());
        let a = join_words(ts.drop_last());
        let t = ts.last();
        assert(is_plain_token(ts[ts.len() - 1]));
        let j = a + seq![' '] + t;
        assert forall|k: int| 0 <= k < j.len() implies #[trigger] j[k] != '"' && j[k] != '\''
            && j[k] != '\\' by {
            if k < a.len() {
                assert(j[k] == a[k]);
            } else if k > a.len() {
                assert(j[k] == t[k - a.len() - 1]);
                if is_operator_token(t) {
                    assert(is_special(t[k - a.len() - 1]));
                }
            }
        }
    }
}

/// Plain tokens joined by spaces are tokenized back into the same tokens.
proof fn lemma_join_retokenizes(ts: Seq<Seq<char>>)
    requires
        forall|k: int| 0 <= k < ts.len() ==> is_plain_token(#[trigger] ts[k]),
    ensures
        tokens_of(join_words(ts)) == ts,
    decreases ts.len(),
{
    if ts.len() == 0 {
        let e: Seq<char> = seq![];
        assert(tokens_of(e) =~= seq![]);
        assert(ts =~= seq![]);
    } else if ts.len() == 1 {
        assert(is_plain_token(ts[0]));
        lemma_plain_token_alone(ts[0]);
        assert(ts =~= seq![ts[0]]);
    } else {
        let d = ts.drop_last();
        lemma_join_retokenizes(d);
        lemma_join_plain(d);
        let a = join_words(d);
        lemma_plain_stays_unquoted(a, a.map_values(|c: char| char_is_whitespace(c)), 0, lex_start());
        lemma_tokens_of_spaced_concat(a, ts.last());
        assert(is_plain_token(ts[ts.len() - 1]));
        lemma_plain_token_alone(ts.last());
        assert(d + seq![ts.last()] =~= ts);
    }
}

/// In a line without quote marks and backslashes, joining the tokens with
/// single spaces and tokenizing again gives the same tokens.
pub proof fn lemma_retokenize_joined_tokens(s: Seq<char>)
    requires
        plain_text(s),
    ensures
        tokens_of(join_words(tokens_of(s))) == tokens_of(s),
{
    let ws = s.map_values(|c: char| char_is_whitespace(c));
    lemma_plain_tokens_shaped(s, ws, 0, lex_start());
    lemma_join_retokenizes(tokens_of(s));
}

/// A character that is part of a word outside quotes and never ends one.
pub open spec fn is_word_char(c: char) -> bool {
    !char_is_whitespace(c) && c != '"' && c != '\'' && c != '\\' && !is_special(c)
}

/// Outside quotes, word characters up to `m` are added to the word being built.
proof fn lemma_run_word_chars(s: Seq<char>, ws: Seq<bool>, i: int, m: int, st: LexState)
    requires
        flags_of(s, ws),
        0 <= i <= m <= s.len(),
        forall|k: int| i <= k < m ==> is_word_char(#[trigger] s[k]),
        !st.escape,
        !st.single_quoted,
        !st.double_quoted,
    ensures
        lex_run(s, ws, i, st) == lex_run(
            s,
            ws,
            m,
            LexState { current: st.current + s.subrange(i, m), ..st },
        ),
    decreases m - i,
{
    if i < m {
        let c = s[i];
        assert(is_word_char(c));
        assert(ws[i] == char_is_whitespace(c));
        let next = LexState { current: st.current.push(c), ..st };
        assert(lex_step(s, ws, i, st) == (1int, next));
        lemma_run_word_chars(s, ws, i + 1, m, next);
        assert(next.current + s.subrange(i + 1, m) =~= st.current + s.subrange(i, m));
    } else {
        assert(st.current + s.subrange(i, i) =~= st.current);
    }
}

/// The tokens of the word characters `u` glued to `v` between a pair of the quote mark `q`.
proof fn lemma_glued_quoted(u: Seq<char>, v: Seq<char>, q: char)
    requires
        q == '"' || q == '\'',
        forall|k: int| 0 <= k < u.len() ==> is_word_char(#[trigger] u[k]),
        forall|k: int| 0 <= k < v.len() ==> #[trigger] v[k] != '\\' && v[k] != q,
    ensures
        tokens_of(u + seq![q] + v + seq![q]) == (if u.len() + v.len() == 0 {
            seq![]
        } else {
            seq![u + v]
        }),
{
    let s = u + seq![q] + v + seq![q];
    let ws = s.map_values(|c: char| char_is_whitespace(c));
    let a = u.len() as int;
    let n = v.len() as int;
    let st0 = lex_start();
    assert forall|k: int| 0 <= k < a implies is_word_char(#[trigger] s[k]) by {
        assert(s[k] == u[k]);
    }
    lemma_run_word_chars(s, ws, 0, a, st0);
    let su = LexState { current: st0.current + s.subrange(0, a), ..st0 };
    assert(s.subrange(0, a) =~= u);
    assert(su.current =~= u);
    let st1 = if q == '"' {
        LexState { double_quoted: true, ..su }
    } else {
        LexState { single_quoted: true, ..su }
    };
    assert(s[a] == q);
    assert(lex_step(s, ws, a, su) == (1int, st1));
    assert(lex_run(s, ws, a, su) == lex_run(s, ws, a + 1, st1));
    assert forall|k: int| a + 1 <= k < a + 1 + n implies #[trigger] s[k] != '\\' && s[k] != (
    if st1.double_quoted {
        '"'
    } else {
        '\''
    }) by {
        assert(s[k] == v[k - a - 1]);
    }
    lemma_run_inside_quotes(s, ws, a + 1, a + 1 + n, st1);
    let st2 = LexState { current: st1.current + s.subrange(a + 1, a + 1 + n), ..st1 };
    assert(s.subrange(a + 1, a + 1 + n) =~= v);
    assert(st2.current =~= u + v);
    let st3 = LexState { current: u + v, ..st0 };
    assert(s[a + 1 + n] == q);
    assert(lex_step(s, ws, a + 1 + n, st2) == (1int, st3));
    assert(lex_run(s, ws, a + 1 + n, st2) == lex_run(s, ws, a + 2 + n, st3));
    assert(lex_run(s, ws, a + 2 + n, st3) == st3);
    if u.len() + v.len() == 0 {
        assert(lex_flush(st3).tokens =~= seq![]);
    } else {
        assert(lex_flush(st3).tokens =~= seq![u + v]);
    }
}

/// A quote mark does not end a word: word characters `u` followed by a quoted
/// part `v` form the single token `u v`, whatever `v` holds besides a backslash
/// or the closing quote mark (whitespace, operators, the other quote mark).
pub proof fn lemma_quote_does_not_end_word(u: Seq<char>, v: Seq<char>)
    requires
        forall|k: int| 0 <= k < u.len() ==> is_word_char(#[trigger] u[k]),
        !v.contains('\\'),
    ensures
        !v.contains('"') ==> tokens_of(u + seq!['"'] + v + seq!['"']) == (if u.len() + v.len()
            == 0 {
            seq![]
        } else {
            seq![u + v]
        }),
        !v.contains('\'') ==> tokens_of(u + seq!['\''] + v + seq!['\'']) == (if u.len() + v.len()
            == 0 {
            seq![]
        } else {
            seq![u + v]
        }),
{
    if !v.contains('"') {
        assert forall|k: int| 0 <= k < v.len() implies #[trigger] v[k] != '\\' && v[k] != '"' by {
            if v[k] == '\\' {
                assert(v.contains('\\'));
            }
            if v[k] == '"' {
                assert(v.contains('"'));
            }
        }
        lemma_glued_quoted(u, v, '"');
    }
    if !v.contains('\'') {
        assert forall|k: int| 0 <= k < v.len() implies #[trigger] v[k] != '\\' && v[k] != '\'' by {
            if v[k] == '\\' {
                assert(v.contains('\\'));
            }
            if v[k] == '\'' {
                assert(v.contains('\''));
            }
        }
        lemma_glued_quoted(u, v, '\'');
    }
}

/// Reading `p` then `b` is reading `p`, then reading `b` from the state reached.
proof fn lemma_continuation_concat(p: Seq<char>, b: Seq<char>, i: int, st: ContinuationState)
    requires
        0 <= i <= p.len(),
    ensures
        continuation_run(p + b, i, st) == continuation_run(b, 0, continuation_run(p, i, st)),
    decreases p.len() + b.len() - i,
{
    let s = p + b;
    if i < p.len() {
        assert(s[i] == p[i]);
        lemma_continuation_concat(p, b, i + 1, continuation_step(p[i], st));
    } else {
        lemma_continuation_suffix(p, b, 0, st);
    }
}

/// Reading `p` then `b` from a position inside `b` is reading `b` alone.
proof fn lemma_continuation_suffix(p: Seq<char>, b: Seq<char>, j: int, st: ContinuationState)
    requires
        0 <= j,
    ensures
        continuation_run(p + b, p.len() + j, st) == continuation_run(b, j, st),
    decreases b.len() - j,
{
    if j < b.len() {
        assert((p + b)[p.len() + j] == b[j]);
        lemma_continuation_suffix(p, b, j + 1, continuation_step(b[j], st));
    }
}

/// Inside quotes, characters other than the closing quote mark and a backslash
/// change nothing: not the parenthesis count in particular.
proof fn lemma_continuation_inside_quotes(s: Seq<char>, i: int, m: int, st: ContinuationState)
    requires
        0 <= i <= m <= s.len(),
        !st.escape,
        st.double_quoted != st.single_quoted,
        forall|k: int|
            i <= k < m ==> #[trigger] s[k] != '\\' && s[k] != (if st.double_quoted {
                '"'
            } else {
                '\''
            }),
    ensures
        continuation_run(s, i, st) == continuation_run(s, m, st),
    decreases m - i,
{
    if i < m {
        assert(s[i] != '\\');
        assert(continuation_step(s[i], st) == st);
        lemma_continuation_inside_quotes(s, i + 1, m, st);
    }
}

/// Whatever stands between a pair of the quote mark `q` leaves the continuation
/// check where it was, from a state outside quotes and escapes.
proof fn lemma_continuation_quoted(w: Seq<char>, q: char, st: ContinuationState)
    requires
        q == '"' || q == '\'',
        !st.escape,
        !st.single_quoted,
        !st.double_quoted,
        forall|k: int| 0 <= k < w.len() ==> #[trigger] w[k] != '\\' && w[k] != q,
    ensures
        continuation_run(seq![q] + w + seq![q], 0, st) == st,
{
    let s = seq![q] + w + seq![q];
    let n = w.len() as int;
    let st1 = continuation_step(q, st);
    assert(s[0] == q);
    assert(st1.double_quoted != st1.single_quoted && !st1.escape);
    assert(st1.double_quoted == (q == '"'));
    assert forall|k: int| 1 <= k < n + 1 implies #[trigger] s[k] != '\\' && s[k] != (
    if st1.double_quoted {
        '"'
    } else {
        '\''
    }) by {
        assert(s[k] == w[k - 1]);
    }
    lemma_continuation_inside_quotes(s, 1, n + 1, st1);
    assert(s[n + 1] == q);
    assert(continuation_step(q, st1) == st);
    assert(continuation_run(s, n + 1, st1) == continuation_run(s, n + 2, st));
}

/// Parentheses and everything else inside quotes do not count: after a line
/// that ends outside quotes and escapes, adding a quoted part (without a
/// backslash or its own quote mark) does not change whether the line needs a
/// continuation.
pub proof fn lemma_quoted_text_needs_nothing_more(a: Seq<char>, w: Seq<char>)
    requires
        !continuation_run(a, 0, continuation_start()).escape,
        !continuation_run(a, 0, continuation_start()).single_quoted,
        !continuation_run(a, 0, continuation_start()).double_quoted,
        !w.contains('\\'),
    ensures
        !w.contains('"') ==> line_needs_more(a + seq!['"'] + w + seq!['"']) == line_needs_more(a),
        !w.contains('\'') ==> line_needs_more(a + seq!['\''] + w + seq!['\''])
            == line_needs_more(a),
{
    let st = continuation_run(a, 0, continuation_start());
    if !w.contains('"') {
        assert forall|k: int| 0 <= k < w.len() implies #[trigger] w[k] != '\\' && w[k] != '"' by {
            if w[k] == '\\' {
                assert(w.contains('\\'));
            }
            if w[k] == '"' {
                assert(w.contains('"'));
            }
        }
        let b = seq!['"'] + w + seq!['"'];
        assert(a + seq!['"'] + w + seq!['"'] =~= a + b);
        lemma_continuation_concat(a, b, 0, continuation_start());
        lemma_continuation_quoted(w, '"', st);
    }
    if !w.contains('\'') {
        assert forall|k: int| 0 <= k < w.len() implies #[trigger] w[k] != '\\' && w[k] != '\'' by {
            if w[k] == '\\' {
                assert(w.contains('\\'));
            }
            if w[k] == '\'' {
                assert(w.contains('\''));
            }
        }
        let b = seq!['\''] + w + seq!['\''];
        assert(a + seq!['\''] + w + seq!['\''] =~= a + b);
        lemma_continuation_concat(a, b, 0, continuation_start());
        lemma_continuation_quoted(w, '\'', st);
    }
}

/// Between two words, an operator is a token of its own, whether or not
/// whitespace surrounds it; a lone `&` starts the word after it.
pub proof fn lemma_operator_between_words(u: Seq<char>, op: Seq<char>, v: Seq<char>)
    requires
        u.len() > 0,
        v.len() > 0,
        forall|k: int| 0 <= k < u.len() ==> is_word_char(#[trigger] u[k]),
        forall|k: int| 0 <= k < v.len() ==> is_word_char(#[trigger] v[k]),
        is_operator_token(op) || op == seq!['&'],
    ensures
        is_operator_token(op) ==> tokens_of(u + op + v) == seq![u, op, v],
        op == seq!['&'] ==> tokens_of(u + op + v) == seq![u, op + v],
{
    let s = u + op + v;
    let ws = s.map_values(|c: char| char_is_whitespace(c));
    let a = u.len() as int;
    let m = op.len() as int;
    let st0 = lex_start();
    assert forall|k: int| 0 <= k < a implies is_word_char(#[trigger] s[k]) by {
        assert(s[k] == u[k]);
    }
    lemma_run_word_chars(s, ws, 0, a, st0);
    let su = LexState { current: st0.current + s.subrange(0, a), ..st0 };
    assert(s.subrange(0, a) =~= u);
    assert(su.current =~= u);
    let c = s[a];
    assert(c == op[0]);
    assert(s[a + m] == v[0]);
    assert(is_word_char(v[0]));
    assert(!char_is_whitespace(c));
    if m == 2 {
        assert(s[a + 1] == op[1]);
    }
    let (n, next) = lex_step(s, ws, a, su);
    assert(n == m);
    assert forall|k: int| a + m <= k < s.len() implies is_word_char(#[trigger] s[k]) by {
        assert(s[k] == v[k - a - m]);
    }
    lemma_run_word_chars(s, ws, a + m, s.len() as int, next);
    assert(s.subrange(a + m, s.len() as int) =~= v);
    assert(lex_run(s, ws, a, su) == lex_run(s, ws, a + m, next));
    let fin = LexState { current: next.current + s.subrange(a + m, s.len() as int), ..next };
    assert(lex_run(s, ws, s.len() as int, fin) == fin);
    if is_operator_token(op) {
        assert(next.tokens =~= seq![u, op]);
        assert(next.current.len() == 0);
        assert(fin.current =~= v);
        assert(lex_flush(fin).tokens =~= seq![u, op, v]);
    } else {
        assert(next.tokens =~= seq![u]);
        assert(next.current =~= op);
        assert(fin.current =~= op + v);
        assert(lex_flush(fin).tokens =~= seq![u, op + v]);
    }
}

/// After a line that ends outside quotes and escapes: an unquoted `(` (or an
/// opening quote mark) makes the line need a continuation, and a `(` closed by
/// `)` changes nothing.
pub proof fn lemma_open_parenthesis_or_quote_needs_more(a: Seq<char>)
    requires
        !continuation_run(a, 0, continuation_start()).escape,
        !continuation_run(a, 0, continuation_start()).single_quoted,
        !continuation_run(a, 0, continuation_start()).double_quoted,
    ensures
        line_needs_more(a + seq!['(']),
        line_needs_more(a + seq!['"']),
        line_needs_more(a + seq!['\'']),
        line_needs_more(a + seq!['(', ')']) == line_needs_more(a),
{
    let st = continuation_run(a, 0, continuation_start());
    let b1 = seq!['('];
    lemma_continuation_concat(a, b1, 0, continuation_start());
    assert(continuation_run(b1, 0, st) == continuation_run(b1, 1, continuation_step('(', st)));
    let b2 = seq!['"'];
    lemma_continuation_concat(a, b2, 0, continuation_start());
    assert(continuation_run(b2, 0, st) == continuation_run(b2, 1, continuation_step('"', st)));
    let b3 = seq!['\''];
    lemma_continuation_concat(a, b3, 0, continuation_start());
    assert(continuation_run(b3, 0, st) == continuation_run(b3, 1, continuation_step('\'', st)));
    let b4 = seq!['(', ')'];
    lemma_continuation_concat(a, b4, 0, continuation_start());
    let st1 = continuation_step('(', st);
    assert(b4[0] == '(' && b4[1] == ')');
    assert(continuation_run(b4, 0, st) == continuation_run(b4, 1, st1));
    assert(continuation_run(b4, 1, st1) == continuation_run(b4, 2, continuation_step(')', st1)));
    assert(continuation_step(')', st1) == st);
}

/// A backslash takes the next character, whatever it is, into the word:
/// word characters `u`, a backslash with any `c`, and word characters `v`
/// form the single token `u c v`.
pub proof fn lemma_backslash_takes_next(u: Seq<char>, c: char, v: Seq<char>)
    requires
        forall|k: int| 0 <= k < u.len() ==> is_word_char(#[trigger] u[k]),
        forall|k: int| 0 <= k < v.len() ==> is_word_char(#[trigger] v[k]),
    ensures
        tokens_of(u + seq!['\\', c] + v) == seq![u + seq![c] + v],
{
    let s = u + seq!['\\', c] + v;
    let ws = s.map_values(|x: char| char_is_whitespace(x));
    let a = u.len() as int;
    let st0 = lex_start();
    assert forall|k: int| 0 <= k < a implies is_word_char(#[trigger] s[k]) by {
        assert(s[k] == u[k]);
    }
    lemma_run_word_chars(s, ws, 0, a, st0);
    let su = LexState { current: st0.current + s.subrange(0, a), ..st0 };
    assert(s.subrange(0, a) =~= u);
    assert(s[a] == '\\');
    assert(s[a + 1] == c);
    let se = LexState { escape: true, ..su };
    assert(lex_step(s, ws, a, su) == (1int, se));
    let sc = LexState { current: su.current.push(c), ..su };
    assert(lex_step(s, ws, a + 1, se) == (1int, sc));
    assert(lex_run(s, ws, a, su) == lex_run(s, ws, a + 1, se));
    assert(lex_run(s, ws, a + 1, se) == lex_run(s, ws, a + 2, sc));
    assert forall|k: int| a + 2 <= k < s.len() implies is_word_char(#[trigger] s[k]) by {
        assert(s[k] == v[k - a - 2]);
    }
    lemma_run_word_chars(s, ws, a + 2, s.len() as int, sc);
    let fin = LexState { current: sc.current + s.subrange(a + 2, s.len() as int), ..sc };
    assert(s.subrange(a + 2, s.len() as int) =~= v);
    assert(fin.current =~= u + seq![c] + v);
    assert(lex_run(s, ws, s.len() as int, fin) == fin);
    assert(lex_flush(fin).tokens =~= seq![u + seq![c] + v]);
}

/// A backslash and the character after it do not change whether a line that
/// ends outside quotes and escapes needs a continuation: an escaped quote mark
/// or parenthesis does not count.
pub proof fn lemma_escaped_char_needs_nothing_more(a: Seq<char>, c: char)
    requires
        !continuation_run(a, 0, continuation_start()).escape,
        !continuation_run(a, 0, continuation_start()).single_quoted,
        !continuation_run(a, 0, continuation_start()).double_quoted,
    ensures
        line_needs_more(a + seq!['\\', c]) == line_needs_more(a),
{
    let st = continuation_run(a, 0, continuation_start());
    let b = seq!['\\', c];
    lemma_continuation_concat(a, b, 0, continuation_start());
    let st1 = continuation_step('\\', st);
    assert(b[0] == '\\' && b[1] == c);
    assert(continuation_run(b, 0, st) == continuation_run(b, 1, st1));
    assert(continuation_run(b, 1, st1) == continuation_run(b, 2, continuation_step(c, st1)));
    assert(continuation_step(c, st1) == st);
}

} // verus!
