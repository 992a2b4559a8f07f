//! Trimming lines and reading the start-up file into commands.

use vstd::prelude::*;
use crate::text::{char_is_whitespace, chars_of, string_of, text_eq, whitespace_flags};

verus! {

/// The first position at or after `i` whose flag in `ws` is false (or the length).
pub open spec fn trim_start_index(ws: Seq<bool>, i: int) -> int
    decreases ws.len() - i,
{
    if 0 <= i < ws.len() && ws[i] {
        trim_start_index(ws, i + 1)
    } else {
        i
    }
}

/// The end of the part `start..j` once the positions flagged in `ws` are dropped
/// from its end.
pub open spec fn trim_end_index(ws: Seq<bool>, start: int, j: int) -> int
    decreases j - start,
{
    if start < j && ws[j - 1] {
        trim_end_index(ws, start, j - 1)
    } else {
        j
    }
}

/// `s` without the leading and trailing characters flagged in `ws`.
pub open spec fn trimmed_by(s: Seq<char>, ws: Seq<bool>) -> Seq<char> {
    let a = trim_start_index(ws, 0);
    s.subrange(a, trim_end_index(ws, a, s.len() as int))
}

/// `s` without leading and trailing whitespace.
pub open spec fn trimmed(s: Seq<char>) -> Seq<char> {
    trimmed_by(s, s.map_values(|c: char| char_is_whitespace(c)))
}

/// The characters of `v` without the leading and trailing ones whose flag in `ws`
/// is set (`ws[i]` tells whether `v[i]` is whitespace).
pub fn trim_flagged(v: &Vec<char>, ws: &Vec<bool>) -> (r: Vec<char>)
    requires
        v.len() == ws.len(),
    ensures
        r@ == trimmed_by(v@, ws@),
{
    let n = v.len();
    let mut start: usize = 0;
    while start < n && ws[start]
        invariant
            n == v.len(),
            n == ws.len(),
            start <= n,
            trim_start_index(ws@, 0) == trim_start_index(ws@, start as int),
        decreases n - start,
    {
        start = start + 1;
    }
    let mut end: usize = n;
    while end > start && ws[end - 1]
        invariant
            n == v.len(),
            n == ws.len(),
            start <= end <= n,
            start == trim_start_index(ws@, 0),
            trim_end_index(ws@, start as int, n as int) == trim_end_index(
                ws@,
                start as int,
                end as int,
            ),
        decreases end - start,
    {
        end = end - 1;
    }
    let mut r: Vec<char> = Vec::new();
    let mut k: usize = start;
    while k < end
        invariant
            start <= k <= end <= n,
            n == v.len(),
            r@ == v@.subrange(start as int, k as int),
        decreases end - k,
    {
        r.push(v[k]);
        k = k + 1;
        assert(r@ =~= v@.subrange(start as int, k as int));
    }
    r
}

/// The characters of `v` without leading and trailing whitespace.
pub fn trim_chars(v: &Vec<char>) -> (r: Vec<char>)
    ensures
        r@ == trimmed(v@),
{
    let ws = whitespace_flags(v);
    trim_flagged(v, &ws)
}

/// `s` without leading and trailing whitespace.
pub fn trim(s: &str) -> (r: String)
    ensures
        r@ == trimmed(s@),
{
    let v = chars_of(s);
    let t = trim_chars(&v);
    string_of(&t)
}

/// Whether the line holds nothing but whitespace.
pub fn is_blank(s: &str) -> (b: bool)
    ensures
        b == (trimmed(s@).len() == 0),
{
    let v = chars_of(s);
    let t = trim_chars(&v);
    t.len() == 0
}

/// Whether the line is the word `exit`, surrounded by nothing but whitespace.
pub fn is_exit_command(s: &str) -> (b: bool)
    ensures
        b == (trimmed(s@) == "exit"@),
{
    let t = trim(s);
    text_eq(t.as_str(), "exit")
}

/// `commands` with `line` added, trimmed of the characters flagged in `ws`,
/// unless nothing is left of it.
pub open spec fn add_command(commands: Seq<Seq<char>>, line: Seq<char>, ws: Seq<bool>) -> Seq<
    Seq<char>,
> {
    if trimmed_by(line, ws).len() > 0 {
        commands.push(trimmed_by(line, ws))
    } else {
        commands
    }
}

/// The commands of a start-up file read from position `i` on, where the current
/// line began at `start` and `commands` were found before it. Each line ends at
/// a line feed (a carriage return just before it is dropped) or at the end of
/// the text, and becomes a command when it is not blank once trimmed; `ws[i]`
/// tells whether `s[i]` is whitespace.
pub open spec fn commands_from(
    s: Seq<char>,
    ws: Seq<bool>,
    i: int,
    start: int,
    commands: Seq<Seq<char>>,
) -> Seq<Seq<char>>
    decreases s.len() - i,
{
    if i < 0 || i >= s.len() {
        add_command(commands, s.subrange(start, s.len() as int), ws.subrange(start, s.len() as int))
    } else if s[i] == '\n' {
        let end = if i > start && s[i - 1] == '\r' {
            i - 1
        } else {
            i
        };
        commands_from(
            s,
            ws,
            i + 1,
            i + 1,
            add_command(commands, s.subrange(start, end), ws.subrange(start, end)),
        )
    } else {
        commands_from(s, ws, i + 1, start, commands)
    }
}

/// The commands of the start-up file `contents`, given for each character
/// whether it is whitespace.
pub open spec fn rc_commands_by(contents: Seq<char>, ws: Seq<bool>) -> Seq<Seq<char>> {
    commands_from(contents, ws, 0, 0, seq![])
}

/// The commands of the start-up file `contents`.
pub open spec fn rc_commands_of(contents: Seq<char>) -> Seq<Seq<char>> {
    rc_commands_by(contents, contents.map_values(|c: char| char_is_whitespace(c)))
}

/// Adds the part `start..end` of `chars`, trimmed, to `commands` unless nothing is left of it.
fn push_command(
    commands: &mut Vec<String>,
    chars: &Vec<char>,
    ws: &Vec<bool>,
    start: usize,
    end: usize,
)
    requires
        chars.len() == ws.len(),
        start <= end <= chars.len(),
        forall|k: int| 0 <= k < old(commands).len() ==> (#[trigger] old(commands)@[k])@.len() > 0,
    ensures
        forall|k: int| 0 <= k < final(commands).len() ==> (#[trigger] final(commands)@[k])@.len() > 0,
        final(commands).deep_view() == add_command(
            old(commands).deep_view(),
            chars@.subrange(start as int, end as int),
            ws@.subrange(start as int, end as int),
        ),
{
    let mut line: Vec<char> = Vec::new();
    let mut flags: Vec<bool> = Vec::new();
    let mut k: usize = start;
    while k < end
        invariant
            start <= k <= end <= chars.len(),
            chars.len() == ws.len(),
            line@ == chars@.subrange(start as int, k as int),
            flags@ == ws@.subrange(start as int, k as int),
        decreases end - k,
    {
        line.push(chars[k]);
        flags.push(ws[k]);
        k = k + 1;
        assert(line@ =~= chars@.subrange(start as int, k as int));
        assert(flags@ =~= ws@.subrange(start as int, k as int));
    }
    let t = trim_flagged(&line, &flags);
    if t.len() > 0 {
        let ghost before = commands.deep_view();
        commands.push(string_of(&t));
        assert(commands.deep_view() =~= before.push(t@));
    }
}

/// The commands of a start-up file given as characters with their whitespace
/// flags: its lines, trimmed, without the blank ones.
pub fn rc_commands_flagged(chars: &Vec<char>, ws: &Vec<bool>) -> (commands: Vec<String>)
    requires
        chars.len() == ws.len(),
    ensures
        commands.deep_view() == rc_commands_by(chars@, ws@),
        forall|k: int| 0 <= k < commands.len() ==> (#[trigger] commands@[k])@.len() > 0,
{
    let n = chars.len();
    let mut commands: Vec<String> = Vec::new();
    let mut start: usize = 0;
    let mut i: usize = 0;
    assert(commands.deep_view() =~= seq![]);
    while i < n
        invariant
            n == chars.len(),
            n == ws.len(),
            start <= i <= n,
            rc_commands_by(chars@, ws@) == commands_from(
                chars@,
                ws@,
                i as int,
                start as int,
                commands.deep_view(),
            ),
            forall|k: int| 0 <= k < commands.len() ==> (#[trigger] commands@[k])@.len() > 0,
        decreases n - i,
    {
        if chars[i] == '\n' {
            let end = if i > start && chars[i - 1] == '\r' {
                i - 1
            } else {
                i
            };
            push_command(&mut commands, chars, ws, start, end);
            start = i + 1;
        }
        i = i + 1;
    }
    push_command(&mut commands, chars, ws, start, n);
    commands
}

/// The commands of a start-up file: its lines, trimmed, without the blank ones.
pub fn rc_commands(contents: &str) -> (commands: Vec<String>)
    ensures
        commands.deep_view() == rc_commands_of(contents@),
        forall|k: int| 0 <= k < commands.len() ==> (#[trigger] commands@[k])@.len() > 0,
{
    let chars = chars_of(contents);
    let ws = whitespace_flags(&chars);
    rc_commands_flagged(&chars, &ws)
}

proof fn lemma_trim_start_index(ws: Seq<bool>, i: int)
    requires
        0 <= i <= ws.len(),
    ensures
        i <= trim_start_index(ws, i) <= ws.len(),
        forall|k: int| i <= k < trim_start_index(ws, i) ==> #[trigger] ws[k],
        trim_start_index(ws, i) < ws.len() ==> !ws[trim_start_index(ws, i)],
    decreases ws.len() - i,
{
    if i < ws.len() && ws[i] {
        lemma_trim_start_index(ws, i + 1);
    }
}

proof fn lemma_trim_end_index(ws: Seq<bool>, start: int, j: int)
    requires
        0 <= start <= j <= ws.len(),
    ensures
        start <= trim_end_index(ws, start, j) <= j,
        forall|k: int| trim_end_index(ws, start, j) <= k < j ==> #[trigger] ws[k],
        trim_end_index(ws, start, j) > start ==> !ws[trim_end_index(ws, start, j) - 1],
    decreases j - start,
{
    if start < j && ws[j - 1] {
        lemma_trim_end_index(ws, start, j - 1);
    }
}

/// `t` is `s` with the whitespace before `a` and from `b` on taken away, and
/// it starts and ends with a character that is not whitespace unless empty.
pub open spec fn trims_to(s: Seq<char>, t: Seq<char>, a: int, b: int) -> bool {
    &&& 0 <= a <= b <= s.len()
    &&& t == s.subrange(a, b)
    &&& forall|k: int| 0 <= k < a ==> char_is_whitespace(#[trigger] s[k])
    &&& forall|k: int| b <= k < s.len() ==> char_is_whitespace(#[trigger] s[k])
    &&& a < b ==> !char_is_whitespace(s[a]) && !char_is_whitespace(s[b - 1])
}

/// Trimming keeps a contiguous part of the line: everything before it and
/// after it is whitespace, and a non-empty result starts and ends with a
/// character that is not whitespace.
pub proof fn lemma_trimmed_shape(s: Seq<char>)
    ensures
        exists|a: int, b: int| trims_to(s, trimmed(s), a, b),
{
    let ws = s.map_values(|c: char| char_is_whitespace(c));
    lemma_trim_start_index(ws, 0);
    let a = trim_start_index(ws, 0);
    lemma_trim_end_index(ws, a, s.len() as int);
    let b = trim_end_index(ws, a, s.len() as int);
    assert forall|k: int| 0 <= k < a implies char_is_whitespace(#[trigger] s[k]) by {
        assert(ws[k]);
    }
    assert forall|k: int| b <= k < s.len() implies char_is_whitespace(#[trigger] s[k]) by {
        assert(ws[k]);
    }
    if a < b {
        assert(!ws[a]);
        assert(!ws[b - 1]);
    }
    assert(trims_to(s, trimmed(s), a, b));
}

/// Characters other than a line feed only extend the current line.
proof fn lemma_commands_skip(
    s: Seq<char>,
    ws: Seq<bool>,
    i: int,
    m: int,
    start: int,
    commands: Seq<Seq<char>>,
)
    requires
        0 <= i <= m <= s.len(),
        forall|k: int| i <= k < m ==> #[trigger] s[k] != '\n',
    ensures
        commands_from(s, ws, i, start, commands) == commands_from(s, ws, m, start, commands),
    decreases m - i,
{
    if i < m {
        lemma_commands_skip(s, ws, i + 1, m, start, commands);
    }
}

/// Commands found earlier stay in front of those found later.
proof fn lemma_commands_prefix(
    s: Seq<char>,
    ws: Seq<bool>,
    i: int,
    start: int,
    before: Seq<Seq<char>>,
    commands: Seq<Seq<char>>,
)
    ensures
        commands_from(s, ws, i, start, before + commands) == before + commands_from(
            s,
            ws,
            i,
            start,
            commands,
        ),
    decreases s.len() - i,
{
    if i < 0 || i >= s.len() {
        let line = s.subrange(start, s.len() as int);
        let lws = ws.subrange(start, s.len() as int);
        assert(add_command(before + commands, line, lws) =~= before + add_command(
            commands,
            line,
            lws,
        ));
    } else if s[i] == '\n' {
        let end = if i > start && s[i - 1] == '\r' {
            i - 1
        } else {
            i
        };
        let line = s.subrange(start, end);
        let lws = ws.subrange(start, end);
        assert(add_command(before + commands, line, lws) =~= before + add_command(
            commands,
            line,
            lws,
        ));
        lemma_commands_prefix(s, ws, i + 1, i + 1, before, add_command(commands, line, lws));
    } else {
        lemma_commands_prefix(s, ws, i + 1, start, before, commands);
    }
}

/// Reading `p` then `r` from a line start inside `r` is reading `r` alone.
proof fn lemma_commands_suffix(
    p: Seq<char>,
    wsp: Seq<bool>,
    r: Seq<char>,
    wsr: Seq<bool>,
    j: int,
    start: int,
    commands: Seq<Seq<char>>,
)
    requires
        wsp.len() == p.len(),
        wsr.len() == r.len(),
        0 <= start <= j <= r.len(),
    ensures
        commands_from(p + r, wsp + wsr, p.len() + j, p.len() + start, commands) == commands_from(
            r,
            wsr,
            j,
            start,
            commands,
        ),
    decreases r.len() - j,
{
    let s = p + r;
    let ws = wsp + wsr;
    let o = p.len() as int;
    if j >= r.len() {
        assert(s.subrange(o + start, s.len() as int) =~= r.subrange(start, r.len() as int));
        assert(ws.subrange(o + start, s.len() as int) =~= wsr.subrange(start, r.len() as int));
    } else if r[j] == '\n' {
        assert(s[o + j] == r[j]);
        if j > start {
            assert(s[o + j - 1] == r[j - 1]);
        }
        let end = if j > start && r[j - 1] == '\r' {
            j - 1
        } else {
            j
        };
        assert(s.subrange(o + start, o + end) =~= r.subrange(start, end));
        assert(ws.subrange(o + start, o + end) =~= wsr.subrange(start, end));
        lemma_commands_suffix(
            p,
            wsp,
            r,
            wsr,
            j + 1,
            j + 1,
            add_command(commands, r.subrange(start, end), wsr.subrange(start, end)),
        );
    } else {
        assert(s[o + j] == r[j]);
        lemma_commands_suffix(p, wsp, r, wsr, j + 1, start, commands);
    }
}

/// A start-up file of one line (no line feed) gives that line trimmed, unless
/// nothing is left of it.
pub proof fn lemma_rc_single_line(s: Seq<char>)
    requires
        !s.contains('\n'),
    ensures
        rc_commands_of(s) == (if trimmed(s).len() > 0 {
            seq![trimmed(s)]
        } else {
            seq![]
        }),
{
    let ws = s.map_values(|c: char| char_is_whitespace(c));
    assert forall|k: int| 0 <= k < s.len() implies #[trigger] s[k] != '\n' by {
        if s[k] == '\n' {
            assert(s.contains('\n'));
        }
    }
    lemma_commands_skip(s, ws, 0, s.len() as int, 0, seq![]);
    assert(s.subrange(0, s.len() as int) =~= s);
    assert(ws.subrange(0, s.len() as int) =~= ws);
}

/// A start-up file is its first line (without a carriage return before the
/// line feed), trimmed, unless nothing is left of it, followed by the commands
/// of the rest: lines are read in order and never joined.
pub proof fn lemma_rc_first_line(l: Seq<char>, rest: Seq<char>)
    requires
        !l.contains('\n'),
    ensures
        ({
            let line = if l.len() > 0 && l.last() == '\r' {
                l.drop_last()
            } else {
                l
            };
            rc_commands_of(l + seq!['\n'] + rest) == (if trimmed(line).len() > 0 {
                seq![trimmed(line)]
            } else {
                seq![]
            }) + rc_commands_of(rest)
        }),
{
    let p = l + seq!['\n'];
    let s = p + rest;
    assert(l + seq!['\n'] + rest =~= s);
    let wsl = l.map_values(|c: char| char_is_whitespace(c));
    let wsp = p.map_values(|c: char| char_is_whitespace(c));
    let wsr = rest.map_values(|c: char| char_is_whitespace(c));
    let ws = s.map_values(|c: char| char_is_whitespace(c));
    assert(ws =~= wsp + wsr);
    let n = l.len() as int;
    assert forall|k: int| 0 <= k < n implies #[trigger] s[k] != '\n' by {
        assert(s[k] == l[k]);
        if l[k] == '\n' {
            assert(l.contains('\n'));
        }
    }
    let e: Seq<Seq<char>> = seq![];
    lemma_commands_skip(s, ws, 0, n, 0, e);
    assert(s[n] == '\n');
    if n > 0 {
        assert(s[n - 1] == l[n - 1]);
    }
    let end = if n > 0 && s[n - 1] == '\r' {
        n - 1
    } else {
        n
    };
    let line = if l.len() > 0 && l.last() == '\r' {
        l.drop_last()
    } else {
        l
    };
    assert(s.subrange(0, end) =~= line);
    assert(ws.subrange(0, end) =~= line.map_values(|c: char| char_is_whitespace(c)));
    let first = add_command(e, line, line.map_values(|c: char| char_is_whitespace(c)));
    assert(commands_from(s, ws, n, 0, e) == commands_from(s, ws, n + 1, n + 1, first));
    assert(first + e =~= first);
    lemma_commands_prefix(s, ws, n + 1, n + 1, first, e);
    lemma_commands_suffix(p, wsp, rest, wsr, 0, 0, e);
    assert(p.len() == n + 1);
    if trimmed(line).len() > 0 {
        assert(first =~= seq![trimmed(line)]);
    } else {
        assert(first =~= seq![]);
    }
}

} // verus!
