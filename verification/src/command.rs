//! One command of a pipeline: its name, its arguments and its redirections.

use vstd::prelude::*;
use crate::text::{is_word1, is_word2};

verus! {

/// Why a command could not be read from its tokens.
#[derive(Clone, Copy, Debug, PartialEq, Eq, Structural)]
pub enum CommandError {
    /// The command has no tokens (reported silently).
    Empty,
    /// `<` is the last token.
    MissingInputFile,
    /// `>` is the last token.
    MissingOutputFile,
    /// `>>` is the last token.
    MissingAppendFile,
}

impl CommandError {
    /// The diagnostic the shell prints for this error, if any.
    pub fn message(&self) -> (m: Option<String>)
        ensures
            match *self {
                CommandError::Empty => m is None,
                CommandError::MissingInputFile => m matches Some(t) && t@
                    == "rc9: expected file after '<'"@,
                CommandError::MissingOutputFile => m matches Some(t) && t@
                    == "rc9: expected file after '>'"@,
                CommandError::MissingAppendFile => m matches Some(t) && t@
                    == "rc9: expected file after '>>'"@,
            },
    {
        match self {
            CommandError::Empty => None,
            CommandError::MissingInputFile => Some(String::from_str("rc9: expected file after '<'")),
            CommandError::MissingOutputFile => Some(
                String::from_str("rc9: expected file after '>'"),
            ),
            CommandError::MissingAppendFile => Some(
                String::from_str("rc9: expected file after '>>'"),
            ),
        }
    }
}

/// A command read from its tokens: the redirections are taken out of the arguments.
pub struct CommandSpec {
    pub command: String,
    pub args: Vec<String>,
    /// The file named after the last `<`.
    pub input: Option<String>,
    /// The file named after the last `>` or `>>`.
    pub output: Option<String>,
    /// The last output redirection was `>>`.
    pub append: bool,
}

/// The mathematical content of a [`CommandSpec`].
pub struct CommandView {
    pub command: Seq<char>,
    pub args: Seq<Seq<char>>,
    pub input: Option<Seq<char>>,
    pub output: Option<Seq<char>>,
    pub append: bool,
}

pub open spec fn option_text(o: Option<String>) -> Option<Seq<char>> {
    match o {
        Some(s) => Some(s@),
        None => None,
    }
}

impl View for CommandSpec {
    type V = CommandView;

    open spec fn view(&self) -> CommandView {
        CommandView {
            command: self.command@,
            args: self.args.deep_view(),
            input: option_text(self.input),
            output: option_text(self.output),
            append: self.append,
        }
    }
}

/// The arguments and redirections gathered so far while reading a command.
pub struct Redirections {
    pub args: Seq<Seq<char>>,
    pub input: Option<Seq<char>>,
    pub output: Option<Seq<char>>,
    pub append: bool,
}

pub open spec fn no_redirections() -> Redirections {
    Redirections { args: seq![], input: None, output: None, append: false }
}

pub open spec fn is_redirection(t: Seq<char>) -> bool {
    t == seq!['<'] || t == seq!['>'] || t == seq!['>', '>']
}

/// Reads `args` from position `i` on: `<`, `>` and `>>` take the next token
/// (whatever it is) as their file, a later redirection of a kind replacing an
/// earlier one; other tokens are kept as arguments. It fails when a redirection
/// is the last token.
pub open spec fn redirect_scan(args: Seq<Seq<char>>, i: int, acc: Redirections) -> Result<
    Redirections,
    CommandError,
>
    decreases args.len() - i,
{
    if i < 0 || i >= args.len() {
        Ok(acc)
    } else if args[i] == seq!['<'] {
        if i + 1 >= args.len() {
            Err(CommandError::MissingInputFile)
        } else {
            redirect_scan(args, i + 2, Redirections { input: Some(args[i + 1]), ..acc })
        }
    } else if args[i] == seq!['>'] {
        if i + 1 >= args.len() {
            Err(CommandError::MissingOutputFile)
        } else {
            redirect_scan(
                args,
                i + 2,
                Redirections { output: Some(args[i + 1]), append: false, ..acc },
            )
        }
    } else if args[i] == seq!['>', '>'] {
        if i + 1 >= args.len() {
            Err(CommandError::MissingAppendFile)
        } else {
            redirect_scan(
                args,
                i + 2,
                Redirections { output: Some(args[i + 1]), append: true, ..acc },
            )
        }
    } else {
        redirect_scan(args, i + 1, Redirections { args: acc.args.push(args[i]), ..acc })
    }
}

/// The command that `tokens` describe: the first token names it, the rest are
/// read by [`redirect_scan`].
pub open spec fn command_of(tokens: Seq<Seq<char>>) -> Result<CommandView, CommandError> {
    if tokens.len() == 0 {
        Err(CommandError::Empty)
    } else {
        match redirect_scan(tokens.drop_first(), 0, no_redirections()) {
            Ok(r) => Ok(
                CommandView {
                    command: tokens[0],
                    args: r.args,
                    input: r.input,
                    output: r.output,
                    append: r.append,
                },
            ),
            Err(e) => Err(e),
        }
    }
}

/// Reads one command from its tokens.
pub fn parse_command(tokens: &Vec<String>) -> (r: Result<CommandSpec, CommandError>)
    ensures
        match r {
            Ok(c) => command_of(tokens.deep_view()) == Ok::<CommandView, CommandError>(c@),
            Err(e) => command_of(tokens.deep_view()) == Err::<CommandView, CommandError>(e),
        },
{
    if tokens.len() == 0 {
        return Err(CommandError::Empty);
    }
    let ghost toks = tokens.deep_view();
    let ghost rest = toks.drop_first();
    let n = tokens.len();
    let mut args: Vec<String> = Vec::new();
    let mut input: Option<String> = None;
    let mut output: Option<String> = None;
    let mut append = false;
    let mut i: usize = 1;
    assert(args.deep_view() =~= seq![]);
    while i < n
        invariant
            n == tokens.len(),
            toks == tokens.deep_view(),
            rest == toks.drop_first(),
            1 <= i <= n,
            redirect_scan(rest, 0, no_redirections()) == redirect_scan(
                rest,
                i - 1,
                Redirections {
                    args: args.deep_view(),
                    input: option_text(input),
                    output: option_text(output),
                    append,
                },
            ),
        decreases n - i,
    {
        let t = tokens[i].as_str();
        assert(t@ == rest[i - 1]);
        if is_word1(t, '<') {
            if i + 1 >= n {
                return Err(CommandError::MissingInputFile);
            }
            input = Some(tokens[i + 1].clone());
            assert(tokens@[i + 1 as int]@ == rest[i as int]);
            i = i + 2;
        } else if is_word1(t, '>') {
            if i + 1 >= n {
                return Err(CommandError::MissingOutputFile);
            }
            output = Some(tokens[i + 1].clone());
            append = false;
            assert(tokens@[i + 1 as int]@ == rest[i as int]);
            i = i + 2;
        } else if is_word2(t, '>', '>') {
            if i + 1 >= n {
                return Err(CommandError::MissingAppendFile);
            }
            output = Some(tokens[i + 1].clone());
            append = true;
            assert(tokens@[i + 1 as int]@ == rest[i as int]);
            i = i + 2;
        } else {
            let ghost before = args.deep_view();
            args.push(tokens[i].clone());
            assert(args.deep_view() =~= before.push(rest[i - 1]));
            i = i + 1;
        }
    }
    let command = tokens[0].clone();
    Ok(CommandSpec { command, args, input, output, append })
}

/// Reading `args` from `i` on with only plain arguments gathered keeps only
/// plain arguments.
proof fn lemma_scan_keeps_no_redirection(args: Seq<Seq<char>>, i: int, acc: Redirections)
    requires
        forall|k: int| 0 <= k < acc.args.len() ==> !is_redirection(#[trigger] acc.args[k]),
    ensures
        redirect_scan(args, i, acc) matches Ok(r) ==> forall|k: int|
            0 <= k < r.args.len() ==> !is_redirection(#[trigger] r.args[k]),
    decreases args.len() - i,
{
    if 0 <= i < args.len() {
        if args[i] == seq!['<'] || args[i] == seq!['>'] || args[i] == seq!['>', '>'] {
            if i + 1 < args.len() {
                if args[i] == seq!['<'] {
                    lemma_scan_keeps_no_redirection(
                        args,
                        i + 2,
                        Redirections { input: Some(args[i + 1]), ..acc },
                    );
                } else if args[i] == seq!['>'] {
                    lemma_scan_keeps_no_redirection(
                        args,
                        i + 2,
                        Redirections { output: Some(args[i + 1]), append: false, ..acc },
                    );
                } else {
                    lemma_scan_keeps_no_redirection(
                        args,
                        i + 2,
                        Redirections { output: Some(args[i + 1]), append: true, ..acc },
                    );
                }
            }
        } else {
            let next = Redirections { args: acc.args.push(args[i]), ..acc };
            assert forall|k: int| 0 <= k < next.args.len() implies !is_redirection(
                #[trigger] next.args[k],
            ) by {
                if k < acc.args.len() {
                    assert(next.args[k] == acc.args[k]);
                }
            }
            lemma_scan_keeps_no_redirection(args, i + 1, next);
        }
    }
}

/// A command read from tokens keeps none of `<`, `>`, `>>` among its arguments:
/// each of them is consumed together with the file it names.
pub proof fn lemma_command_args_have_no_redirection(tokens: Seq<Seq<char>>)
    ensures
        command_of(tokens) matches Ok(c) ==> forall|k: int|
            0 <= k < c.args.len() ==> !is_redirection(#[trigger] c.args[k]),
{
    if tokens.len() > 0 {
        lemma_scan_keeps_no_redirection(tokens.drop_first(), 0, no_redirections());
    }
}

/// A scan of `args` that succeeds ends exactly at the end of `args`: reading
/// more tokens after them goes on from the state it reached.
proof fn lemma_scan_then_more(
    args: Seq<Seq<char>>,
    extra: Seq<Seq<char>>,
    i: int,
    acc: Redirections,
)
    requires
        0 <= i <= args.len(),
        redirect_scan(args, i, acc) is Ok,
    ensures
        redirect_scan(args + extra, i, acc) == redirect_scan(
            args + extra,
            args.len() as int,
            redirect_scan(args, i, acc)->Ok_0,
        ),
    decreases args.len() - i,
{
    let s = args + extra;
    if i < args.len() {
        assert(s[i] == args[i]);
        if args[i] == seq!['<'] || args[i] == seq!['>'] || args[i] == seq!['>', '>'] {
            assert(i + 1 < args.len());
            assert(s[i + 1] == args[i + 1]);
            if args[i] == seq!['<'] {
                lemma_scan_then_more(
                    args,
                    extra,
                    i + 2,
                    Redirections { input: Some(args[i + 1]), ..acc },
                );
            } else if args[i] == seq!['>'] {
                lemma_scan_then_more(
                    args,
                    extra,
                    i + 2,
                    Redirections { output: Some(args[i + 1]), append: false, ..acc },
                );
            } else {
                lemma_scan_then_more(
                    args,
                    extra,
                    i + 2,
                    Redirections { output: Some(args[i + 1]), append: true, ..acc },
                );
            }
        } else {
            lemma_scan_then_more(
                args,
                extra,
                i + 1,
                Redirections { args: acc.args.push(args[i]), ..acc },
            );
        }
    }
}

/// How one more redirection or argument at the end of a command changes it:
/// `< f` sets the input to `f` and leaves the output, `append` and the arguments
/// as they were; `> f` sets the output to `f` with `append` false and `>> f`
/// with `append` true, leaving the input and the arguments; any other token is
/// added as the last argument. So `append` tells whether the last output
/// redirection is `>>`, and no input redirection changes it.
pub proof fn lemma_redirection_at_end(tokens: Seq<Seq<char>>, f: Seq<char>, w: Seq<char>)
    requires
        command_of(tokens) is Ok,
        !is_redirection(w),
    ensures
        ({
            let c = command_of(tokens)->Ok_0;
            &&& command_of(tokens + seq![seq!['<'], f]) == Ok::<CommandView, CommandError>(
                CommandView { input: Some(f), ..c },
            )
            &&& command_of(tokens + seq![seq!['>'], f]) == Ok::<CommandView, CommandError>(
                CommandView { output: Some(f), append: false, ..c },
            )
            &&& command_of(tokens + seq![seq!['>', '>'], f]) == Ok::<CommandView, CommandError>(
                CommandView { output: Some(f), append: true, ..c },
            )
            &&& command_of(tokens + seq![w]) == Ok::<CommandView, CommandError>(
                CommandView { args: c.args.push(w), ..c },
            )
        }),
{
    let args = tokens.drop_first();
    let r = redirect_scan(args, 0, no_redirections())->Ok_0;
    let n = args.len() as int;
    let lt: Seq<char> = seq!['<'];
    let gt: Seq<char> = seq!['>'];
    let gg: Seq<char> = seq!['>', '>'];
    assert(lt != gt) by {
        assert(lt[0] != gt[0]);
    }
    assert(lt != gg);
    assert(gt != gg) by {
        assert(gt.len() != gg.len());
    }
    let e1 = seq![lt, f];
    assert((tokens + e1).drop_first() =~= args + e1);
    lemma_scan_then_more(args, e1, 0, no_redirections());
    assert((args + e1)[n] == lt);
    assert((args + e1)[n + 1] == f);
    assert(redirect_scan(args + e1, n + 2, Redirections { input: Some(f), ..r }) == Ok::<
        Redirections,
        CommandError,
    >(Redirections { input: Some(f), ..r }));
    assert((tokens + e1)[0] == tokens[0]);
    let e2 = seq![gt, f];
    assert((tokens + e2).drop_first() =~= args + e2);
    lemma_scan_then_more(args, e2, 0, no_redirections());
    assert((args + e2)[n] == gt);
    assert((args + e2)[n + 1] == f);
    assert(redirect_scan(
        args + e2,
        n + 2,
        Redirections { output: Some(f), append: false, ..r },
    ) == Ok::<Redirections, CommandError>(Redirections { output: Some(f), append: false, ..r }));
    assert((tokens + e2)[0] == tokens[0]);
    let e3 = seq![gg, f];
    assert((tokens + e3).drop_first() =~= args + e3);
    lemma_scan_then_more(args, e3, 0, no_redirections());
    assert((args + e3)[n] == gg);
    assert((args + e3)[n + 1] == f);
    assert(redirect_scan(
        args + e3,
        n + 2,
        Redirections { output: Some(f), append: true, ..r },
    ) == Ok::<Redirections, CommandError>(Redirections { output: Some(f), append: true, ..r }));
    assert((tokens + e3)[0] == tokens[0]);
    let e4 = seq![w];
    assert((tokens + e4).drop_first() =~= args + e4);
    lemma_scan_then_more(args, e4, 0, no_redirections());
    assert((args + e4)[n] == w);
    assert(redirect_scan(args + e4, n + 1, Redirections { args: r.args.push(w), ..r }) == Ok::<
        Redirections,
        CommandError,
    >(Redirections { args: r.args.push(w), ..r }));
    assert((tokens + e4)[0] == tokens[0]);
}

} // verus!
