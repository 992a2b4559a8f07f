//! Planning a pipeline: reading its commands, recognising `cd`, and deciding
//! for each process what it runs and where its input and output go.

use vstd::prelude::*;
use crate::command::{command_of, parse_command, CommandError, CommandSpec, CommandView};
use crate::shell::{expansion, Environment, EnvironmentView, Shell};
use crate::text::is_word2;

verus! {

pub open spec fn command_views(specs: Seq<CommandSpec>) -> Seq<CommandView> {
    specs.map_values(|c: CommandSpec| c@)
}

/// Reads every command of `cmds`, stopping at the first that cannot be read.
pub open spec fn commands_of(cmds: Seq<Seq<Seq<char>>>) -> Result<Seq<CommandView>, CommandError>
    decreases cmds.len(),
{
    if cmds.len() == 0 {
        Ok(seq![])
    } else {
        match commands_of(cmds.drop_last()) {
            Err(e) => Err(e),
            Ok(prefix) => match command_of(cmds.last()) {
                Ok(c) => Ok(prefix.push(c)),
                Err(e) => Err(e),
            },
        }
    }
}

/// The commands of a pipeline; a pipeline without commands is `Empty`.
pub open spec fn pipeline_of(cmds: Seq<Seq<Seq<char>>>) -> Result<Seq<CommandView>, CommandError> {
    if cmds.len() == 0 {
        Err(CommandError::Empty)
    } else {
        commands_of(cmds)
    }
}

/// An error in a prefix of the commands is the error of all of them.
proof fn lemma_commands_error_persists(cmds: Seq<Seq<Seq<char>>>, k: int)
    requires
        0 <= k <= cmds.len(),
        commands_of(cmds.take(k)) is Err,
    ensures
        commands_of(cmds) == commands_of(cmds.take(k)),
    decreases cmds.len() - k,
{
    if k < cmds.len() {
        assert(cmds.take(k + 1).drop_last() =~= cmds.take(k));
        lemma_commands_error_persists(cmds, k + 1);
    } else {
        assert(cmds.take(k) =~= cmds);
    }
}

/// Reads the commands of a pipeline.
pub fn parse_pipeline(commands: &Vec<Vec<String>>) -> (r: Result<Vec<CommandSpec>, CommandError>)
    ensures
        match r {
            Ok(specs) => pipeline_of(commands.deep_view()) == Ok::<
                Seq<CommandView>,
                CommandError,
            >(command_views(specs@)),
            Err(e) => pipeline_of(commands.deep_view()) == Err::<Seq<CommandView>, CommandError>(
                e,
            ),
        },
{
    if commands.len() == 0 {
        return Err(CommandError::Empty);
    }
    let ghost cmds = commands.deep_view();
    let mut specs: Vec<CommandSpec> = Vec::new();
    let mut i: usize = 0;
    assert(cmds.take(0) =~= seq![]);
    assert(command_views(specs@) =~= seq![]);
    while i < commands.len()
        invariant
            cmds == commands.deep_view(),
            i <= commands.len(),
            commands_of(cmds.take(i as int)) == Ok::<Seq<CommandView>, CommandError>(
                command_views(specs@),
            ),
        decreases commands.len() - i,
    {
        assert(cmds.take(i + 1).drop_last() =~= cmds.take(i as int));
        assert(cmds.take(i + 1).last() == cmds[i as int]);
        match parse_command(&commands[i]) {
            Ok(spec) => {
                let ghost before = command_views(specs@);
                specs.push(spec);
                assert(command_views(specs@) =~= before.push(spec@));
            },
            Err(e) => {
                proof {
                    lemma_commands_error_persists(cmds, i + 1);
                }
                return Err(e);
            },
        }
        i = i + 1;
    }
    assert(cmds.take(commands.len() as int) =~= cmds);
    Ok(specs)
}

/// What a lone `cd` command asks for.
pub enum DirectoryChange {
    /// Change to this directory.
    To(String),
    /// The argument expands to no words: the command fails.
    Fail,
    /// No argument and no `HOME`: nothing changes, and the command succeeds.
    Stay,
}

/// The mathematical content of a [`DirectoryChange`].
pub enum DirectoryChangeView {
    To(Seq<char>),
    Fail,
    Stay,
}

impl View for DirectoryChange {
    type V = DirectoryChangeView;

    open spec fn view(&self) -> DirectoryChangeView {
        match self {
            DirectoryChange::To(p) => DirectoryChangeView::To(p@),
            DirectoryChange::Fail => DirectoryChangeView::Fail,
            DirectoryChange::Stay => DirectoryChangeView::Stay,
        }
    }
}

/// A pipeline is a directory change when it is one command named `cd`.
pub open spec fn is_change_directory(specs: Seq<CommandView>) -> bool {
    specs.len() == 1 && specs[0].command == seq!['c', 'd']
}

/// `cd word` goes to the first word that `word` expands to; `cd` alone goes to `HOME`.
pub open spec fn directory_change_of(
    vars: Map<Seq<char>, Seq<Seq<char>>>,
    env: EnvironmentView,
    spec: CommandView,
) -> DirectoryChangeView {
    if spec.args.len() > 0 {
        let words = expansion(vars, env, spec.args[0]);
        if words.len() == 0 {
            DirectoryChangeView::Fail
        } else {
            DirectoryChangeView::To(words[0])
        }
    } else if env.variables.contains_key("HOME"@) {
        DirectoryChangeView::To(env.variables["HOME"@])
    } else {
        DirectoryChangeView::Stay
    }
}

/// If the pipeline is a lone `cd`, what it asks for; `None` for any other pipeline.
pub fn plan_change_directory(shell: &Shell, specs: &Vec<CommandSpec>, env: &Environment) -> (r:
    Option<DirectoryChange>)
    ensures
        match r {
            Some(d) => is_change_directory(command_views(specs@)) && d@ == directory_change_of(
                shell@,
                env@,
                specs@[0]@,
            ),
            None => !is_change_directory(command_views(specs@)),
        },
{
    if specs.len() != 1 || !is_word2(specs[0].command.as_str(), 'c', 'd') {
        proof {
            if specs.len() == 1 {
                assert(command_views(specs@)[0] == specs@[0]@);
            }
        }
        return None;
    }
    assert(command_views(specs@)[0] == specs@[0]@);
    let spec = &specs[0];
    if spec.args.len() > 0 {
        let words = shell.expand(spec.args[0].as_str(), env);
        if words.len() == 0 {
            Some(DirectoryChange::Fail)
        } else {
            Some(DirectoryChange::To(words[0].clone()))
        }
    } else {
        match env.lookup("HOME") {
            Some(home) => Some(DirectoryChange::To(home)),
            None => Some(DirectoryChange::Stay),
        }
    }
}

/// Where a process reads its standard input from.
pub enum StdinSource {
    /// The shell's own standard input.
    Inherit,
    /// Nothing (end of file at once).
    Null,
    /// The pipe left open by an earlier process of the pipeline.
    Pipe,
    /// The named file.
    File(String),
}

/// Where a process writes its standard output.
pub enum StdoutTarget {
    /// The shell's own standard output.
    Inherit,
    /// A new pipe, for a later process of the pipeline.
    Pipe,
    /// The named file, created or truncated.
    Create(String),
    /// The named file, created if needed, written at its end.
    Append(String),
    /// The output file expands to no words: the pipeline fails here.
    Unresolved,
}

pub enum StdinView {
    Inherit,
    Null,
    Pipe,
    File(Seq<char>),
}

pub enum StdoutView {
    Inherit,
    Pipe,
    Create(Seq<char>),
    Append(Seq<char>),
    Unresolved,
}

impl View for StdinSource {
    type V = StdinView;

    open spec fn view(&self) -> StdinView {
        match self {
            StdinSource::Inherit => StdinView::Inherit,
            StdinSource::Null => StdinView::Null,
            StdinSource::Pipe => StdinView::Pipe,
            StdinSource::File(p) => StdinView::File(p@),
        }
    }
}

impl View for StdoutTarget {
    type V = StdoutView;

    open spec fn view(&self) -> StdoutView {
        match self {
            StdoutTarget::Inherit => StdoutView::Inherit,
            StdoutTarget::Pipe => StdoutView::Pipe,
            StdoutTarget::Create(p) => StdoutView::Create(p@),
            StdoutTarget::Append(p) => StdoutView::Append(p@),
            StdoutTarget::Unresolved => StdoutView::Unresolved,
        }
    }
}

/// How to start one process of a pipeline.
pub struct ProcessPlan {
    pub program: String,
    pub args: Vec<String>,
    pub stdin: StdinSource,
    pub stdout: StdoutTarget,
    /// After this process starts, a pipe is waiting for a later process.
    pub pipe_pending: bool,
}

pub struct ProcessPlanView {
    pub program: Seq<char>,
    pub args: Seq<Seq<char>>,
    pub stdin: StdinView,
    pub stdout: StdoutView,
    pub pipe_pending: bool,
}

impl View for ProcessPlan {
    type V = ProcessPlanView;

    open spec fn view(&self) -> ProcessPlanView {
        ProcessPlanView {
            program: self.program@,
            args: self.args.deep_view(),
            stdin: self.stdin@,
            stdout: self.stdout@,
            pipe_pending: self.pipe_pending,
        }
    }
}

/// All the words that `words` expand to, in order.
pub open spec fn expand_all(
    vars: Map<Seq<char>, Seq<Seq<char>>>,
    env: EnvironmentView,
    words: Seq<Seq<char>>,
) -> Seq<Seq<char>>
    decreases words.len(),
{
    if words.len() == 0 {
        seq![]
    } else {
        expand_all(vars, env, words.drop_last()) + expansion(vars, env, words.last())
    }
}

/// How to start the process for `spec`, the `index`-th of `count` commands,
/// when `pending` tells whether an earlier process left a pipe open. `None`
/// when the command name or the input file expands to no words.
pub open spec fn process_plan_of(
    vars: Map<Seq<char>, Seq<Seq<char>>>,
    env: EnvironmentView,
    spec: CommandView,
    index: int,
    count: int,
    pending: bool,
) -> Option<ProcessPlanView> {
    let program = expansion(vars, env, spec.command);
    let is_last = index == count - 1;
    if program.len() == 0 {
        None
    } else if spec.input matches Some(p) && expansion(vars, env, p).len() == 0 {
        None
    } else {
        let stdin = match spec.input {
            Some(p) => StdinView::File(expansion(vars, env, p)[0]),
            None => if pending {
                StdinView::Pipe
            } else if index != 0 {
                StdinView::Null
            } else {
                StdinView::Inherit
            },
        };
        let stdout = match spec.output {
            Some(p) => {
                let words = expansion(vars, env, p);
                if words.len() == 0 {
                    StdoutView::Unresolved
                } else if spec.append {
                    StdoutView::Append(words[0])
                } else {
                    StdoutView::Create(words[0])
                }
            },
            None => if !is_last {
                StdoutView::Pipe
            } else {
                StdoutView::Inherit
            },
        };
        Some(
            ProcessPlanView {
                program: program[0],
                args: expand_all(vars, env, spec.args),
                stdin,
                stdout,
                pipe_pending: (!is_last && spec.output is None) || (pending && spec.input is Some),
            },
        )
    }
}

/// Expands every word of `words`.
pub fn expand_words(shell: &Shell, words: &Vec<String>, env: &Environment) -> (r: Vec<String>)
    ensures
        r.deep_view() == expand_all(shell@, env@, words.deep_view()),
{
    let ghost ws = words.deep_view();
    let mut r: Vec<String> = Vec::new();
    let mut i: usize = 0;
    assert(r.deep_view() =~= seq![]);
    assert(ws.take(0) =~= seq![]);
    while i < words.len()
        invariant
            ws == words.deep_view(),
            i <= words.len(),
            r.deep_view() == expand_all(shell@, env@, ws.take(i as int)),
        decreases words.len() - i,
    {
        let mut e = shell.expand(words[i].as_str(), env);
        let ghost before = r.deep_view();
        let ghost added = e.deep_view();
        r.append(&mut e);
        assert(r.deep_view() =~= before + added);
        assert(ws.take(i + 1).drop_last() =~= ws.take(i as int));
        assert(ws.take(i + 1).last() == words@[i as int]@);
        i = i + 1;
    }
    assert(ws.take(words.len() as int) =~= ws);
    r
}

/// How to start the process for `spec`, the `index`-th of `count` commands of
/// a pipeline; `pipe_pending` tells whether an earlier process left a pipe open.
pub fn plan_process(
    shell: &Shell,
    spec: &CommandSpec,
    index: usize,
    count: usize,
    pipe_pending: bool,
    env: &Environment,
) -> (r: Option<ProcessPlan>)
    requires
        index < count,
    ensures
        match r {
            Some(p) => process_plan_of(shell@, env@, spec@, index as int, count as int, pipe_pending)
                == Some(p@),
            None => process_plan_of(
                shell@,
                env@,
                spec@,
                index as int,
                count as int,
                pipe_pending,
            ) is None,
        },
{
    let is_last = index == count - 1;
    let program_words = shell.expand(spec.command.as_str(), env);
    if program_words.len() == 0 {
        return None;
    }
    let args = expand_words(shell, &spec.args, env);
    let stdin = match &spec.input {
        Some(path) => {
            let words = shell.expand(path.as_str(), env);
            if words.len() == 0 {
                return None;
            }
            StdinSource::File(words[0].clone())
        },
        None => if pipe_pending {
            StdinSource::Pipe
        } else if index != 0 {
            StdinSource::Null
        } else {
            StdinSource::Inherit
        },
    };
    let stdout = match &spec.output {
        Some(path) => {
            let words = shell.expand(path.as_str(), env);
            if words.len() == 0 {
                StdoutTarget::Unresolved
            } else if spec.append {
                StdoutTarget::Append(words[0].clone())
            } else {
                StdoutTarget::Create(words[0].clone())
            }
        },
        None => if !is_last {
            StdoutTarget::Pipe
        } else {
            StdoutTarget::Inherit
        },
    };
    let pending_after = (!is_last && spec.output.is_none()) || (pipe_pending && spec.input.is_some());
    Some(
        ProcessPlan {
            program: program_words[0].clone(),
            args,
            stdin,
            stdout,
            pipe_pending: pending_after,
        },
    )
}

/// A pipeline succeeds when every one of its processes succeeded.
pub fn pipeline_succeeded(statuses: &Vec<bool>) -> (ok: bool)
    ensures
        ok == (forall|k: int| 0 <= k < statuses.len() ==> #[trigger] statuses@[k]),
{
    let mut i: usize = 0;
    while i < statuses.len()
        invariant
            i <= statuses.len(),
            forall|k: int| 0 <= k < i ==> #[trigger] statuses@[k],
        decreases statuses.len() - i,
    {
        if !statuses[i] {
            return false;
        }
        i = i + 1;
    }
    true
}

/// In a pipeline whose commands have no redirections, the first process reads
/// the shell's input, each later one reads the pipe the one before it left
/// open, the last writes to the shell's output and every other one to a new pipe.
pub proof fn lemma_plain_pipeline_connects(
    vars: Map<Seq<char>, Seq<Seq<char>>>,
    env: EnvironmentView,
    specs: Seq<CommandView>,
    k: int,
)
    requires
        0 <= k < specs.len(),
        forall|j: int| 0 <= j < specs.len() ==> (#[trigger] specs[j]).input is None,
        forall|j: int| 0 <= j < specs.len() ==> (#[trigger] specs[j]).output is None,
        expansion(vars, env, specs[k].command).len() > 0,
    ensures
        process_plan_of(vars, env, specs[k], k, specs.len() as int, k > 0) matches Some(p) && p.stdin
            == (if k == 0 {
            StdinView::Inherit
        } else {
            StdinView::Pipe
        }) && p.stdout == (if k == specs.len() - 1 {
            StdoutView::Inherit
        } else {
            StdoutView::Pipe
        }) && p.pipe_pending == (k + 1 < specs.len()),
{
    assert(specs[k].input is None);
    assert(specs[k].output is None);
}

/// Expanding a list of words is expanding its parts in order and putting the
/// results one after the other.
pub proof fn lemma_expand_all_concat(
    vars: Map<Seq<char>, Seq<Seq<char>>>,
    env: EnvironmentView,
    a: Seq<Seq<char>>,
    b: Seq<Seq<char>>,
)
    ensures
        expand_all(vars, env, a + b) == expand_all(vars, env, a) + expand_all(vars, env, b),
    decreases b.len(),
{
    if b.len() == 0 {
        assert(a + b =~= a);
        assert(expand_all(vars, env, a) + seq![] =~= expand_all(vars, env, a));
    } else {
        assert((a + b).drop_last() =~= a + b.drop_last());
        assert((a + b).last() == b.last());
        lemma_expand_all_concat(vars, env, a, b.drop_last());
        assert(expand_all(vars, env, a) + expand_all(vars, env, b.drop_last()) + expansion(
            vars,
            env,
            b.last(),
        ) =~= expand_all(vars, env, a) + (expand_all(vars, env, b.drop_last()) + expansion(
            vars,
            env,
            b.last(),
        )));
    }
}

/// Words that do not start with `$` expand to themselves, in the same order.
pub proof fn lemma_plain_words_expand_to_themselves(
    vars: Map<Seq<char>, Seq<Seq<char>>>,
    env: EnvironmentView,
    words: Seq<Seq<char>>,
)
    requires
        forall|k: int|
            0 <= k < words.len() ==> (#[trigger] words[k]).len() == 0 || words[k][0] != '$',
    ensures
        expand_all(vars, env, words) == words,
    decreases words.len(),
{
    if words.len() > 0 {
        let d = words.drop_last();
        assert forall|k: int| 0 <= k < d.len() implies (#[trigger] d[k]).len() == 0 || d[k][0]
            != '$' by {
            assert(d[k] == words[k]);
        }
        lemma_plain_words_expand_to_themselves(vars, env, d);
        let w = words.last();
        assert(words[words.len() - 1] == w);
        assert(expansion(vars, env, w) == seq![w]);
        assert(d + seq![w] =~= words);
    }
}

/// A process is started with the command's arguments in their order; when none
/// of them starts with `$`, with exactly those arguments.
pub proof fn lemma_plan_keeps_plain_arguments(
    vars: Map<Seq<char>, Seq<Seq<char>>>,
    env: EnvironmentView,
    spec: CommandView,
    index: int,
    count: int,
    pending: bool,
)
    requires
        forall|k: int|
            0 <= k < spec.args.len() ==> (#[trigger] spec.args[k]).len() == 0 || spec.args[k][0]
                != '$',
    ensures
        process_plan_of(vars, env, spec, index, count, pending) matches Some(p) ==> p.args
            == spec.args,
{
    lemma_plain_words_expand_to_themselves(vars, env, spec.args);
}

pub open spec fn is_plain_word(w: Seq<char>) -> bool {
    w.len() == 0 || w[0] != '$'
}

/// For a command whose name and redirection files do not start with `$`: the
/// process runs that name; it reads the `<` file if there is one, else the pipe
/// left open if any, else nothing (not the first process) or the shell's input
/// (the first); it writes to the `>>` file at its end, or to the `>` file
/// truncated, else to a new pipe unless it is the last process.
pub proof fn lemma_plan_of_plain_command(
    vars: Map<Seq<char>, Seq<Seq<char>>>,
    env: EnvironmentView,
    spec: CommandView,
    index: int,
    count: int,
    pending: bool,
)
    requires
        is_plain_word(spec.command),
        spec.input matches Some(f) ==> is_plain_word(f),
        spec.output matches Some(f) ==> is_plain_word(f),
    ensures
        process_plan_of(vars, env, spec, index, count, pending) matches Some(p) && p.program
            == spec.command && p.stdin == (match spec.input {
            Some(f) => StdinView::File(f),
            None => if pending {
                StdinView::Pipe
            } else if index == 0 {
                StdinView::Inherit
            } else {
                StdinView::Null
            },
        }) && p.stdout == (match spec.output {
            Some(f) => if spec.append {
                StdoutView::Append(f)
            } else {
                StdoutView::Create(f)
            },
            None => if index == count - 1 {
                StdoutView::Inherit
            } else {
                StdoutView::Pipe
            },
        }),
{
    assert(expansion(vars, env, spec.command) == seq![spec.command]);
    if let Some(f) = spec.input {
        assert(expansion(vars, env, f) == seq![f]);
    }
    if let Some(f) = spec.output {
        assert(expansion(vars, env, f) == seq![f]);
    }
}

/// `cd dir` goes to `dir` when it does not start with `$`; `cd` alone goes to
/// `HOME`, or stays where it is when the environment has no `HOME`.
pub proof fn lemma_change_directory_target(
    vars: Map<Seq<char>, Seq<Seq<char>>>,
    env: EnvironmentView,
    spec: CommandView,
)
    ensures
        spec.args.len() > 0 && is_plain_word(spec.args[0]) ==> directory_change_of(vars, env, spec)
            == DirectoryChangeView::To(spec.args[0]),
        spec.args.len() == 0 && env.variables.contains_key("HOME"@) ==> directory_change_of(
            vars,
            env,
            spec,
        ) == DirectoryChangeView::To(env.variables["HOME"@]),
        spec.args.len() == 0 && !env.variables.contains_key("HOME"@) ==> directory_change_of(
            vars,
            env,
            spec,
        ) == DirectoryChangeView::Stay,
{
    if spec.args.len() > 0 && is_plain_word(spec.args[0]) {
        assert(expansion(vars, env, spec.args[0]) == seq![spec.args[0]]);
    }
}

/// A pipeline whose first command cannot be read fails with that command's
/// error, whatever follows; readable commands are read in order.
pub proof fn lemma_pipeline_reads_in_order(
    c: Seq<Seq<char>>,
    rest: Seq<Seq<Seq<char>>>,
)
    ensures
        command_of(c) is Err ==> pipeline_of(seq![c] + rest) == Err::<Seq<CommandView>, CommandError>(
            command_of(c)->Err_0,
        ),
        command_of(c) is Ok && pipeline_of(rest) is Ok ==> pipeline_of(seq![c] + rest) == Ok::<
            Seq<CommandView>,
            CommandError,
        >(seq![command_of(c)->Ok_0] + pipeline_of(rest)->Ok_0),
{
    let cmds = seq![c] + rest;
    assert(cmds.take(1) =~= seq![c]);
    assert(seq![c].drop_last() =~= seq![]);
    let e: Seq<Seq<Seq<char>>> = seq![];
    assert(commands_of(e) == Ok::<Seq<CommandView>, CommandError>(seq![]));
    assert(seq![c].last() == c);
    assert(cmds.len() > 0);
    if command_of(c) is Err {
        assert(commands_of(seq![c]) == Err::<Seq<CommandView>, CommandError>(command_of(c)->Err_0));
        lemma_commands_error_persists(cmds, 1);
    }
    if command_of(c) is Ok && pipeline_of(rest) is Ok {
        assert(rest.len() > 0);
        lemma_commands_prepend(c, rest);
    }
}

proof fn lemma_commands_prepend(c: Seq<Seq<char>>, rest: Seq<Seq<Seq<char>>>)
    requires
        command_of(c) is Ok,
        commands_of(rest) is Ok,
    ensures
        commands_of(seq![c] + rest) == Ok::<Seq<CommandView>, CommandError>(
            seq![command_of(c)->Ok_0] + commands_of(rest)->Ok_0,
        ),
    decreases rest.len(),
{
    if rest.len() == 0 {
        let e: Seq<Seq<Seq<char>>> = seq![];
        assert(commands_of(e) == Ok::<Seq<CommandView>, CommandError>(seq![]));
        assert(seq![c] + rest =~= seq![c]);
        assert(seq![c].drop_last() =~= e);
        assert(seq![c].last() == c);
        assert(commands_of(rest)->Ok_0 =~= seq![]);
        assert(seq![command_of(c)->Ok_0] + seq![] =~= seq![command_of(c)->Ok_0]);
        assert(seq![].push(command_of(c)->Ok_0) =~= seq![command_of(c)->Ok_0]);
    } else {
        let d = rest.drop_last();
        assert(commands_of(d) is Ok);
        lemma_commands_prepend(c, d);
        assert((seq![c] + rest).drop_last() =~= seq![c] + d);
        assert((seq![c] + rest).last() == rest.last());
        assert((seq![command_of(c)->Ok_0] + commands_of(d)->Ok_0).push(command_of(rest.last())->Ok_0)
            =~= seq![command_of(c)->Ok_0] + commands_of(rest)->Ok_0);
    }
}

} // verus!
