//! Reading a whole input line: variable assignments, and chains of pipelines
//! joined by `&&`, `||` and `;`.

use vstd::prelude::*;
use crate::shell::{expansion, lemma_expansion_reads_variable, EnvironmentView, Shell};
use crate::text::{is_word1, is_word2, push_char};
use crate::tokenize::{tokenize, tokens_of};

verus! {

/// The operator that joins two pipelines of a chain.
#[derive(Clone, Copy, Debug, PartialEq, Eq, Structural)]
pub enum ChainOperator {
    /// `&&`: run the next pipeline only if the previous status is success.
    And,
    /// `||`: run the next pipeline only if the previous status is failure.
    Or,
    /// `;`: run the next pipeline in any case.
    Sequence,
}

/// Why an input line was rejected.
#[derive(Clone, Copy, Debug, PartialEq, Eq, Structural)]
pub enum InputError {
    /// `name = ( ...` without a closing `)`.
    MissingParenthesis,
    /// A `|` with no command before it, or at the end of the line.
    InvalidPipe,
    /// `&&`, `||` or `;` with no command before it.
    InvalidCommand,
    /// The line ends with `&&`, `||` or `;`.
    InvalidChain,
}

impl InputError {
    /// The diagnostic the shell prints for this error.
    pub fn message(&self) -> (m: String)
        ensures
            m@ == match *self {
                InputError::MissingParenthesis => "rc9: expected ')'"@,
                InputError::InvalidPipe => "rc9: invalid pipe"@,
                InputError::InvalidCommand => "rc9: invalid command"@,
                InputError::InvalidChain => "rc9: invalid command chain"@,
            },
    {
        match self {
            InputError::MissingParenthesis => String::from_str("rc9: expected ')'"),
            InputError::InvalidPipe => String::from_str("rc9: invalid pipe"),
            InputError::InvalidCommand => String::from_str("rc9: invalid command"),
            InputError::InvalidChain => String::from_str("rc9: invalid command chain"),
        }
    }
}

/// Pipelines (each a list of commands, each a list of tokens) joined by operators:
/// `operators[i]` stands between `pipelines[i]` and `pipelines[i + 1]`.
pub struct CommandChain {
    pub pipelines: Vec<Vec<Vec<String>>>,
    pub operators: Vec<ChainOperator>,
}

pub struct ChainView {
    pub pipelines: Seq<Seq<Seq<Seq<char>>>>,
    pub operators: Seq<ChainOperator>,
}

impl View for CommandChain {
    type V = ChainView;

    open spec fn view(&self) -> ChainView {
        ChainView { pipelines: self.pipelines.deep_view(), operators: self.operators@ }
    }
}

/// The state while splitting tokens into a chain.
pub struct ChainState {
    /// Finished pipelines.
    pub pipelines: Seq<Seq<Seq<Seq<char>>>>,
    pub operators: Seq<ChainOperator>,
    /// Finished commands of the pipeline being built.
    pub pipeline: Seq<Seq<Seq<char>>>,
    /// Tokens of the command being built.
    pub current: Seq<Seq<char>>,
}

pub open spec fn chain_start() -> ChainState {
    ChainState { pipelines: seq![], operators: seq![], pipeline: seq![], current: seq![] }
}

pub open spec fn operator_of(t: Seq<char>) -> Option<ChainOperator> {
    if t == seq!['&', '&'] {
        Some(ChainOperator::And)
    } else if t == seq!['|', '|'] {
        Some(ChainOperator::Or)
    } else if t == seq![';'] {
        Some(ChainOperator::Sequence)
    } else {
        None
    }
}

/// The effect of one token on the chain being built.
pub open spec fn chain_step(st: ChainState, t: Seq<char>) -> Result<ChainState, InputError> {
    if t == seq!['|'] {
        if st.current.len() == 0 {
            Err(InputError::InvalidPipe)
        } else {
            Ok(ChainState { pipeline: st.pipeline.push(st.current), current: seq![], ..st })
        }
    } else if operator_of(t) is Some {
        if st.current.len() == 0 {
            Err(InputError::InvalidCommand)
        } else {
            Ok(
                ChainState {
                    pipelines: st.pipelines.push(st.pipeline.push(st.current)),
                    operators: st.operators.push(operator_of(t)->0),
                    pipeline: seq![],
                    current: seq![],
                },
            )
        }
    } else {
        Ok(ChainState { current: st.current.push(t), ..st })
    }
}

/// The chain state after all of `tokens`, or the first error.
pub open spec fn chain_scan(tokens: Seq<Seq<char>>) -> Result<ChainState, InputError>
    decreases tokens.len(),
{
    if tokens.len() == 0 {
        Ok(chain_start())
    } else {
        match chain_scan(tokens.drop_last()) {
            Err(e) => Err(e),
            Ok(st) => chain_step(st, tokens.last()),
        }
    }
}

/// Closes the command and pipeline being built at the end of the line.
pub open spec fn chain_finish(st: ChainState) -> Result<ChainView, InputError> {
    if st.current.len() == 0 && st.pipeline.len() > 0 {
        Err(InputError::InvalidPipe)
    } else {
        let pipeline = if st.current.len() > 0 {
            st.pipeline.push(st.current)
        } else {
            st.pipeline
        };
        let pipelines = if pipeline.len() > 0 {
            st.pipelines.push(pipeline)
        } else {
            st.pipelines
        };
        if pipelines.len() != st.operators.len() + 1 {
            Err(InputError::InvalidChain)
        } else {
            Ok(ChainView { pipelines, operators: st.operators })
        }
    }
}

/// The chain that `tokens` describe: `|` separates the commands of a pipeline,
/// `&&`, `||` and `;` separate pipelines; every other token is part of a command.
pub open spec fn chain_of(tokens: Seq<Seq<char>>) -> Result<ChainView, InputError> {
    match chain_scan(tokens) {
        Err(e) => Err(e),
        Ok(st) => chain_finish(st),
    }
}

/// The index of the first `w` in `tokens` at or after `i`, or the length of `tokens`.
pub open spec fn first_index_of(tokens: Seq<Seq<char>>, w: Seq<char>, i: int) -> int
    decreases tokens.len() - i,
{
    if i < 0 || i >= tokens.len() {
        tokens.len() as int
    } else if tokens[i] == w {
        i
    } else {
        first_index_of(tokens, w, i + 1)
    }
}

/// The words joined by single spaces.
pub open spec fn join_words(words: Seq<Seq<char>>) -> Seq<char>
    decreases words.len(),
{
    if words.len() == 0 {
        seq![]
    } else if words.len() == 1 {
        words[0]
    } else {
        join_words(words.drop_last()) + seq![' '] + words.last()
    }
}

/// What an input line asks of the shell.
pub enum InputPlan {
    /// An empty line: nothing to do.
    Nothing,
    /// Set the variable to the words.
    Assign(Seq<char>, Seq<Seq<char>>),
    /// A rejected line.
    Invalid(InputError),
    /// Run the chain.
    Run(ChainView),
}

/// `name = ( w1 ... wn ) ...` sets `name` to the words up to the first `)`;
/// `name = w1 ... wn` sets it to the single word `w1 ... wn` joined by spaces;
/// any other line is a chain of pipelines.
pub open spec fn input_plan(tokens: Seq<Seq<char>>) -> InputPlan {
    if tokens.len() == 0 {
        InputPlan::Nothing
    } else if tokens.len() >= 3 && tokens[1] == seq!['='] {
        if tokens[2] == seq!['('] {
            let j = first_index_of(tokens, seq![')'], 3);
            if j >= tokens.len() {
                InputPlan::Invalid(InputError::MissingParenthesis)
            } else {
                InputPlan::Assign(tokens[0], tokens.subrange(3, j))
            }
        } else {
            InputPlan::Assign(tokens[0], seq![join_words(tokens.subrange(2, tokens.len() as int))])
        }
    } else {
        match chain_of(tokens) {
            Ok(c) => InputPlan::Run(c),
            Err(e) => InputPlan::Invalid(e),
        }
    }
}

/// What the shell does with a line after reading it.
pub enum InputAction {
    /// The line was empty; its status is success.
    Nothing,
    /// A variable was set; the status is success.
    Assigned,
    /// The line was rejected; its status is failure.
    Invalid(InputError),
    /// The chain is to be run.
    Run(CommandChain),
}

/// `InputAction` carries out `plan` on a shell that held `before` and holds `after`.
pub open spec fn carries_out(
    plan: InputPlan,
    before: Map<Seq<char>, Seq<Seq<char>>>,
    after: Map<Seq<char>, Seq<Seq<char>>>,
    action: InputAction,
) -> bool {
    match plan {
        InputPlan::Nothing => action is Nothing && after == before,
        InputPlan::Assign(name, value) => action is Assigned && after == before.insert(name, value),
        InputPlan::Invalid(e) => action matches InputAction::Invalid(e2) && e2 == e && after
            == before,
        InputPlan::Run(c) => action matches InputAction::Run(ch) && ch@ == c && after == before,
    }
}

/// The tokens `tokens[from..]` joined by single spaces.
fn join_from(tokens: &Vec<String>, from: usize) -> (s: String)
    requires
        from <= tokens.len(),
    ensures
        s@ == join_words(tokens.deep_view().subrange(from as int, tokens.len() as int)),
{
    let ghost toks = tokens.deep_view();
    let mut s = String::new();
    let mut k: usize = from;
    assert(toks.subrange(from as int, from as int) =~= seq![]);
    while k < tokens.len()
        invariant
            toks == tokens.deep_view(),
            from <= k <= tokens.len(),
            s@ == join_words(toks.subrange(from as int, k as int)),
        decreases tokens.len() - k,
    {
        assert(toks.subrange(from as int, k + 1).drop_last() =~= toks.subrange(
            from as int,
            k as int,
        ));
        if k > from {
            push_char(&mut s, ' ');
        }
        s.append(tokens[k].as_str());
        k = k + 1;
    }
    s
}

/// Splits tokens into a chain of pipelines.
fn split_chain(tokens: &Vec<String>) -> (r: Result<CommandChain, InputError>)
    ensures
        match r {
            Ok(c) => chain_of(tokens.deep_view()) == Ok::<ChainView, InputError>(c@),
            Err(e) => chain_of(tokens.deep_view()) == Err::<ChainView, InputError>(e),
        },
{
    let ghost toks = tokens.deep_view();
    let mut pipelines: Vec<Vec<Vec<String>>> = Vec::new();
    let mut operators: Vec<ChainOperator> = Vec::new();
    let mut pipeline: Vec<Vec<String>> = Vec::new();
    let mut current: Vec<String> = Vec::new();
    let mut i: usize = 0;
    assert(toks.take(0) =~= seq![]);
    assert(pipelines.deep_view() =~= seq![]);
    assert(pipeline.deep_view() =~= seq![]);
    assert(current.deep_view() =~= seq![]);
    while i < tokens.len()
        invariant
            toks == tokens.deep_view(),
            i <= tokens.len(),
            chain_scan(toks.take(i as int)) == Ok::<ChainState, InputError>(
                ChainState {
                    pipelines: pipelines.deep_view(),
                    operators: operators@,
                    pipeline: pipeline.deep_view(),
                    current: current.deep_view(),
                },
            ),
        decreases tokens.len() - i,
    {
        assert(toks.take(i + 1).drop_last() =~= toks.take(i as int));
        assert(toks.take(i + 1).last() == toks[i as int]);
        let t = tokens[i].as_str();
        let op = if is_word2(t, '&', '&') {
            Some(ChainOperator::And)
        } else if is_word2(t, '|', '|') {
            Some(ChainOperator::Or)
        } else if is_word1(t, ';') {
            Some(ChainOperator::Sequence)
        } else {
            None
        };
        assert(op == operator_of(toks[i as int]));
        if is_word1(t, '|') {
            if current.len() == 0 {
                proof {
                    lemma_chain_error_persists(toks, i + 1);
                }
                return Err(InputError::InvalidPipe);
            }
            let ghost before = pipeline.deep_view();
            let done = current;
            current = Vec::new();
            pipeline.push(done);
            assert(pipeline.deep_view() =~= before.push(done.deep_view()));
            assert(current.deep_view() =~= seq![]);
        } else if let Some(o) = op {
            if current.len() == 0 {
                proof {
                    lemma_chain_error_persists(toks, i + 1);
                }
                return Err(InputError::InvalidCommand);
            }
            let ghost before_pipeline = pipeline.deep_view();
            let ghost before_pipelines = pipelines.deep_view();
            let done = current;
            current = Vec::new();
            pipeline.push(done);
            assert(pipeline.deep_view() =~= before_pipeline.push(done.deep_view()));
            let finished = pipeline;
            pipeline = Vec::new();
            pipelines.push(finished);
            assert(pipelines.deep_view() =~= before_pipelines.push(finished.deep_view()));
            operators.push(o);
            assert(current.deep_view() =~= seq![]);
            assert(pipeline.deep_view() =~= seq![]);
        } else {
            let ghost before = current.deep_view();
            current.push(tokens[i].clone());
            assert(current.deep_view() =~= before.push(toks[i as int]));
        }
        i = i + 1;
    }
    assert(toks.take(tokens.len() as int) =~= toks);
    if current.len() > 0 {
        let ghost before = pipeline.deep_view();
        let done = current;
        pipeline.push(done);
        assert(pipeline.deep_view() =~= before.push(done.deep_view()));
    } else if pipeline.len() > 0 {
        return Err(InputError::InvalidPipe);
    }
    if pipeline.len() > 0 {
        let ghost before = pipelines.deep_view();
        let finished = pipeline;
        pipelines.push(finished);
        assert(pipelines.deep_view() =~= before.push(finished.deep_view()));
    }
    if pipelines.len() == 0 || pipelines.len() - 1 != operators.len() {
        return Err(InputError::InvalidChain);
    }
    Ok(CommandChain { pipelines, operators })
}

/// An error in a prefix of the tokens is the error of all of them.
proof fn lemma_chain_error_persists(tokens: Seq<Seq<char>>, k: int)
    requires
        0 <= k <= tokens.len(),
        chain_scan(tokens.take(k)) is Err,
    ensures
        chain_scan(tokens) == chain_scan(tokens.take(k)),
    decreases tokens.len() - k,
{
    if k < tokens.len() {
        assert(tokens.take(k + 1).drop_last() =~= tokens.take(k));
        lemma_chain_error_persists(tokens, k + 1);
    } else {
        assert(tokens.take(k) =~= tokens);
    }
}

/// Carries out the assignment or reads the chain that `tokens` describe.
pub fn prepare_tokens(shell: &mut Shell, tokens: &Vec<String>) -> (r: InputAction)
    ensures
        carries_out(input_plan(tokens.deep_view()), old(shell)@, final(shell)@, r),
{
    let ghost toks = tokens.deep_view();
    let n = tokens.len();
    if n == 0 {
        return InputAction::Nothing;
    }
    if n >= 3 && is_word1(tokens[1].as_str(), '=') {
        let name = tokens[0].as_str();
        if is_word1(tokens[2].as_str(), '(') {
            let mut values: Vec<String> = Vec::new();
            let mut i: usize = 3;
            assert(values.deep_view() =~= toks.subrange(3, 3));
            while i < n && !is_word1(tokens[i].as_str(), ')')
                invariant
                    toks == tokens.deep_view(),
                    n == tokens.len(),
                    3 <= i <= n,
                    values.deep_view() == toks.subrange(3, i as int),
                    first_index_of(toks, seq![')'], 3) == first_index_of(toks, seq![')'], i as int),
                decreases n - i,
            {
                let ghost before = values.deep_view();
                values.push(tokens[i].clone());
                assert(values.deep_view() =~= before.push(toks[i as int]));
                assert(values.deep_view() =~= toks.subrange(3, i + 1));
                i = i + 1;
            }
            if i == n {
                return InputAction::Invalid(InputError::MissingParenthesis);
            }
            shell.set_variable(name, values);
            return InputAction::Assigned;
        }
        let value = join_from(tokens, 2);
        let v = vec![value];
        assert(v.deep_view() =~= seq![join_words(toks.subrange(2, n as int))]);
        shell.set_variable(name, v);
        return InputAction::Assigned;
    }
    match split_chain(tokens) {
        Ok(c) => InputAction::Run(c),
        Err(e) => InputAction::Invalid(e),
    }
}

/// Reads an input line: sets a variable for an assignment, or returns the
/// chain of pipelines to run, or the reason the line is rejected.
pub fn prepare_input(shell: &mut Shell, input: &str) -> (r: InputAction)
    ensures
        carries_out(input_plan(tokens_of(input@)), old(shell)@, final(shell)@, r),
{
    let tokens = tokenize(input);
    prepare_tokens(shell, &tokens)
}

/// Whether the pipeline `index` of a chain runs, given the status left by the
/// pipelines before it (success before the first).
pub fn chain_should_run(operators: &Vec<ChainOperator>, index: usize, previous_status: bool) -> (r:
    bool)
    requires
        index <= operators.len(),
    ensures
        r == (index == 0 || match operators@[index - 1] {
            ChainOperator::And => previous_status,
            ChainOperator::Or => !previous_status,
            ChainOperator::Sequence => true,
        }),
{
    if index == 0 {
        return true;
    }
    match operators[index - 1] {
        ChainOperator::And => previous_status,
        ChainOperator::Or => !previous_status,
        ChainOperator::Sequence => true,
    }
}

/// A line that assigns a variable and a later `$name` agree: once the shell has
/// carried out `name = ...`, the word `$name` expands to the words assigned.
pub proof fn lemma_assignment_then_expansion(
    tokens: Seq<Seq<char>>,
    vars: Map<Seq<char>, Seq<Seq<char>>>,
    env: EnvironmentView,
)
    ensures
        input_plan(tokens) matches InputPlan::Assign(name, value) ==> expansion(
            vars.insert(name, value),
            env,
            seq!['$'] + name,
        ) == value,
{
    if let InputPlan::Assign(name, value) = input_plan(tokens) {
        lemma_expansion_reads_variable(vars, env, name, value);
    }
}

/// A token that separates commands or pipelines: `|`, `&&`, `||` or `;`.
pub open spec fn is_separator(t: Seq<char>) -> bool {
    t == seq!['|'] || t == seq!['&', '&'] || t == seq!['|', '|'] || t == seq![';']
}

pub open spec fn no_separator(ts: Seq<Seq<char>>) -> bool {
    forall|k: int| 0 <= k < ts.len() ==> !is_separator(#[trigger] ts[k])
}

/// Tokens without separators are added to the command being built.
proof fn lemma_scan_words(p: Seq<Seq<char>>, t: Seq<Seq<char>>)
    requires
        chain_scan(p) is Ok,
        no_separator(t),
    ensures
        chain_scan(p + t) == Ok::<ChainState, InputError>(
            ChainState {
                current: chain_scan(p)->Ok_0.current + t,
                ..chain_scan(p)->Ok_0
            },
        ),
    decreases t.len(),
{
    let st = chain_scan(p)->Ok_0;
    if t.len() == 0 {
        assert(p + t =~= p);
        assert(st.current + t =~= st.current);
    } else {
        let d = t.drop_last();
        assert(no_separator(d)) by {
            assert forall|k: int| 0 <= k < d.len() implies !is_separator(#[trigger] d[k]) by {
                assert(d[k] == t[k]);
            }
        }
        lemma_scan_words(p, d);
        assert((p + t).drop_last() =~= p + d);
        assert((p + t).last() == t.last());
        let w = t.last();
        assert(!is_separator(t[t.len() - 1]));
        assert(operator_of(w) is None);
        assert(st.current + d + seq![w] =~= st.current + t);
        assert((st.current + d).push(w) =~= st.current + t);
    }
}

/// A line of tokens without separators is one pipeline of one command.
pub proof fn lemma_chain_single_command(t: Seq<Seq<char>>)
    requires
        t.len() > 0,
        no_separator(t),
    ensures
        chain_of(t) == Ok::<ChainView, InputError>(
            ChainView { pipelines: seq![seq![t]], operators: seq![] },
        ),
{
    let e: Seq<Seq<char>> = seq![];
    assert(chain_scan(e) == Ok::<ChainState, InputError>(chain_start()));
    lemma_scan_words(e, t);
    assert(e + t =~= t);
    let st = chain_scan(t)->Ok_0;
    assert(st.current =~= t);
    assert(st.pipeline.push(st.current) =~= seq![t]);
    assert(st.pipelines.push(seq![t]) =~= seq![seq![t]]);
}

/// Two commands joined by `|` are one pipeline of two commands; joined by
/// `&&`, `||` or `;` they are two pipelines joined by that operator.
pub proof fn lemma_chain_two_commands(t1: Seq<Seq<char>>, sep: Seq<char>, t2: Seq<Seq<char>>)
    requires
        t1.len() > 0,
        t2.len() > 0,
        no_separator(t1),
        no_separator(t2),
        is_separator(sep),
    ensures
        sep == seq!['|'] ==> chain_of(t1 + seq![sep] + t2) == Ok::<ChainView, InputError>(
            ChainView { pipelines: seq![seq![t1, t2]], operators: seq![] },
        ),
        sep == seq!['&', '&'] ==> chain_of(t1 + seq![sep] + t2) == Ok::<ChainView, InputError>(
            ChainView {
                pipelines: seq![seq![t1], seq![t2]],
                operators: seq![ChainOperator::And],
            },
        ),
        sep == seq!['|', '|'] ==> chain_of(t1 + seq![sep] + t2) == Ok::<ChainView, InputError>(
            ChainView {
                pipelines: seq![seq![t1], seq![t2]],
                operators: seq![ChainOperator::Or],
            },
        ),
        sep == seq![';'] ==> chain_of(t1 + seq![sep] + t2) == Ok::<ChainView, InputError>(
            ChainView {
                pipelines: seq![seq![t1], seq![t2]],
                operators: seq![ChainOperator::Sequence],
            },
        ),
{
    let e: Seq<Seq<char>> = seq![];
    assert(chain_scan(e) == Ok::<ChainState, InputError>(chain_start()));
    lemma_scan_words(e, t1);
    assert(e + t1 =~= t1);
    let st1 = chain_scan(t1)->Ok_0;
    assert(st1.current =~= t1);
    let p = t1.push(sep);
    assert(p.drop_last() =~= t1);
    assert(p.last() == sep);
    let bar: Seq<char> = seq!['|'];
    let and: Seq<char> = seq!['&', '&'];
    let or: Seq<char> = seq!['|', '|'];
    let semi: Seq<char> = seq![';'];
    assert(bar != and && bar != or) by {
        assert(bar.len() != and.len());
    }
    assert(bar != semi) by {
        assert(bar[0] != semi[0]);
    }
    assert(and != or) by {
        assert(and[0] != or[0]);
    }
    lemma_scan_words(p, t2);
    assert(t1 + seq![sep] + t2 =~= p + t2);
    let st2 = chain_scan(p)->Ok_0;
    let fin = chain_scan(p + t2)->Ok_0;
    assert(fin.current =~= st2.current + t2);
    if sep == bar {
        assert(st2.current.len() == 0);
        assert(fin.current =~= t2);
        assert(st2.pipeline =~= seq![t1]);
        assert(fin.pipeline.push(fin.current) =~= seq![t1, t2]);
        assert(fin.pipelines.push(seq![t1, t2]) =~= seq![seq![t1, t2]]);
    } else {
        assert(st2.current.len() == 0);
        assert(fin.current =~= t2);
        assert(st2.pipelines =~= seq![seq![t1]]);
        assert(fin.pipeline.push(fin.current) =~= seq![t2]);
        assert(fin.pipelines.push(seq![t2]) =~= seq![seq![t1], seq![t2]]);
    }
}

/// A line that ends with `&&`, `||` or `;` is an invalid chain, one that ends
/// with `|` an invalid pipe, and one that starts with a separator is invalid.
pub proof fn lemma_chain_dangling_separator(t: Seq<Seq<char>>, sep: Seq<char>)
    requires
        t.len() > 0,
        no_separator(t),
        is_separator(sep),
    ensures
        sep == seq!['|'] ==> chain_of(t + seq![sep]) == Err::<ChainView, InputError>(
            InputError::InvalidPipe,
        ),
        sep != seq!['|'] ==> chain_of(t + seq![sep]) == Err::<ChainView, InputError>(
            InputError::InvalidChain,
        ),
        sep == seq!['|'] ==> chain_of(seq![sep] + t) == Err::<ChainView, InputError>(
            InputError::InvalidPipe,
        ),
        sep != seq!['|'] ==> chain_of(seq![sep] + t) == Err::<ChainView, InputError>(
            InputError::InvalidCommand,
        ),
{
    let e: Seq<Seq<char>> = seq![];
    assert(chain_scan(e) == Ok::<ChainState, InputError>(chain_start()));
    lemma_scan_words(e, t);
    assert(e + t =~= t);
    let p = t.push(sep);
    assert(p.drop_last() =~= t);
    assert(t + seq![sep] =~= p);
    let bar: Seq<char> = seq!['|'];
    assert(bar != seq!['&', '&'] && bar != seq!['|', '|']) by {
        assert(bar.len() == 1);
    }
    assert(bar != seq![';']) by {
        assert(bar[0] != seq![';'][0]);
    }
    let q = seq![sep];
    assert(q.drop_last() =~= e);
    assert(q.last() == sep);
    assert(chain_scan(q) is Err);
    assert((seq![sep] + t).take(1) =~= q);
    lemma_chain_error_persists(seq![sep] + t, 1);
}

/// The value of `name = w1 ... wn` (without a parenthesis) is its words joined
/// by single spaces: each further word adds a space and the word.
pub proof fn lemma_join_words_push(ws: Seq<Seq<char>>, w: Seq<char>)
    ensures
        ws.len() > 0 ==> join_words(ws.push(w)) == join_words(ws) + seq![' '] + w,
        ws.len() == 0 ==> join_words(ws.push(w)) == w,
{
    assert(ws.push(w).drop_last() =~= ws);
}

proof fn lemma_first_index_skips(tokens: Seq<Seq<char>>, w: Seq<char>, i: int, j: int)
    requires
        0 <= i <= j <= tokens.len(),
        forall|k: int| i <= k < j ==> #[trigger] tokens[k] != w,
    ensures
        first_index_of(tokens, w, i) == first_index_of(tokens, w, j),
    decreases j - i,
{
    if i < j {
        lemma_first_index_skips(tokens, w, i + 1, j);
    }
}

/// `name = ( w1 ... wn ) rest` sets `name` to exactly `w1 ... wn` (none of
/// them `)`), whatever follows; without the `)` the line is rejected.
pub proof fn lemma_list_assignment(
    name: Seq<char>,
    words: Seq<Seq<char>>,
    rest: Seq<Seq<char>>,
)
    requires
        forall|k: int| 0 <= k < words.len() ==> #[trigger] words[k] != seq![')'],
    ensures
        input_plan(seq![name, seq!['='], seq!['(']] + words + seq![seq![')']] + rest)
            == InputPlan::Assign(name, words),
        input_plan(seq![name, seq!['='], seq!['(']] + words) == InputPlan::Invalid(
            InputError::MissingParenthesis,
        ),
{
    let head = seq![name, seq!['='], seq!['(']];
    let n = words.len() as int;
    let t1 = head + words + seq![seq![')']] + rest;
    assert forall|k: int| 3 <= k < 3 + n implies #[trigger] t1[k] != seq![')'] by {
        assert(t1[k] == words[k - 3]);
    }
    lemma_first_index_skips(t1, seq![')'], 3, 3 + n);
    assert(t1[3 + n] == seq![')']);
    assert(t1.subrange(3, 3 + n) =~= words);
    assert(t1[1] == seq!['='] && t1[2] == seq!['('] && t1[0] == name);
    let t2 = head + words;
    assert forall|k: int| 3 <= k < 3 + n implies #[trigger] t2[k] != seq![')'] by {
        assert(t2[k] == words[k - 3]);
    }
    lemma_first_index_skips(t2, seq![')'], 3, 3 + n);
    assert(t2[1] == seq!['='] && t2[2] == seq!['(']);
}

/// `name = w1 ... wn`, where `w1` is not `(`, sets `name` to the one word
/// `w1 ... wn` joined by single spaces.
pub proof fn lemma_word_assignment(name: Seq<char>, words: Seq<Seq<char>>)
    requires
        words.len() > 0,
        words[0] != seq!['('],
    ensures
        input_plan(seq![name, seq!['=']] + words) == InputPlan::Assign(
            name,
            seq![join_words(words)],
        ),
{
    let t = seq![name, seq!['=']] + words;
    assert(t[1] == seq!['='] && t[2] == words[0] && t[0] == name);
    assert(t.subrange(2, t.len() as int) =~= words);
}

} // verus!
