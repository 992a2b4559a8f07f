//! The shell's variable store, the snapshot of the process environment that
//! expansion reads, and the expansion of a word.

use vstd::prelude::*;
use vstd::hash_map::StringHashMap;
use crate::text::text_eq;

verus! {

/// What expansion reads of the process environment: the environment variables
/// whose values are text, and the current working directory (if it could be read).
pub struct Environment {
    variables: StringHashMap<String>,
    working_directory: Option<String>,
}

/// The mathematical content of an [`Environment`].
pub struct EnvironmentView {
    pub variables: Map<Seq<char>, Seq<char>>,
    pub working_directory: Option<Seq<char>>,
}

impl View for Environment {
    type V = EnvironmentView;

    closed spec fn view(&self) -> EnvironmentView {
        EnvironmentView {
            variables: self.variables@.map_values(|v: String| v@),
            working_directory: match self.working_directory {
                Some(d) => Some(d@),
                None => None,
            },
        }
    }
}

impl Environment {
    /// An environment with no variables and no known working directory.
    pub fn new() -> (env: Self)
        ensures
            env@.variables == Map::<Seq<char>, Seq<char>>::empty(),
            env@.working_directory is None,
    {
        let env = Environment { variables: StringHashMap::new(), working_directory: None };
        assert(env@.variables =~= Map::<Seq<char>, Seq<char>>::empty());
        env
    }

    /// Records the environment variable `name` with the value `value`.
    pub fn set_variable(&mut self, name: String, value: String)
        ensures
            final(self)@.variables == old(self)@.variables.insert(name@, value@),
            final(self)@.working_directory == old(self)@.working_directory,
    {
        self.variables.insert(name, value);
        assert(self@.variables =~= old(self)@.variables.insert(name@, value@));
    }

    /// Records the current working directory, or that it could not be read.
    pub fn set_working_directory(&mut self, dir: Option<String>)
        ensures
            final(self)@.variables == old(self)@.variables,
            final(self)@.working_directory == (match dir {
                Some(d) => Some(d@),
                None => None,
            }),
    {
        self.working_directory = dir;
    }

    /// The value of the environment variable `name`, if it is set.
    pub fn lookup(&self, name: &str) -> (r: Option<String>)
        ensures
            match r {
                Some(v) => self@.variables.contains_key(name@) && v@ == self@.variables[name@],
                None => !self@.variables.contains_key(name@),
            },
    {
        match self.variables.get(name) {
            Some(v) => Some(v.clone()),
            None => None,
        }
    }

    /// The current working directory, if it could be read.
    pub fn working_directory(&self) -> (r: Option<String>)
        ensures
            match r {
                Some(d) => self@.working_directory == Some(d@),
                None => self@.working_directory is None,
            },
    {
        match &self.working_directory {
            Some(d) => Some(d.clone()),
            None => None,
        }
    }
}

/// The names that `$NAME` reads from the environment (besides `PWD`, which
/// reads the working directory).
pub open spec fn known_environment_name(name: Seq<char>) -> bool {
    ||| name == "HOME"@
    ||| name == "USER"@
    ||| name == "SHELL"@
    ||| name == "OLDPWD"@
    ||| name == "LANG"@
    ||| name == "TERM"@
    ||| name == "EDITOR"@
    ||| name == "VISUAL"@
    ||| name == "HOSTNAME"@
    ||| name == "LOGNAME"@
    ||| name == "TMPDIR"@
    ||| name == "XDG_CONFIG_HOME"@
    ||| name == "XDG_DATA_HOME"@
    ||| name == "XDG_CACHE_HOME"@
    ||| name == "XDG_RUNTIME_DIR"@
}

/// What the word `variable` expands to from the environment: `$PWD` gives the
/// working directory, `$NAME` for a known name gives that variable's value, the
/// empty text when either is missing; any other word stays as it is.
pub open spec fn environment_value(env: EnvironmentView, variable: Seq<char>) -> Seq<char> {
    if variable.len() > 0 && variable[0] == '$' {
        let name = variable.drop_first();
        if name == "PWD"@ {
            match env.working_directory {
                Some(d) => d,
                None => seq![],
            }
        } else if known_environment_name(name) {
            if env.variables.contains_key(name) {
                env.variables[name]
            } else {
                seq![]
            }
        } else {
            variable
        }
    } else {
        variable
    }
}

/// Whether `name` is one of the environment variables that expansion reads.
pub fn is_known_environment_name(name: &str) -> (b: bool)
    ensures
        b == known_environment_name(name@),
{
    text_eq(name, "HOME") || text_eq(name, "USER") || text_eq(name, "SHELL") || text_eq(
        name,
        "OLDPWD",
    ) || text_eq(name, "LANG") || text_eq(name, "TERM") || text_eq(name, "EDITOR") || text_eq(
        name,
        "VISUAL",
    ) || text_eq(name, "HOSTNAME") || text_eq(name, "LOGNAME") || text_eq(name, "TMPDIR")
        || text_eq(name, "XDG_CONFIG_HOME") || text_eq(name, "XDG_DATA_HOME") || text_eq(
        name,
        "XDG_CACHE_HOME",
    ) || text_eq(name, "XDG_RUNTIME_DIR")
}

/// Expands a `$NAME` word from the environment (see [`environment_value`]).
pub fn expand_environment_variable(variable: &str, env: &Environment) -> (r: String)
    ensures
        r@ == environment_value(env@, variable@),
{
    let n = variable.unicode_len();
    if n > 0 && variable.get_char(0) == '$' {
        let name = variable.substring_char(1, n);
        assert(name@ == variable@.drop_first());
        if text_eq(name, "PWD") {
            match env.working_directory() {
                Some(d) => d,
                None => String::new(),
            }
        } else if is_known_environment_name(name) {
            match env.lookup(name) {
                Some(v) => v,
                None => String::new(),
            }
        } else {
            String::from_str(variable)
        }
    } else {
        String::from_str(variable)
    }
}

/// The shell's variables: each name holds a list of words.
pub struct Shell {
    variables: StringHashMap<Vec<String>>,
}

impl View for Shell {
    type V = Map<Seq<char>, Seq<Seq<char>>>;

    closed spec fn view(&self) -> Map<Seq<char>, Seq<Seq<char>>> {
        self.variables@.map_values(|v: Vec<String>| v.deep_view())
    }
}

/// The words that `input` expands to: `$NAME` gives the shell variable `NAME`
/// when it is set (all of its words), else the environment's value (see
/// [`environment_value`]); any other word stays as it is.
pub open spec fn expansion(
    vars: Map<Seq<char>, Seq<Seq<char>>>,
    env: EnvironmentView,
    input: Seq<char>,
) -> Seq<Seq<char>> {
    if input.len() > 0 && input[0] == '$' && vars.contains_key(input.drop_first()) {
        vars[input.drop_first()]
    } else {
        seq![environment_value(env, input)]
    }
}

impl Shell {
    /// A shell with no variables.
    pub fn new() -> (shell: Self)
        ensures
            shell@ == Map::<Seq<char>, Seq<Seq<char>>>::empty(),
    {
        let shell = Shell { variables: StringHashMap::new() };
        assert(shell@ =~= Map::<Seq<char>, Seq<Seq<char>>>::empty());
        shell
    }

    /// Sets the variable `name` to the words `value`, replacing any earlier value.
    pub fn set_variable(&mut self, name: &str, value: Vec<String>)
        ensures
            final(self)@ == old(self)@.insert(name@, value.deep_view()),
    {
        let key = String::from_str(name);
        self.variables.insert(key, value);
        assert(self@ =~= old(self)@.insert(name@, value.deep_view()));
    }

    /// The words held by the variable `name`, if it is set.
    pub fn get_variable(&self, name: &str) -> (r: Option<&Vec<String>>)
        ensures
            match r {
                Some(v) => self@.contains_key(name@) && v.deep_view() == self@[name@],
                None => !self@.contains_key(name@),
            },
    {
        self.variables.get(name)
    }

    /// Expands one word: `$NAME` becomes the words of the shell variable `NAME`
    /// when it is set, else its value from the environment; other words stay.
    pub fn expand(&self, input: &str, env: &Environment) -> (words: Vec<String>)
        ensures
            words.deep_view() == expansion(self@, env@, input@),
    {
        let n = input.unicode_len();
        if n > 0 && input.get_char(0) == '$' {
            let name = input.substring_char(1, n);
            assert(name@ == input@.drop_first());
            if let Some(value) = self.get_variable(name) {
                return value.clone();
            }
            let v = vec![expand_environment_variable(input, env)];
            assert(v.deep_view() =~= expansion(self@, env@, input@));
            return v;
        }
        let v = vec![String::from_str(input)];
        assert(v.deep_view() =~= expansion(self@, env@, input@));
        v
    }
}

/// A variable read back after it is set gives the words set, and setting one
/// variable leaves every other variable as it was.
pub proof fn lemma_variable_read_after_write(
    vars: Map<Seq<char>, Seq<Seq<char>>>,
    name: Seq<char>,
    value: Seq<Seq<char>>,
    other: Seq<char>,
)
    ensures
        vars.insert(name, value).contains_key(name),
        vars.insert(name, value)[name] == value,
        other != name ==> vars.insert(name, value).contains_key(other) == vars.contains_key(other),
        other != name && vars.contains_key(other) ==> vars.insert(name, value)[other]
            == vars[other],
{
}

/// After the variable `name` is set to `value`, the word `$name` expands to
/// exactly the words of `value`, whatever the environment holds.
pub proof fn lemma_expansion_reads_variable(
    vars: Map<Seq<char>, Seq<Seq<char>>>,
    env: EnvironmentView,
    name: Seq<char>,
    value: Seq<Seq<char>>,
)
    ensures
        expansion(vars.insert(name, value), env, seq!['$'] + name) == value,
{
    assert((seq!['$'] + name).drop_first() =~= name);
}

/// A word that does not start with `$` expands to itself.
pub proof fn lemma_plain_word_expands_to_itself(
    vars: Map<Seq<char>, Seq<Seq<char>>>,
    env: EnvironmentView,
    word: Seq<char>,
)
    requires
        word.len() == 0 || word[0] != '$',
    ensures
        expansion(vars, env, word) == seq![word],
{
}

/// The variables after setting `names[k]` to `values[k]`, for each `k` in order,
/// starting from `vars`.
pub open spec fn after_writes(
    vars: Map<Seq<char>, Seq<Seq<char>>>,
    names: Seq<Seq<char>>,
    values: Seq<Seq<Seq<char>>>,
) -> Map<Seq<char>, Seq<Seq<char>>>
    decreases names.len(),
{
    if names.len() == 0 {
        vars
    } else {
        after_writes(vars, names.drop_last(), values.drop_last()).insert(
            names.last(),
            values[names.len() - 1],
        )
    }
}

/// The position of the last `name` in `names`, or -1.
pub open spec fn last_write(names: Seq<Seq<char>>, name: Seq<char>) -> int
    decreases names.len(),
{
    if names.len() == 0 {
        -1
    } else if names.last() == name {
        names.len() - 1
    } else {
        last_write(names.drop_last(), name)
    }
}

/// After a sequence of writes, a variable holds the value of the last write
/// to it; a variable that none of them wrote keeps what it held before (on a
/// new shell: it is not set).
pub proof fn lemma_variable_read_after_writes(
    vars: Map<Seq<char>, Seq<Seq<char>>>,
    names: Seq<Seq<char>>,
    values: Seq<Seq<Seq<char>>>,
    name: Seq<char>,
)
    requires
        names.len() == values.len(),
    ensures
        ({
            let r = after_writes(vars, names, values);
            let j = last_write(names, name);
            &&& -1 <= j < names.len()
            &&& j >= 0 ==> r.contains_key(name) && r[name] == values[j]
            &&& j < 0 ==> r.contains_key(name) == vars.contains_key(name)
            &&& j < 0 && vars.contains_key(name) ==> r[name] == vars[name]
        }),
    decreases names.len(),
{
    if names.len() > 0 {
        lemma_variable_read_after_writes(vars, names.drop_last(), values.drop_last(), name);
        if names.last() != name {
            let j = last_write(names.drop_last(), name);
            if j >= 0 {
                assert(values.drop_last()[j] == values[j]);
            }
        }
    }
}

/// With no shell variable of that name, `$HOME`, `$USER`, `$SHELL`, `$OLDPWD`,
/// `$LANG`, `$TERM`, `$EDITOR`, `$VISUAL`, `$HOSTNAME`, `$LOGNAME`, `$TMPDIR`,
/// `$XDG_CONFIG_HOME`, `$XDG_DATA_HOME`, `$XDG_CACHE_HOME` and `$XDG_RUNTIME_DIR`
/// each expand to the one word that the environment holds for the name, or to
/// the empty word when the environment does not hold it.
pub proof fn lemma_environment_names_expand(
    vars: Map<Seq<char>, Seq<Seq<char>>>,
    env: EnvironmentView,
    name: Seq<char>,
)
    requires
        !vars.contains_key(name),
        ({
            ||| name == "HOME"@
            ||| name == "USER"@
            ||| name == "SHELL"@
            ||| name == "OLDPWD"@
            ||| name == "LANG"@
            ||| name == "TERM"@
            ||| name == "EDITOR"@
            ||| name == "VISUAL"@
            ||| name == "HOSTNAME"@
            ||| name == "LOGNAME"@
            ||| name == "TMPDIR"@
            ||| name == "XDG_CONFIG_HOME"@
            ||| name == "XDG_DATA_HOME"@
            ||| name == "XDG_CACHE_HOME"@
            ||| name == "XDG_RUNTIME_DIR"@
        }),
    ensures
        expansion(vars, env, seq!['$'] + name) == seq![
            if env.variables.contains_key(name) {
                env.variables[name]
            } else {
                seq![]
            },
        ],
{
    reveal_strlit("PWD");
    reveal_strlit("HOME");
    reveal_strlit("USER");
    reveal_strlit("SHELL");
    reveal_strlit("OLDPWD");
    reveal_strlit("LANG");
    reveal_strlit("TERM");
    reveal_strlit("EDITOR");
    reveal_strlit("VISUAL");
    reveal_strlit("HOSTNAME");
    reveal_strlit("LOGNAME");
    reveal_strlit("TMPDIR");
    reveal_strlit("XDG_CONFIG_HOME");
    reveal_strlit("XDG_DATA_HOME");
    reveal_strlit("XDG_CACHE_HOME");
    reveal_strlit("XDG_RUNTIME_DIR");
    assert((seq!['$'] + name).drop_first() =~= name);
    assert(name != "PWD"@) by {
        if name.len() == 3 {
            assert(name[0] != "PWD"@[0] || name[1] != "PWD"@[1]);
        }
    }
}

/// With no shell variable `PWD`, `$PWD` expands to the working directory, or
/// to the empty word when it could not be read.
pub proof fn lemma_pwd_expands_to_working_directory(
    vars: Map<Seq<char>, Seq<Seq<char>>>,
    env: EnvironmentView,
)
    requires
        !vars.contains_key("PWD"@),
    ensures
        expansion(vars, env, seq!['$'] + "PWD"@) == seq![
            match env.working_directory {
                Some(d) => d,
                None => seq![],
            },
        ],
{
    assert((seq!['$'] + "PWD"@).drop_first() =~= "PWD"@);
}

/// `$name` for a name that is no shell variable, not `PWD` and none of the
/// environment names above stays as it is.
pub proof fn lemma_other_names_stay(
    vars: Map<Seq<char>, Seq<Seq<char>>>,
    env: EnvironmentView,
    name: Seq<char>,
)
    requires
        !vars.contains_key(name),
        name != "PWD"@,
        name != "HOME"@,
        name != "USER"@,
        name != "SHELL"@,
        name != "OLDPWD"@,
        name != "LANG"@,
        name != "TERM"@,
        name != "EDITOR"@,
        name != "VISUAL"@,
        name != "HOSTNAME"@,
        name != "LOGNAME"@,
        name != "TMPDIR"@,
        name != "XDG_CONFIG_HOME"@,
        name != "XDG_DATA_HOME"@,
        name != "XDG_CACHE_HOME"@,
        name != "XDG_RUNTIME_DIR"@,
    ensures
        expansion(vars, env, seq!['$'] + name) == seq![seq!['$'] + name],
{
    assert((seq!['$'] + name).drop_first() =~= name);
}

} // verus!
