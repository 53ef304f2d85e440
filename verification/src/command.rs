//! Parsed command specifications.
//!
//! A configured command line, once tokenized, is an ordered token sequence:
//! zero or more leading `NAME=VALUE` environment assignments (every token
//! containing `=`), then the program (the first token without `=`), then the
//! program's arguments — including ones that happen to contain `=`. A command
//! must have a program; token sequences made only of assignments are rejected
//! when the configuration is loaded.

use vstd::prelude::*;
use vstd::string::StrSliceExecFns;

verus! {

/// True when the token is an environment assignment: it contains `=`.
pub open spec fn is_assignment(tok: Seq<char>) -> bool {
    tok.contains('=')
}

/// True when some token is a program token (contains no `=`).
pub open spec fn has_program(tokens: Seq<Seq<char>>) -> bool {
    exists|i: int| 0 <= i < tokens.len() && !is_assignment(tokens[i])
}

/// The index of the first token without `=`: the program token.
pub open spec fn program_index(tokens: Seq<Seq<char>>) -> int
    decreases tokens.len(),
{
    if tokens.len() == 0 {
        0
    } else if !is_assignment(tokens[0]) {
        0
    } else {
        1 + program_index(tokens.drop_first())
    }
}

/// The leading environment-assignment tokens.
pub open spec fn env_assignments(tokens: Seq<Seq<char>>) -> Seq<Seq<char>> {
    tokens.take(program_index(tokens))
}

/// The program token.
pub open spec fn program_of(tokens: Seq<Seq<char>>) -> Seq<char> {
    tokens[program_index(tokens)]
}

/// The argument tokens, everything after the program.
pub open spec fn args_of(tokens: Seq<Seq<char>>) -> Seq<Seq<char>> {
    tokens.skip(program_index(tokens) + 1)
}

/// The index of the first `=` in a token.
pub open spec fn eq_index(tok: Seq<char>) -> int
    decreases tok.len(),
{
    if tok.len() == 0 {
        0
    } else if tok[0] == '=' {
        0
    } else {
        1 + eq_index(tok.drop_first())
    }
}

/// The variable name of an assignment token: everything before the first `=`.
pub open spec fn assign_name(tok: Seq<char>) -> Seq<char> {
    tok.take(eq_index(tok))
}

/// The variable value of an assignment token: everything after the first `=`.
pub open spec fn assign_value(tok: Seq<char>) -> Seq<char> {
    tok.skip(eq_index(tok) + 1)
}

/// In an assignment token, the first `=` is inside the token, preceded by
/// `=`-free text.
pub proof fn lemma_eq_index(tok: Seq<char>)
    requires
        is_assignment(tok),
    ensures
        0 <= eq_index(tok) < tok.len(),
        tok[eq_index(tok)] == '=',
        forall|j: int| 0 <= j < eq_index(tok) ==> tok[j] != '=',
    decreases tok.len(),
{
    if tok.len() > 0 && tok[0] != '=' {
        let rest = tok.drop_first();
        assert(is_assignment(rest)) by {
            let i = choose|i: int| 0 <= i < tok.len() && tok[i] == '=';
            assert(rest[i - 1] == '=');
        }
        lemma_eq_index(rest);
        assert forall|j: int| 0 <= j < eq_index(tok) implies tok[j] != '=' by {
            if j > 0 {
                assert(rest[j - 1] != '=');
            }
        }
    }
}

/// An assignment token is exactly its name, `=`, and its value, in order.
pub proof fn lemma_assignment_rejoin(tok: Seq<char>)
    requires
        is_assignment(tok),
    ensures
        assign_name(tok) + seq!['='] + assign_value(tok) == tok,
{
    lemma_eq_index(tok);
    assert(assign_name(tok) + seq!['='] + assign_value(tok) =~= tok);
}

/// When a program token exists, the program index is the first index whose
/// token has no `=`.
pub proof fn lemma_program_index(tokens: Seq<Seq<char>>)
    requires
        has_program(tokens),
    ensures
        0 <= program_index(tokens) < tokens.len(),
        !is_assignment(tokens[program_index(tokens)]),
        forall|j: int| 0 <= j < program_index(tokens) ==> is_assignment(tokens[j]),
    decreases tokens.len(),
{
    if tokens.len() > 0 && is_assignment(tokens[0]) {
        let rest = tokens.drop_first();
        assert(has_program(rest)) by {
            let i = choose|i: int| 0 <= i < tokens.len() && !is_assignment(tokens[i]);
            assert(!is_assignment(rest[i - 1]));
        }
        lemma_program_index(rest);
        assert forall|j: int| 0 <= j < program_index(tokens) implies is_assignment(
            tokens[j],
        ) by {
            if j > 0 {
                assert(is_assignment(rest[j - 1]));
            }
        }
    }
}

/// Law: splitting a command's tokens into leading assignments, program and
/// arguments loses nothing — re-joined in order, they are exactly the tokens.
pub proof fn lemma_parts_rejoin(tokens: Seq<Seq<char>>)
    requires
        has_program(tokens),
    ensures
        env_assignments(tokens) + seq![program_of(tokens)] + args_of(tokens) == tokens,
        forall|i: int| 0 <= i < program_index(tokens) ==> assign_name(tokens[i]) + seq!['=']
            + assign_value(tokens[i]) == tokens[i],
{
    lemma_program_index(tokens);
    assert(env_assignments(tokens) + seq![program_of(tokens)] + args_of(tokens) =~= tokens);
    assert forall|i: int| 0 <= i < program_index(tokens) implies assign_name(tokens[i])
        + seq!['='] + assign_value(tokens[i]) == tokens[i] by {
        lemma_assignment_rejoin(tokens[i]);
    }
}

/// Finds the first `=` in a token, if any.
fn find_eq(tok: &str) -> (r: Option<usize>)
    ensures
        r is Some <==> is_assignment(tok@),
        r matches Some(i) ==> i == eq_index(tok@),
{
    let n = tok.unicode_len();
    let mut i: usize = 0;
    while i < n
        invariant
            n == tok@.len(),
            0 <= i <= n,
            forall|j: int| 0 <= j < i ==> tok@[j] != '=',
        decreases n - i,
    {
        if tok.get_char(i) == '=' {
            proof {
                assert(is_assignment(tok@)) by {
                    assert(tok@[i as int] == '=');
                }
                lemma_eq_index(tok@);
                assert(eq_index(tok@) == i) by {
                    let e = eq_index(tok@);
                    if e < i {
                        assert(tok@[e] != '=');
                    }
                }
            }
            return Some(i);
        }
        i = i + 1;
    }
    proof {
        assert(!is_assignment(tok@)) by {
            if tok@.contains('=') {
                let k = choose|k: int| 0 <= k < tok@.len() && tok@[k] == '=';
                assert(tok@[k] != '=');
            }
        }
    }
    None
}

/// Splits an assignment token at its first `=` into name and value.
fn split_assignment(tok: &str) -> (r: (String, String))
    requires
        is_assignment(tok@),
    ensures
        r.0@ == assign_name(tok@),
        r.1@ == assign_value(tok@),
{
    proof {
        lemma_eq_index(tok@);
    }
    let i = match find_eq(tok) {
        Some(i) => i,
        None => unreached(),
    };
    let n = tok.unicode_len();
    let name = tok.substring_char(0, i).to_owned();
    let value = tok.substring_char(i + 1, n).to_owned();
    (name, value)
}

/// An ordered sequence of command-line tokens holding at least one program
/// token.
pub struct CommandSpec {
    tokens: Vec<String>,
}

impl View for CommandSpec {
    type V = Seq<Seq<char>>;

    closed spec fn view(&self) -> Seq<Seq<char>> {
        self.tokens.deep_view()
    }
}

impl Clone for CommandSpec {
    fn clone(&self) -> (r: Self)
        ensures
            r@ == self@,
    {
        proof {
            use_type_invariant(self);
        }
        let mut tokens: Vec<String> = Vec::new();
        let mut i: usize = 0;
        while i < self.tokens.len()
            invariant
                0 <= i <= self.tokens.len(),
                tokens@.len() == i,
                tokens.deep_view() =~~= self.tokens.deep_view().take(i as int),
            decreases self.tokens.len() - i,
        {
            tokens.push(self.tokens[i].clone());
            i = i + 1;
        }
        proof {
            assert(tokens.deep_view() =~~= self.tokens.deep_view());
        }
        CommandSpec { tokens }
    }
}

/// The program, arguments and environment assignments a command runs with.
pub struct CommandParts {
    /// The parsed leading `NAME=VALUE` assignments, split at the first `=`.
    pub env: Vec<(String, String)>,
    /// The program to execute.
    pub program: String,
    /// The program's arguments.
    pub args: Vec<String>,
}

impl CommandSpec {
    #[verifier::type_invariant]
    pub open spec fn inv(&self) -> bool {
        has_program(self@)
    }

    /// Accepts a token sequence as a command when some token is a program
    /// token.
    pub fn from_tokens(tokens: Vec<String>) -> (r: Option<CommandSpec>)
        ensures
            r is Some <==> has_program(tokens.deep_view()),
            r matches Some(c) ==> c@ == tokens.deep_view(),
    {
        let n = tokens.len();
        let mut i: usize = 0;
        while i < n
            invariant
                0 <= i <= n,
                n == tokens.len(),
                forall|j: int| 0 <= j < i ==> is_assignment(tokens.deep_view()[j]),
            decreases n - i,
        {
            if find_eq(tokens[i].as_str()).is_none() {
                proof {
                    assert(tokens.deep_view()[i as int] == tokens[i as int]@);
                    assert(has_program(tokens.deep_view())) by {
                        assert(!is_assignment(tokens.deep_view()[i as int]));
                    }
                }
                return Some(CommandSpec { tokens });
            }
            i = i + 1;
        }
        proof {
            assert(!has_program(tokens.deep_view())) by {
                if has_program(tokens.deep_view()) {
                    let k = choose|k: int|
                        0 <= k < tokens.deep_view().len() && !is_assignment(
                            tokens.deep_view()[k],
                        );
                    assert(is_assignment(tokens.deep_view()[k]));
                }
            }
        }
        None
    }

    /// The command's tokens.
    pub fn tokens(&self) -> (r: &Vec<String>)
        ensures
            r.deep_view() == self@,
    {
        &self.tokens
    }

    /// Splits the command into its leading environment assignments, its
    /// program, and its arguments.
    pub fn parts(&self) -> (r: CommandParts)
        ensures
            ({
                let t = self@;
                let p = program_index(t);
                &&& r.program@ == program_of(t)
                &&& r.args.deep_view() == args_of(t)
                &&& r.env.deep_view().len() == p
                &&& forall|i: int|
                    0 <= i < p ==> r.env.deep_view()[i].0 == assign_name(t[i])
                        && r.env.deep_view()[i].1 == assign_value(t[i])
            }),
    {
        proof {
            use_type_invariant(self);
            lemma_program_index(self@);
        }
        let ghost t = self@;
        let n = self.tokens.len();
        let mut env: Vec<(String, String)> = Vec::new();
        let mut i: usize = 0;
        while i < n
            invariant_except_break
                0 <= i <= n,
            invariant
                n == self.tokens.len(),
                t == self@,
                has_program(t),
                forall|j: int| 0 <= j < i ==> is_assignment(t[j]),
                env@.len() == i,
                env.deep_view().len() == i,
                forall|j: int|
                    0 <= j < i ==> env.deep_view()[j].0 == assign_name(t[j])
                        && env.deep_view()[j].1 == assign_value(t[j]),
            ensures
                0 <= i < n,
                !is_assignment(t[i as int]),
                forall|j: int| 0 <= j < i ==> is_assignment(t[j]),
            decreases n - i,
        {
            proof {
                assert(t[i as int] == self.tokens[i as int]@);
            }
            match find_eq(self.tokens[i].as_str()) {
                None => {
                    break ;
                },
                Some(_) => {
                    let pair = split_assignment(self.tokens[i].as_str());
                    env.push(pair);
                    i = i + 1;
                },
            }
            proof {
                if i == n {
                    lemma_program_index(t);
                    assert(is_assignment(t[program_index(t)]));
                }
            }
        }
        proof {
            assert(program_index(t) == i) by {
                lemma_program_index(t);
                let p = program_index(t);
                if p < i {
                    assert(is_assignment(t[p]));
                } else if p > i {
                    assert(is_assignment(t[i as int]));
                }
            }
        }
        let program = self.tokens[i].clone();
        let mut args: Vec<String> = Vec::new();
        let mut j: usize = i + 1;
        while j < n
            invariant
                i + 1 <= j <= n,
                n == self.tokens.len(),
                t == self@,
                args@.len() == j - i - 1,
                args.deep_view() =~~= t.subrange(i + 1, j as int),
            decreases n - j,
        {
            args.push(self.tokens[j].clone());
            proof {
                assert(args.deep_view() =~~= t.subrange(i + 1, j + 1));
            }
            j = j + 1;
        }
        proof {
            assert(args.deep_view() =~~= args_of(t));
        }
        CommandParts { env, program, args }
    }
}

/// The environment mapping that an ordered list of `(name, value)` pairs
/// produces when applied left to right: a later pair for the same name wins.
pub open spec fn env_map(pairs: Seq<(Seq<char>, Seq<char>)>) -> Map<Seq<char>, Seq<char>>
    decreases pairs.len(),
{
    if pairs.len() == 0 {
        Map::empty()
    } else {
        env_map(pairs.drop_last()).insert(pairs.last().0, pairs.last().1)
    }
}

/// Law: applying two pair lists in order overlays the second mapping over the
/// first — the command's own assignments take precedence over inherited
/// variables.
pub proof fn lemma_env_map_concat(a: Seq<(Seq<char>, Seq<char>)>, b: Seq<(Seq<char>, Seq<char>)>)
    ensures
        env_map(a + b) == env_map(a).union_prefer_right(env_map(b)),
    decreases b.len(),
{
    if b.len() == 0 {
        assert(a + b =~= a);
        assert(env_map(a).union_prefer_right(env_map(b)) =~= env_map(a));
    } else {
        assert((a + b).drop_last() =~= a + b.drop_last());
        lemma_env_map_concat(a, b.drop_last());
        assert((a + b).last() == b.last());
        assert(env_map(a).union_prefer_right(env_map(b.drop_last())).insert(
            b.last().0,
            b.last().1,
        ) =~= env_map(a).union_prefer_right(env_map(b)));
    }
}

/// The environment-variable names a child process may inherit from the
/// daemon's own environment.
pub fn inherited_env_names() -> (r: Vec<&'static str>)
    ensures
        r.deep_view() =~= seq!["HOME"@, "PATH"@, "USER"@, "SHELL"@, "TERM"@],
{
    let mut names: Vec<&'static str> = Vec::new();
    names.push("HOME");
    names.push("PATH");
    names.push("USER");
    names.push("SHELL");
    names.push("TERM");
    names
}

/// Builds the child environment: the inherited allow-list pairs first, then
/// the command's own assignments, so that the latter take precedence.
pub fn build_child_env(inherited: &Vec<(String, String)>, assignments: &Vec<(String, String)>) -> (r:
    Vec<(String, String)>)
    ensures
        r.deep_view() == inherited.deep_view() + assignments.deep_view(),
        env_map(r.deep_view()) == env_map(inherited.deep_view()).union_prefer_right(
            env_map(assignments.deep_view()),
        ),
{
    let mut out: Vec<(String, String)> = Vec::new();
    let mut i: usize = 0;
    while i < inherited.len()
        invariant
            0 <= i <= inherited.len(),
            out@.len() == i,
            out.deep_view() =~~= inherited.deep_view().take(i as int),
        decreases inherited.len() - i,
    {
        let name = inherited[i].0.clone();
        let value = inherited[i].1.clone();
        out.push((name, value));
        i = i + 1;
    }
    let mut j: usize = 0;
    while j < assignments.len()
        invariant
            0 <= j <= assignments.len(),
            out@.len() == inherited@.len() + j,
            out.deep_view() =~~= inherited.deep_view() + assignments.deep_view().take(j as int),
        decreases assignments.len() - j,
    {
        let name = assignments[j].0.clone();
        let value = assignments[j].1.clone();
        out.push((name, value));
        proof {
            assert(inherited.deep_view().len() == inherited@.len());
            assert(assignments.deep_view().len() == assignments@.len());
            assert(assignments.deep_view().take(j + 1) =~= assignments.deep_view().take(
                j as int,
            ).push(assignments.deep_view()[j as int]));
            let ghost lhs = out.deep_view();
            let ghost rhs = inherited.deep_view() + assignments.deep_view().take(j + 1);
            assert(lhs.len() == rhs.len());
            assert forall|k: int| 0 <= k < lhs.len() implies lhs[k] == rhs[k] by {
                assert(lhs[k] == out@[k].deep_view());
                if k < inherited@.len() + j {
                    assert(out@[k].deep_view() == (inherited.deep_view()
                        + assignments.deep_view().take(j as int))[k]);
                } else {
                    assert(out@[k] == (name, value));
                    assert(rhs[k] == assignments@[j as int].deep_view());
                }
            }
            assert(out.deep_view() =~~= inherited.deep_view() + assignments.deep_view().take(
                j + 1,
            ));
        }
        j = j + 1;
    }
    proof {
        assert(out.deep_view() =~~= inherited.deep_view() + assignments.deep_view());
        lemma_env_map_concat(inherited.deep_view(), assignments.deep_view());
    }
    out
}

} // verus!
