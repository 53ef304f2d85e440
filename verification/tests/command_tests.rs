use sock_trigger_cmd::command::{build_child_env, inherited_env_names, CommandSpec};
use sock_trigger_cmd::listener::{startup_path_action, PathAction};

fn spec_of(value: &str) -> CommandSpec {
    CommandSpec::from_tokens(shlex::split(value).unwrap()).unwrap()
}

fn pairs(ps: &[(&str, &str)]) -> Vec<(String, String)> {
    ps.iter().map(|(a, b)| (a.to_string(), b.to_string())).collect()
}

#[test]
fn parts_split_env_program_and_args() {
    let cmd = spec_of("FOO=bar BAZ=a=b /bin/echo one two=three");
    let parts = cmd.parts();
    assert_eq!(
        parts.env,
        pairs(&[("FOO", "bar"), ("BAZ", "a=b")])
    );
    assert_eq!(parts.program, "/bin/echo");
    assert_eq!(parts.args, vec!["one".to_string(), "two=three".to_string()]);
}

#[test]
fn parts_of_bare_program() {
    let cmd = spec_of("/bin/true");
    let parts = cmd.parts();
    assert!(parts.env.is_empty());
    assert_eq!(parts.program, "/bin/true");
    assert!(parts.args.is_empty());
}

#[test]
fn from_tokens_rejects_all_assignments() {
    assert!(CommandSpec::from_tokens(shlex::split("FOO=bar BAZ=qux").unwrap()).is_none());
    assert!(CommandSpec::from_tokens(Vec::new()).is_none());
}

#[test]
fn command_assignments_override_inherited_variables() {
    let inherited = pairs(&[("PATH", "/bin"), ("FOO", "inherited")]);
    let assignments = pairs(&[("FOO", "bar")]);
    let env = build_child_env(&inherited, &assignments);
    assert_eq!(
        env,
        pairs(&[("PATH", "/bin"), ("FOO", "inherited"), ("FOO", "bar")])
    );
    // Applied in order, the later pair for FOO wins.
    let mut last_foo = None;
    for (name, value) in env.iter() {
        if name == "FOO" {
            last_foo = Some(value.clone());
        }
    }
    assert_eq!(last_foo.unwrap(), "bar");
}

#[test]
fn inherited_allow_list_is_fixed() {
    assert_eq!(
        inherited_env_names(),
        vec!["HOME", "PATH", "USER", "SHELL", "TERM"]
    );
}

#[test]
fn startup_refuses_non_empty_regular_file() {
    assert_eq!(startup_path_action(true, true, 5), PathAction::Refuse);
}

#[test]
fn startup_removes_stale_artifacts() {
    assert_eq!(startup_path_action(true, false, 0), PathAction::RemoveThenBind);
    assert_eq!(startup_path_action(true, true, 0), PathAction::RemoveThenBind);
}

#[test]
fn startup_binds_directly_on_fresh_path() {
    assert_eq!(startup_path_action(false, false, 0), PathAction::Bind);
}
