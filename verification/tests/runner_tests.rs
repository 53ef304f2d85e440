//! Scenario tests that really spawn the configured commands, driving the
//! library's handler decisions the way the daemon does.

use sock_trigger_cmd::command::{build_child_env, CommandSpec};
use sock_trigger_cmd::protocol::{
    after_dispatch, on_read_event, reject_bytes, ConnState, FrameBuffer, ReadEvent, ReadStep,
    RunOutcome,
};
use sock_trigger_cmd::registry::Registry;

fn registry_with(pairs: &[(&str, &str)]) -> Registry {
    let cfg: Vec<(String, String)> = pairs
        .iter()
        .map(|(k, v)| (k.to_string(), v.to_string()))
        .collect();
    Registry::load(cfg).ok().unwrap()
}

fn run_command(cmd: &CommandSpec, inherited: &Vec<(String, String)>) -> RunOutcome {
    let parts = cmd.parts();
    let env = build_child_env(inherited, &parts.env);
    let rt = tokio::runtime::Builder::new_current_thread()
        .enable_all()
        .build()
        .unwrap();
    rt.block_on(async move {
        let result = tokio::process::Command::new(&parts.program)
            .args(&parts.args)
            .env_clear()
            .envs(env.iter().map(|p| (p.0.clone(), p.1.clone())))
            .output()
            .await;
        match result {
            Ok(output) => match output.status.code() {
                Some(code) => RunOutcome::Exited(code),
                None => RunOutcome::SpawnFailed,
            },
            Err(_) => RunOutcome::SpawnFailed,
        }
    })
}

/// Drives one connection's worth of frames through the handler decisions,
/// spawning commands for real; returns the responses written, in order.
fn drive(reg: &Registry, stream: &[u8], halt_after_dispatch: bool) -> Vec<Vec<u8>> {
    let inherited: Vec<(String, String)> = Vec::new();
    let mut fb = FrameBuffer::new();
    fb.feed(stream);
    let mut responses: Vec<Vec<u8>> = Vec::new();
    loop {
        let frame = match fb.take_frame() {
            Some(f) => f,
            None => break,
        };
        match on_read_event(reg, &ReadEvent::Frame(frame)) {
            ReadStep::Dispatch(cmd) => {
                let halting = halt_after_dispatch;
                let outcome = run_command(&cmd, &inherited);
                let (resp, state) = after_dispatch(&outcome, halting);
                responses.push(resp);
                if state == ConnState::Closed {
                    break;
                }
            }
            ReadStep::Reject => {
                responses.push(reject_bytes());
            }
            ReadStep::Retry => {}
            ReadStep::AwaitNext => {}
            ReadStep::Close => break,
        }
    }
    responses
}

#[test]
fn env_assignment_applies_and_environment_is_isolated() {
    // The command sees FOO from its assignment and nothing the daemon did
    // not pass along: HOME is absent because the inherited list is empty.
    let reg = registry_with(&[(
        "check",
        "FOO=bar /bin/sh -c 'test \"$FOO\" = bar && test -z \"$HOME\"'",
    )]);
    let responses = drive(&reg, b"check\0", false);
    assert_eq!(responses, vec![vec![0x43, 0x00]]);
}

#[test]
fn assignment_overrides_inherited_value_when_spawned() {
    let reg = registry_with(&[("check", "FOO=bar /bin/sh -c 'test \"$FOO\" = bar'")]);
    let cmd = match on_read_event(&reg, &ReadEvent::Frame(b"check".to_vec())) {
        ReadStep::Dispatch(cmd) => cmd,
        _ => panic!("expected Dispatch"),
    };
    let inherited = vec![("FOO".to_string(), "inherited".to_string())];
    let outcome = run_command(&cmd, &inherited);
    assert_eq!(outcome, RunOutcome::Exited(0));
}

#[test]
fn false_yields_exit_code_one() {
    let reg = registry_with(&[("fail", "/bin/false")]);
    let responses = drive(&reg, b"fail\0", false);
    assert_eq!(responses, vec![vec![0x43, 0x01]]);
}

#[test]
fn missing_executable_yields_spawn_failure() {
    let reg = registry_with(&[("ghost", "/no/such/binary-anywhere arg")]);
    let responses = drive(&reg, b"ghost\0", false);
    assert_eq!(responses, vec![vec![0x46]]);
}

#[test]
fn two_keys_on_one_connection_answer_in_order() {
    let reg = registry_with(&[("a", "/bin/true"), ("b", "/bin/false")]);
    let responses = drive(&reg, b"a\0b\0", false);
    assert_eq!(responses, vec![vec![0x43, 0x00], vec![0x43, 0x01]]);
}

#[test]
fn unknown_key_answers_reject_and_connection_stays_open() {
    let reg = registry_with(&[("a", "/bin/true")]);
    let responses = drive(&reg, b"nope\0a\0", false);
    assert_eq!(responses, vec![vec![0x58], vec![0x43, 0x00]]);
}

#[test]
fn invalid_text_answers_reject() {
    let reg = registry_with(&[("a", "/bin/true")]);
    let responses = drive(&reg, &[0xff, 0x00], false);
    assert_eq!(responses, vec![vec![0x58]]);
}

#[test]
fn shutdown_lets_the_running_command_finish_first() {
    // Shutdown is observed while the first command runs: its response is
    // still delivered, and the second key is never taken up.
    let reg = registry_with(&[("a", "/bin/true"), ("b", "/bin/false")]);
    let responses = drive(&reg, b"a\0b\0", true);
    assert_eq!(responses, vec![vec![0x43, 0x00]]);
}
