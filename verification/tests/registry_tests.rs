use sock_trigger_cmd::registry::{ConfigError, Registry};

fn entries(pairs: &[(&str, &str)]) -> Vec<(String, String)> {
    pairs
        .iter()
        .map(|(k, v)| (k.to_string(), v.to_string()))
        .collect()
}

#[test]
fn load_round_trips_each_key_to_its_tokens() {
    let cfg = entries(&[
        ("alpha", "/bin/echo hello world"),
        ("beta", "FOO=bar /bin/true"),
        ("gamma", "/bin/sh -c 'echo \"a b\"'"),
    ]);
    let reg = Registry::load(cfg.clone()).ok().unwrap();
    for (k, v) in cfg.iter() {
        let cmd = reg.lookup(k).unwrap();
        assert_eq!(cmd.tokens().clone(), shlex::split(v).unwrap());
    }
}

#[test]
fn load_rejects_empty_configuration() {
    let e = Registry::load(Vec::new()).err().unwrap();
    assert!(matches!(e, ConfigError::Empty));
}

#[test]
fn load_rejects_invalid_key() {
    let cfg = entries(&[("alpha", "/bin/true"), ("", "/bin/true")]);
    let e = Registry::load(cfg).err().unwrap();
    match e {
        ConfigError::InvalidKey { key, reason } => {
            assert_eq!(key, "");
            assert_eq!(
                reason,
                sock_trigger_cmd::key::TryIntoNonEmptyNoNullStringErr::Empty
            );
        }
        _ => panic!("expected InvalidKey"),
    }
}

#[test]
fn load_rejects_unbalanced_quote() {
    let cfg = entries(&[("alpha", "/bin/echo \"unterminated")]);
    let e = Registry::load(cfg).err().unwrap();
    match e {
        ConfigError::CommandParse { value } => {
            assert_eq!(value, "/bin/echo \"unterminated");
        }
        _ => panic!("expected CommandParse"),
    }
}

#[test]
fn load_rejects_command_without_program() {
    let cfg = entries(&[("alpha", "FOO=bar BAZ=qux")]);
    let e = Registry::load(cfg).err().unwrap();
    match e {
        ConfigError::MissingProgram { value } => {
            assert_eq!(value, "FOO=bar BAZ=qux");
        }
        _ => panic!("expected MissingProgram"),
    }
}

#[test]
fn lookup_misses_unknown_key() {
    let cfg = entries(&[("alpha", "/bin/true")]);
    let reg = Registry::load(cfg).ok().unwrap();
    assert!(reg.lookup("beta").is_none());
    assert!(reg.lookup("").is_none());
}

#[test]
fn lookup_frame_matches_exact_key_bytes() {
    let cfg = entries(&[("alpha", "/bin/true")]);
    let reg = Registry::load(cfg).ok().unwrap();
    assert!(reg.lookup_frame(b"alpha").is_some());
    assert!(reg.lookup_frame(b"alph").is_none());
    assert!(reg.lookup_frame(b"alphaa").is_none());
    assert!(reg.lookup_frame(b"").is_none());
}

#[test]
fn lookup_frame_rejects_invalid_text() {
    let cfg = entries(&[("alpha", "/bin/true")]);
    let reg = Registry::load(cfg).ok().unwrap();
    assert!(reg.lookup_frame(&[0xff, 0xfe]).is_none());
    assert!(reg.lookup_frame(&[b'a', 0x80]).is_none());
}

#[test]
fn later_entry_wins_for_repeated_key() {
    let cfg = entries(&[("alpha", "/bin/true"), ("alpha", "/bin/false")]);
    let reg = Registry::load(cfg).ok().unwrap();
    let cmd = reg.lookup("alpha").unwrap();
    assert_eq!(cmd.tokens().clone(), vec!["/bin/false".to_string()]);
}

#[test]
fn rejoining_tokens_reproduces_an_equivalent_invocation() {
    let value = "FOO='b a r' /bin/echo 'hello world' plain";
    let cfg = entries(&[("alpha", value)]);
    let reg = Registry::load(cfg).ok().unwrap();
    let cmd = reg.lookup("alpha").unwrap();
    let tokens = cmd.tokens().clone();
    let joined = shlex::try_join(tokens.iter().map(|t| t.as_str())).unwrap();
    assert_eq!(shlex::split(&joined).unwrap(), tokens);
    assert_eq!(shlex::split(value).unwrap(), tokens);
}
