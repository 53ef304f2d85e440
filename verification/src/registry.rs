//! The key registry.
//!
//! An immutable mapping from validated keys to parsed command specifications,
//! built once from the configuration's key/value pairs and then only read.
//! Loading is all-or-nothing: any malformed entry rejects the whole
//! configuration, and so does a configuration with no entries.

use crate::command::{has_program, CommandSpec};
use crate::key::{key_error_for, key_ok, str_eq, NonEmptyNoNullString, TryIntoNonEmptyNoNullStringErr};
use crate::shell::{shell_split, tokenize};
use vstd::prelude::*;
use vstd::string::StringSliceAdditionalSpecFns;
use vstd::utf8::{decode_utf8, valid_utf8};

verus! {

/// Why a configuration was rejected.
pub enum ConfigError {
    /// A key is empty or holds a null byte.
    InvalidKey { key: String, reason: TryIntoNonEmptyNoNullStringErr },
    /// A value cannot be shell-tokenized (an unbalanced quote, a trailing
    /// backslash).
    CommandParse { value: String },
    /// A value's tokens are all `NAME=VALUE` assignments: no program to run.
    MissingProgram { value: String },
    /// The configuration has no entries.
    Empty,
}

/// True when one configuration entry is acceptable: a valid key, a value
/// that shell-tokenizes, and a program token among the value's tokens.
pub open spec fn entry_ok(kv: (Seq<char>, Seq<char>)) -> bool {
    &&& key_ok(kv.0)
    &&& shell_split(kv.1) is Some
    &&& has_program(shell_split(kv.1)->0)
}

/// True when every entry before `n` is acceptable.
pub open spec fn entries_ok_upto(cfg: Seq<(Seq<char>, Seq<char>)>, n: int) -> bool {
    forall|i: int| 0 <= i < n ==> entry_ok(#[trigger] cfg[i])
}

/// True when the whole configuration is acceptable: at least one entry, all
/// of them acceptable.
pub open spec fn config_ok(cfg: Seq<(Seq<char>, Seq<char>)>) -> bool {
    cfg.len() > 0 && entries_ok_upto(cfg, cfg.len() as int)
}

/// The mapping an acceptable configuration denotes: each key maps to the
/// token sequence of its value; with a repeated key the later entry wins.
pub open spec fn config_map(cfg: Seq<(Seq<char>, Seq<char>)>) -> Map<Seq<char>, Seq<Seq<char>>>
    decreases cfg.len(),
{
    if cfg.len() == 0 {
        Map::empty()
    } else {
        config_map(cfg.drop_last()).insert(cfg.last().0, shell_split(cfg.last().1)->0)
    }
}

/// The mapping a stored entry list denotes; with a repeated key the later
/// entry wins.
pub open spec fn entry_list_map(s: Seq<(NonEmptyNoNullString, CommandSpec)>) -> Map<
    Seq<char>,
    Seq<Seq<char>>,
>
    decreases s.len(),
{
    if s.len() == 0 {
        Map::empty()
    } else {
        entry_list_map(s.drop_last()).insert(s.last().0@, s.last().1@)
    }
}

/// An immutable mapping from keys to commands, shared read-only by every
/// connection.
pub struct Registry {
    entries: Vec<(NonEmptyNoNullString, CommandSpec)>,
}

impl View for Registry {
    type V = Map<Seq<char>, Seq<Seq<char>>>;

    closed spec fn view(&self) -> Map<Seq<char>, Seq<Seq<char>>> {
        entry_list_map(self.entries@)
    }
}

/// A key that no entry carries is absent from the denoted mapping.
proof fn lemma_entry_list_map_absent(s: Seq<(NonEmptyNoNullString, CommandSpec)>, k: Seq<char>)
    requires
        forall|j: int| 0 <= j < s.len() ==> (#[trigger] s[j]).0@ != k,
    ensures
        !entry_list_map(s).contains_key(k),
    decreases s.len(),
{
    if s.len() > 0 {
        assert forall|j: int| 0 <= j < s.len() - 1 implies (#[trigger] s.drop_last()[j]).0@
            != k by {
            assert(s.drop_last()[j] == s[j]);
        }
        lemma_entry_list_map_absent(s.drop_last(), k);
    }
}

/// An entry whose key no later entry repeats decides the denoted mapping at
/// that key.
proof fn lemma_entry_list_map_present(
    s: Seq<(NonEmptyNoNullString, CommandSpec)>,
    k: Seq<char>,
    idx: int,
)
    requires
        0 <= idx < s.len(),
        s[idx].0@ == k,
        forall|j: int| idx < j < s.len() ==> (#[trigger] s[j]).0@ != k,
    ensures
        entry_list_map(s).contains_key(k),
        entry_list_map(s)[k] == s[idx].1@,
    decreases s.len(),
{
    if idx < s.len() - 1 {
        assert forall|j: int| idx < j < s.len() - 1 implies (#[trigger] s.drop_last()[j]).0@
            != k by {
            assert(s.drop_last()[j] == s[j]);
        }
        assert(s.drop_last()[idx] == s[idx]);
        lemma_entry_list_map_present(s.drop_last(), k, idx);
        assert(s.last().0@ != k);
    }
}

/// Relies on core::str::from_utf8: succeeds exactly on valid UTF-8, and the
/// returned text is a view of the given bytes.
#[verifier::external_body]
fn decode_text(bytes: &[u8]) -> (r: Option<&str>)
    ensures
        r is Some <==> valid_utf8(bytes@),
        r matches Some(s) ==> s.spec_bytes() == bytes@,
{
    core::str::from_utf8(bytes).ok()
}

impl Registry {
    /// Builds the registry from the configuration's key/value pairs, in
    /// order. Fails on the first unacceptable entry, or when there is none.
    pub fn load(entries: Vec<(String, String)>) -> (r: Result<Registry, ConfigError>)
        ensures
            ({
                let cfg = entries.deep_view();
                match r {
                    Ok(reg) => config_ok(cfg) && reg@ == config_map(cfg),
                    Err(ConfigError::Empty) => cfg.len() == 0,
                    Err(ConfigError::InvalidKey { key, reason }) => exists|i: int|
                        #![auto]
                        {
                            &&& 0 <= i < cfg.len()
                            &&& entries_ok_upto(cfg, i)
                            &&& key@ == cfg[i].0
                            &&& !key_ok(cfg[i].0)
                            &&& key_error_for(cfg[i].0, reason)
                        },
                    Err(ConfigError::CommandParse { value }) => exists|i: int|
                        #![auto]
                        {
                            &&& 0 <= i < cfg.len()
                            &&& entries_ok_upto(cfg, i)
                            &&& key_ok(cfg[i].0)
                            &&& value@ == cfg[i].1
                            &&& shell_split(cfg[i].1) is None
                        },
                    Err(ConfigError::MissingProgram { value }) => exists|i: int|
                        #![auto]
                        {
                            &&& 0 <= i < cfg.len()
                            &&& entries_ok_upto(cfg, i)
                            &&& key_ok(cfg[i].0)
                            &&& value@ == cfg[i].1
                            &&& shell_split(cfg[i].1) matches Some(t) && !has_program(t)
                        },
                }
            }),
            r is Err <==> !config_ok(entries.deep_view()),
    {
        let ghost cfg = entries.deep_view();
        if entries.len() == 0 {
            return Err(ConfigError::Empty);
        }
        let mut list: Vec<(NonEmptyNoNullString, CommandSpec)> = Vec::new();
        let mut i: usize = 0;
        while i < entries.len()
            invariant
                0 <= i <= entries.len(),
                cfg == entries.deep_view(),
                cfg.len() == entries.len(),
                entries_ok_upto(cfg, i as int),
                list@.len() == i,
                forall|j: int|
                    0 <= j < i ==> (#[trigger] list@[j]).0@ == cfg[j].0 && list@[j].1@
                        == shell_split(cfg[j].1)->0,
            decreases entries.len() - i,
        {
            proof {
                assert(cfg[i as int] == (entries@[i as int].0@, entries@[i as int].1@));
            }
            let key_string = entries[i].0.clone();
            let k = match NonEmptyNoNullString::try_from(key_string) {
                Ok(k) => k,
                Err(reason) => {
                    let key = entries[i].0.clone();
                    proof {
                        assert(!entry_ok(cfg[i as int]));
                    }
                    return Err(ConfigError::InvalidKey { key, reason });
                },
            };
            let toks = match tokenize(entries[i].1.as_str()) {
                Some(t) => t,
                None => {
                    let value = entries[i].1.clone();
                    proof {
                        assert(!entry_ok(cfg[i as int]));
                    }
                    return Err(ConfigError::CommandParse { value });
                },
            };
            let cmd = match CommandSpec::from_tokens(toks) {
                Some(c) => c,
                None => {
                    let value = entries[i].1.clone();
                    proof {
                        assert(!entry_ok(cfg[i as int]));
                    }
                    return Err(ConfigError::MissingProgram { value });
                },
            };
            list.push((k, cmd));
            i = i + 1;
        }
        proof {
            lemma_maps_agree(list@, cfg);
        }
        Ok(Registry { entries: list })
    }

    /// Looks a key up; with a repeated key the later entry wins, as in the
    /// denoted mapping.
    pub fn lookup(&self, key: &str) -> (r: Option<&CommandSpec>)
        ensures
            r is Some <==> self@.contains_key(key@),
            r matches Some(c) ==> c@ == self@[key@],
    {
        let mut i: usize = self.entries.len();
        while i > 0
            invariant
                0 <= i <= self.entries.len(),
                forall|j: int| i <= j < self.entries.len() ==> (#[trigger] self.entries@[j]).0@
                    != key@,
            decreases i,
        {
            i = i - 1;
            if str_eq(self.entries[i].0.as_ref(), key) {
                proof {
                    lemma_entry_list_map_present(self.entries@, key@, i as int);
                }
                return Some(&self.entries[i].1);
            }
        }
        proof {
            lemma_entry_list_map_absent(self.entries@, key@);
        }
        None
    }

    /// Looks up the key carried by a request frame's bytes. The frame matches
    /// an entry only when it decodes as text naming a registered key; bytes
    /// that are not valid UTF-8 match nothing.
    pub fn lookup_frame(&self, frame: &[u8]) -> (r: Option<&CommandSpec>)
        ensures
            r is Some <==> valid_utf8(frame@) && self@.contains_key(decode_utf8(frame@)),
            r matches Some(c) ==> c@ == self@[decode_utf8(frame@)],
    {
        match decode_text(frame) {
            Some(text) => {
                proof {
                    vstd::utf8::encode_utf8_decode_utf8(text@);
                }
                self.lookup(text)
            },
            None => None,
        }
    }
}

/// An entry whose key no later entry repeats decides the denoted mapping at
/// that key.
proof fn lemma_config_map_present(cfg: Seq<(Seq<char>, Seq<char>)>, k: Seq<char>, idx: int)
    requires
        0 <= idx < cfg.len(),
        cfg[idx].0 == k,
        forall|j: int| idx < j < cfg.len() ==> (#[trigger] cfg[j]).0 != k,
    ensures
        config_map(cfg).contains_key(k),
        config_map(cfg)[k] == shell_split(cfg[idx].1)->0,
    decreases cfg.len(),
{
    if idx < cfg.len() - 1 {
        assert forall|j: int| idx < j < cfg.len() - 1 implies (#[trigger] cfg.drop_last()[j]).0
            != k by {
            assert(cfg.drop_last()[j] == cfg[j]);
        }
        assert(cfg.drop_last()[idx] == cfg[idx]);
        lemma_config_map_present(cfg.drop_last(), k, idx);
        assert(cfg.last().0 != k);
    }
}

/// Law: in the mapping an acceptable configuration loads into, every key
/// whose entry no later entry repeats is present and maps to exactly the
/// token sequence of its configured value.
pub proof fn lemma_load_roundtrip(cfg: Seq<(Seq<char>, Seq<char>)>)
    requires
        config_ok(cfg),
    ensures
        forall|i: int|
            #![auto]
            (0 <= i < cfg.len() && (forall|j: int| i < j < cfg.len() ==> cfg[j].0 != cfg[i].0))
                ==> config_map(cfg).contains_key(cfg[i].0) && config_map(cfg)[cfg[i].0]
                == shell_split(cfg[i].1)->0,
{
    assert forall|i: int|
        #![auto]
        (0 <= i < cfg.len() && (forall|j: int| i < j < cfg.len() ==> cfg[j].0 != cfg[i].0))
            implies config_map(cfg).contains_key(cfg[i].0) && config_map(cfg)[cfg[i].0]
        == shell_split(cfg[i].1)->0 by {
        lemma_config_map_present(cfg, cfg[i].0, i);
    }
}

/// When stored entries mirror an acceptable configuration pairwise, the two
/// denoted mappings agree.
proof fn lemma_maps_agree(
    s: Seq<(NonEmptyNoNullString, CommandSpec)>,
    cfg: Seq<(Seq<char>, Seq<char>)>,
)
    requires
        s.len() == cfg.len(),
        forall|j: int|
            0 <= j < s.len() ==> (#[trigger] s[j]).0@ == cfg[j].0 && s[j].1@ == shell_split(
                cfg[j].1,
            )->0,
    ensures
        entry_list_map(s) == config_map(cfg),
    decreases s.len(),
{
    if s.len() > 0 {
        assert forall|j: int| 0 <= j < s.len() - 1 implies (#[trigger] s.drop_last()[j]).0@
            == cfg.drop_last()[j].0 && s.drop_last()[j].1@ == shell_split(
            cfg.drop_last()[j].1,
        )->0 by {
            assert(s.drop_last()[j] == s[j]);
            assert(cfg.drop_last()[j] == cfg[j]);
        }
        lemma_maps_agree(s.drop_last(), cfg.drop_last());
        assert(s.last() == s[s.len() - 1]);
        assert(cfg.last() == cfg[cfg.len() - 1]);
        assert(entry_list_map(s) =~= config_map(cfg));
    }
}

} // verus!
