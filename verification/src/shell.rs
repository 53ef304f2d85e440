//! Shell-style tokenization of configured command lines.
//!
//! Command lines in the configuration are split into tokens with POSIX
//! word-splitting rules (quoting, escaping, whitespace). The splitting itself
//! is done by an outside lexer; its result is named by [`shell_split`] and
//! everything downstream is stated over that name.

use vstd::prelude::*;

verus! {

/// The token sequence that POSIX shell-style word splitting yields for the
/// given text, or `None` when the text is erroneous (an unbalanced quote or a
/// trailing backslash). The result depends on the text alone.
pub uninterp spec fn shell_split(s: Seq<char>) -> Option<Seq<Seq<char>>>;

/// Relies on shlex::split: word-splits a command line under POSIX quoting and
/// escaping rules, and returns None exactly when the input is erroneous.
#[verifier::external_body]
pub(crate) fn tokenize(s: &str) -> (r: Option<Vec<String>>)
    ensures
        r is Some <==> shell_split(s@) is Some,
        r matches Some(v) ==> Some(v.deep_view()) == shell_split(s@),
{
    shlex::split(s)
}

} // verus!
