//! Validated request keys.
//!
//! A key names a configured command. The wire protocol frames each request
//! with a terminating null byte, so a key must be non-empty text whose UTF-8
//! encoding contains no null byte; only then can it travel in a frame.

use vstd::prelude::*;
use vstd::string::{StrSliceExecFns, StringExecFns};
use vstd::utf8::encode_utf8;

verus! {

/// True when no byte of the sequence is the frame delimiter (null).
pub open spec fn null_free(bytes: Seq<u8>) -> bool {
    forall|i: int| 0 <= i < bytes.len() ==> bytes[i] != 0u8
}

/// True when the text is usable as a key: non-empty, and its UTF-8 encoding
/// carries no null byte.
pub open spec fn key_ok(chars: Seq<char>) -> bool {
    chars.len() > 0 && null_free(encode_utf8(chars))
}

/// The relation between a rejected key and the error that names its defect:
/// `Empty` for the empty string, `HasNull(i)` for the position of the first
/// null byte in the key's encoding.
pub open spec fn key_error_for(chars: Seq<char>, e: TryIntoNonEmptyNoNullStringErr) -> bool {
    match e {
        TryIntoNonEmptyNoNullStringErr::Empty => chars.len() == 0,
        TryIntoNonEmptyNoNullStringErr::HasNull(i) => {
            let bytes = encode_utf8(chars);
            &&& 0 <= i < bytes.len()
            &&& bytes[i as int] == 0u8
            &&& forall|j: int| 0 <= j < i ==> bytes[j] != 0u8
        },
    }
}

/// A string that is non-empty and has no null bytes.
#[derive(Debug, Hash)]
pub struct NonEmptyNoNullString {
    inner: String,
}

impl Clone for NonEmptyNoNullString {
    fn clone(&self) -> (r: Self)
        ensures
            r@ == self@,
    {
        proof {
            use_type_invariant(self);
        }
        NonEmptyNoNullString { inner: self.inner.clone() }
    }
}

/// The error returned when an empty or null-containing string is passed.
#[derive(Debug, Clone, Copy, Hash, PartialEq, Eq, Structural)]
pub enum TryIntoNonEmptyNoNullStringErr {
    /// The passed string is empty.
    Empty,
    /// The passed string has a null byte at the given location.
    HasNull(usize),
}

impl View for NonEmptyNoNullString {
    type V = Seq<char>;

    closed spec fn view(&self) -> Seq<char> {
        self.inner@
    }
}

impl NonEmptyNoNullString {
    #[verifier::type_invariant]
    pub open spec fn inv(&self) -> bool {
        key_ok(self@)
    }

    /// Validates a string as a key: rejects the empty string, and rejects a
    /// string whose encoding holds a null byte, naming the position of the
    /// first one.
    pub fn try_from(value: String) -> (r: Result<NonEmptyNoNullString, TryIntoNonEmptyNoNullStringErr>)
        ensures
            match r {
                Ok(k) => k@ == value@ && key_ok(value@),
                Err(e) => key_error_for(value@, e),
            },
            r is Err <==> !key_ok(value@),
    {
        let bytes: &[u8] = value.as_str().as_bytes();
        if bytes.len() == 0 {
            proof {
                lemma_encode_utf8_empty(value@);
            }
            return Err(TryIntoNonEmptyNoNullStringErr::Empty);
        }
        let mut i: usize = 0;
        while i < bytes.len()
            invariant
                0 <= i <= bytes@.len(),
                bytes@ == encode_utf8(value@),
                forall|j: int| 0 <= j < i ==> bytes@[j] != 0u8,
            decreases bytes@.len() - i,
        {
            if bytes[i] == 0u8 {
                return Err(TryIntoNonEmptyNoNullStringErr::HasNull(i));
            }
            i = i + 1;
        }
        proof {
            lemma_encode_utf8_empty(value@);
        }
        Ok(NonEmptyNoNullString { inner: value })
    }

    /// The key's text.
    pub fn as_ref(&self) -> (r: &str)
        ensures
            r@ == self@,
    {
        self.inner.as_str()
    }
}

/// Compares two strings by their bytes; equal bytes mean equal text.
pub fn str_eq(a: &str, b: &str) -> (r: bool)
    ensures
        r == (a@ == b@),
{
    let ab: &[u8] = a.as_bytes();
    let bb: &[u8] = b.as_bytes();
    if ab.len() != bb.len() {
        proof {
            assert(a@ != b@);
        }
        return false;
    }
    let mut i: usize = 0;
    while i < ab.len()
        invariant
            ab@ == encode_utf8(a@),
            bb@ == encode_utf8(b@),
            ab@.len() == bb@.len(),
            0 <= i <= ab@.len(),
            forall|j: int| 0 <= j < i ==> ab@[j] == bb@[j],
        decreases ab@.len() - i,
    {
        if ab[i] != bb[i] {
            proof {
                assert(a@ != b@);
            }
            return false;
        }
        i = i + 1;
    }
    proof {
        assert(encode_utf8(a@) =~= encode_utf8(b@));
        vstd::utf8::encode_utf8_decode_utf8(a@);
        vstd::utf8::encode_utf8_decode_utf8(b@);
    }
    true
}

impl PartialEq for NonEmptyNoNullString {
    fn eq(&self, other: &NonEmptyNoNullString) -> (r: bool) {
        str_eq(self.inner.as_str(), other.inner.as_str())
    }
}

impl vstd::std_specs::cmp::PartialEqSpecImpl for NonEmptyNoNullString {
    open spec fn obeys_eq_spec() -> bool {
        true
    }

    open spec fn eq_spec(&self, other: &NonEmptyNoNullString) -> bool {
        self@ == other@
    }
}

impl PartialEq<str> for NonEmptyNoNullString {
    fn eq(&self, other: &str) -> (r: bool) {
        str_eq(self.inner.as_str(), other)
    }
}

impl vstd::std_specs::cmp::PartialEqSpecImpl<str> for NonEmptyNoNullString {
    open spec fn obeys_eq_spec() -> bool {
        true
    }

    open spec fn eq_spec(&self, other: &str) -> bool {
        self@ == other@
    }
}

impl From<NonEmptyNoNullString> for String {
    fn from(nstr: NonEmptyNoNullString) -> (r: String) {
        nstr.inner
    }
}

impl vstd::std_specs::convert::FromSpecImpl<NonEmptyNoNullString> for String {
    open spec fn obeys_from_spec() -> bool {
        true
    }

    closed spec fn from_spec(t: NonEmptyNoNullString) -> String {
        t.inner
    }
}

/// What `String::from` returns for a key: the string carrying the key's text.
pub proof fn lemma_string_from_key(k: NonEmptyNoNullString)
    ensures
        (<String as vstd::std_specs::convert::FromSpec<NonEmptyNoNullString>>::from_spec(k))@
            == k@,
{
}

/// The decimal digit character for a value below ten.
pub open spec fn digit_char(d: nat) -> char {
    if d == 0 {
        '0'
    } else if d == 1 {
        '1'
    } else if d == 2 {
        '2'
    } else if d == 3 {
        '3'
    } else if d == 4 {
        '4'
    } else if d == 5 {
        '5'
    } else if d == 6 {
        '6'
    } else if d == 7 {
        '7'
    } else if d == 8 {
        '8'
    } else {
        '9'
    }
}

/// The decimal digits of a number, most significant first.
pub open spec fn dec_str(n: nat) -> Seq<char>
    decreases n,
{
    if n < 10 {
        seq![digit_char(n)]
    } else {
        dec_str(n / 10).push(digit_char(n % 10))
    }
}

/// The one-character text for a decimal digit.
fn digit_str(d: u8) -> (r: &'static str)
    requires
        d < 10,
    ensures
        r@ == seq![digit_char(d as nat)],
{
    proof {
        reveal_strlit("0");
        reveal_strlit("1");
        reveal_strlit("2");
        reveal_strlit("3");
        reveal_strlit("4");
        reveal_strlit("5");
        reveal_strlit("6");
        reveal_strlit("7");
        reveal_strlit("8");
        reveal_strlit("9");
    }
    let r: &'static str = match d {
        0 => "0",
        1 => "1",
        2 => "2",
        3 => "3",
        4 => "4",
        5 => "5",
        6 => "6",
        7 => "7",
        8 => "8",
        _ => "9",
    };
    proof {
        assert(r@ =~= seq![digit_char(d as nat)]);
    }
    r
}

/// Writes a number in decimal.
pub fn u64_to_dec(n: u64) -> (r: String)
    ensures
        r@ == dec_str(n as nat),
    decreases n,
{
    if n < 10 {
        digit_str(n as u8).to_owned()
    } else {
        let mut s = u64_to_dec(n / 10);
        s.append(digit_str((n % 10) as u8));
        proof {
            assert(s@ =~= dec_str(n as nat));
        }
        s
    }
}

impl TryIntoNonEmptyNoNullStringErr {
    /// Describes the error: the string was empty, or where its first null
    /// byte sits.
    pub fn message(&self) -> (r: String)
        ensures
            match *self {
                TryIntoNonEmptyNoNullStringErr::Empty => r@ == "Empty string"@,
                TryIntoNonEmptyNoNullStringErr::HasNull(i) => r@ == "String has null at "@
                    + dec_str(i as nat),
            },
    {
        match self {
            TryIntoNonEmptyNoNullStringErr::Empty => "Empty string".to_owned(),
            TryIntoNonEmptyNoNullStringErr::HasNull(i) => {
                let mut s = "String has null at ".to_owned();
                let digits = u64_to_dec(*i as u64);
                s.append(digits.as_str());
                s
            },
        }
    }
}

/// A char sequence is empty exactly when its UTF-8 encoding is empty.
pub proof fn lemma_encode_utf8_empty(chars: Seq<char>)
    ensures
        encode_utf8(chars).len() == 0 <==> chars.len() == 0,
{
    if chars.len() > 0 {
        vstd::utf8::char_is_scalar(chars[0]);
        assert(encode_utf8(chars) == vstd::utf8::encode_scalar(chars[0] as u32) + encode_utf8(
            chars.drop_first(),
        ));
        assert(vstd::utf8::encode_scalar(chars[0] as u32).len() >= 1);
    }
}

} // verus!
