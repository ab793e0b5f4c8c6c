//! UTF-8, white space and letter case.

use vstd::prelude::*;
use vstd::utf8::{encode_utf8, valid_utf8};

verus! {

/// Bytes that were to be text are not UTF-8.
#[derive(Debug, Clone, Copy, PartialEq, Eq)]
pub struct Utf8Failure {
    /// How many bytes from the start are UTF-8.
    pub valid_up_to: usize,
    /// How many bytes after those are wrong, or `None` where the bytes end inside
    /// a character.
    pub error_len: Option<usize>,
}

/// The first `n` of `bytes` are UTF-8, and no longer beginning of them is.
pub open spec fn longest_valid_prefix(bytes: Seq<u8>, n: int) -> bool {
    &&& 0 <= n <= bytes.len()
    &&& valid_utf8(bytes.take(n))
    &&& forall|m: int| n < m <= bytes.len() ==> !valid_utf8(#[trigger] bytes.take(m))
}

/// What `Utf8Error::error_len` says of bytes that are not UTF-8: the length of the
/// wrong sequence after the beginning that is, or `None` where the bytes end inside
/// a character.
pub uninterp spec fn wrong_sequence_len(bytes: Seq<u8>) -> Option<usize>;

/// The failure is the one that these bytes give.
pub open spec fn is_failure_of(failure: Utf8Failure, bytes: Seq<u8>) -> bool {
    &&& longest_valid_prefix(bytes, failure.valid_up_to as int)
    &&& failure.error_len == wrong_sequence_len(bytes)
}

/// `std::str::from_utf8` succeeds exactly on UTF-8 and then returns the same
/// bytes as text. Its error tells how many bytes from the start are UTF-8, and the
/// length of the wrong sequence that follows them, or none where one to three bytes
/// are left that begin a character. How long a wrong sequence is taken to be
/// depends on the bytes alone.
#[verifier::external_body]
pub(crate) fn text_from_utf8(bytes: &[u8]) -> (text: Result<&str, Utf8Failure>)
    ensures
        match text {
            Ok(s) => valid_utf8(bytes@) && encode_utf8(s@) == bytes@,
            Err(e) => {
                &&& !valid_utf8(bytes@)
                &&& longest_valid_prefix(bytes@, e.valid_up_to as int)
                &&& e.error_len == wrong_sequence_len(bytes@)
                &&& e.error_len is None ==> 1 <= bytes@.len() - e.valid_up_to <= 3
            },
        },
{
    match std::str::from_utf8(bytes) {
        Ok(s) => Ok(s),
        Err(e) => Err(Utf8Failure { valid_up_to: e.valid_up_to(), error_len: e.error_len() }),
    }
}

/// The Unicode property `White_Space`.
pub open spec fn is_white_space(c: char) -> bool {
    ||| '\u{9}' <= c <= '\u{D}'
    ||| c == '\u{20}'
    ||| c == '\u{85}'
    ||| c == '\u{A0}'
    ||| c == '\u{1680}'
    ||| '\u{2000}' <= c <= '\u{200A}'
    ||| c == '\u{2028}'
    ||| c == '\u{2029}'
    ||| c == '\u{202F}'
    ||| c == '\u{205F}'
    ||| c == '\u{3000}'
}

/// The text without the white space that it starts with.
pub open spec fn trimmed_start(text: Seq<char>) -> Seq<char>
    decreases text.len(),
{
    if text.len() > 0 && is_white_space(text[0]) {
        trimmed_start(text.drop_first())
    } else {
        text
    }
}

/// The text without the white space that it ends with.
pub open spec fn trimmed_end(text: Seq<char>) -> Seq<char>
    decreases text.len(),
{
    if text.len() > 0 && is_white_space(text.last()) {
        trimmed_end(text.drop_last())
    } else {
        text
    }
}

/// The text without the white space around it.
pub open spec fn trimmed(text: Seq<char>) -> Seq<char> {
    trimmed_end(trimmed_start(text))
}

/// `str::trim` removes the characters with the Unicode property `White_Space`
/// from both ends.
pub assume_specification[ str::trim ](text: &str) -> (inner: &str)
    ensures
        inner@ == trimmed(text@),
;

/// The lower-case form of an ASCII letter, and every other character as it is.
pub open spec fn ascii_lower(c: char) -> char {
    if 'A' <= c <= 'Z' {
        (c as u32 + 32) as char
    } else {
        c
    }
}

/// The two texts differ at most in the case of ASCII letters.
pub open spec fn same_ignoring_case(a: Seq<char>, b: Seq<char>) -> bool {
    &&& a.len() == b.len()
    &&& forall|i: int| 0 <= i < a.len() ==> ascii_lower(#[trigger] a[i]) == ascii_lower(b[i])
}

/// `str::eq_ignore_ascii_case` compares two texts without regard to the case of
/// ASCII letters.
pub assume_specification[ str::eq_ignore_ascii_case ](a: &str, b: &str) -> (same: bool)
    ensures
        same == same_ignoring_case(a@, b@),
;

/// `String::push` appends one character.
pub assume_specification[ String::push ](text: &mut String, c: char)
    ensures
        final(text)@ == old(text)@.push(c),
;

/// `String::into_bytes` gives the UTF-8 form of the text.
pub assume_specification[ String::into_bytes ](text: String) -> (bytes: Vec<u8>)
    ensures
        bytes@ == encode_utf8(text@),
;

} // verus!
