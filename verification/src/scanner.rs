//! The bytes that the scanner tells apart.

use vstd::prelude::*;
use vstd::string::StringSliceAdditionalSpecFns;

verus! {

/// `0`.
pub const ZERO: u8 = 0x30;

/// `9`.
pub const NINE: u8 = 0x39;

/// `.`.
pub const POINT: u8 = 0x2e;

/// `_`.
pub const UNDERSCORE: u8 = 0x5f;

/// `/`.
pub const SLASH: u8 = 0x2f;

/// A decimal digit.
pub open spec fn is_digit(byte: u8) -> bool {
    0x30 <= byte <= 0x39
}

/// The value of a decimal digit.
pub open spec fn digit_value(byte: u8) -> nat
    recommends
        is_digit(byte),
{
    (byte - 0x30) as nat
}

/// A byte that a unit is made of: an ASCII letter or `/`.
pub open spec fn is_unit_byte(byte: u8) -> bool {
    (0x61 <= byte <= 0x7a) || (0x41 <= byte <= 0x5a) || byte == 0x2f
}

/// The byte `at` index `at`, or 0 behind the end.
pub open spec fn byte_at(bytes: Seq<u8>, at: int) -> u8 {
    if 0 <= at < bytes.len() {
        bytes[at]
    } else {
        0
    }
}

/// How many bytes the white-space character that starts at `at` takes up in UTF-8, or 0 where
/// none starts there.
///
/// White space is tab to carriage return (U+0009 to U+000D), the space, and beyond ASCII
/// U+0085, U+00A0, U+1680, U+2000 to U+200A, U+2028, U+2029, U+202F, U+205F and U+3000.
pub open spec fn whitespace_len(bytes: Seq<u8>, at: int) -> nat {
    let first = byte_at(bytes, at);
    let second = byte_at(bytes, at + 1);
    let third = byte_at(bytes, at + 2);
    if (0x09 <= first <= 0x0d) || first == 0x20 {
        1
    } else if first == 0xc2 && (second == 0x85 || second == 0xa0) {
        2
    } else if first == 0xe1 && second == 0x9a && third == 0x80 {
        3
    } else if first == 0xe2 && second == 0x80 && ((0x80 <= third <= 0x8a) || third == 0xa8 || third
        == 0xa9 || third == 0xaf) {
        3
    } else if first == 0xe2 && second == 0x81 && third == 0x9f {
        3
    } else if first == 0xe3 && second == 0x80 && third == 0x80 {
        3
    } else {
        0
    }
}

/// White space never runs past the end of the bytes, and never starts with a digit, a
/// unit byte, `.` or `_`.
pub proof fn lemma_whitespace_len(bytes: Seq<u8>, at: int)
    requires
        0 <= at,
    ensures
        at + whitespace_len(bytes, at) <= bytes.len() || whitespace_len(bytes, at) == 0,
        whitespace_len(bytes, at) <= 3,
        whitespace_len(bytes, at) > 0 ==> at < bytes.len() && !is_digit(bytes[at]) && !is_unit_byte(
            bytes[at],
        ) && bytes[at] != POINT && bytes[at] != UNDERSCORE,
{
}

/// The byte at `at`, or 0 behind the end.
fn get_byte(bytes: &[u8], at: usize) -> (byte: u8)
    ensures
        byte == byte_at(bytes@, at as int),
{
    if at < bytes.len() {
        bytes[at]
    } else {
        0
    }
}

/// [`whitespace_len`] of the character that starts at `at`.
pub fn whitespace_at(bytes: &[u8], at: usize) -> (len: usize)
    requires
        at < bytes@.len(),
    ensures
        len == whitespace_len(bytes@, at as int),
        at + len <= bytes@.len(),
{
    let first = bytes[at];
    if first < 0x80 {
        if (0x09 <= first && first <= 0x0d) || first == 0x20 {
            1
        } else {
            0
        }
    } else {
        let second = if at < usize::MAX {
            get_byte(bytes, at + 1)
        } else {
            0
        };
        let third = if at < usize::MAX - 1 {
            get_byte(bytes, at + 2)
        } else {
            0
        };
        if first == 0xc2 && (second == 0x85 || second == 0xa0) {
            2
        } else if first == 0xe1 && second == 0x9a && third == 0x80 {
            3
        } else if first == 0xe2 && second == 0x80 && ((0x80 <= third && third <= 0x8a) || third
            == 0xa8 || third == 0xa9 || third == 0xaf) {
            3
        } else if first == 0xe2 && second == 0x81 && third == 0x9f {
            3
        } else if first == 0xe3 && second == 0x80 && third == 0x80 {
            3
        } else {
            0
        }
    }
}

/// Whether the bytes from `start` up to `end` spell `name`.
pub fn spells(bytes: &[u8], start: usize, end: usize, name: &str) -> (same: bool)
    requires
        start <= end <= bytes@.len(),
    ensures
        same == (bytes@.subrange(start as int, end as int) == name.spec_bytes()),
{
    let wanted = name.as_bytes();
    if wanted.len() != end - start {
        return false;
    }
    let mut i: usize = 0;
    while i < wanted.len()
        invariant
            start <= end <= bytes@.len(),
            wanted@.len() == end - start,
            wanted@ == name.spec_bytes(),
            i <= wanted@.len(),
            forall|j: int| 0 <= j < i ==> bytes@[start + j] == wanted@[j],
        decreases wanted@.len() - i,
    {
        if bytes[start + i] != wanted[i] {
            assert(bytes@.subrange(start as int, end as int)[i as int] != wanted@[i as int]);
            return false;
        }
        i = i + 1;
    }
    assert(bytes@.subrange(start as int, end as int) =~= wanted@);
    true
}

} // verus!
