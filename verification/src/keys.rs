//! Translating a typed character under the shift modifier.

use vstd::prelude::*;

verus! {

/// The character produced when `ch` is typed with shift held, on a US
/// layout: digits and punctuation map to their shifted symbols, lower-case
/// letters to upper case, and anything else to itself.
pub open spec fn spec_shifted(ch: char) -> char {
    if ch == '1' {
        '!'
    } else if ch == '2' {
        '@'
    } else if ch == '3' {
        '#'
    } else if ch == '4' {
        '$'
    } else if ch == '5' {
        '%'
    } else if ch == '6' {
        '^'
    } else if ch == '7' {
        '&'
    } else if ch == '8' {
        '8'
    } else if ch == '9' {
        '('
    } else if ch == '0' {
        ')'
    } else if ch == '-' {
        '_'
    } else if ch == '=' {
        '+'
    } else if ch == '[' {
        '{'
    } else if ch == ']' {
        '}'
    } else if ch == '\\' {
        '|'
    } else if ch == ';' {
        ':'
    } else if ch == '\'' {
        '"'
    } else if ch == ',' {
        '<'
    } else if ch == '.' {
        '>'
    } else if ch == '/' {
        '?'
    } else if 'a' <= ch && ch <= 'z' {
        (((ch as u32) - 32) as u8) as char
    } else {
        ch
    }
}

/// The shifted form of `ch`: its shifted symbol for digits and punctuation,
/// its upper-case form for an ASCII lower-case letter, and `ch` itself
/// otherwise.
pub fn shifted_char(ch: char) -> (r: char)
    ensures
        r == spec_shifted(ch),
{
    match ch {
        '1' => '!',
        '2' => '@',
        '3' => '#',
        '4' => '$',
        '5' => '%',
        '6' => '^',
        '7' => '&',
        '8' => '8',
        '9' => '(',
        '0' => ')',
        '-' => '_',
        '=' => '+',
        '[' => '{',
        ']' => '}',
        '\\' => '|',
        ';' => ':',
        '\'' => '"',
        ',' => '<',
        '.' => '>',
        '/' => '?',
        other => {
            if 'a' <= other && other <= 'z' {
                (((other as u32) - 32) as u8) as char
            } else {
                other
            }
        },
    }
}

} // verus!
