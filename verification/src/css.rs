//! The value that a double-quoted CSS string stands for, as the CSS
//! tokenizer reads it: escapes resolved, and refused where the string would
//! end early or break.

use vstd::prelude::*;
use crate::dom::opt_view;
use crate::text::{chars_of, string_of};

verus! {

/// `p` put before the value of `o`, if there is one.
pub open spec fn prepend(p: Seq<char>, o: Option<Seq<char>>) -> Option<Seq<char>> {
    match o {
        Some(x) => Some(p + x),
        None => None,
    }
}

/// A CSS newline: line feed, carriage return or form feed.
pub open spec fn is_css_newline(c: char) -> bool {
    c == '\n' || c == '\r' || c == '\x0C'
}

/// An ASCII hexadecimal digit.
pub open spec fn is_hex_digit(c: char) -> bool {
    ('0' <= c <= '9') || ('a' <= c <= 'f') || ('A' <= c <= 'F')
}

/// The value of a hexadecimal digit.
pub open spec fn hex_digit_value(c: char) -> nat {
    if '0' <= c <= '9' {
        (c as nat - '0' as nat) as nat
    } else if 'a' <= c <= 'f' {
        (c as nat - 'a' as nat + 10) as nat
    } else {
        (c as nat - 'A' as nat + 10) as nat
    }
}

/// How many hexadecimal digits, at most `n`, follow from position `j`.
pub open spec fn hex_run(s: Seq<char>, j: int, n: nat) -> nat
    decreases n,
{
    if n == 0 || j < 0 || j >= s.len() || !is_hex_digit(s[j]) {
        0
    } else {
        1 + hex_run(s, j + 1, (n - 1) as nat)
    }
}

/// The digits counted lie within `s`.
pub proof fn lemma_hex_run_within(s: Seq<char>, j: int, n: nat)
    requires
        0 <= j,
    ensures
        j + hex_run(s, j, n) <= s.len() || hex_run(s, j, n) == 0,
        hex_run(s, j, n) <= n,
    decreases n,
{
    if n > 0 && j < s.len() && is_hex_digit(s[j]) {
        lemma_hex_run_within(s, j + 1, (n - 1) as nat);
    }
}

/// The number that the `k` hexadecimal digits from position `j` spell.
pub open spec fn hex_value(s: Seq<char>, j: int, k: nat) -> nat
    decreases k,
{
    if k == 0 {
        0
    } else {
        hex_value(s, j, (k - 1) as nat) * 16 + hex_digit_value(s[j + k - 1])
    }
}

/// Sixteen to the power `k`.
pub open spec fn pow16(k: nat) -> nat
    decreases k,
{
    if k == 0 {
        1
    } else {
        16 * pow16((k - 1) as nat)
    }
}

/// Whether `v` is the code of a character: at most 0x10FFFF, not a surrogate.
pub open spec fn is_scalar_value(v: nat) -> bool {
    v <= 0x10FFFF && !(0xD800 <= v <= 0xDFFF)
}

/// The character that a hexadecimal escape of value `v` stands for: U+FFFD
/// for zero and for numbers that are no character.
pub open spec fn escaped_char(v: nat) -> char {
    if v == 0 || !is_scalar_value(v) {
        '\u{FFFD}'
    } else {
        v as char
    }
}

/// The position after a newline at `p`, a carriage return and line feed
/// counting as one.
pub open spec fn after_newline(s: Seq<char>, p: int) -> int {
    if s[p] == '\r' && p + 1 < s.len() && s[p + 1] == '\n' {
        p + 2
    } else {
        p + 1
    }
}

/// The position after the one white space character, if any, that ends a
/// hexadecimal escape at `p`.
pub open spec fn after_escape_space(s: Seq<char>, p: int) -> int {
    if p < s.len() && (s[p] == ' ' || s[p] == '\t') {
        p + 1
    } else if p < s.len() && is_css_newline(s[p]) {
        after_newline(s, p)
    } else {
        p
    }
}

/// The value of the characters of `s` from position `i` on, read as the body
/// of a double-quoted CSS string that the closing quote after `s` ends:
/// `None` where an unescaped quote would end it before, a newline would
/// break it, or a final backslash would escape the closing quote. A
/// backslash before a newline is dropped with it; before one to six
/// hexadecimal digits (and one white space after them) it stands for the
/// character of that code (U+FFFD for zero and for no character); before
/// NUL for U+FFFD; before any other character for that character. A NUL
/// stands for U+FFFD.
pub open spec fn css_string_from(s: Seq<char>, i: int) -> Option<Seq<char>>
    decreases s.len() - i,
{
    if i < 0 || i >= s.len() {
        Some(Seq::<char>::empty())
    } else {
        let c = s[i];
        if c == '"' || is_css_newline(c) {
            None
        } else if c == '\0' {
            prepend(seq!['\u{FFFD}'], css_string_from(s, i + 1))
        } else if c == '\\' {
            if i + 1 >= s.len() {
                None
            } else if is_css_newline(s[i + 1]) {
                css_string_from(s, after_newline(s, i + 1))
            } else if is_hex_digit(s[i + 1]) {
                let k = hex_run(s, i + 1, 6);
                proof {
                    lemma_hex_run_within(s, i + 1, 6);
                    assert(after_escape_space(s, i + 1 + k) > i);
                    assert(after_escape_space(s, i + 1 + k) <= s.len());
                }
                prepend(
                    seq![escaped_char(hex_value(s, i + 1, k))],
                    css_string_from(s, after_escape_space(s, i + 1 + k)),
                )
            } else if s[i + 1] == '\0' {
                prepend(seq!['\u{FFFD}'], css_string_from(s, i + 2))
            } else {
                prepend(seq![s[i + 1]], css_string_from(s, i + 2))
            }
        } else {
            prepend(seq![c], css_string_from(s, i + 1))
        }
    }
}

/// The value of `s` as the body of a double-quoted CSS string.
pub open spec fn css_string(s: Seq<char>) -> Option<Seq<char>> {
    css_string_from(s, 0)
}

proof fn lemma_pow16_small(k: nat)
    requires
        k <= 6,
    ensures
        pow16(k) <= 16777216,
{
    reveal_with_fuel(pow16, 7);
    if k == 0 {
    } else if k == 1 {
    } else if k == 2 {
    } else if k == 3 {
    } else if k == 4 {
    } else if k == 5 {
    } else {
    }
}

/// Calls `char::from_u32`: the contract claims that it gives the character
/// of code `v` when `v` is a character's code, and `None` otherwise, as its
/// documentation says.
#[verifier::external_body]
fn char_from_u32(v: u32) -> (r: Option<char>)
    ensures
        is_scalar_value(v as nat) ==> r == Some(v as char),
        !is_scalar_value(v as nat) ==> r is None,
{
    char::from_u32(v)
}

fn hex_digit(c: char) -> (b: bool)
    ensures
        b == is_hex_digit(c),
{
    ('0' <= c && c <= '9') || ('a' <= c && c <= 'f') || ('A' <= c && c <= 'F')
}

fn hex_digit_val(c: char) -> (v: u64)
    requires
        is_hex_digit(c),
    ensures
        v == hex_digit_value(c),
        v < 16,
{
    if '0' <= c && c <= '9' {
        (c as u32 - '0' as u32) as u64
    } else if 'a' <= c && c <= 'f' {
        (c as u32 - 'a' as u32 + 10) as u64
    } else {
        (c as u32 - 'A' as u32 + 10) as u64
    }
}

fn is_newline(c: char) -> (b: bool)
    ensures
        b == is_css_newline(c),
{
    c == '\n' || c == '\r' || c == '\x0C'
}

/// The value of `raw` as the body of a double-quoted CSS string, as
/// [`css_string`] says.
pub fn css_string_value(raw: &str) -> (r: Option<String>)
    ensures
        opt_view(r) == css_string(raw@),
{
    let s = chars_of(raw);
    let n = s.len();
    let mut out: Vec<char> = Vec::new();
    let mut i: usize = 0;
    assert(out@ + Seq::<char>::empty() == out@);
    while i < n
        invariant
            i <= n,
            n == s@.len(),
            s@ == raw@,
            css_string(s@) == prepend(out@, css_string_from(s@, i as int)),
        decreases n - i,
    {
        let ghost before = out@;
        let c = s[i];
        if c == '"' || is_newline(c) {
            return None;
        } else if c == '\0' {
            out.push('\u{FFFD}');
            i = i + 1;
        } else if c == '\\' {
            if i + 1 >= n {
                return None;
            }
            let d = s[i + 1];
            if is_newline(d) {
                if d == '\r' && i + 2 < n && s[i + 2] == '\n' {
                    i = i + 3;
                } else {
                    i = i + 2;
                }
            } else if hex_digit(d) {
                let mut k: usize = 0;
                let mut v: u64 = 0;
                while k < 6 && k < n - (i + 1) && hex_digit(s[i + 1 + k])
                    invariant
                        i + 1 < n,
                        n == s@.len(),
                        k <= 6,
                        k <= n - (i + 1),
                        hex_run(s@, i + 1, 6) == k + hex_run(s@, i + 1 + k, (6 - k) as nat),
                        v == hex_value(s@, i + 1, k as nat),
                        v < pow16(k as nat),
                    decreases 6 - k,
                {
                    proof {
                        lemma_pow16_small((k + 1) as nat);
                    }
                    let dv = hex_digit_val(s[i + 1 + k]);
                    v = v * 16 + dv;
                    k = k + 1;
                }
                proof {
                    lemma_pow16_small(k as nat);
                }
                let ch = if v == 0 {
                    '\u{FFFD}'
                } else {
                    match char_from_u32(v as u32) {
                        Some(ch) => ch,
                        None => '\u{FFFD}',
                    }
                };
                out.push(ch);
                let p = i + 1 + k;
                if p < n && (s[p] == ' ' || s[p] == '\t') {
                    i = p + 1;
                } else if p < n && is_newline(s[p]) {
                    if s[p] == '\r' && p + 1 < n && s[p + 1] == '\n' {
                        i = p + 2;
                    } else {
                        i = p + 1;
                    }
                } else {
                    i = p;
                }
            } else if d == '\0' {
                out.push('\u{FFFD}');
                i = i + 2;
            } else {
                out.push(d);
                i = i + 2;
            }
        } else {
            out.push(c);
            i = i + 1;
        }
        assert(css_string(s@) == prepend(out@, css_string_from(s@, i as int)));
    }
    Some(string_of(out.as_slice()))
}

} // verus!
