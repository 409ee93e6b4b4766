//! Parsing standard JSON text back into values.
//!
//! The grammar is the host JSON grammar for the values this library models:
//! insignificant whitespace between tokens, the standard string escapes
//! (short escapes, `\/`, `\uXXXX` in either hexadecimal case, surrogate
//! pairs), and integer numbers. Number forms that only denote floating
//! point values (fractions, exponents) are outside the model and rejected,
//! as are integers beyond the signed 64-bit range.
//!
//! The specification-level parser below is a total function (bounded by
//! fuel); the executable parser is proved equal to it. The module
//! `parse_proofs` shows that the parser is complete for the printer: the
//! canonical text of every value parses back to exactly that value, so
//! every accepted text denotes the same value as its canonical re-encoding.
use vstd::prelude::*;
use crate::json::{JVal, Json, jprops_of, jvals_of};

verus! {

/// Whether a character is insignificant JSON whitespace.
pub open spec fn is_ws(c: char) -> bool {
    c == ' ' || c == '\t' || c == '\n' || c == '\r'
}

/// The index of the first non-whitespace character at or after `i`.
pub open spec fn sp_ws(s: Seq<char>, i: int) -> int
    decreases s.len() - i,
{
    if 0 <= i < s.len() && is_ws(s[i]) {
        sp_ws(s, i + 1)
    } else {
        i
    }
}

/// Skipping whitespace never moves backward and stays in range.
pub proof fn lemma_ws_bounds(s: Seq<char>, i: int)
    requires
        0 <= i <= s.len(),
    ensures
        i <= sp_ws(s, i) <= s.len(),
    decreases s.len() - i,
{
    if i < s.len() && is_ws(s[i]) {
        lemma_ws_bounds(s, i + 1);
    }
}

/// Skipping whitespace at a non-whitespace character stays put.
pub proof fn lemma_ws_stops(s: Seq<char>, i: int)
    requires
        0 <= i,
        i < s.len() ==> !is_ws(s[i]),
    ensures
        sp_ws(s, i) == i,
{
}

/// Whether a character is a decimal digit.
pub open spec fn is_digit(c: char) -> bool {
    48 <= c as u32 <= 57
}

/// The value of a decimal digit character.
pub open spec fn digit_val(c: char) -> int {
    c as u32 - 48
}

/// Whether a character is a hexadecimal digit, in either case.
pub open spec fn is_hex_digit(c: char) -> bool {
    is_digit(c) || 97 <= c as u32 <= 102 || 65 <= c as u32 <= 70
}

/// The value of a hexadecimal digit character.
pub open spec fn hex_digit_val(c: char) -> int {
    if is_digit(c) {
        digit_val(c)
    } else if 97 <= c as u32 {
        c as u32 - 87
    } else {
        c as u32 - 55
    }
}

/// Whether the four characters at `i` are hexadecimal digits.
pub open spec fn hex4_ok(s: Seq<char>, i: int) -> bool {
    is_hex_digit(s[i]) && is_hex_digit(s[i + 1]) && is_hex_digit(s[i + 2]) && is_hex_digit(
        s[i + 3],
    )
}

/// The value of the four hexadecimal digits at `i`.
pub open spec fn hex4_val(s: Seq<char>, i: int) -> int {
    4096 * hex_digit_val(s[i]) + 256 * hex_digit_val(s[i + 1]) + 16 * hex_digit_val(s[i + 2])
        + hex_digit_val(s[i + 3])
}

/// The character a short escape stands for.
pub open spec fn unescape_short(e: char) -> char {
    if e == '"' {
        '"'
    } else if e == '\\' {
        '\\'
    } else if e == '/' {
        '/'
    } else if e == 'b' {
        '\u{8}'
    } else if e == 't' {
        '\t'
    } else if e == 'n' {
        '\n'
    } else if e == 'f' {
        '\u{c}'
    } else {
        '\r'
    }
}

/// The character with a given code, for codes that are valid scalar values.
pub open spec fn code_point_char(code: int) -> char {
    choose|c: char| (#[trigger] (c as u32)) == code
}

/// The body of a JSON string literal starting at `i` (just after the opening
/// quote): the decoded content and the index just past the closing quote, or
/// nothing if the text is not a JSON string body. A high surrogate escape
/// must be followed by a low surrogate escape; the pair decodes to one
/// character.
pub open spec fn sp_str_body(s: Seq<char>, i: int) -> Option<(Seq<char>, int)>
    decreases s.len() - i,
{
    if i < 0 || i >= s.len() {
        None
    } else {
        let c = s[i];
        if c == '"' {
            Some((Seq::empty(), i + 1))
        } else if c == '\\' {
            if i + 1 < s.len() {
                let e = s[i + 1];
                if e == '"' || e == '\\' || e == '/' || e == 'b' || e == 'f' || e == 'n' || e == 'r'
                    || e == 't' {
                    match sp_str_body(s, i + 2) {
                        Some((rest, j)) => Some((seq![unescape_short(e)] + rest, j)),
                        None => None,
                    }
                } else if e == 'u' {
                    if i + 6 <= s.len() && hex4_ok(s, i + 2) {
                        let code = hex4_val(s, i + 2);
                        if 0xD800 <= code < 0xDC00 {
                            if i + 12 <= s.len() && s[i + 6] == '\\' && s[i + 7] == 'u' && hex4_ok(
                                s,
                                i + 8,
                            ) {
                                let code2 = hex4_val(s, i + 8);
                                if 0xDC00 <= code2 < 0xE000 {
                                    let combined = 0x10000 + (code - 0xD800) * 0x400 + (code2
                                        - 0xDC00);
                                    match sp_str_body(s, i + 12) {
                                        Some((rest, j)) => Some(
                                            (seq![code_point_char(combined)] + rest, j),
                                        ),
                                        None => None,
                                    }
                                } else {
                                    None
                                }
                            } else {
                                None
                            }
                        } else if 0xDC00 <= code < 0xE000 {
                            None
                        } else {
                            match sp_str_body(s, i + 6) {
                                Some((rest, j)) => Some((seq![code_point_char(code)] + rest, j)),
                                None => None,
                            }
                        }
                    } else {
                        None
                    }
                } else {
                    None
                }
            } else {
                None
            }
        } else if c as u32 >= 32 {
            match sp_str_body(s, i + 1) {
                Some((rest, j)) => Some((seq![c] + rest, j)),
                None => None,
            }
        } else {
            None
        }
    }
}

/// The index of the first non-digit character at or after `i`.
pub open spec fn sp_digits_end(s: Seq<char>, i: int) -> int
    decreases s.len() - i,
{
    if 0 <= i < s.len() && is_digit(s[i]) {
        sp_digits_end(s, i + 1)
    } else {
        i
    }
}

/// The value of the digits in `s[i .. j)`.
pub open spec fn digits_val(s: Seq<char>, i: int, j: int) -> int
    decreases j - i,
{
    if i < j {
        digits_val(s, i, j - 1) * 10 + digit_val(s[j - 1])
    } else {
        0
    }
}

/// A JSON integer starting at `i` (the first character is a minus sign or a
/// digit): the value and the index just past its digits, or nothing if the
/// digits have a leading zero or the value does not fit a signed 64-bit
/// integer.
pub open spec fn sp_int(s: Seq<char>, i: int) -> Option<(JVal, int)> {
    let d0 = if s[i] == '-' {
        i + 1
    } else {
        i
    };
    let j = sp_digits_end(s, d0);
    if j == d0 {
        None
    } else if s[d0] == '0' && j > d0 + 1 {
        None
    } else {
        let m = digits_val(s, d0, j);
        if s[i] == '-' {
            if m <= 0x8000_0000_0000_0000 {
                Some((JVal::Int((-m) as i64), j))
            } else {
                None
            }
        } else {
            if m <= 0x7fff_ffff_ffff_ffff {
                Some((JVal::Int(m as i64), j))
            } else {
                None
            }
        }
    }
}

/// A JSON value starting at or after `i`, leading whitespace skipped: the
/// value and the index just past its text. The fuel bounds the recursion;
/// any fuel of at least `vfuel(s, i)` gives the same answer.
pub open spec fn sp_value(s: Seq<char>, i: int, fuel: nat) -> Option<(JVal, int)>
    decreases fuel,
{
    let i1 = sp_ws(s, i);
    if fuel == 0 {
        None
    } else if i < 0 || i1 >= s.len() {
        None
    } else {
        let c = s[i1];
        if c == 'n' {
            if i1 + 4 <= s.len() && s[i1 + 1] == 'u' && s[i1 + 2] == 'l' && s[i1 + 3] == 'l' {
                Some((JVal::Null, i1 + 4))
            } else {
                None
            }
        } else if c == 't' {
            if i1 + 4 <= s.len() && s[i1 + 1] == 'r' && s[i1 + 2] == 'u' && s[i1 + 3] == 'e' {
                Some((JVal::Bool(true), i1 + 4))
            } else {
                None
            }
        } else if c == 'f' {
            if i1 + 5 <= s.len() && s[i1 + 1] == 'a' && s[i1 + 2] == 'l' && s[i1 + 3] == 's' && s[i1
                + 4] == 'e' {
                Some((JVal::Bool(false), i1 + 5))
            } else {
                None
            }
        } else if c == '"' {
            match sp_str_body(s, i1 + 1) {
                Some((content, j)) => Some((JVal::Str(content), j)),
                None => None,
            }
        } else if c == '-' || is_digit(c) {
            sp_int(s, i1)
        } else if c == '[' {
            let a = sp_ws(s, i1 + 1);
            if a < s.len() && s[a] == ']' {
                Some((JVal::Arr(Seq::empty()), a + 1))
            } else {
                match sp_value(s, i1 + 1, (fuel - 1) as nat) {
                    Some((v, j)) => match sp_arr_rest(s, j, (fuel - 1) as nat, seq![v]) {
                        Some((es, j2)) => Some((JVal::Arr(es), j2)),
                        None => None,
                    },
                    None => None,
                }
            }
        } else if c == '{' {
            let a = sp_ws(s, i1 + 1);
            if a < s.len() && s[a] == '}' {
                Some((JVal::Obj(Seq::empty()), a + 1))
            } else if a < s.len() && s[a] == '"' {
                match sp_str_body(s, a + 1) {
                    Some((name, jn)) => {
                        let d = sp_ws(s, jn);
                        if d < s.len() && s[d] == ':' {
                            match sp_value(s, d + 1, (fuel - 1) as nat) {
                                Some((v, j2)) => match sp_obj_rest(
                                    s,
                                    j2,
                                    (fuel - 1) as nat,
                                    seq![(name, v)],
                                ) {
                                    Some((ps, j3)) => Some((JVal::Obj(ps), j3)),
                                    None => None,
                                },
                                None => None,
                            }
                        } else {
                            None
                        }
                    },
                    None => None,
                }
            } else {
                None
            }
        } else {
            None
        }
    }
}

/// The elements of an array after the first: `acc` holds what was parsed so
/// far, and `i` points at or before the comma or closing bracket.
pub open spec fn sp_arr_rest(s: Seq<char>, i: int, fuel: nat, acc: Seq<JVal>) -> Option<
    (Seq<JVal>, int),
>
    decreases fuel,
{
    let b = sp_ws(s, i);
    if fuel == 0 {
        None
    } else if i < 0 || b >= s.len() {
        None
    } else if s[b] == ']' {
        Some((acc, b + 1))
    } else if s[b] == ',' {
        match sp_value(s, b + 1, (fuel - 1) as nat) {
            Some((v, j)) => sp_arr_rest(s, j, (fuel - 1) as nat, acc.push(v)),
            None => None,
        }
    } else {
        None
    }
}

/// The members of an object after the first: `acc` holds what was parsed so
/// far, and `i` points at or before the comma or closing brace.
pub open spec fn sp_obj_rest(s: Seq<char>, i: int, fuel: nat, acc: Seq<(Seq<char>, JVal)>) -> Option<
    (Seq<(Seq<char>, JVal)>, int),
>
    decreases fuel,
{
    let b = sp_ws(s, i);
    if fuel == 0 {
        None
    } else if i < 0 || b >= s.len() {
        None
    } else if s[b] == '}' {
        Some((acc, b + 1))
    } else if s[b] == ',' {
        let a = sp_ws(s, b + 1);
        if a < s.len() && s[a] == '"' {
            match sp_str_body(s, a + 1) {
                Some((name, jn)) => {
                    let d = sp_ws(s, jn);
                    if d < s.len() && s[d] == ':' {
                        match sp_value(s, d + 1, (fuel - 1) as nat) {
                            Some((v, j2)) => sp_obj_rest(
                                s,
                                j2,
                                (fuel - 1) as nat,
                                acc.push((name, v)),
                            ),
                            None => None,
                        }
                    } else {
                        None
                    }
                },
                None => None,
            }
        } else {
            None
        }
    } else {
        None
    }
}

/// Fuel that is always enough for a value starting at `i`.
pub open spec fn vfuel(s: Seq<char>, i: int) -> nat {
    (2 * (s.len() - i) + 2) as nat
}

/// Fuel that is always enough for an array or object tail starting at `i`.
pub open spec fn rfuel(s: Seq<char>, i: int) -> nat {
    (2 * (s.len() - i) + 1) as nat
}

/// The parse of a whole text: one JSON value, possibly surrounded by
/// whitespace, and nothing else.
pub open spec fn parse_text(s: Seq<char>) -> Option<JVal> {
    match sp_value(s, 0, vfuel(s, 0)) {
        Some((v, j)) => if sp_ws(s, j) == s.len() {
            Some(v)
        } else {
            None
        },
        None => None,
    }
}

/// A successful string-body parse moves strictly forward and stays in range.
pub proof fn lemma_str_body_progress(s: Seq<char>, i: int)
    ensures
        sp_str_body(s, i) matches Some((c, j)) ==> i < j <= s.len(),
    decreases s.len() - i,
{
    if 0 <= i < s.len() {
        if i + 1 <= s.len() {
            lemma_str_body_progress(s, i + 1);
        }
        if i + 2 <= s.len() {
            lemma_str_body_progress(s, i + 2);
        }
        if i + 6 <= s.len() {
            lemma_str_body_progress(s, i + 6);
        }
        if i + 12 <= s.len() {
            lemma_str_body_progress(s, i + 12);
        }
    }
}

/// Where the digits starting at `i` end: never before `i`, never past the
/// text, exactly at the first non-digit.
pub proof fn lemma_digits_end(s: Seq<char>, i: int)
    requires
        0 <= i <= s.len(),
    ensures
        i <= sp_digits_end(s, i) <= s.len(),
        forall|k: int| i <= k < sp_digits_end(s, i) ==> is_digit(#[trigger] s[k]),
        sp_digits_end(s, i) < s.len() ==> !is_digit(s[sp_digits_end(s, i)]),
    decreases s.len() - i,
{
    if i < s.len() && is_digit(s[i]) {
        lemma_digits_end(s, i + 1);
    }
}

/// A successful value parse moves strictly forward and stays in range.
pub proof fn lemma_value_progress(s: Seq<char>, i: int, fuel: nat)
    ensures
        sp_value(s, i, fuel) matches Some((v, j)) ==> i + 1 <= j <= s.len(),
    decreases fuel, 0int,
{
    if fuel > 0 && 0 <= i <= s.len() {
        lemma_ws_bounds(s, i);
        let i1 = sp_ws(s, i);
        if i1 < s.len() {
            let c = s[i1];
            if c == '"' {
                lemma_str_body_progress(s, i1 + 1);
            } else if c == '-' || is_digit(c) {
                let d0 = if c == '-' {
                    i1 + 1
                } else {
                    i1
                };
                lemma_digits_end(s, d0);
            } else if c == '[' {
                lemma_ws_bounds(s, i1 + 1);
                lemma_value_progress(s, i1 + 1, (fuel - 1) as nat);
                match sp_value(s, i1 + 1, (fuel - 1) as nat) {
                    Some((v, j)) => {
                        lemma_arr_rest_progress(s, j, (fuel - 1) as nat, seq![v]);
                    },
                    None => {},
                }
            } else if c == '{' {
                lemma_ws_bounds(s, i1 + 1);
                let a = sp_ws(s, i1 + 1);
                if a < s.len() && s[a] == '"' {
                    lemma_str_body_progress(s, a + 1);
                    match sp_str_body(s, a + 1) {
                        Some((name, jn)) => {
                            lemma_ws_bounds(s, jn);
                            lemma_value_progress(s, sp_ws(s, jn) + 1, (fuel - 1) as nat);
                            match sp_value(s, sp_ws(s, jn) + 1, (fuel - 1) as nat) {
                                Some((v, j2)) => {
                                    lemma_obj_rest_progress(
                                        s,
                                        j2,
                                        (fuel - 1) as nat,
                                        seq![(name, v)],
                                    );
                                },
                                None => {},
                            }
                        },
                        None => {},
                    }
                }
            }
        }
    }
}

/// A successful array-tail parse moves strictly forward and stays in range.
pub proof fn lemma_arr_rest_progress(s: Seq<char>, i: int, fuel: nat, acc: Seq<JVal>)
    ensures
        sp_arr_rest(s, i, fuel, acc) matches Some((es, j)) ==> i + 1 <= j <= s.len(),
    decreases fuel, 1int,
{
    if fuel > 0 && 0 <= i <= s.len() {
        lemma_ws_bounds(s, i);
        let b = sp_ws(s, i);
        if b < s.len() && s[b] == ',' {
            lemma_value_progress(s, b + 1, (fuel - 1) as nat);
            match sp_value(s, b + 1, (fuel - 1) as nat) {
                Some((v, j)) => {
                    lemma_arr_rest_progress(s, j, (fuel - 1) as nat, acc.push(v));
                },
                None => {},
            }
        }
    }
}

/// A successful object-tail parse moves strictly forward and stays in range.
pub proof fn lemma_obj_rest_progress(s: Seq<char>, i: int, fuel: nat, acc: Seq<(Seq<char>, JVal)>)
    ensures
        sp_obj_rest(s, i, fuel, acc) matches Some((ps, j)) ==> i + 1 <= j <= s.len(),
    decreases fuel, 1int,
{
    if fuel > 0 && 0 <= i <= s.len() {
        lemma_ws_bounds(s, i);
        let b = sp_ws(s, i);
        if b < s.len() && s[b] == ',' {
            lemma_ws_bounds(s, b + 1);
            let a = sp_ws(s, b + 1);
            if a < s.len() && s[a] == '"' {
                lemma_str_body_progress(s, a + 1);
                match sp_str_body(s, a + 1) {
                    Some((name, jn)) => {
                        lemma_ws_bounds(s, jn);
                        lemma_value_progress(s, sp_ws(s, jn) + 1, (fuel - 1) as nat);
                        match sp_value(s, sp_ws(s, jn) + 1, (fuel - 1) as nat) {
                            Some((v, j2)) => {
                                lemma_obj_rest_progress(
                                    s,
                                    j2,
                                    (fuel - 1) as nat,
                                    acc.push((name, v)),
                                );
                            },
                            None => {},
                        }
                    },
                    None => {},
                }
            }
        }
    }
}

/// Any two fuels at or above `vfuel` give the same value parse.
pub proof fn lemma_value_fuel(s: Seq<char>, i: int, f1: nat, f2: nat)
    requires
        0 <= i,
        f1 >= vfuel(s, i),
        f2 >= vfuel(s, i),
    ensures
        sp_value(s, i, f1) == sp_value(s, i, f2),
    decreases f1 + f2, 0int,
{
    if i <= s.len() {
        lemma_ws_bounds(s, i);
        let i1 = sp_ws(s, i);
        if i1 < s.len() {
            let c = s[i1];
            if c == '[' {
                let a = sp_ws(s, i1 + 1);
                if !(a < s.len() && s[a] == ']') {
                    lemma_value_fuel(s, i1 + 1, (f1 - 1) as nat, (f2 - 1) as nat);
                    match sp_value(s, i1 + 1, (f1 - 1) as nat) {
                        Some((v, j)) => {
                            lemma_value_progress(s, i1 + 1, (f1 - 1) as nat);
                            lemma_arr_rest_fuel(s, j, (f1 - 1) as nat, (f2 - 1) as nat, seq![v]);
                        },
                        None => {},
                    }
                }
            } else if c == '{' {
                let a = sp_ws(s, i1 + 1);
                lemma_ws_bounds(s, i1 + 1);
                if !(a < s.len() && s[a] == '}') && a < s.len() && s[a] == '"' {
                    lemma_str_body_progress(s, a + 1);
                    match sp_str_body(s, a + 1) {
                        Some((name, jn)) => {
                            lemma_ws_bounds(s, jn);
                            let d = sp_ws(s, jn);
                            if d < s.len() && s[d] == ':' {
                                lemma_value_fuel(s, d + 1, (f1 - 1) as nat, (f2 - 1) as nat);
                                match sp_value(s, d + 1, (f1 - 1) as nat) {
                                    Some((v, j2)) => {
                                        lemma_value_progress(s, d + 1, (f1 - 1) as nat);
                                        lemma_obj_rest_fuel(
                                            s,
                                            j2,
                                            (f1 - 1) as nat,
                                            (f2 - 1) as nat,
                                            seq![(name, v)],
                                        );
                                    },
                                    None => {},
                                }
                            }
                        },
                        None => {},
                    }
                }
            }
        }
    }
}

/// Any two fuels at or above `rfuel` give the same array-tail parse.
pub proof fn lemma_arr_rest_fuel(s: Seq<char>, i: int, f1: nat, f2: nat, acc: Seq<JVal>)
    requires
        0 <= i,
        f1 >= rfuel(s, i),
        f2 >= rfuel(s, i),
    ensures
        sp_arr_rest(s, i, f1, acc) == sp_arr_rest(s, i, f2, acc),
    decreases f1 + f2, 1int,
{
    if i <= s.len() {
        lemma_ws_bounds(s, i);
        let b = sp_ws(s, i);
        if b < s.len() && s[b] == ',' {
            lemma_value_fuel(s, b + 1, (f1 - 1) as nat, (f2 - 1) as nat);
            match sp_value(s, b + 1, (f1 - 1) as nat) {
                Some((v, j)) => {
                    lemma_value_progress(s, b + 1, (f1 - 1) as nat);
                    lemma_arr_rest_fuel(s, j, (f1 - 1) as nat, (f2 - 1) as nat, acc.push(v));
                },
                None => {},
            }
        }
    }
}

/// Any two fuels at or above `rfuel` give the same object-tail parse.
pub proof fn lemma_obj_rest_fuel(s: Seq<char>, i: int, f1: nat, f2: nat, acc: Seq<(Seq<char>, JVal)>)
    requires
        0 <= i,
        f1 >= rfuel(s, i),
        f2 >= rfuel(s, i),
    ensures
        sp_obj_rest(s, i, f1, acc) == sp_obj_rest(s, i, f2, acc),
    decreases f1 + f2, 1int,
{
    if i <= s.len() {
        lemma_ws_bounds(s, i);
        let b = sp_ws(s, i);
        if b < s.len() && s[b] == ',' {
            lemma_ws_bounds(s, b + 1);
            let a = sp_ws(s, b + 1);
            if a < s.len() && s[a] == '"' {
                lemma_str_body_progress(s, a + 1);
                match sp_str_body(s, a + 1) {
                    Some((name, jn)) => {
                        lemma_ws_bounds(s, jn);
                        let d = sp_ws(s, jn);
                        if d < s.len() && s[d] == ':' {
                            lemma_value_fuel(s, d + 1, (f1 - 1) as nat, (f2 - 1) as nat);
                            match sp_value(s, d + 1, (f1 - 1) as nat) {
                                Some((v, j2)) => {
                                    lemma_value_progress(s, d + 1, (f1 - 1) as nat);
                                    lemma_obj_rest_fuel(
                                        s,
                                        j2,
                                        (f1 - 1) as nat,
                                        (f2 - 1) as nat,
                                        acc.push((name, v)),
                                    );
                                },
                                None => {},
                            }
                        }
                    },
                    None => {},
                }
            }
        }
    }
}

fn is_ws_exec(c: char) -> (r: bool)
    ensures
        r == is_ws(c),
{
    c == ' ' || c == '\t' || c == '\n' || c == '\r'
}

fn is_digit_exec(c: char) -> (r: bool)
    ensures
        r == is_digit(c),
{
    let u = c as u32;
    48 <= u && u <= 57
}

fn is_hex_exec(c: char) -> (r: bool)
    ensures
        r == is_hex_digit(c),
{
    let u = c as u32;
    (48 <= u && u <= 57) || (97 <= u && u <= 102) || (65 <= u && u <= 70)
}

fn hex_val_exec(c: char) -> (r: u32)
    requires
        is_hex_digit(c),
    ensures
        r == hex_digit_val(c),
        r < 16,
{
    let u = c as u32;
    if 48 <= u && u <= 57 {
        u - 48
    } else if 97 <= u {
        u - 87
    } else {
        u - 55
    }
}

fn unescape_short_exec(e: char) -> (r: char)
    requires
        e == '"' || e == '\\' || e == '/' || e == 'b' || e == 'f' || e == 'n' || e == 'r' || e
            == 't',
    ensures
        r == unescape_short(e),
{
    if e == '"' {
        '"'
    } else if e == '\\' {
        '\\'
    } else if e == '/' {
        '/'
    } else if e == 'b' {
        '\u{8}'
    } else if e == 't' {
        '\t'
    } else if e == 'n' {
        '\n'
    } else if e == 'f' {
        '\u{c}'
    } else {
        '\r'
    }
}

/// The whitespace skipper.
fn p_ws(s: &Vec<char>, i: usize) -> (r: usize)
    requires
        i <= s.len(),
    ensures
        r as int == sp_ws(s@, i as int),
        i <= r <= s.len(),
{
    let mut cur: usize = i;
    while cur < s.len() && is_ws_exec(s[cur])
        invariant
            i <= cur <= s.len(),
            sp_ws(s@, i as int) == sp_ws(s@, cur as int),
        decreases s.len() - cur,
    {
        cur = cur + 1;
    }
    cur
}

/// Read four hexadecimal digits at `i`.
fn p_hex4(s: &Vec<char>, i: usize) -> (r: u32)
    requires
        i + 4 <= s.len(),
        hex4_ok(s@, i as int),
    ensures
        r == hex4_val(s@, i as int),
        r < 0x10000,
{
    let h0 = hex_val_exec(s[i]);
    let h1 = hex_val_exec(s[i + 1]);
    let h2 = hex_val_exec(s[i + 2]);
    let h3 = hex_val_exec(s[i + 3]);
    4096 * h0 + 256 * h1 + 16 * h2 + h3
}

/// One `\uXXXX` escape, with a following low-surrogate escape where the
/// first names a high surrogate: the decoded character and the index just
/// past the whole escape.
#[verifier::rlimit(100)]
fn p_u_escape(s: &Vec<char>, cur: usize) -> (r: Option<(char, usize)>)
    requires
        cur + 2 <= s.len(),
        s@[cur as int] == '\\',
        s@[cur as int + 1] == 'u',
    ensures
        match r {
            Some((d, nxt)) => cur < nxt <= s.len() && (match sp_str_body(s@, nxt as int) {
                Some((rest, j)) => sp_str_body(s@, cur as int) == Some((seq![d] + rest, j)),
                None => sp_str_body(s@, cur as int) is None,
            }),
            None => sp_str_body(s@, cur as int) is None,
        },
{
    if s.len() - cur < 6 {
        return None;
    }
    if !(is_hex_exec(s[cur + 2]) && is_hex_exec(s[cur + 3]) && is_hex_exec(s[cur + 4])
        && is_hex_exec(s[cur + 5])) {
        return None;
    }
    let code = p_hex4(s, cur + 2);
    if 0xD800 <= code && code < 0xDC00 {
        if s.len() - cur < 12 {
            return None;
        }
        if !(s[cur + 6] == '\\' && s[cur + 7] == 'u') {
            return None;
        }
        if !(is_hex_exec(s[cur + 8]) && is_hex_exec(s[cur + 9]) && is_hex_exec(s[cur + 10])
            && is_hex_exec(s[cur + 11])) {
            return None;
        }
        let code2 = p_hex4(s, cur + 8);
        if !(0xDC00 <= code2 && code2 < 0xE000) {
            return None;
        }
        let combined: u32 = 0x10000 + (code - 0xD800) * 0x400 + (code2 - 0xDC00);
        let d = crate::chars::char_from_code(combined);
        proof {
            crate::parse_proofs::lemma_code_point_char_of(d);
            assert(seq![code_point_char(combined as int)] =~= seq![d]);
        }
        Some((d, cur + 12))
    } else if 0xDC00 <= code && code < 0xE000 {
        None
    } else {
        let d = crate::chars::char_from_code(code);
        proof {
            crate::parse_proofs::lemma_code_point_char_of(d);
            assert(seq![code_point_char(code as int)] =~= seq![d]);
        }
        Some((d, cur + 6))
    }
}

/// The string body scanner: from just after an opening quote to just past
/// the closing quote.
#[verifier::rlimit(100)]
fn p_str_body(s: &Vec<char>, i: usize) -> (r: Option<(Vec<char>, usize)>)
    requires
        i <= s.len(),
    ensures
        match r {
            Some((content, j)) => sp_str_body(s@, i as int) == Some((content@, j as int))
                && i < j <= s.len(),
            None => sp_str_body(s@, i as int) is None,
        },
{
    let mut content: Vec<char> = Vec::new();
    let mut cur: usize = i;
    loop
        invariant
            i <= cur <= s.len(),
            (match sp_str_body(s@, cur as int) {
                Some((rest, j)) => sp_str_body(s@, i as int) == Some((content@ + rest, j)),
                None => sp_str_body(s@, i as int) is None,
            }),
        decreases s.len() - cur,
    {
        proof {
            lemma_str_body_progress(s@, cur as int);
        }
        if cur >= s.len() {
            return None;
        }
        let c = s[cur];
        if c == '"' {
            assert(content@ + Seq::<char>::empty() =~= content@);
            return Some((content, cur + 1));
        } else if c == '\\' {
            if s.len() - cur < 2 {
                return None;
            }
            let e = s[cur + 1];
            if e == '"' || e == '\\' || e == '/' || e == 'b' || e == 'f' || e == 'n' || e == 'r'
                || e == 't' {
                let d = unescape_short_exec(e);
                let ghost old_content = content@;
                content.push(d);
                proof {
                    match sp_str_body(s@, cur as int + 2) {
                        Some((rest2, j2)) => {
                            assert(sp_str_body(s@, cur as int) == Some(
                                (seq![unescape_short(e)] + rest2, j2),
                            ));
                            assert(old_content + (seq![d] + rest2) =~= content@ + rest2);
                        },
                        None => {},
                    }
                }
                cur = cur + 2;
            } else if e == 'u' {
                match p_u_escape(s, cur) {
                    None => {
                        return None;
                    },
                    Some((d, nxt)) => {
                        let ghost old_content = content@;
                        content.push(d);
                        proof {
                            match sp_str_body(s@, nxt as int) {
                                Some((rest2, j2)) => {
                                    assert(old_content + (seq![d] + rest2) =~= content@ + rest2);
                                },
                                None => {},
                            }
                        }
                        cur = nxt;
                    },
                }
            } else {
                return None;
            }
        } else if c as u32 >= 32 {
            let ghost old_content = content@;
            content.push(c);
            proof {
                match sp_str_body(s@, cur as int + 1) {
                    Some((rest2, j2)) => {
                        assert(sp_str_body(s@, cur as int) == Some((seq![c] + rest2, j2)));
                        assert(old_content + (seq![c] + rest2) =~= content@ + rest2);
                    },
                    None => {},
                }
            }
            cur = cur + 1;
        } else {
            return None;
        }
    }
}

/// The integer scanner.
fn p_int(s: &Vec<char>, i: usize) -> (r: Option<(i64, usize)>)
    requires
        i < s.len(),
        s@[i as int] == '-' || is_digit(s@[i as int]),
    ensures
        match r {
            Some((n, j)) => sp_int(s@, i as int) == Some((JVal::Int(n), j as int)) && i < j
                <= s.len(),
            None => sp_int(s@, i as int) is None,
        },
{
    let neg = s[i] == '-';
    let d0: usize = if neg {
        i + 1
    } else {
        i
    };
    let mut e: usize = d0;
    while e < s.len() && is_digit_exec(s[e])
        invariant
            d0 <= e <= s.len(),
            d0 <= s.len(),
            sp_digits_end(s@, d0 as int) == sp_digits_end(s@, e as int),
            forall|k: int| d0 <= k < e ==> is_digit(#[trigger] s@[k]),
        decreases s.len() - e,
    {
        e = e + 1;
    }
    assert(sp_digits_end(s@, d0 as int) == e as int);
    if e == d0 {
        return None;
    }
    if s[d0] == '0' && e > d0 + 1 {
        return None;
    }
    proof {
        crate::parse_proofs::lemma_digits_val_bounds(s@, d0 as int, e as int);
    }
    let limit: u64 = if neg {
        9223372036854775808u64
    } else {
        9223372036854775807u64
    };
    let mut acc: u64 = 0;
    let mut over = false;
    let mut k: usize = d0;
    while k < e
        invariant
            d0 <= k <= e <= s.len(),
            forall|x: int| d0 <= x < e ==> is_digit(#[trigger] s@[x]),
            limit == if neg {
                9223372036854775808u64
            } else {
                9223372036854775807u64
            },
            !over ==> acc == digits_val(s@, d0 as int, k as int) && acc <= limit,
            over ==> digits_val(s@, d0 as int, k as int) > limit,
        decreases e - k,
    {
        let d: u64 = (s[k] as u32 - 48) as u64;
        assert(d == digit_val(s@[k as int]) && d < 10);
        let ghost prev = digits_val(s@, d0 as int, k as int);
        assert(digits_val(s@, d0 as int, k as int + 1) == prev * 10 + d);
        if !over {
            if acc > limit / 10 || (acc == limit / 10 && d > limit % 10) {
                over = true;
                assert(prev * 10 + d > limit) by (nonlinear_arith)
                    requires
                        prev == acc,
                        acc > limit / 10 || (acc == limit / 10 && d > limit % 10),
                        0 <= d < 10,
                        limit == limit / 10 * 10 + limit % 10,
                        0 <= limit % 10 < 10,
                ;
            } else {
                assert(acc * 10 + d <= limit) by (nonlinear_arith)
                    requires
                        acc <= limit / 10,
                        !(acc == limit / 10 && d > limit % 10),
                        0 <= d < 10,
                        limit == limit / 10 * 10 + limit % 10,
                        0 <= limit % 10 < 10,
                ;
                acc = acc * 10 + d;
            }
        } else {
            proof {
                crate::parse_proofs::lemma_digits_val_bounds(s@, d0 as int, k as int);
                assert(prev * 10 + d >= prev) by (nonlinear_arith)
                    requires
                        prev >= 0,
                        d >= 0,
                ;
            }
        }
        k = k + 1;
    }
    if over {
        return None;
    }
    assert(acc == digits_val(s@, d0 as int, e as int));
    if neg {
        let n: i64 = if acc == 9223372036854775808u64 {
            i64::MIN
        } else {
            -(acc as i64)
        };
        assert(n as int == -(acc as int));
        Some((n, e))
    } else {
        Some((acc as i64, e))
    }
}

/// The recursive JSON value parser, equal to the specification parser.
#[verifier::rlimit(100)]
fn p_value(s: &Vec<char>, i: usize) -> (r: Option<(Json, usize)>)
    requires
        i <= s.len(),
    ensures
        match r {
            Some((v, j)) => sp_value(s@, i as int, vfuel(s@, i as int)) == Some((v@, j as int))
                && i < j <= s.len(),
            None => sp_value(s@, i as int, vfuel(s@, i as int)) is None,
        },
    decreases s.len() - i,
{
    broadcast use crate::json::lemma_jvals_of_index, crate::json::lemma_jprops_of_index;

    let ghost gfuel = vfuel(s@, i as int);
    let i1 = p_ws(s, i);
    if i1 >= s.len() {
        return None;
    }
    let c = s[i1];
    if c == 'n' {
        if s.len() - i1 >= 4 && s[i1 + 1] == 'u' && s[i1 + 2] == 'l' && s[i1 + 3] == 'l' {
            Some((Json::Null, i1 + 4))
        } else {
            None
        }
    } else if c == 't' {
        if s.len() - i1 >= 4 && s[i1 + 1] == 'r' && s[i1 + 2] == 'u' && s[i1 + 3] == 'e' {
            Some((Json::Bool(true), i1 + 4))
        } else {
            None
        }
    } else if c == 'f' {
        if s.len() - i1 >= 5 && s[i1 + 1] == 'a' && s[i1 + 2] == 'l' && s[i1 + 3] == 's' && s[i1
            + 4] == 'e' {
            Some((Json::Bool(false), i1 + 5))
        } else {
            None
        }
    } else if c == '"' {
        match p_str_body(s, i1 + 1) {
            Some((content, j)) => Some((Json::Str(content), j)),
            None => None,
        }
    } else if c == '-' || is_digit_exec(c) {
        match p_int(s, i1) {
            Some((n, j)) => Some((Json::Int(n), j)),
            None => None,
        }
    } else if c == '[' {
        let a = p_ws(s, i1 + 1);
        if a < s.len() && s[a] == ']' {
            let v = Json::Arr(Vec::new());
            assert(v@ == JVal::Arr(Seq::<JVal>::empty())) by {
                assert(jvals_of(Seq::<Json>::empty()) =~= Seq::<JVal>::empty());
            }
            return Some((v, a + 1));
        }
        proof {
            lemma_value_fuel(s@, i1 as int + 1, (gfuel - 1) as nat, vfuel(s@, i1 as int + 1));
        }
        match p_value(s, i1 + 1) {
            None => None,
            Some((v1, j1)) => {
                let mut elems: Vec<Json> = Vec::new();
                elems.push(v1);
                assert(jvals_of(elems@) =~= seq![v1@]);
                let mut cur: usize = j1;
                proof {
                    lemma_arr_rest_fuel(
                        s@,
                        j1 as int,
                        (gfuel - 1) as nat,
                        rfuel(s@, j1 as int),
                        seq![v1@],
                    );
                }
                loop
                    invariant
                        i < cur <= s.len(),
                        gfuel == vfuel(s@, i as int),
                        (match sp_arr_rest(s@, cur as int, rfuel(s@, cur as int), jvals_of(elems@)) {
                            Some((es, j2)) => sp_value(s@, i as int, gfuel) == Some(
                                (JVal::Arr(es), j2),
                            ),
                            None => sp_value(s@, i as int, gfuel) is None,
                        }),
                    decreases s.len() - cur,
                {
                    let ghost rf = rfuel(s@, cur as int);
                    let b = p_ws(s, cur);
                    if b >= s.len() {
                        return None;
                    }
                    let cc = s[b];
                    if cc == ']' {
                        let v = Json::Arr(elems);
                        return Some((v, b + 1));
                    } else if cc == ',' {
                        proof {
                            lemma_value_fuel(
                                s@,
                                b as int + 1,
                                (rf - 1) as nat,
                                vfuel(s@, b as int + 1),
                            );
                        }
                        match p_value(s, b + 1) {
                            None => {
                                return None;
                            },
                            Some((v2, j2)) => {
                                let ghost old_elems = elems@;
                                elems.push(v2);
                                proof {
                                    assert(jvals_of(elems@) =~= jvals_of(old_elems).push(v2@)) by {
                                        assert(elems@.drop_last() =~= old_elems);
                                    }
                                    lemma_arr_rest_fuel(
                                        s@,
                                        j2 as int,
                                        (rf - 1) as nat,
                                        rfuel(s@, j2 as int),
                                        jvals_of(elems@),
                                    );
                                }
                                cur = j2;
                            },
                        }
                    } else {
                        return None;
                    }
                }
            },
        }
    } else if c == '{' {
        let a = p_ws(s, i1 + 1);
        if a < s.len() && s[a] == '}' {
            let v = Json::Obj(Vec::new());
            assert(v@ == JVal::Obj(Seq::<(Seq<char>, JVal)>::empty())) by {
                assert(jprops_of(Seq::<(Vec<char>, Json)>::empty()) =~= Seq::<
                    (Seq<char>, JVal),
                >::empty());
            }
            return Some((v, a + 1));
        }
        if !(a < s.len() && s[a] == '"') {
            return None;
        }
        match p_str_body(s, a + 1) {
            None => None,
            Some((name1, jn1)) => {
                let d1 = p_ws(s, jn1);
                if d1 >= s.len() || s[d1] != ':' {
                    return None;
                }
                proof {
                    lemma_value_fuel(
                        s@,
                        d1 as int + 1,
                        (gfuel - 1) as nat,
                        vfuel(s@, d1 as int + 1),
                    );
                }
                match p_value(s, d1 + 1) {
                    None => None,
                    Some((v1, j1)) => {
                        let mut props: Vec<(Vec<char>, Json)> = Vec::new();
                        props.push((name1, v1));
                        assert(jprops_of(props@) =~= seq![(name1@, v1@)]);
                        let mut cur: usize = j1;
                        proof {
                            lemma_obj_rest_fuel(
                                s@,
                                j1 as int,
                                (gfuel - 1) as nat,
                                rfuel(s@, j1 as int),
                                seq![(name1@, v1@)],
                            );
                        }
                        loop
                            invariant
                                i < cur <= s.len(),
                                gfuel == vfuel(s@, i as int),
                                (match sp_obj_rest(
                                    s@,
                                    cur as int,
                                    rfuel(s@, cur as int),
                                    jprops_of(props@),
                                ) {
                                    Some((ps, j2)) => sp_value(s@, i as int, gfuel) == Some(
                                        (JVal::Obj(ps), j2),
                                    ),
                                    None => sp_value(s@, i as int, gfuel) is None,
                                }),
                            decreases s.len() - cur,
                        {
                            let ghost rf = rfuel(s@, cur as int);
                            let b = p_ws(s, cur);
                            if b >= s.len() {
                                return None;
                            }
                            let cc = s[b];
                            if cc == '}' {
                                let v = Json::Obj(props);
                                return Some((v, b + 1));
                            } else if cc == ',' {
                                let a2 = p_ws(s, b + 1);
                                if !(a2 < s.len() && s[a2] == '"') {
                                    return None;
                                }
                                match p_str_body(s, a2 + 1) {
                                    None => {
                                        return None;
                                    },
                                    Some((name2, jn2)) => {
                                        let d2 = p_ws(s, jn2);
                                        if d2 >= s.len() || s[d2] != ':' {
                                            return None;
                                        }
                                        proof {
                                            lemma_value_fuel(
                                                s@,
                                                d2 as int + 1,
                                                (rf - 1) as nat,
                                                vfuel(s@, d2 as int + 1),
                                            );
                                        }
                                        match p_value(s, d2 + 1) {
                                            None => {
                                                return None;
                                            },
                                            Some((v2, j2)) => {
                                                let ghost old_props = props@;
                                                props.push((name2, v2));
                                                proof {
                                                    assert(jprops_of(props@) =~= jprops_of(
                                                        old_props,
                                                    ).push((name2@, v2@))) by {
                                                        assert(props@.drop_last() =~= old_props);
                                                    }
                                                    lemma_obj_rest_fuel(
                                                        s@,
                                                        j2 as int,
                                                        (rf - 1) as nat,
                                                        rfuel(s@, j2 as int),
                                                        jprops_of(props@),
                                                    );
                                                }
                                                cur = j2;
                                            },
                                        }
                                    },
                                }
                            } else {
                                return None;
                            }
                        }
                    },
                }
            },
        }
    } else {
        None
    }
}

/// Parse a whole character sequence as JSON text: one value, possibly
/// surrounded by whitespace, and nothing else.
pub fn parse_json_chars(s: &Vec<char>) -> (r: Option<Json>)
    ensures
        match r {
            Some(v) => parse_text(s@) == Some(v@),
            None => parse_text(s@) is None,
        },
{
    match p_value(s, 0) {
        None => None,
        Some((v, j)) => {
            let e = p_ws(s, j);
            if e == s.len() {
                Some(v)
            } else {
                None
            }
        },
    }
}

} // verus!
