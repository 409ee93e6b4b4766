//! Completeness of the parser for the canonical printer: the canonical text
//! of every value parses back to exactly that value. Since the parser is a
//! function of the text, it follows that every accepted text denotes the
//! same value as its canonical re-encoding — texts are decoded up to
//! canonical form.
use vstd::prelude::*;
use crate::json::JVal;
use crate::parse::{
    code_point_char, digit_val, digits_val, hex4_ok, hex4_val, hex_digit_val, is_digit,
    is_hex_digit, is_ws, parse_text, rfuel, sp_arr_rest, sp_digits_end, sp_int, sp_obj_rest,
    sp_str_body, sp_value, sp_ws, unescape_short, vfuel, lemma_digits_end, lemma_ws_stops,
};
use crate::text::{
    arr_tail_text, digit_char, escape_char, escape_text, hex_char, int_text, member_text, nat_text,
    obj_tail_text, text_of,
};

verus! {

/// Characters with the same code are the same character.
pub proof fn lemma_char_eq(c1: char, c2: char)
    requires
        c1 as u32 == c2 as u32,
    ensures
        c1 == c2,
{
}

/// The character chosen for a character's own code is that character.
pub proof fn lemma_code_point_char_of(c: char)
    ensures
        code_point_char(c as u32 as int) == c,
{
    let code = c as u32 as int;
    assert(exists|x: char| (#[trigger] (x as u32)) == code) by {
        assert((c as u32) == code);
    }
    let w = choose|x: char| (#[trigger] (x as u32)) == code;
    assert(w as u32 == code);
    lemma_char_eq(w, c);
}

/// The code of a digit character for a value below ten.
proof fn lemma_digit_char_code(d: int)
    requires
        0 <= d < 10,
    ensures
        digit_char(d) as u32 == 48 + d,
{
}

/// The code of a lowercase hexadecimal digit character.
proof fn lemma_hex_char_code(d: int)
    requires
        0 <= d < 16,
    ensures
        d < 10 ==> hex_char(d) as u32 == 48 + d,
        d >= 10 ==> hex_char(d) as u32 == 87 + d,
{
}

/// A hexadecimal digit character reads back to its value.
proof fn lemma_hex_roundtrip(d: int)
    requires
        0 <= d < 16,
    ensures
        is_hex_digit(hex_char(d)),
        hex_digit_val(hex_char(d)) == d,
{
    lemma_hex_char_code(d);
}

/// Digits have a nonnegative value.
pub proof fn lemma_digits_val_bounds(s: Seq<char>, i: int, j: int)
    requires
        0 <= i <= j <= s.len(),
        forall|k: int| i <= k < j ==> is_digit(#[trigger] s[k]),
    ensures
        digits_val(s, i, j) >= 0,
{
    lemma_digits_val_nonneg(s, i, j);
}

/// Digits have a nonnegative value.
proof fn lemma_digits_val_nonneg(s: Seq<char>, i: int, j: int)
    requires
        0 <= i <= j <= s.len(),
        forall|k: int| i <= k < j ==> is_digit(#[trigger] s[k]),
    ensures
        digits_val(s, i, j) >= 0,
    decreases j - i,
{
    if i < j {
        lemma_digits_val_nonneg(s, i, j - 1);
    }
}

/// The characters that can begin the canonical text of a value.
spec fn is_value_start(c: char) -> bool {
    c == 'n' || c == 't' || c == 'f' || c == '-' || is_digit(c) || c == '"' || c == '[' || c == '{'
}

/// One character of a region of `s` known to hold the text `t`.
proof fn lemma_seq_at(s: Seq<char>, i: int, t: Seq<char>, x: int)
    requires
        0 <= i,
        i + t.len() <= s.len(),
        s.subrange(i, i + t.len() as int) == t,
        0 <= x < t.len(),
    ensures
        s[i + x] == t[x],
{
    assert(s.subrange(i, i + t.len() as int)[x] == s[i + x]);
}

/// A sub-region of a region of `s` known to hold the text `t`.
proof fn lemma_subrange_of(s: Seq<char>, i: int, t: Seq<char>, a: int, b: int)
    requires
        0 <= i,
        i + t.len() <= s.len(),
        s.subrange(i, i + t.len() as int) == t,
        0 <= a <= b <= t.len(),
    ensures
        s.subrange(i + a, i + b) == t.subrange(a, b),
{
    assert forall|x: int| 0 <= x < b - a implies s.subrange(i + a, i + b)[x] == t.subrange(a, b)[x] by {
        assert(s.subrange(i, i + t.len() as int)[a + x] == s[i + a + x]);
    }
    assert(s.subrange(i + a, i + b) =~= t.subrange(a, b));
}

/// Every character of a canonical decimal is a digit.
proof fn lemma_nat_text_all_digits(n: nat)
    ensures
        nat_text(n).len() >= 1,
        forall|k: int| 0 <= k < nat_text(n).len() ==> is_digit(#[trigger] nat_text(n)[k]),
    decreases n,
{
    if n < 10 {
        lemma_digit_char_code(n as int);
    } else {
        lemma_nat_text_all_digits(n / 10);
        lemma_digit_char_code((n % 10) as int);
        assert forall|k: int| 0 <= k < nat_text(n).len() implies is_digit(#[trigger] nat_text(n)[k]) by {
            if k < nat_text(n / 10).len() {
                assert(nat_text(n)[k] == nat_text(n / 10)[k]);
            } else {
                assert(nat_text(n)[k] == digit_char((n % 10) as int));
            }
        }
    }
}

/// A canonical decimal starts with a zero digit only for the value zero.
proof fn lemma_nat_text_first(n: nat)
    ensures
        nat_text(n).len() >= 1,
        is_digit(nat_text(n)[0]),
        n >= 1 ==> nat_text(n)[0] != '0',
    decreases n,
{
    lemma_nat_text_all_digits(n);
    if n < 10 {
        lemma_digit_char_code(n as int);
        if n >= 1 {
            assert('0' as u32 == 48);
        }
    } else {
        lemma_nat_text_first(n / 10);
        assert(nat_text(n)[0] == nat_text(n / 10)[0]);
    }
}

/// Reading back the digits of a canonical decimal gives the value printed.
proof fn lemma_digits_of_nat_text(s: Seq<char>, i: int, n: nat)
    requires
        0 <= i,
        i + nat_text(n).len() <= s.len(),
        s.subrange(i, i + nat_text(n).len() as int) == nat_text(n),
    ensures
        digits_val(s, i, i + nat_text(n).len() as int) == n,
    decreases n,
{
    let t = nat_text(n);
    if n < 10 {
        lemma_digit_char_code(n as int);
        lemma_seq_at(s, i, t, 0);
        assert(digits_val(s, i, i) == 0);
        assert(digits_val(s, i, i + 1) == digit_val(s[i]));
    } else {
        let tp = nat_text(n / 10);
        assert(t == tp + seq![digit_char((n % 10) as int)]);
        lemma_subrange_of(s, i, t, 0, tp.len() as int);
        assert(t.subrange(0, tp.len() as int) =~= tp);
        lemma_digits_of_nat_text(s, i, n / 10);
        lemma_digit_char_code((n % 10) as int);
        lemma_seq_at(s, i, t, t.len() as int - 1);
        assert(t[t.len() - 1] == digit_char((n % 10) as int));
        assert(digits_val(s, i, i + t.len() as int) == digits_val(s, i, i + t.len() as int - 1) * 10
            + digit_val(s[i + t.len() - 1]));
        assert(digits_val(s, i, i + t.len() as int) == (n / 10) * 10 + (n % 10));
    }
}

/// Where digits are known to end, the digit scan ends there.
proof fn lemma_digits_end_is(s: Seq<char>, i: int, j: int)
    requires
        0 <= i <= j <= s.len(),
        forall|k: int| i <= k < j ==> is_digit(#[trigger] s[k]),
        j < s.len() ==> !is_digit(s[j]),
    ensures
        sp_digits_end(s, i) == j,
    decreases j - i,
{
    if i < j {
        lemma_digits_end_is(s, i + 1, j);
    }
}

/// The canonical text of an integer parses back to it.
proof fn lemma_int_complete(s: Seq<char>, i: int, n: i64)
    requires
        0 <= i,
        i + int_text(n as int).len() <= s.len(),
        s.subrange(i, i + int_text(n as int).len() as int) == int_text(n as int),
        i + int_text(n as int).len() < s.len() ==> !is_digit(
            s[i + int_text(n as int).len() as int],
        ),
    ensures
        sp_int(s, i) == Some((JVal::Int(n), i + int_text(n as int).len() as int)),
{
    let t = int_text(n as int);
    if n < 0 {
        let m = (-(n as int)) as nat;
        let tn = nat_text(m);
        assert(t == seq!['-'] + tn);
        lemma_seq_at(s, i, t, 0);
        assert(t[0] == '-');
        lemma_subrange_of(s, i, t, 1, t.len() as int);
        assert(t.subrange(1, t.len() as int) =~= tn);
        lemma_nat_text_all_digits(m);
        lemma_nat_text_first(m);
        assert forall|k: int| i + 1 <= k < i + 1 + tn.len() implies is_digit(#[trigger] s[k]) by {
            lemma_seq_at(s, i + 1, tn, k - i - 1);
        }
        lemma_digits_end_is(s, i + 1, i + 1 + tn.len() as int);
        lemma_digits_of_nat_text(s, i + 1, m);
        lemma_seq_at(s, i + 1, tn, 0);
        assert(m >= 1);
        assert(!(s[i + 1] == '0' && i + 1 + tn.len() > i + 2));
        assert((-(m as int)) as i64 == n);
    } else {
        let m = (n as int) as nat;
        let tn = nat_text(m);
        assert(t == tn);
        lemma_nat_text_all_digits(m);
        lemma_nat_text_first(m);
        assert forall|k: int| i <= k < i + tn.len() implies is_digit(#[trigger] s[k]) by {
            lemma_seq_at(s, i, tn, k - i);
        }
        lemma_seq_at(s, i, tn, 0);
        assert(s[i] != '-') by {
            assert('-' as u32 == 45);
        }
        lemma_digits_end_is(s, i, i + tn.len() as int);
        lemma_digits_of_nat_text(s, i, m);
        assert(m >= 1 ==> s[i] != '0');
        assert(m == 0 ==> tn.len() == 1);
        assert(!(s[i] == '0' && i + tn.len() > i + 1));
        assert(m as i64 == n);
    }
}

/// The canonical escaping of any content parses back to it.
proof fn lemma_str_body_complete(s: Seq<char>, i: int, content: Seq<char>)
    requires
        0 <= i,
        i + escape_text(content).len() + 1 <= s.len(),
        s.subrange(i, i + escape_text(content).len() + 1) == escape_text(content) + seq!['"'],
    ensures
        sp_str_body(s, i) == Some((content, i + escape_text(content).len() + 1)),
    decreases content.len(),
{
    let et = escape_text(content);
    let t = et + seq!['"'];
    if content.len() == 0 {
        assert(t.len() == 1);
        lemma_seq_at(s, i, t, 0);
        assert(t[0] == '"');
    } else {
        let c0 = content[0];
        let e0 = escape_char(c0);
        let rest = content.drop_first();
        let etr = escape_text(rest);
        assert(et == e0 + etr);
        assert(t =~= e0 + (etr + seq!['"']));
        let i2 = i + e0.len() as int;
        lemma_subrange_of(s, i, t, e0.len() as int, t.len() as int);
        assert(t.subrange(e0.len() as int, t.len() as int) =~= etr + seq!['"']);
        lemma_str_body_complete(s, i2, rest);
        assert(seq![c0] + rest =~= content);
        if c0 == '"' {
            assert(e0 =~= seq!['\\', '"']);
            lemma_seq_at(s, i, t, 0);
            lemma_seq_at(s, i, t, 1);
            assert(t[0] == '\\' && t[1] == '"');
            assert(unescape_short('"') == c0);
        } else if c0 == '\\' {
            assert(e0 =~= seq!['\\', '\\']);
            lemma_seq_at(s, i, t, 0);
            lemma_seq_at(s, i, t, 1);
            assert(t[0] == '\\' && t[1] == '\\');
        } else if c0 == '\u{8}' {
            assert(e0 =~= seq!['\\', 'b']);
            lemma_seq_at(s, i, t, 0);
            lemma_seq_at(s, i, t, 1);
            assert(t[0] == '\\' && t[1] == 'b');
        } else if c0 == '\t' {
            assert(e0 =~= seq!['\\', 't']);
            lemma_seq_at(s, i, t, 0);
            lemma_seq_at(s, i, t, 1);
            assert(t[0] == '\\' && t[1] == 't');
        } else if c0 == '\n' {
            assert(e0 =~= seq!['\\', 'n']);
            lemma_seq_at(s, i, t, 0);
            lemma_seq_at(s, i, t, 1);
            assert(t[0] == '\\' && t[1] == 'n');
        } else if c0 == '\u{c}' {
            assert(e0 =~= seq!['\\', 'f']);
            lemma_seq_at(s, i, t, 0);
            lemma_seq_at(s, i, t, 1);
            assert(t[0] == '\\' && t[1] == 'f');
        } else if c0 == '\r' {
            assert(e0 =~= seq!['\\', 'r']);
            lemma_seq_at(s, i, t, 0);
            lemma_seq_at(s, i, t, 1);
            assert(t[0] == '\\' && t[1] == 'r');
        } else if (c0 as u32) < 32 {
            let code = c0 as u32 as int;
            assert(e0 == seq!['\\', 'u', '0', '0', hex_char(code / 16), hex_char(code % 16)]);
            lemma_seq_at(s, i, t, 0);
            lemma_seq_at(s, i, t, 1);
            lemma_seq_at(s, i, t, 2);
            lemma_seq_at(s, i, t, 3);
            lemma_seq_at(s, i, t, 4);
            lemma_seq_at(s, i, t, 5);
            assert(t[0] == '\\' && t[1] == 'u' && t[2] == '0' && t[3] == '0');
            assert(t[4] == hex_char(code / 16) && t[5] == hex_char(code % 16));
            lemma_hex_roundtrip(code / 16);
            lemma_hex_roundtrip(code % 16);
            assert(s[i + 1] != '"' && s[i + 1] != '\\' && s[i + 1] != '/' && s[i + 1] != 'b' && s[i
                + 1] != 'f' && s[i + 1] != 'n' && s[i + 1] != 'r' && s[i + 1] != 't');
            assert('0' as u32 == 48);
            assert(is_digit(s[i + 2]) && hex_digit_val(s[i + 2]) == 0);
            assert(is_digit(s[i + 3]) && hex_digit_val(s[i + 3]) == 0);
            assert(hex4_ok(s, i + 2));
            assert(hex4_val(s, i + 2) == 16 * (code / 16) + code % 16);
            assert(hex4_val(s, i + 2) == code);
            assert(!(0xD800 <= code < 0xDC00) && !(0xDC00 <= code < 0xE000));
            assert(code_point_char(code) == c0) by {
                lemma_code_point_char_of(c0);
            }
        } else {
            assert(e0 == seq![c0]);
            lemma_seq_at(s, i, t, 0);
            assert(t[0] == c0);
            assert(s[i] != '"' && s[i] != '\\');
        }
    }
}

/// Every value's canonical text has at least one character, and that
/// character marks the start of a value.
proof fn lemma_text_first(v: JVal)
    ensures
        text_of(v).len() >= 1,
        is_value_start(text_of(v)[0]),
{
    match v {
        JVal::Int(n) => {
            if n < 0 {
                lemma_nat_text_first((-(n as int)) as nat);
            } else {
                lemma_nat_text_first((n as int) as nat);
                assert(text_of(v)[0] == nat_text((n as int) as nat)[0]);
            }
        },
        _ => {},
    }
}

/// A value-start character is none of the delimiters, and is not
/// whitespace.
proof fn lemma_value_start_not_delim(c: char)
    requires
        is_value_start(c),
    ensures
        c != ']' && c != '}' && c != ',' && c != ':',
        !is_ws(c),
{
    assert('n' as u32 == 110 && 't' as u32 == 116 && 'f' as u32 == 102 && '-' as u32 == 45 && '"'
        as u32 == 34 && '[' as u32 == 91 && '{' as u32 == 123);
    assert(']' as u32 == 93 && '}' as u32 == 125 && ',' as u32 == 44 && ':' as u32 == 58);
    assert(' ' as u32 == 32 && '\t' as u32 == 9 && '\n' as u32 == 10 && '\r' as u32 == 13);
}

/// The canonical text of every value parses back to that value.
#[verifier::rlimit(100)]
pub proof fn lemma_value_complete(s: Seq<char>, i: int, v: JVal, fuel: nat)
    requires
        0 <= i,
        i + text_of(v).len() <= s.len(),
        s.subrange(i, i + text_of(v).len() as int) == text_of(v),
        i + text_of(v).len() < s.len() ==> !is_digit(s[i + text_of(v).len() as int]),
        fuel >= vfuel(s, i),
    ensures
        sp_value(s, i, fuel) == Some((v, i + text_of(v).len() as int)),
    decreases v, 1int,
{
    let t = text_of(v);
    lemma_text_first(v);
    lemma_seq_at(s, i, t, 0);
    lemma_value_start_not_delim(t[0]);
    lemma_ws_stops(s, i);
    assert(sp_ws(s, i) == i);
    match v {
        JVal::Null => {
            lemma_seq_at(s, i, t, 1);
            lemma_seq_at(s, i, t, 2);
            lemma_seq_at(s, i, t, 3);
            assert(s[i] == 'n' && s[i + 1] == 'u' && s[i + 2] == 'l' && s[i + 3] == 'l');
        },
        JVal::Bool(b) => {
            lemma_seq_at(s, i, t, 1);
            lemma_seq_at(s, i, t, 2);
            lemma_seq_at(s, i, t, 3);
            if b {
                assert(s[i] == 't' && s[i + 1] == 'r' && s[i + 2] == 'u' && s[i + 3] == 'e');
            } else {
                lemma_seq_at(s, i, t, 4);
                assert(s[i] == 'f' && s[i + 1] == 'a' && s[i + 2] == 'l' && s[i + 3] == 's' && s[i
                    + 4] == 'e');
            }
        },
        JVal::Int(n) => {
            assert(s[i] == t[0]);
            assert(t[0] == '-' || is_digit(t[0])) by {
                if n < 0 {
                    assert(t == seq!['-'] + nat_text((-(n as int)) as nat));
                } else {
                    lemma_nat_text_first((n as int) as nat);
                }
            }
            assert(s[i] != 'n' && s[i] != 't' && s[i] != 'f' && s[i] != '"' && s[i] != '[' && s[i]
                != '{') by {
                assert('n' as u32 == 110 && 't' as u32 == 116 && 'f' as u32 == 102 && '"' as u32
                    == 34 && '-' as u32 == 45 && '[' as u32 == 91 && '{' as u32 == 123);
            }
            lemma_int_complete(s, i, n);
        },
        JVal::Str(content) => {
            assert(s[i] == '"');
            assert(t == seq!['"'] + (escape_text(content) + seq!['"']));
            let el = escape_text(content).len() as int;
            lemma_subrange_of(s, i, t, 1, t.len() as int);
            assert(t.subrange(1, t.len() as int) =~= escape_text(content) + seq!['"']);
            lemma_str_body_complete(s, i + 1, content);
        },
        JVal::Arr(es) => {
            assert(t[0] == '[');
            if es.len() == 0 {
                lemma_seq_at(s, i, t, 1);
                assert(t[1] == ']');
                assert(!is_ws(t[1])) by {
                    assert(']' as u32 == 93 && ' ' as u32 == 32 && '\t' as u32 == 9 && '\n'
                        as u32 == 10 && '\r' as u32 == 13);
                }
                lemma_ws_stops(s, i + 1);
                assert(es =~= Seq::<JVal>::empty());
            } else {
                lemma_arr_complete(s, i, es, fuel);
            }
        },
        JVal::Obj(ps) => {
            assert(t[0] == '{');
            if ps.len() == 0 {
                lemma_seq_at(s, i, t, 1);
                assert(t[1] == '}');
                assert(!is_ws(t[1])) by {
                    assert('}' as u32 == 125 && ' ' as u32 == 32 && '\t' as u32 == 9 && '\n'
                        as u32 == 10 && '\r' as u32 == 13);
                }
                lemma_ws_stops(s, i + 1);
                assert(ps =~= Seq::<(Seq<char>, JVal)>::empty());
            } else {
                lemma_obj_complete(s, i, ps, fuel);
            }
        },
    }
}

/// The canonical text of a nonempty array parses back to it.
#[verifier::rlimit(100)]
proof fn lemma_arr_complete(s: Seq<char>, i: int, es: Seq<JVal>, fuel: nat)
    requires
        0 <= i,
        es.len() >= 1,
        i + text_of(JVal::Arr(es)).len() <= s.len(),
        s.subrange(i, i + text_of(JVal::Arr(es)).len() as int) == text_of(JVal::Arr(es)),
        fuel >= vfuel(s, i),
        sp_ws(s, i) == i,
        s[i] == '[',
    ensures
        sp_value(s, i, fuel) == Some((JVal::Arr(es), i + text_of(JVal::Arr(es)).len() as int)),
    decreases JVal::Arr(es), 0int,
{
    let t = text_of(JVal::Arr(es));
    let e0 = es[0];
    let t0 = text_of(e0);
    let tail = arr_tail_text(es.drop_first());
    assert(t == seq!['['] + t0 + tail);
    assert(t =~= seq!['['] + (t0 + tail));
    lemma_text_first(e0);
    lemma_seq_at(s, i, t, 1);
    assert(t[1] == t0[0]);
    lemma_value_start_not_delim(t0[0]);
    lemma_ws_stops(s, i + 1);
    assert(sp_ws(s, i + 1) == i + 1);
    assert(s[i + 1] != ']');
    lemma_subrange_of(s, i, t, 1, 1 + t0.len() as int);
    assert(t.subrange(1, 1 + t0.len() as int) =~= t0);
    let j = i + 1 + t0.len() as int;
    assert(tail.len() >= 1);
    lemma_seq_at(s, i, t, 1 + t0.len() as int);
    assert(t[1 + t0.len() as int] == tail[0]);
    assert(tail[0] == ',' || tail[0] == ']');
    assert(!is_digit(tail[0])) by {
        assert(',' as u32 == 44 && ']' as u32 == 93);
    }
    lemma_value_complete(s, i + 1, e0, (fuel - 1) as nat);
    lemma_subrange_of(s, i, t, 1 + t0.len() as int, t.len() as int);
    assert(t.subrange(1 + t0.len() as int, t.len() as int) =~= tail);
    lemma_arr_rest_complete(s, j, es, 1, (fuel - 1) as nat, seq![e0]);
    assert(seq![e0] + es.skip(1) =~= es);
}

/// The canonical text of a nonempty object parses back to it.
#[verifier::rlimit(100)]
proof fn lemma_obj_complete(s: Seq<char>, i: int, ps: Seq<(Seq<char>, JVal)>, fuel: nat)
    requires
        0 <= i,
        ps.len() >= 1,
        i + text_of(JVal::Obj(ps)).len() <= s.len(),
        s.subrange(i, i + text_of(JVal::Obj(ps)).len() as int) == text_of(JVal::Obj(ps)),
        fuel >= vfuel(s, i),
        sp_ws(s, i) == i,
        s[i] == '{',
    ensures
        sp_value(s, i, fuel) == Some((JVal::Obj(ps), i + text_of(JVal::Obj(ps)).len() as int)),
    decreases JVal::Obj(ps), 0int,
{
    let t = text_of(JVal::Obj(ps));
    let p0 = ps[0];
    let name = p0.0;
    let v0 = p0.1;
    let mt = member_text(p0);
    let tail = obj_tail_text(ps.drop_first());
    assert(t == seq!['{'] + mt + tail);
    assert(t =~= seq!['{'] + (mt + tail));
    assert(mt == seq!['"'] + escape_text(name) + seq!['"', ':'] + text_of(v0));
    let el = escape_text(name).len() as int;
    lemma_seq_at(s, i, t, 1);
    assert(t[1] == mt[0] && mt[0] == '"');
    lemma_ws_stops(s, i + 1);
    assert(sp_ws(s, i + 1) == i + 1);
    assert(s[i + 1] != '}') by {
        assert('}' as u32 == 125 && '"' as u32 == 34);
    }
    lemma_subrange_of(s, i, t, 1, t.len() as int);
    assert(t.subrange(1, t.len() as int) =~= mt + tail);
    lemma_subrange_of(s, i + 1, mt + tail, 1, 1 + el + 1);
    assert((mt + tail).subrange(1, 1 + el + 1) =~= escape_text(name) + seq!['"']);
    lemma_str_body_complete(s, i + 2, name);
    let jn = i + 2 + el + 1;
    lemma_seq_at(s, i + 1, mt + tail, 2 + el);
    assert((mt + tail)[2 + el] == ':');
    assert(s[jn] == ':');
    lemma_ws_stops(s, jn);
    assert(sp_ws(s, jn) == jn) by {
        assert(':' as u32 == 58);
    }
    let jv = jn + 1;
    let t0 = text_of(v0);
    lemma_text_first(v0);
    lemma_subrange_of(s, i + 1, mt + tail, 3 + el, 3 + el + t0.len() as int);
    assert((mt + tail).subrange(3 + el, 3 + el + t0.len() as int) =~= t0);
    let j2 = jv + t0.len() as int;
    assert(tail.len() >= 1);
    lemma_seq_at(s, i + 1, mt + tail, mt.len() as int);
    assert((mt + tail)[mt.len() as int] == tail[0]);
    assert(s[j2] == tail[0]);
    assert(tail[0] == ',' || tail[0] == '}');
    assert(!is_digit(tail[0])) by {
        assert(',' as u32 == 44 && '}' as u32 == 125);
    }
    lemma_value_complete(s, jv, v0, (fuel - 1) as nat);
    lemma_subrange_of(s, i + 1, mt + tail, mt.len() as int, (mt + tail).len() as int);
    assert((mt + tail).subrange(mt.len() as int, (mt + tail).len() as int) =~= tail);
    lemma_obj_rest_complete(s, j2, ps, 1, (fuel - 1) as nat, seq![p0]);
    assert(seq![p0] + ps.skip(1) =~= ps);
}

/// The canonical tail text of the elements after the first parses back to
/// exactly those elements.
#[verifier::rlimit(100)]
pub proof fn lemma_arr_rest_complete(
    s: Seq<char>,
    i: int,
    es: Seq<JVal>,
    k: int,
    fuel: nat,
    acc: Seq<JVal>,
)
    requires
        0 <= i,
        1 <= k <= es.len(),
        i + arr_tail_text(es.skip(k)).len() <= s.len(),
        s.subrange(i, i + arr_tail_text(es.skip(k)).len() as int) == arr_tail_text(es.skip(k)),
        fuel >= rfuel(s, i),
    ensures
        sp_arr_rest(s, i, fuel, acc) == Some(
            (acc + es.skip(k), i + arr_tail_text(es.skip(k)).len() as int),
        ),
    decreases es.skip(k), 1int,
{
    let rem = es.skip(k);
    let t = arr_tail_text(rem);
    lemma_seq_at(s, i, t, 0);
    if rem.len() == 0 {
        assert(t[0] == ']');
        lemma_ws_stops(s, i);
        assert(acc + rem =~= acc);
    } else {
        let e0 = rem[0];
        let t0 = text_of(e0);
        let tail = arr_tail_text(rem.drop_first());
        assert(t == seq![','] + t0 + tail);
        assert(t =~= seq![','] + (t0 + tail));
        assert(t[0] == ',');
        lemma_ws_stops(s, i);
        assert(sp_ws(s, i) == i) by {
            assert(',' as u32 == 44);
        }
        assert(s[i] != ']') by {
            assert(']' as u32 == 93 && ',' as u32 == 44);
        }
        lemma_text_first(e0);
        lemma_subrange_of(s, i, t, 1, 1 + t0.len() as int);
        assert(t.subrange(1, 1 + t0.len() as int) =~= t0);
        let j = i + 1 + t0.len() as int;
        assert(tail.len() >= 1);
        lemma_seq_at(s, i, t, 1 + t0.len() as int);
        assert(t[1 + t0.len() as int] == tail[0]);
        assert(tail[0] == ',' || tail[0] == ']');
        assert(!is_digit(tail[0])) by {
            assert(',' as u32 == 44 && ']' as u32 == 93);
        }
        lemma_value_complete(s, i + 1, e0, (fuel - 1) as nat);
        lemma_subrange_of(s, i, t, 1 + t0.len() as int, t.len() as int);
        assert(t.subrange(1 + t0.len() as int, t.len() as int) =~= tail);
        assert(rem.drop_first() =~= es.skip(k + 1));
        assert(decreases_to!(rem => rem.drop_first()));
        lemma_arr_rest_complete(s, j, es, k + 1, (fuel - 1) as nat, acc.push(e0));
        assert(acc.push(e0) + es.skip(k + 1) =~= acc + rem);
    }
}

/// The canonical tail text of the members after the first parses back to
/// exactly those members.
#[verifier::rlimit(100)]
pub proof fn lemma_obj_rest_complete(
    s: Seq<char>,
    i: int,
    ps: Seq<(Seq<char>, JVal)>,
    k: int,
    fuel: nat,
    acc: Seq<(Seq<char>, JVal)>,
)
    requires
        0 <= i,
        1 <= k <= ps.len(),
        i + obj_tail_text(ps.skip(k)).len() <= s.len(),
        s.subrange(i, i + obj_tail_text(ps.skip(k)).len() as int) == obj_tail_text(ps.skip(k)),
        fuel >= rfuel(s, i),
    ensures
        sp_obj_rest(s, i, fuel, acc) == Some(
            (acc + ps.skip(k), i + obj_tail_text(ps.skip(k)).len() as int),
        ),
    decreases ps.skip(k), 1int,
{
    let rem = ps.skip(k);
    let t = obj_tail_text(rem);
    lemma_seq_at(s, i, t, 0);
    if rem.len() == 0 {
        assert(t[0] == '}');
        lemma_ws_stops(s, i);
        assert(acc + rem =~= acc);
    } else {
        let p0 = rem[0];
        let name = p0.0;
        let v0 = p0.1;
        let mt = member_text(p0);
        let tail = obj_tail_text(rem.drop_first());
        assert(t == seq![','] + mt + tail);
        assert(t =~= seq![','] + (mt + tail));
        assert(mt == seq!['"'] + escape_text(name) + seq!['"', ':'] + text_of(v0));
        assert(t[0] == ',');
        lemma_ws_stops(s, i);
        assert(sp_ws(s, i) == i) by {
            assert(',' as u32 == 44);
        }
        assert(s[i] != '}') by {
            assert('}' as u32 == 125 && ',' as u32 == 44);
        }
        lemma_seq_at(s, i, t, 1);
        assert(t[1] == mt[0] && mt[0] == '"');
        assert(s[i + 1] == '"');
        lemma_ws_stops(s, i + 1);
        assert(sp_ws(s, i + 1) == i + 1) by {
            assert('"' as u32 == 34);
        }
        let el = escape_text(name).len() as int;
        lemma_subrange_of(s, i, t, 1, t.len() as int);
        assert(t.subrange(1, t.len() as int) =~= mt + tail);
        lemma_subrange_of(s, i + 1, mt + tail, 1, 1 + el + 1);
        assert((mt + tail).subrange(1, 1 + el + 1) =~= escape_text(name) + seq!['"']);
        lemma_str_body_complete(s, i + 2, name);
        let jn = i + 2 + el + 1;
        lemma_seq_at(s, i + 1, mt + tail, 2 + el);
        assert((mt + tail)[2 + el] == ':');
        assert(s[jn] == ':');
        lemma_ws_stops(s, jn);
        assert(sp_ws(s, jn) == jn) by {
            assert(':' as u32 == 58);
        }
        let jv = jn + 1;
        let t0 = text_of(v0);
        lemma_text_first(v0);
        lemma_subrange_of(s, i + 1, mt + tail, 3 + el, 3 + el + t0.len() as int);
        assert((mt + tail).subrange(3 + el, 3 + el + t0.len() as int) =~= t0);
        let j2 = jv + t0.len() as int;
        assert(tail.len() >= 1);
        lemma_seq_at(s, i + 1, mt + tail, mt.len() as int);
        assert((mt + tail)[mt.len() as int] == tail[0]);
        assert(s[j2] == tail[0]);
        assert(tail[0] == ',' || tail[0] == '}');
        assert(!is_digit(tail[0])) by {
            assert(',' as u32 == 44 && '}' as u32 == 125);
        }
        lemma_value_complete(s, jv, v0, (fuel - 1) as nat);
        lemma_subrange_of(s, i + 1, mt + tail, mt.len() as int, (mt + tail).len() as int);
        assert((mt + tail).subrange(mt.len() as int, (mt + tail).len() as int) =~= tail);
        assert(rem.drop_first() =~= ps.skip(k + 1));
        assert(decreases_to!(rem => rem.drop_first()));
        lemma_obj_rest_complete(s, j2, ps, k + 1, (fuel - 1) as nat, acc.push(p0));
        assert(acc.push(p0) + ps.skip(k + 1) =~= acc + rem);
    }
}

/// The canonical text of every value parses back to that value, whole.
pub proof fn lemma_parse_text_complete(v: JVal)
    ensures
        parse_text(text_of(v)) == Some(v),
{
    let s = text_of(v);
    assert(s.subrange(0, s.len() as int) =~= s);
    lemma_value_complete(s, 0, v, vfuel(s, 0));
    lemma_ws_stops(s, s.len() as int);
}

/// Texts are decoded up to canonical form: every accepted text denotes the
/// same value as the canonical re-encoding of its result, so parsing,
/// printing, and parsing again is the identity on accepted texts.
pub proof fn lemma_parse_canonical_form(s: Seq<char>)
    ensures
        parse_text(s) matches Some(v) ==> parse_text(text_of(v)) == Some(v),
{
    match parse_text(s) {
        Some(v) => {
            lemma_parse_text_complete(v);
        },
        None => {},
    }
}

} // verus!
