//! The canonical JSON text of a value: a specification of the exact character
//! sequence, and a verified printer producing it.
use vstd::prelude::*;
use crate::json::{JVal, Json, jprops_of, jvals_of, lemma_jprops_of_index, lemma_jvals_of_index};
use crate::chars::string_of_chars;

verus! {

/// The decimal digit character for a value below ten.
pub open spec fn digit_char(d: int) -> char {
    if d == 0 {
        '0'
    } else if d == 1 {
        '1'
    } else if d == 2 {
        '2'
    } else if d == 3 {
        '3'
    } else if d == 4 {
        '4'
    } else if d == 5 {
        '5'
    } else if d == 6 {
        '6'
    } else if d == 7 {
        '7'
    } else if d == 8 {
        '8'
    } else {
        '9'
    }
}

/// The lowercase hexadecimal digit character for a value below sixteen.
pub open spec fn hex_char(d: int) -> char {
    if d < 10 {
        digit_char(d)
    } else if d == 10 {
        'a'
    } else if d == 11 {
        'b'
    } else if d == 12 {
        'c'
    } else if d == 13 {
        'd'
    } else if d == 14 {
        'e'
    } else {
        'f'
    }
}

/// The decimal text of a nonnegative integer, without a sign and without
/// leading zeros.
pub open spec fn nat_text(n: nat) -> Seq<char>
    decreases n,
{
    if n < 10 {
        seq![digit_char(n as int)]
    } else {
        nat_text(n / 10) + seq![digit_char((n % 10) as int)]
    }
}

/// The decimal text of an integer.
pub open spec fn int_text(n: int) -> Seq<char> {
    if n < 0 {
        seq!['-'] + nat_text((-n) as nat)
    } else {
        nat_text(n as nat)
    }
}

/// How one character appears inside a JSON string literal: quotes and
/// backslashes are escaped, control characters use the short escapes or the
/// `\u00XX` form, and every other character stands for itself.
pub open spec fn escape_char(c: char) -> Seq<char> {
    if c == '"' {
        seq!['\\', '"']
    } else if c == '\\' {
        seq!['\\', '\\']
    } else if c == '\u{8}' {
        seq!['\\', 'b']
    } else if c == '\t' {
        seq!['\\', 't']
    } else if c == '\n' {
        seq!['\\', 'n']
    } else if c == '\u{c}' {
        seq!['\\', 'f']
    } else if c == '\r' {
        seq!['\\', 'r']
    } else if (c as u32) < 32 {
        seq!['\\', 'u', '0', '0', hex_char(c as u32 as int / 16), hex_char(c as u32 as int % 16)]
    } else {
        seq![c]
    }
}

/// The body of a JSON string literal: each character escaped in turn.
pub open spec fn escape_text(s: Seq<char>) -> Seq<char>
    decreases s.len(),
{
    if s.len() == 0 {
        Seq::empty()
    } else {
        escape_char(s[0]) + escape_text(s.drop_first())
    }
}

/// The canonical JSON text of a value: no whitespace, object members in the
/// order held by the value, integers in decimal.
pub open spec fn text_of(v: JVal) -> Seq<char>
    decreases v,
{
    match v {
        JVal::Null => seq!['n', 'u', 'l', 'l'],
        JVal::Bool(b) => if b {
            seq!['t', 'r', 'u', 'e']
        } else {
            seq!['f', 'a', 'l', 's', 'e']
        },
        JVal::Int(n) => int_text(n as int),
        JVal::Str(s) => seq!['"'] + escape_text(s) + seq!['"'],
        JVal::Arr(es) => if es.len() == 0 {
            seq!['[', ']']
        } else {
            seq!['['] + text_of(es[0]) + arr_tail_text(es.drop_first())
        },
        JVal::Obj(ps) => if ps.len() == 0 {
            seq!['{', '}']
        } else {
            seq!['{'] + member_text(ps[0]) + obj_tail_text(ps.drop_first())
        },
    }
}

/// The text of one object member: the escaped name in quotes, a colon, and
/// the value.
pub open spec fn member_text(p: (Seq<char>, JVal)) -> Seq<char>
    decreases p,
{
    seq!['"'] + escape_text(p.0) + seq!['"', ':'] + text_of(p.1)
}

/// The text that follows the first element of a nonempty array: a comma and
/// an element for each remaining element, then the closing bracket.
pub open spec fn arr_tail_text(es: Seq<JVal>) -> Seq<char>
    decreases es,
{
    if es.len() == 0 {
        seq![']']
    } else {
        seq![','] + text_of(es[0]) + arr_tail_text(es.drop_first())
    }
}

/// The text that follows the first member of a nonempty object.
pub open spec fn obj_tail_text(ps: Seq<(Seq<char>, JVal)>) -> Seq<char>
    decreases ps,
{
    if ps.len() == 0 {
        seq!['}']
    } else {
        seq![','] + member_text(ps[0]) + obj_tail_text(ps.drop_first())
    }
}

/// Escaping a sequence extended by one character appends that character's
/// escape.
pub proof fn lemma_escape_text_push(s: Seq<char>, c: char)
    ensures
        escape_text(s.push(c)) == escape_text(s) + escape_char(c),
    decreases s.len(),
{
    if s.len() == 0 {
        assert(s.push(c)[0] == c);
        assert(s.push(c).drop_first() =~= Seq::<char>::empty());
        assert(escape_text(Seq::<char>::empty()) == Seq::<char>::empty());
        assert(escape_text(s.push(c)) == escape_char(c) + escape_text(s.push(c).drop_first()));
        assert(escape_text(s.push(c)) =~= escape_text(s) + escape_char(c));
    } else {
        assert(s.push(c).drop_first() =~= s.drop_first().push(c));
        lemma_escape_text_push(s.drop_first(), c);
        assert(escape_text(s.push(c)) =~= escape_text(s) + escape_char(c));
    }
}

fn push_digit(d: u64, out: &mut Vec<char>)
    requires
        d < 10,
    ensures
        final(out)@ == old(out)@ + seq![digit_char(d as int)],
{
    let c: char = if d == 0 {
        '0'
    } else if d == 1 {
        '1'
    } else if d == 2 {
        '2'
    } else if d == 3 {
        '3'
    } else if d == 4 {
        '4'
    } else if d == 5 {
        '5'
    } else if d == 6 {
        '6'
    } else if d == 7 {
        '7'
    } else if d == 8 {
        '8'
    } else {
        '9'
    };
    out.push(c);
    assert(out@ =~= old(out)@ + seq![digit_char(d as int)]);
}

fn push_hex(d: u64, out: &mut Vec<char>)
    requires
        d < 16,
    ensures
        final(out)@ == old(out)@ + seq![hex_char(d as int)],
{
    if d < 10 {
        push_digit(d, out);
    } else {
        let c: char = if d == 10 {
            'a'
        } else if d == 11 {
            'b'
        } else if d == 12 {
            'c'
        } else if d == 13 {
            'd'
        } else if d == 14 {
            'e'
        } else {
            'f'
        };
        out.push(c);
        assert(out@ =~= old(out)@ + seq![hex_char(d as int)]);
    }
}

fn write_nat(n: u64, out: &mut Vec<char>)
    ensures
        final(out)@ == old(out)@ + nat_text(n as nat),
    decreases n,
{
    if n < 10 {
        push_digit(n, out);
    } else {
        write_nat(n / 10, out);
        push_digit(n % 10, out);
        assert(out@ =~= old(out)@ + nat_text(n as nat));
    }
}

fn write_int(n: i64, out: &mut Vec<char>)
    ensures
        final(out)@ == old(out)@ + int_text(n as int),
{
    if n >= 0 {
        write_nat(n as u64, out);
    } else {
        out.push('-');
        let mag: u64 = if n == i64::MIN {
            9223372036854775808u64
        } else {
            (-n) as u64
        };
        write_nat(mag, out);
        assert(mag as nat == (-(n as int)) as nat);
        assert(out@ =~= old(out)@ + int_text(n as int));
    }
}

fn write_escaped_char(c: char, out: &mut Vec<char>)
    ensures
        final(out)@ == old(out)@ + escape_char(c),
{
    let u = c as u32;
    if c == '"' {
        out.push('\\');
        out.push('"');
    } else if c == '\\' {
        out.push('\\');
        out.push('\\');
    } else if u == 8 {
        out.push('\\');
        out.push('b');
    } else if u == 9 {
        out.push('\\');
        out.push('t');
    } else if u == 10 {
        out.push('\\');
        out.push('n');
    } else if u == 12 {
        out.push('\\');
        out.push('f');
    } else if u == 13 {
        out.push('\\');
        out.push('r');
    } else if u < 32 {
        out.push('\\');
        out.push('u');
        out.push('0');
        out.push('0');
        push_hex((u / 16) as u64, out);
        push_hex((u % 16) as u64, out);
    } else {
        out.push(c);
    }
    assert(out@ =~= old(out)@ + escape_char(c));
}

fn write_escaped(s: &Vec<char>, out: &mut Vec<char>)
    ensures
        final(out)@ == old(out)@ + escape_text(s@),
{
    let mut k: usize = 0;
    while k < s.len()
        invariant
            k <= s.len(),
            out@ == old(out)@ + escape_text(s@.take(k as int)),
        decreases s.len() - k,
    {
        proof {
            lemma_escape_text_push(s@.take(k as int), s@[k as int]);
            assert(s@.take(k as int + 1) =~= s@.take(k as int).push(s@[k as int]));
        }
        write_escaped_char(s[k], out);
        k = k + 1;
        assert(out@ =~= old(out)@ + escape_text(s@.take(k as int)));
    }
    assert(s@.take(s@.len() as int) =~= s@);
}

fn write_value(j: &Json, out: &mut Vec<char>)
    ensures
        final(out)@ == old(out)@ + text_of(j@),
    decreases *j, 0int,
{
    broadcast use lemma_jvals_of_index, lemma_jprops_of_index;

    match j {
        Json::Null => {
            out.push('n');
            out.push('u');
            out.push('l');
            out.push('l');
            assert(out@ =~= old(out)@ + text_of(j@));
        },
        Json::Bool(b) => {
            if *b {
                out.push('t');
                out.push('r');
                out.push('u');
                out.push('e');
            } else {
                out.push('f');
                out.push('a');
                out.push('l');
                out.push('s');
                out.push('e');
            }
            assert(out@ =~= old(out)@ + text_of(j@));
        },
        Json::Int(n) => {
            write_int(*n, out);
        },
        Json::Str(s) => {
            out.push('"');
            write_escaped(s, out);
            out.push('"');
            assert(out@ =~= old(out)@ + text_of(j@));
        },
        Json::Arr(es) => {
            out.push('[');
            if es.len() == 0 {
                out.push(']');
                assert(out@ =~= old(out)@ + text_of(j@));
            } else {
                write_value(&es[0], out);
                write_arr_tail(es, 1, out);
                proof {
                    let m = jvals_of(es@);
                    assert(m.skip(1) =~= m.drop_first());
                    assert(out@ =~= old(out)@ + text_of(j@));
                }
            }
        },
        Json::Obj(ps) => {
            out.push('{');
            if ps.len() == 0 {
                out.push('}');
                assert(out@ =~= old(out)@ + text_of(j@));
            } else {
                write_member(&ps[0].0, &ps[0].1, out);
                write_obj_tail(ps, 1, out);
                proof {
                    let m = jprops_of(ps@);
                    assert(m.skip(1) =~= m.drop_first());
                    assert(out@ =~= old(out)@ + text_of(j@));
                }
            }
        },
    }
}

pub(crate) fn write_member(name: &Vec<char>, v: &Json, out: &mut Vec<char>)
    ensures
        final(out)@ == old(out)@ + member_text((name@, v@)),
    decreases *v, 1int,
{
    out.push('"');
    write_escaped(name, out);
    out.push('"');
    out.push(':');
    write_value(v, out);
    assert(out@ =~= old(out)@ + member_text((name@, v@)));
}

fn write_arr_tail(es: &Vec<Json>, k: usize, out: &mut Vec<char>)
    requires
        1 <= k <= es.len(),
    ensures
        final(out)@ == old(out)@ + arr_tail_text(jvals_of(es@).skip(k as int)),
    decreases es@, es@.len() - k,
{
    broadcast use lemma_jvals_of_index;

    let ghost m = jvals_of(es@);
    if k == es.len() {
        out.push(']');
        assert(m.skip(k as int) =~= Seq::<JVal>::empty());
        assert(out@ =~= old(out)@ + arr_tail_text(m.skip(k as int)));
    } else {
        out.push(',');
        write_value(&es[k], out);
        write_arr_tail(es, k + 1, out);
        proof {
            assert(m.skip(k as int).drop_first() =~= m.skip(k as int + 1));
            assert(m.skip(k as int)[0] == m[k as int]);
            assert(out@ =~= old(out)@ + arr_tail_text(m.skip(k as int)));
        }
    }
}

fn write_obj_tail(ps: &Vec<(Vec<char>, Json)>, k: usize, out: &mut Vec<char>)
    requires
        1 <= k <= ps.len(),
    ensures
        final(out)@ == old(out)@ + obj_tail_text(jprops_of(ps@).skip(k as int)),
    decreases ps@, ps@.len() - k,
{
    broadcast use lemma_jprops_of_index;

    let ghost m = jprops_of(ps@);
    if k == ps.len() {
        out.push('}');
        assert(m.skip(k as int) =~= Seq::<(Seq<char>, JVal)>::empty());
        assert(out@ =~= old(out)@ + obj_tail_text(m.skip(k as int)));
    } else {
        out.push(',');
        write_member(&ps[k].0, &ps[k].1, out);
        write_obj_tail(ps, k + 1, out);
        proof {
            assert(m.skip(k as int).drop_first() =~= m.skip(k as int + 1));
            assert(m.skip(k as int)[0] == m[k as int]);
            assert(out@ =~= old(out)@ + obj_tail_text(m.skip(k as int)));
        }
    }
}

/// The canonical JSON text of a value, as a vector of characters.
pub fn json_text_chars(j: &Json) -> (r: Vec<char>)
    ensures
        r@ == text_of(j@),
{
    let mut out: Vec<char> = Vec::new();
    write_value(j, &mut out);
    out
}

/// The canonical JSON text of a value.
pub fn to_json_text(j: &Json) -> (r: String)
    ensures
        r@ == text_of(j@),
{
    string_of_chars(json_text_chars(j))
}

} // verus!
