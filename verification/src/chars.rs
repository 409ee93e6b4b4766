//! Conversions between `String`/`&str`/character codes and the vectors of
//! characters the rest of the library works on.
use vstd::prelude::*;
use vstd::string::StrSliceExecFns;

verus! {

/// The characters of a string, in order, as a vector.
pub(crate) fn chars_of(s: &str) -> (r: Vec<char>)
    ensures
        r@ == s@,
{
    let n = s.unicode_len();
    let mut out: Vec<char> = Vec::new();
    let mut k: usize = 0;
    while k < n
        invariant
            k <= n,
            n == s@.len(),
            out@ == s@.take(k as int),
        decreases n - k,
    {
        let c = s.get_char(k);
        out.push(c);
        proof {
            assert(s@.take(k as int + 1) =~= s@.take(k as int).push(s@[k as int]));
        }
        k = k + 1;
    }
    proof {
        assert(s@.take(s@.len() as int) =~= s@);
    }
    out
}

/// Relies on String::from_iter: the collected string holds exactly the given
/// characters, in order.
#[verifier::external_body]
pub(crate) fn string_of_chars(v: Vec<char>) -> (r: String)
    ensures
        r@ == v@,
{
    String::from_iter(v)
}

/// Relies on char::from_u32: every code below 0x110000 and outside the
/// surrogate range is a valid character code, and this returns the character
/// with that code.
#[verifier::external_body]
pub(crate) fn char_from_code(code: u32) -> (r: char)
    requires
        code < 0xD800 || (0xE000 <= code && code < 0x110000),
    ensures
        r as u32 == code,
{
    char::from_u32(code).unwrap()
}

} // verus!
