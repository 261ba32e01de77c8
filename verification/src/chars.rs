//! Character classification and string/character-vector conversions.
//!
//! The grammar distinguishes key characters (ASCII), whitespace (Unicode) and
//! substitution-name characters (Unicode alphanumerics). The Unicode tables
//! behind `char::is_whitespace` and `char::is_alphanumeric` are not restated
//! here: outside the ASCII range their outcome is given a name, and inside the
//! ASCII range the documented classification is spelled out.

use vstd::prelude::*;

verus! {

/// Whether a character above the ASCII range is Unicode whitespace,
/// as `char::is_whitespace` decides it.
pub uninterp spec fn unicode_space(c: char) -> bool;

/// Whether a character above the ASCII range is a Unicode alphanumeric,
/// as `char::is_alphanumeric` decides it.
pub uninterp spec fn unicode_alnum(c: char) -> bool;

/// Whitespace as `char::is_whitespace` sees it: in the ASCII range exactly
/// space, tab, line feed, vertical tab, form feed and carriage return.
pub open spec fn is_space_char(c: char) -> bool {
    if (c as u32) < 128 {
        c == ' ' || c == '\t' || c == '\n' || c == '\u{0B}' || c == '\u{0C}' || c == '\r'
    } else {
        unicode_space(c)
    }
}

/// Alphanumerics as `char::is_alphanumeric` sees them: in the ASCII range
/// exactly the letters and digits. These are the characters a bare `$NAME`
/// substitution accumulates.
pub open spec fn is_subst_char(c: char) -> bool {
    if (c as u32) < 128 {
        ('a' <= c && c <= 'z') || ('A' <= c && c <= 'Z') || ('0' <= c && c <= '9')
    } else {
        unicode_alnum(c)
    }
}

/// First character of a key: an ASCII letter or underscore.
pub open spec fn is_key_start(c: char) -> bool {
    ('a' <= c && c <= 'z') || ('A' <= c && c <= 'Z') || c == '_'
}

/// Subsequent character of a key: ASCII alphanumeric, underscore or dot.
pub open spec fn is_key_char(c: char) -> bool {
    ('a' <= c && c <= 'z') || ('A' <= c && c <= 'Z') || ('0' <= c && c <= '9') || c == '_' || c
        == '.'
}

/// Relies on `char::is_whitespace`: its result depends on the character alone,
/// and on ASCII characters it accepts exactly space, tab, line feed, vertical
/// tab, form feed and carriage return.
#[verifier::external_body]
pub(crate) fn char_is_space(c: char) -> (r: bool)
    ensures
        r == is_space_char(c),
        (c as u32) >= 128 ==> r == unicode_space(c),
{
    c.is_whitespace()
}

/// Relies on `char::is_alphanumeric`: its result depends on the character
/// alone, and on ASCII characters it accepts exactly the letters and digits.
#[verifier::external_body]
pub(crate) fn char_is_subst(c: char) -> (r: bool)
    ensures
        r == is_subst_char(c),
        (c as u32) >= 128 ==> r == unicode_alnum(c),
{
    c.is_alphanumeric()
}

pub(crate) fn char_is_key_start(c: char) -> (r: bool)
    ensures
        r == is_key_start(c),
{
    ('a' <= c && c <= 'z') || ('A' <= c && c <= 'Z') || c == '_'
}

pub(crate) fn char_is_key_char(c: char) -> (r: bool)
    ensures
        r == is_key_char(c),
{
    ('a' <= c && c <= 'z') || ('A' <= c && c <= 'Z') || ('0' <= c && c <= '9') || c == '_' || c
        == '.'
}

/// Relies on `String::push`: appends one character at the end.
#[verifier::external_body]
pub(crate) fn push_char(s: &mut String, c: char)
    ensures
        final(s)@ == old(s)@.push(c),
{
    s.push(c)
}

/// The characters of `s`, in order, as a vector.
pub(crate) fn str_chars_vec(s: &str) -> (r: Vec<char>)
    ensures
        r@ == s@,
{
    let n = s.unicode_len();
    let mut r: Vec<char> = Vec::new();
    let mut i: usize = 0;
    while i < n
        invariant
            i <= n,
            n == s@.len(),
            r@ == s@.take(i as int),
        decreases n - i,
    {
        r.push(s.get_char(i));
        i = i + 1;
        proof {
            assert(r@ =~= s@.take(i as int));
        }
    }
    proof {
        assert(r@ =~= s@);
    }
    r
}

/// The characters `v[from..to]`, joined into a string.
pub(crate) fn chars_to_string(v: &Vec<char>, from: usize, to: usize) -> (r: String)
    requires
        from <= to <= v@.len(),
    ensures
        r@ == v@.subrange(from as int, to as int),
{
    let mut r = String::new();
    let mut i: usize = from;
    while i < to
        invariant
            from <= i <= to <= v@.len(),
            r@ == v@.subrange(from as int, i as int),
        decreases to - i,
    {
        push_char(&mut r, v[i]);
        i = i + 1;
        proof {
            assert(r@ =~= v@.subrange(from as int, i as int));
        }
    }
    r
}

} // verus!
