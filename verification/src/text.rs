//! Small, proved helpers over text: characters as sequences, and strings built one character at
//! a time.
use vstd::prelude::*;

verus! {

/// Whether `c` is a control character: Unicode's general category `Cc`, which is exactly the
/// ranges U+0000..=U+001F and U+007F..=U+009F.
pub open spec fn is_control(c: char) -> bool {
    (c as u32) <= 0x1f || (0x7f <= (c as u32) && (c as u32) <= 0x9f)
}

/// Whether `c` is a control character, decided the same way as [`is_control`].
pub fn char_is_control(c: char) -> (r: bool)
    ensures
        r == is_control(c),
{
    let n = c as u32;
    n <= 0x1f || (0x7f <= n && n <= 0x9f)
}

/// Whether `c` is one of the ASCII digits `0` to `9`.
pub open spec fn is_digit(c: char) -> bool {
    '0' <= c && c <= '9'
}

/// Whether `c` is one of the ASCII digits `0` to `9`.
pub fn char_is_digit(c: char) -> (r: bool)
    ensures
        r == is_digit(c),
{
    '0' <= c && c <= '9'
}

/// The characters of `s`, in order.
pub fn chars_of(s: &str) -> (v: Vec<char>)
    ensures
        v@ == s@,
{
    let mut v: Vec<char> = Vec::new();
    for c in it: s.chars()
        invariant
            v@ == it.seq().take(it.index() as int),
    {
        v.push(c);
    }
    v
}

/// Appends one character to `s`, through `String::push`, whose documentation promises exactly
/// that: the string afterwards is the one before with `c` at its end.
#[verifier::external_body]
pub(crate) fn push_char(s: &mut String, c: char)
    ensures
        final(s)@ == old(s)@.push(c),
{
    s.push(c);
}

/// A string holding exactly the characters of `chars`.
pub fn string_of(chars: &[char]) -> (s: String)
    ensures
        s@ == chars@,
{
    let mut s = String::new();
    let mut i: usize = 0;
    while i < chars.len()
        invariant
            i <= chars.len(),
            s@ == chars@.take(i as int),
        decreases chars.len() - i,
    {
        push_char(&mut s, chars[i]);
        i += 1;
        assert(s@ =~= chars@.take(i as int));
    }
    assert(chars@.take(chars@.len() as int) =~= chars@);
    s
}

/// Appends every character of `more` to `s`.
pub fn push_chars(s: &mut String, more: &str)
    ensures
        final(s)@ == old(s)@ + more@,
{
    let v = chars_of(more);
    let mut i: usize = 0;
    while i < v.len()
        invariant
            i <= v.len(),
            v@ == more@,
            s@ == old(s)@ + v@.take(i as int),
        decreases v.len() - i,
    {
        push_char(s, v[i]);
        i += 1;
        assert(s@ =~= old(s)@ + v@.take(i as int));
    }
    assert(v@.take(v@.len() as int) =~= v@);
}

} // verus!
