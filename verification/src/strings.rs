//! Text as sequences of characters: trimming, searching, splitting, and decimal numbers written
//! and read, each stated over `Seq<char>` and computed over `Vec<char>`.
use vstd::prelude::*;

use crate::text::{chars_of, is_digit, push_char};

verus! {

/// Whether `c` has Unicode's `White_Space` property.
pub open spec fn is_whitespace(c: char) -> bool {
    ||| c == '\t'
    ||| c == '\n'
    ||| c == '\u{0B}'
    ||| c == '\u{0C}'
    ||| c == '\r'
    ||| c == ' '
    ||| c == '\u{85}'
    ||| c == '\u{A0}'
    ||| c == '\u{1680}'
    ||| ('\u{2000}' <= c && c <= '\u{200A}')
    ||| c == '\u{2028}'
    ||| c == '\u{2029}'
    ||| c == '\u{202F}'
    ||| c == '\u{205F}'
    ||| c == '\u{3000}'
}

/// Whether `c` has Unicode's `White_Space` property.
pub fn char_is_whitespace(c: char) -> (r: bool)
    ensures
        r == is_whitespace(c),
{
    c == '\t' || c == '\n' || c == '\u{0B}' || c == '\u{0C}' || c == '\r' || c == ' ' || c
        == '\u{85}' || c == '\u{A0}' || c == '\u{1680}' || ('\u{2000}' <= c && c <= '\u{200A}')
        || c == '\u{2028}' || c == '\u{2029}' || c == '\u{202F}' || c == '\u{205F}' || c
        == '\u{3000}'
}

/// `s` without the whitespace it ends with.
pub open spec fn trim_end(s: Seq<char>) -> Seq<char>
    decreases s.len(),
{
    if s.len() > 0 && is_whitespace(s.last()) {
        trim_end(s.drop_last())
    } else {
        s
    }
}

/// `s` without the whitespace it starts with.
pub open spec fn trim_start(s: Seq<char>) -> Seq<char>
    decreases s.len(),
{
    if s.len() > 0 && is_whitespace(s[0]) {
        trim_start(s.drop_first())
    } else {
        s
    }
}

/// `s` without the whitespace at either end.
pub open spec fn trim(s: Seq<char>) -> Seq<char> {
    trim_start(trim_end(s))
}

/// The characters of `s` from `lo` up to `hi`.
pub fn copy_range(s: &Vec<char>, lo: usize, hi: usize) -> (r: Vec<char>)
    requires
        lo <= hi <= s@.len(),
    ensures
        r@ == s@.subrange(lo as int, hi as int),
{
    let mut r: Vec<char> = Vec::new();
    let mut i = lo;
    while i < hi
        invariant
            lo <= i <= hi <= s@.len(),
            r@ == s@.subrange(lo as int, i as int),
        decreases hi - i,
    {
        r.push(s[i]);
        i += 1;
        assert(r@ =~= s@.subrange(lo as int, i as int));
    }
    r
}

/// `s` without the whitespace it ends with.
pub fn trimmed_end(s: &Vec<char>) -> (r: Vec<char>)
    ensures
        r@ == trim_end(s@),
{
    let mut k = s.len();
    assert(s@.take(k as int) =~= s@);
    while k > 0 && char_is_whitespace(s[k - 1])
        invariant
            k <= s@.len(),
            trim_end(s@) == trim_end(s@.take(k as int)),
        decreases k,
    {
        assert(s@.take(k as int).drop_last() =~= s@.take(k - 1));
        k -= 1;
    }
    assert(s@.take(k as int) =~= s@.subrange(0, k as int));
    copy_range(s, 0, k)
}

/// `s` without the whitespace it starts with.
pub fn trimmed_start(s: &Vec<char>) -> (r: Vec<char>)
    ensures
        r@ == trim_start(s@),
{
    let mut k: usize = 0;
    assert(s@.skip(0) =~= s@);
    while k < s.len() && char_is_whitespace(s[k])
        invariant
            k <= s@.len(),
            trim_start(s@) == trim_start(s@.skip(k as int)),
        decreases s@.len() - k,
    {
        assert(s@.skip(k as int).drop_first() =~= s@.skip(k + 1));
        k += 1;
    }
    assert(s@.skip(k as int) =~= s@.subrange(k as int, s@.len() as int));
    copy_range(s, k, s.len())
}

/// `s` without the whitespace at either end.
pub fn trimmed(s: &Vec<char>) -> (r: Vec<char>)
    ensures
        r@ == trim(s@),
{
    let e = trimmed_end(s);
    trimmed_start(&e)
}

/// Whether `needle` occurs in `s` starting at `i`.
pub open spec fn occurs_at(s: Seq<char>, needle: Seq<char>, i: int) -> bool {
    0 <= i && i + needle.len() <= s.len() && s.subrange(i, i + needle.len()) == needle
}

/// Whether `needle` occurs anywhere in `s`.
pub open spec fn contains_seq(s: Seq<char>, needle: Seq<char>) -> bool {
    exists|i: int| occurs_at(s, needle, i)
}

/// Whether `s` starts with `p`.
pub open spec fn has_prefix(s: Seq<char>, p: Seq<char>) -> bool {
    occurs_at(s, p, 0)
}

/// Whether `s` ends with `p`.
pub open spec fn has_suffix(s: Seq<char>, p: Seq<char>) -> bool {
    occurs_at(s, p, s.len() - p.len())
}

/// Whether `needle` occurs in `s` starting at `i`.
pub fn matches_at(s: &Vec<char>, needle: &Vec<char>, i: usize) -> (r: bool)
    ensures
        r == occurs_at(s@, needle@, i as int),
{
    if i > s.len() || needle.len() > s.len() - i {
        return false;
    }
    let n = s.len();
    let mut j: usize = 0;
    while j < needle.len()
        invariant
            n == s@.len(),
            i <= s@.len(),
            i + needle@.len() <= s@.len(),
            j <= needle@.len(),
            forall|k: int| 0 <= k < j ==> s@[i + k] == needle@[k],
        decreases needle@.len() - j,
    {
        assert(i + j < n);
        if s[i + j] != needle[j] {
            assert(s@.subrange(i as int, i + needle@.len())[j as int] != needle@[j as int]);
            return false;
        }
        j += 1;
    }
    assert(s@.subrange(i as int, i + needle@.len()) =~= needle@);
    true
}

/// Whether `s` starts with `p`.
pub fn begins_with(s: &Vec<char>, p: &str) -> (r: bool)
    ensures
        r == has_prefix(s@, p@),
{
    let pv = chars_of(p);
    matches_at(s, &pv, 0)
}

/// Whether `s` ends with `p`.
pub fn finishes_with(s: &Vec<char>, p: &str) -> (r: bool)
    ensures
        r == has_suffix(s@, p@),
{
    let pv = chars_of(p);
    if pv.len() > s.len() {
        return false;
    }
    matches_at(s, &pv, s.len() - pv.len())
}

/// Where `needle` first occurs in `s` at or after `from`, or `None` where it does not.
pub fn find_from(s: &Vec<char>, needle: &Vec<char>, from: usize) -> (r: Option<usize>)
    ensures
        r matches Some(i) ==> from <= i && occurs_at(s@, needle@, i as int) && forall|j: int|
            from <= j < i ==> !occurs_at(s@, needle@, j),
        r is None ==> forall|j: int| from <= j ==> !occurs_at(s@, needle@, j),
{
    if from > s.len() {
        return None;
    }
    let mut i = from;
    loop
        invariant
            from <= i <= s@.len(),
            forall|j: int| from <= j < i ==> !occurs_at(s@, needle@, j),
        decreases s@.len() - i,
    {
        if matches_at(s, needle, i) {
            return Some(i);
        }
        if i >= s.len() {
            return None;
        }
        i += 1;
    }
}

/// Where `needle` first occurs in `s`, or `None` where it does not.
pub fn find(s: &Vec<char>, needle: &str) -> (r: Option<usize>)
    ensures
        r matches Some(i) ==> occurs_at(s@, needle@, i as int) && forall|j: int|
            0 <= j < i ==> !occurs_at(s@, needle@, j),
        r is None ==> !contains_seq(s@, needle@),
{
    let nv = chars_of(needle);
    find_from(s, &nv, 0)
}

/// Whether `needle` occurs anywhere in `s`.
pub fn contains(s: &Vec<char>, needle: &str) -> (r: bool)
    ensures
        r == contains_seq(s@, needle@),
{
    find(s, needle).is_some()
}

/// The pieces of `s` between its occurrences of `sep`, in order: one more piece than there are
/// occurrences, empty pieces included.
pub open spec fn split_on(s: Seq<char>, sep: char) -> Seq<Seq<char>>
    decreases s.len(),
{
    if s.len() == 0 {
        seq![Seq::empty()]
    } else {
        let p = split_on(s.drop_last(), sep);
        if s.last() == sep {
            p.push(Seq::empty())
        } else {
            p.update(p.len() - 1, p.last().push(s.last()))
        }
    }
}

/// `split_on` always has at least one piece.
pub proof fn lemma_split_on_len(s: Seq<char>, sep: char)
    ensures
        split_on(s, sep).len() >= 1,
    decreases s.len(),
{
    if s.len() > 0 {
        lemma_split_on_len(s.drop_last(), sep);
    }
}

/// The pieces of `s` between its occurrences of `sep`.
pub fn split_chars(s: &Vec<char>, sep: char) -> (r: Vec<Vec<char>>)
    ensures
        r@.len() == split_on(s@, sep).len(),
        forall|i: int| 0 <= i < r@.len() ==> (#[trigger] r@[i])@ == split_on(s@, sep)[i],
{
    let mut out: Vec<Vec<char>> = Vec::new();
    let mut cur: Vec<char> = Vec::new();
    let mut i: usize = 0;
    while i < s.len()
        invariant
            i <= s@.len(),
            out@.len() + 1 == split_on(s@.take(i as int), sep).len(),
            forall|k: int| 0 <= k < out@.len() ==> (#[trigger] out@[k])@ == split_on(s@.take(i as int), sep)[k],
            cur@ == split_on(s@.take(i as int), sep).last(),
        decreases s@.len() - i,
    {
        proof {
            lemma_split_on_len(s@.take(i as int), sep);
            assert(s@.take(i + 1).drop_last() =~= s@.take(i as int));
            assert(s@.take(i + 1).last() == s@[i as int]);
        }
        if s[i] == sep {
            let piece = cur;
            out.push(piece);
            cur = Vec::new();
        } else {
            cur.push(s[i]);
        }
        i += 1;
    }
    out.push(cur);
    assert(s@.take(i as int) =~= s@);
    out
}

/// `s` without one `\r` it ends with.
pub open spec fn strip_cr(s: Seq<char>) -> Seq<char> {
    if s.len() > 0 && s.last() == '\r' {
        s.drop_last()
    } else {
        s
    }
}

/// The lines of `s`: split at each `\n`, a `\r` before it dropped with it, and no empty last line
/// after a final line ending.
pub open spec fn lines_of(s: Seq<char>) -> Seq<Seq<char>> {
    let parts = split_on(s, '\n');
    let n = if s.len() == 0 || s.last() == '\n' {
        parts.len() - 1
    } else {
        parts.len() as int
    };
    Seq::new(
        n as nat,
        |i: int|
            if i + 1 < parts.len() {
                strip_cr(parts[i])
            } else {
                parts[i]
            },
    )
}

/// The lines of `s`.
pub fn lines(s: &Vec<char>) -> (r: Vec<Vec<char>>)
    ensures
        r@.len() == lines_of(s@).len(),
        forall|i: int| 0 <= i < r@.len() ==> (#[trigger] r@[i])@ == lines_of(s@)[i],
{
    let parts = split_chars(s, '\n');
    proof {
        lemma_split_on_len(s@, '\n');
    }
    let n = if s.len() == 0 || s[s.len() - 1] == '\n' {
        parts.len() - 1
    } else {
        parts.len()
    };
    let mut out: Vec<Vec<char>> = Vec::new();
    let mut i: usize = 0;
    while i < n
        invariant
            n <= parts@.len(),
            n == lines_of(s@).len(),
            parts@.len() == split_on(s@, '\n').len(),
            forall|k: int| 0 <= k < parts@.len() ==> (#[trigger] parts@[k])@ == split_on(s@, '\n')[k],
            i <= n,
            out@.len() == i,
            forall|k: int| 0 <= k < i ==> (#[trigger] out@[k])@ == lines_of(s@)[k],
        decreases n - i,
    {
        let part = &parts[i];
        if i + 1 < parts.len() && part.len() > 0 && part[part.len() - 1] == '\r' {
            out.push(copy_range(part, 0, part.len() - 1));
            assert(part@.subrange(0, part@.len() - 1) =~= part@.drop_last());
        } else {
            out.push(copy_range(part, 0, part.len()));
            assert(part@.subrange(0, part@.len() as int) =~= part@);
        }
        i += 1;
    }
    out
}

/// The value of the decimal digit `c`.
pub open spec fn digit_value(c: char) -> nat {
    ((c as u32) - ('0' as u32)) as nat
}

/// Whether every character of `s` is a decimal digit.
pub open spec fn all_digits(s: Seq<char>) -> bool {
    forall|i: int| 0 <= i < s.len() ==> is_digit(#[trigger] s[i])
}

/// The number the decimal digits `s` write.
pub open spec fn digits_value(s: Seq<char>) -> nat
    decreases s.len(),
{
    if s.len() == 0 {
        0
    } else {
        digits_value(s.drop_last()) * 10 + digit_value(s.last())
    }
}

/// What reading `s` as an unsigned 32-bit decimal number answers: an optional `+`, then one or
/// more digits whose value fits.
pub open spec fn parse_u32_spec(s: Seq<char>) -> Option<u32> {
    let body = if s.len() > 0 && s[0] == '+' {
        s.drop_first()
    } else {
        s
    };
    if body.len() > 0 && all_digits(body) && digits_value(body) <= u32::MAX {
        Some(digits_value(body) as u32)
    } else {
        None
    }
}

/// A longer run of digits is worth at least as much as any of its prefixes.
proof fn lemma_digits_value_prefix(s: Seq<char>, k: int)
    requires
        0 <= k <= s.len(),
        all_digits(s),
    ensures
        digits_value(s.take(k)) <= digits_value(s),
    decreases s.len() - k,
{
    if k < s.len() {
        let t = s.take(k + 1);
        assert(t.drop_last() =~= s.take(k));
        assert(is_digit(t.last()));
        lemma_digits_value_prefix(s, k + 1);
    } else {
        assert(s.take(k) =~= s);
    }
}

/// `s` read as an unsigned 32-bit decimal number, as `u32`'s `from_str` reads it.
pub fn parse_u32(s: &Vec<char>) -> (r: Option<u32>)
    ensures
        r == parse_u32_spec(s@),
{
    let start: usize = if s.len() > 0 && s[0] == '+' {
        1
    } else {
        0
    };
    let ghost body = if s@.len() > 0 && s@[0] == '+' {
        s@.drop_first()
    } else {
        s@
    };
    assert(body =~= s@.skip(start as int));
    if start >= s.len() {
        return None;
    }
    let mut value: u64 = 0;
    let mut i = start;
    while i < s.len()
        invariant
            start <= i <= s@.len(),
            body == s@.skip(start as int),
            body == (if s@.len() > 0 && s@[0] == '+' {
                s@.drop_first()
            } else {
                s@
            }),
            value == digits_value(body.take(i - start)),
            value <= u32::MAX,
            all_digits(body.take(i - start)),
        decreases s@.len() - i,
    {
        let c = s[i];
        let ghost t = body.take(i - start + 1);
        assert(t.drop_last() =~= body.take(i - start));
        assert(t.last() == c);
        assert(body[i - start] == c);
        if !crate::text::char_is_digit(c) {
            assert(!is_digit(body[i - start]));
            assert(!all_digits(body));
            return None;
        }
        let d = (c as u32 - '0' as u32) as u64;
        value = value * 10 + d;
        assert(all_digits(t));
        assert(value == digits_value(t));
        if value > u32::MAX as u64 {
            proof {
                if all_digits(body) {
                    lemma_digits_value_prefix(body, i - start + 1);
                    assert(digits_value(body) > u32::MAX);
                }
            }
            return None;
        }
        i += 1;
    }
    assert(body.take(i - start) =~= body);
    Some(value as u32)
}

/// The decimal digit `d` as a character.
pub open spec fn digit_char(d: nat) -> char {
    ((d + 48) as u32) as char
}

/// The decimal writing of `n`, with no leading zeros but for `0` itself.
pub open spec fn decimal(n: nat) -> Seq<char>
    decreases n,
{
    if n < 10 {
        seq![digit_char(n)]
    } else {
        decimal(n / 10).push(digit_char(n % 10))
    }
}

/// The decimal digit `d` as a character.
fn digit(d: u64) -> (c: char)
    requires
        d < 10,
    ensures
        c == digit_char(d as nat),
{
    if d == 0 {
        '0'
    } else if d == 1 {
        '1'
    } else if d == 2 {
        '2'
    } else if d == 3 {
        '3'
    } else if d == 4 {
        '4'
    } else if d == 5 {
        '5'
    } else if d == 6 {
        '6'
    } else if d == 7 {
        '7'
    } else if d == 8 {
        '8'
    } else {
        '9'
    }
}

/// The decimal writing of `n`.
pub fn decimal_chars(n: u64) -> (r: Vec<char>)
    ensures
        r@ == decimal(n as nat),
    decreases n,
{
    if n < 10 {
        let mut v: Vec<char> = Vec::new();
        v.push(digit(n));
        assert(v@ =~= seq![digit_char(n as nat)]);
        v
    } else {
        let mut v = decimal_chars(n / 10);
        v.push(digit(n % 10));
        v
    }
}

/// Appends the characters of `more` to `s`.
pub fn push_vec(s: &mut String, more: &Vec<char>)
    ensures
        final(s)@ == old(s)@ + more@,
{
    let mut i: usize = 0;
    while i < more.len()
        invariant
            i <= more@.len(),
            s@ == old(s)@ + more@.take(i as int),
        decreases more@.len() - i,
    {
        push_char(s, more[i]);
        i += 1;
        assert(s@ =~= old(s)@ + more@.take(i as int));
    }
    assert(more@.take(more@.len() as int) =~= more@);
}

/// Appends the decimal writing of `n` to `s`.
pub fn push_decimal(s: &mut String, n: u64)
    ensures
        final(s)@ == old(s)@ + decimal(n as nat),
{
    let d = decimal_chars(n);
    push_vec(s, &d);
}

/// Whether `s` holds exactly the characters of `t`.
pub fn equals(s: &Vec<char>, t: &str) -> (r: bool)
    ensures
        r == (s@ == t@),
{
    let tv = chars_of(t);
    if tv.len() != s.len() {
        return false;
    }
    let r = matches_at(s, &tv, 0);
    assert(s@.subrange(0, tv@.len() as int) =~= s@);
    r
}

/// Whether two character vectors hold the same characters.
pub fn same_chars(s: &Vec<char>, t: &Vec<char>) -> (r: bool)
    ensures
        r == (s@ == t@),
{
    if t.len() != s.len() {
        return false;
    }
    let r = matches_at(s, t, 0);
    assert(s@.subrange(0, t@.len() as int) =~= s@);
    r
}

/// Whether `a` comes strictly before `b` in the order of their characters, a proper prefix first.
pub open spec fn seq_less(a: Seq<char>, b: Seq<char>) -> bool
    decreases a.len(),
{
    if a.len() == 0 {
        b.len() > 0
    } else if b.len() == 0 {
        false
    } else if a[0] != b[0] {
        a[0] < b[0]
    } else {
        seq_less(a.drop_first(), b.drop_first())
    }
}

/// Of two different sequences, one comes before the other.
pub proof fn lemma_seq_less_total(a: Seq<char>, b: Seq<char>)
    requires
        a != b,
    ensures
        seq_less(a, b) || seq_less(b, a),
    decreases a.len(),
{
    if a.len() > 0 && b.len() > 0 {
        if a[0] == b[0] {
            if a.drop_first() == b.drop_first() {
                assert(a =~= seq![a[0]] + a.drop_first());
                assert(b =~= seq![b[0]] + b.drop_first());
            }
            lemma_seq_less_total(a.drop_first(), b.drop_first());
        } else {
        }
    } else if a.len() == 0 && b.len() == 0 {
        assert(a =~= b);
    }
}

/// Nothing comes before itself.
pub proof fn lemma_seq_less_irreflexive(a: Seq<char>)
    ensures
        !seq_less(a, a),
    decreases a.len(),
{
    if a.len() > 0 {
        lemma_seq_less_irreflexive(a.drop_first());
    }
}

/// Whether `a` comes strictly before `b`.
pub fn chars_less(a: &Vec<char>, b: &Vec<char>) -> (r: bool)
    ensures
        r == seq_less(a@, b@),
{
    let mut i: usize = 0;
    assert(a@.skip(0) =~= a@);
    assert(b@.skip(0) =~= b@);
    while i < a.len() && i < b.len() && a[i] == b[i]
        invariant
            i <= a@.len(),
            i <= b@.len(),
            seq_less(a@, b@) == seq_less(a@.skip(i as int), b@.skip(i as int)),
        decreases a@.len() - i,
    {
        assert(a@.skip(i as int).drop_first() =~= a@.skip(i + 1));
        assert(b@.skip(i as int).drop_first() =~= b@.skip(i + 1));
        i += 1;
    }
    if i == a.len() {
        i < b.len()
    } else if i == b.len() {
        false
    } else {
        assert(a@.skip(i as int)[0] == a@[i as int]);
        assert(b@.skip(i as int)[0] == b@[i as int]);
        a[i] < b[i]
    }
}

/// The words of `s`: its maximal runs of characters that are not whitespace, in order.
pub open spec fn words(s: Seq<char>) -> Seq<Seq<char>>
    decreases s.len(),
{
    if s.len() == 0 {
        Seq::empty()
    } else {
        let w = words(s.drop_last());
        if is_whitespace(s.last()) {
            w
        } else if s.len() >= 2 && !is_whitespace(s[s.len() - 2]) {
            w.update(w.len() - 1, w.last().push(s.last()))
        } else {
            w.push(seq![s.last()])
        }
    }
}

/// A sequence ending in a character that is not whitespace has at least one word.
proof fn lemma_words_nonempty(s: Seq<char>)
    requires
        s.len() > 0,
        !is_whitespace(s.last()),
    ensures
        words(s).len() > 0,
    decreases s.len(),
{
    if s.len() >= 2 && !is_whitespace(s[s.len() - 2]) {
        assert(s.drop_last().last() == s[s.len() - 2]);
        lemma_words_nonempty(s.drop_last());
    }
}

/// Every word of `s` holds at least one character.
proof fn lemma_words_are_nonempty(s: Seq<char>)
    ensures
        forall|i: int| 0 <= i < words(s).len() ==> (#[trigger] words(s)[i]).len() > 0,
    decreases s.len(),
{
    if s.len() > 0 {
        lemma_words_are_nonempty(s.drop_last());
        if !is_whitespace(s.last()) && s.len() >= 2 && !is_whitespace(s[s.len() - 2]) {
            assert(s.drop_last().last() == s[s.len() - 2]);
            lemma_words_nonempty(s.drop_last());
        }
    }
}

/// The words of `s`.
pub fn split_words(s: &Vec<char>) -> (r: Vec<Vec<char>>)
    ensures
        r@.len() == words(s@).len(),
        forall|i: int| 0 <= i < r@.len() ==> (#[trigger] r@[i])@ == words(s@)[i],
{
    let mut out: Vec<Vec<char>> = Vec::new();
    let mut cur: Vec<char> = Vec::new();
    let mut i: usize = 0;
    while i < s.len()
        invariant
            i <= s@.len(),
            i > 0 && !is_whitespace(s@[i - 1]) ==> words(s@.take(i as int)).len() > 0 && cur@
                == words(s@.take(i as int)).last() && out@.len() + 1 == words(
                s@.take(i as int),
            ).len(),
            !(i > 0 && !is_whitespace(s@[i - 1])) ==> cur@.len() == 0 && out@.len() == words(
                s@.take(i as int),
            ).len(),
            forall|k: int| 0 <= k < out@.len() ==> (#[trigger] out@[k])@ == words(s@.take(i as int))[k],
        decreases s@.len() - i,
    {
        let ghost t = s@.take(i + 1);
        proof {
            assert(t.drop_last() =~= s@.take(i as int));
            assert(t.last() == s@[i as int]);
            if i > 0 {
                assert(t[t.len() - 2] == s@[i - 1]);
            }
            lemma_words_are_nonempty(s@.take(i as int));
        }
        if char_is_whitespace(s[i]) {
            if cur.len() > 0 {
                let piece = cur;
                out.push(piece);
                cur = Vec::new();
            }
        } else {
            cur.push(s[i]);
        }
        proof {
            if !is_whitespace(s@[i as int]) {
                lemma_words_nonempty(t);
            }
        }
        i += 1;
    }
    proof {
        lemma_words_are_nonempty(s@.take(i as int));
    }
    if cur.len() > 0 {
        out.push(cur);
    }
    assert(s@.take(i as int) =~= s@);
    out
}

/// The parts joined into one sequence, `sep` between each two.
pub open spec fn join(parts: Seq<Seq<char>>, sep: Seq<char>) -> Seq<char>
    decreases parts.len(),
{
    if parts.len() == 0 {
        Seq::empty()
    } else if parts.len() == 1 {
        parts[0]
    } else {
        join(parts.drop_last(), sep) + sep + parts.last()
    }
}

} // verus!
