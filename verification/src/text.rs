//! Characters and strings: decoding, comparing, trimming and decimal numbers.
use vstd::prelude::*;
use vstd::utf8::{decode_utf8, encode_utf8, encode_utf8_decode_utf8, valid_utf8};

verus! {

/// `String::push` appends one character.
pub assume_specification[ String::push ](s: &mut String, c: char)
    ensures
        final(s)@ == old(s)@.push(c),
;

/// `core::str::from_utf8` yields the decoded text exactly where the bytes are
/// well-formed UTF-8.
#[verifier::external_body]
pub(crate) fn utf8_text(b: &[u8]) -> (r: Option<&str>)
    ensures
        r is Some <==> valid_utf8(b@),
        r matches Some(s) ==> s@ == decode_utf8(b@),
{
    core::str::from_utf8(b).ok()
}

/// The text of `b`, where `b` is well-formed UTF-8.
pub open spec fn utf8(b: Seq<u8>) -> Option<Seq<char>> {
    if valid_utf8(b) {
        Some(decode_utf8(b))
    } else {
        None
    }
}

/// Each byte of `b` as the character with that number (ISO 8859-1).
pub open spec fn latin1(b: Seq<u8>) -> Seq<char> {
    Seq::new(b.len(), |i: int| b[i] as char)
}

/// Latin-1 loses nothing: different bytes are different texts.
pub proof fn latin1_is_lossless(a: Seq<u8>, b: Seq<u8>)
    requires
        latin1(a) == latin1(b),
    ensures
        a == b,
{
    assert(a.len() == latin1(a).len());
    assert forall|i: int| 0 <= i < a.len() implies a[i] == b[i] by {
        assert(latin1(a)[i] == a[i] as char);
        assert(latin1(b)[i] == b[i] as char);
        assert((a[i] as char) as u32 == a[i]);
        assert((b[i] as char) as u32 == b[i]);
    }
    assert(a =~= b);
}

/// Whether `c` has the Unicode property White_Space.
pub open spec fn white(c: char) -> bool {
    ||| 0x09 <= c as u32 <= 0x0D
    ||| c as u32 == 0x20
    ||| c as u32 == 0x85
    ||| c as u32 == 0xA0
    ||| c as u32 == 0x1680
    ||| 0x2000 <= c as u32 <= 0x200A
    ||| 0x2028 <= c as u32 <= 0x2029
    ||| c as u32 == 0x202F
    ||| c as u32 == 0x205F
    ||| c as u32 == 0x3000
}

/// `s` without leading white space.
pub open spec fn trim_start(s: Seq<char>) -> Seq<char>
    decreases s.len(),
{
    if s.len() > 0 && white(s[0]) {
        trim_start(s.subrange(1, s.len() as int))
    } else {
        s
    }
}

/// `s` without trailing white space.
pub open spec fn trim_end(s: Seq<char>) -> Seq<char>
    decreases s.len(),
{
    if s.len() > 0 && white(s[s.len() - 1]) {
        trim_end(s.subrange(0, s.len() - 1))
    } else {
        s
    }
}

/// `s` without leading and trailing white space.
pub open spec fn trim(s: Seq<char>) -> Seq<char> {
    trim_end(trim_start(s))
}

pub open spec fn is_digit(c: char) -> bool {
    '0' <= c <= '9'
}

/// Whether `s` holds decimal digits, one at least, and nothing else.
pub open spec fn all_digits(s: Seq<char>) -> bool {
    s.len() > 0 && forall|i: int| 0 <= i < s.len() ==> is_digit(#[trigger] s[i])
}

/// The value of a string of decimal digits.
pub open spec fn decimal(s: Seq<char>) -> nat
    decreases s.len(),
{
    if s.len() == 0 {
        0
    } else {
        decimal(s.subrange(0, s.len() - 1)) * 10 + (s[s.len() - 1] as nat - '0' as nat) as nat
    }
}

/// `s` as an unsigned number no greater than `max`: decimal digits, one at least,
/// after an optional plus sign.
pub open spec fn unsigned(s: Seq<char>, max: nat) -> Option<nat> {
    let d = if s.len() > 1 && s[0] == '+' {
        s.subrange(1, s.len() as int)
    } else {
        s
    };
    if all_digits(d) && decimal(d) <= max {
        Some(decimal(d))
    } else {
        None
    }
}

/// Whether two strings are the same.
pub fn str_eq(a: &str, b: &str) -> (r: bool)
    ensures
        r == (a@ == b@),
{
    proof {
        encode_utf8_decode_utf8(a@);
        encode_utf8_decode_utf8(b@);
    }
    crate::bytes::same(a.as_bytes(), b.as_bytes())
}

/// The characters of `s`.
pub fn chars_of(s: &str) -> (r: Vec<char>)
    ensures
        r@ == s@,
{
    let mut r: Vec<char> = Vec::new();
    for c in it: s.chars()
        invariant
            it.seq() == s@,
            r@ == s@.take(it.index() as int),
    {
        r.push(c);
        assert(s@.take(it.index() as int + 1) =~= s@.take(it.index() as int).push(c));
    }
    assert(s@.take(s@.len() as int) =~= s@);
    r
}

/// The string with the given characters.
pub fn string_of(c: &[char]) -> (r: String)
    ensures
        r@ == c@,
{
    let mut r = String::new();
    let mut i: usize = 0;
    while i < c.len()
        invariant
            i <= c@.len(),
            r@ == c@.take(i as int),
        decreases c@.len() - i,
    {
        r.push(c[i]);
        i += 1;
        assert(c@.take(i as int) =~= c@.take(i - 1).push(c@[i - 1]));
    }
    assert(c@.take(c@.len() as int) =~= c@);
    r
}

/// The string whose characters have the numbers given by `b`.
pub fn latin1_to_string(b: &[u8]) -> (r: String)
    ensures
        r@ == latin1(b@),
{
    let mut r = String::new();
    let mut i: usize = 0;
    while i < b.len()
        invariant
            i <= b@.len(),
            r@ == latin1(b@).take(i as int),
        decreases b@.len() - i,
    {
        r.push(b[i] as char);
        i += 1;
        assert(latin1(b@).take(i as int) =~= latin1(b@).take(i - 1).push(latin1(b@)[i - 1]));
    }
    assert(latin1(b@).take(b@.len() as int) =~= latin1(b@));
    r
}

pub fn is_white(c: char) -> (r: bool)
    ensures
        r == white(c),
{
    let n: u32 = c as u32;
    (0x09 <= n && n <= 0x0D) || n == 0x20 || n == 0x85 || n == 0xA0 || n == 0x1680 || (0x2000 <= n
        && n <= 0x200A) || (0x2028 <= n && n <= 0x2029) || n == 0x202F || n == 0x205F || n == 0x3000
}

/// The characters from `i` up to `j`.
pub fn sub_chars<'a>(c: &'a [char], i: usize, j: usize) -> (r: &'a [char])
    requires
        i <= j <= c@.len(),
    ensures
        r@ == c@.subrange(i as int, j as int),
{
    vstd::slice::slice_subrange(c, i, j)
}

/// Whether `c` is exactly the characters of `s`.
pub fn chars_are(c: &[char], s: &str) -> (r: bool)
    ensures
        r == (c@ == s@),
{
    let t = string_of(c);
    str_eq(t.as_str(), s)
}

/// `c` without leading and trailing white space.
pub fn trimmed<'a>(c: &'a [char]) -> (r: &'a [char])
    ensures
        r@ == trim(c@),
{
    let mut i: usize = 0;
    assert(c@.subrange(0, c@.len() as int) =~= c@);
    while i < c.len() && is_white(c[i])
        invariant
            i <= c@.len(),
            trim_start(c@.subrange(i as int, c@.len() as int)) == trim_start(c@),
        decreases c@.len() - i,
    {
        assert(c@.subrange(i as int, c@.len() as int).subrange(1, c@.len() - i) =~= c@.subrange(
            i + 1,
            c@.len() as int,
        ));
        i += 1;
    }
    let mut j: usize = c.len();
    let ghost started = c@.subrange(i as int, c@.len() as int);
    assert(trim_start(started) == started);
    while i < j && is_white(c[j - 1])
        invariant
            i <= j <= c@.len(),
            trim_end(c@.subrange(i as int, j as int)) == trim_end(started),
        decreases j,
    {
        assert(c@.subrange(i as int, j as int).subrange(0, j - i - 1) =~= c@.subrange(
            i as int,
            j - 1,
        ));
        j -= 1;
    }
    sub_chars(c, i, j)
}

proof fn lemma_decimal_grows(s: Seq<char>, k: int)
    requires
        0 <= k <= s.len(),
        forall|i: int| 0 <= i < s.len() ==> is_digit(#[trigger] s[i]),
    ensures
        decimal(s.subrange(0, k)) <= decimal(s),
    decreases s.len() - k,
{
    if k < s.len() {
        assert(s.subrange(0, k + 1).subrange(0, k) =~= s.subrange(0, k));
        lemma_decimal_grows(s, k + 1);
    } else {
        assert(s.subrange(0, k) =~= s);
    }
}

/// Reads `s` as an unsigned decimal number no greater than `max`.
pub fn parse_unsigned(s: &str, max: u32) -> (r: Option<u32>)
    ensures
        match unsigned(s@, max as nat) {
            Some(v) => r == Some(v as u32) && v <= max,
            None => r is None,
        },
{
    let c = chars_of(s);
    let start: usize = if c.len() > 1 && c[0] == '+' {
        1
    } else {
        0
    };
    let d = sub_chars(c.as_slice(), start, c.len());
    assert(start == 0 ==> d@ =~= s@);
    let mut acc: u64 = 0;
    let mut i: usize = 0;
    while i < d.len()
        invariant
            i <= d@.len(),
            acc == decimal(d@.subrange(0, i as int)),
            acc <= max,
            d@ == (if s@.len() > 1 && s@[0] == '+' {
                s@.subrange(1, s@.len() as int)
            } else {
                s@
            }),
            forall|j: int| 0 <= j < i ==> is_digit(#[trigger] d@[j]),
        decreases d@.len() - i,
    {
        let x = d[i];
        if !('0' <= x && x <= '9') {
            assert(!is_digit(d@[i as int]));
            assert(!all_digits(d@));
            return None;
        }
        acc = acc * 10 + (x as u32 - '0' as u32) as u64;
        i += 1;
        assert(d@.subrange(0, i as int).subrange(0, i - 1) =~= d@.subrange(0, i - 1));
        if acc > max as u64 {
            proof {
                if all_digits(d@) {
                    lemma_decimal_grows(d@, i as int);
                }
            }
            return None;
        }
    }
    assert(d@.subrange(0, d@.len() as int) =~= d@);
    if d.len() == 0 {
        return None;
    }
    Some(acc as u32)
}

/// Appends a text.
pub fn push_text(out: &mut String, s: &str)
    ensures
        final(out)@ == old(out)@ + s@,
{
    let c = chars_of(s);
    let mut i: usize = 0;
    assert(out@ =~= old(out)@ + c@.subrange(0, 0));
    while i < c.len()
        invariant
            i <= c@.len(),
            out@ == old(out)@ + c@.subrange(0, i as int),
        decreases c@.len() - i,
    {
        out.push(c[i]);
        assert(c@.subrange(0, i + 1) =~= c@.subrange(0, i as int).push(c@[i as int]));
        i += 1;
    }
    assert(c@.subrange(0, i as int) =~= c@);
}

/// A digit as a character.
pub open spec fn digit(d: nat) -> char {
    ('0' as u32 + d) as char
}

/// A number in decimal digits.
pub open spec fn digits_of(n: nat) -> Seq<char>
    decreases n,
{
    if n < 10 {
        seq![digit(n)]
    } else {
        digits_of(n / 10).push(digit(n % 10))
    }
}

/// Appends a number.
pub fn push_number(out: &mut String, n: usize)
    ensures
        final(out)@ == old(out)@ + digits_of(n as nat),
    decreases n,
{
    if n >= 10 {
        push_number(out, n / 10);
    }
    let c: char = ('0' as u8 + (n % 10) as u8) as char;
    out.push(c);
    assert(out@ =~= old(out)@ + digits_of(n as nat));
}

} // verus!
