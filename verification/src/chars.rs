//! Helpers between strings and character vectors.

use vstd::prelude::*;

verus! {

/// The characters of `s`, in order.
pub fn chars_of(s: &str) -> (v: Vec<char>)
    ensures
        v@ == s@,
{
    let mut v: Vec<char> = Vec::new();
    for c in it: s.chars()
        invariant
            v@ == it.seq().take(it.index() as int),
    {
        v.push(c);
    }
    v
}

/// Collects characters into an owned string.
///
/// Trusted: calls `String::from_iter` over the characters, which per the std
/// documentation yields the string holding exactly those characters in order.
#[verifier::external_body]
pub(crate) fn string_from_chars(v: &[char]) -> (s: String)
    ensures
        s@ == v@,
{
    String::from_iter(v.iter())
}

/// Appends the characters of `s`.
pub fn append_str(v: &mut Vec<char>, s: &str)
    ensures
        final(v)@ == old(v)@ + s@,
{
    let tail = chars_of(s);
    append_chars(v, tail.as_slice());
}

/// Appends `tail`.
pub fn append_chars(v: &mut Vec<char>, tail: &[char])
    ensures
        final(v)@ == old(v)@ + tail@,
{
    let ghost head = v@;
    let mut i: usize = 0;
    while i < tail.len()
        invariant
            i <= tail@.len(),
            v@ == head + tail@.take(i as int),
            head == old(v)@,
        decreases tail@.len() - i,
    {
        v.push(tail[i]);
        assert(tail@.take(i + 1) =~= tail@.take(i as int).push(tail@[i as int]));
        i = i + 1;
    }
    assert(tail@.take(tail@.len() as int) =~= tail@);
}

/// The ASCII digit for `d < 10`.
pub open spec fn digit_char(d: nat) -> char {
    if d == 0 { '0' }
    else if d == 1 { '1' }
    else if d == 2 { '2' }
    else if d == 3 { '3' }
    else if d == 4 { '4' }
    else if d == 5 { '5' }
    else if d == 6 { '6' }
    else if d == 7 { '7' }
    else if d == 8 { '8' }
    else { '9' }
}

/// The decimal representation of `v`, without sign or leading zeros
/// (`"0"` for zero), as `u64::to_string` writes it.
pub open spec fn decimal_digits(v: nat) -> Seq<char>
    decreases v,
{
    if v < 10 {
        seq![digit_char(v)]
    } else {
        decimal_digits(v / 10).push(digit_char(v % 10))
    }
}

fn digit_of(d: u64) -> (c: char)
    requires
        d < 10,
    ensures
        c == digit_char(d as nat),
{
    if d == 0 { '0' }
    else if d == 1 { '1' }
    else if d == 2 { '2' }
    else if d == 3 { '3' }
    else if d == 4 { '4' }
    else if d == 5 { '5' }
    else if d == 6 { '6' }
    else if d == 7 { '7' }
    else if d == 8 { '8' }
    else { '9' }
}

/// The decimal digits of `v`, most significant first.
pub fn decimal_chars(v: u64) -> (digits: Vec<char>)
    ensures
        digits@ == decimal_digits(v as nat),
    decreases v,
{
    if v < 10 {
        let mut digits = Vec::new();
        digits.push(digit_of(v));
        digits
    } else {
        let mut digits = decimal_chars(v / 10);
        digits.push(digit_of(v % 10));
        digits
    }
}

/// `v` written in decimal, as `u64::to_string` writes it.
pub fn decimal_string(v: u64) -> (s: String)
    ensures
        s@ == decimal_digits(v as nat),
{
    let digits = decimal_chars(v);
    string_from_chars(digits.as_slice())
}

/// Whether `c` is an ASCII letter or digit (`char::is_ascii_alphanumeric`).
pub open spec fn spec_is_ascii_alphanumeric(c: char) -> bool {
    ('a' <= c <= 'z') || ('A' <= c <= 'Z') || ('0' <= c <= '9')
}

/// `char::to_ascii_lowercase`: maps `A..=Z` to `a..=z` and leaves every other
/// character alone.
pub open spec fn spec_ascii_lower(c: char) -> char {
    if 'A' <= c <= 'Z' {
        ((c as u32) + 32) as char
    } else {
        c
    }
}

/// Lowercases the ASCII letters of `c`.
pub fn ascii_lower(c: char) -> (l: char)
    ensures
        l == spec_ascii_lower(c),
{
    if 'A' <= c && c <= 'Z' {
        let code = (c as u32) + 32;
        proof {
            assert(0x61 <= code <= 0x7a);
        }
        char_from_ascii(code)
    } else {
        c
    }
}

/// The character with the given code point below 128.
fn char_from_ascii(code: u32) -> (c: char)
    requires
        code < 128,
    ensures
        c == code as char,
{
    (code as u8) as char
}

/// The characters of `s` with ASCII letters lowercased (`str::to_ascii_lowercase`).
pub open spec fn ascii_lowercase(s: Seq<char>) -> Seq<char> {
    s.map_values(|c: char| spec_ascii_lower(c))
}

/// Lowercases the ASCII letters of `s`.
pub fn to_ascii_lowercase(s: &str) -> (lower: Vec<char>)
    ensures
        lower@ == ascii_lowercase(s@),
{
    let chars = chars_of(s);
    let mut lower: Vec<char> = Vec::new();
    let mut i: usize = 0;
    while i < chars.len()
        invariant
            i <= chars@.len(),
            chars@ == s@,
            lower@ =~= ascii_lowercase(chars@.take(i as int)),
        decreases chars@.len() - i,
    {
        lower.push(ascii_lower(chars[i]));
        i = i + 1;
    }
    proof {
        assert(chars@.take(chars@.len() as int) =~= chars@);
    }
    lower
}

/// Whether the character sequences `a` and `b` are equal.
pub fn chars_eq(a: &[char], b: &[char]) -> (eq: bool)
    ensures
        eq == (a@ == b@),
{
    if a.len() != b.len() {
        return false;
    }
    let mut i: usize = 0;
    while i < a.len()
        invariant
            a@.len() == b@.len(),
            i <= a@.len(),
            forall|k: int| 0 <= k < i ==> a@[k] == b@[k],
        decreases a@.len() - i,
    {
        if a[i] != b[i] {
            return false;
        }
        i = i + 1;
    }
    proof {
        assert(a@ =~= b@);
    }
    true
}

/// Whether the characters `a` spell the string `word`.
pub fn chars_eq_str(a: &[char], word: &str) -> (eq: bool)
    ensures
        eq == (a@ == word@),
{
    let w = chars_of(word);
    chars_eq(a, w.as_slice())
}

/// Whether `needle` occurs in `hay` starting at index `i`.
pub open spec fn occurs_at<T>(hay: Seq<T>, needle: Seq<T>, i: int) -> bool {
    0 <= i && i + needle.len() <= hay.len() && hay.subrange(i, i + needle.len()) == needle
}

/// Whether `needle` occurs anywhere in `hay`.
pub open spec fn contains_seq<T>(hay: Seq<T>, needle: Seq<T>) -> bool {
    exists|i: int| occurs_at(hay, needle, i)
}

/// Whether `hay` starts with `prefix`.
pub open spec fn starts_with<T>(hay: Seq<T>, prefix: Seq<T>) -> bool {
    prefix.len() <= hay.len() && hay.take(prefix.len() as int) == prefix
}

/// Whether `needle` occurs at index `i` of `hay`.
pub fn occurs_at_index(hay: &[char], needle: &[char], i: usize) -> (b: bool)
    ensures
        b == occurs_at(hay@, needle@, i as int),
{
    if i > hay.len() || needle.len() > hay.len() - i {
        return false;
    }
    let hay_len = hay.len();
    let mut k: usize = 0;
    while k < needle.len()
        invariant
            hay_len == hay@.len(),
            i <= hay@.len(),
            i + needle@.len() <= hay@.len(),
            k <= needle@.len(),
            forall|t: int| 0 <= t < k ==> hay@[i + t] == needle@[t],
        decreases needle@.len() - k,
    {
        assert(i + k < hay_len);
        if hay[i + k] != needle[k] {
            assert(hay@.subrange(i as int, i + needle@.len())[k as int] != needle@[k as int]);
            return false;
        }
        k = k + 1;
    }
    assert(hay@.subrange(i as int, i + needle@.len()) =~= needle@);
    true
}

/// Whether `needle` occurs anywhere in `hay`.
pub fn contains_chars(hay: &[char], needle: &[char]) -> (b: bool)
    ensures
        b == contains_seq(hay@, needle@),
{
    let mut i: usize = 0;
    while i < hay.len()
        invariant
            i <= hay@.len(),
            forall|t: int| 0 <= t < i ==> !occurs_at(hay@, needle@, t),
        decreases hay@.len() - i,
    {
        if occurs_at_index(hay, needle, i) {
            return true;
        }
        i = i + 1;
    }
    if occurs_at_index(hay, needle, i) {
        return true;
    }
    assert forall|t: int| !occurs_at(hay@, needle@, t) by {
        if 0 <= t <= hay@.len() {
            assert(t <= i);
        }
    }
    false
}

/// Whether the byte sequence `hay` starts with `prefix`.
pub fn bytes_start_with(hay: &[u8], prefix: &[u8]) -> (b: bool)
    ensures
        b == starts_with(hay@, prefix@),
{
    if prefix.len() > hay.len() {
        return false;
    }
    let mut k: usize = 0;
    while k < prefix.len()
        invariant
            prefix@.len() <= hay@.len(),
            k <= prefix@.len(),
            forall|t: int| 0 <= t < k ==> hay@[t] == prefix@[t],
        decreases prefix@.len() - k,
    {
        if hay[k] != prefix[k] {
            assert(hay@.take(prefix@.len() as int)[k as int] != prefix@[k as int]);
            return false;
        }
        k = k + 1;
    }
    assert(hay@.take(prefix@.len() as int) =~= prefix@);
    true
}

/// Whether the character sequence `hay` starts with `prefix`.
pub fn chars_start_with(hay: &[char], prefix: &[char]) -> (b: bool)
    ensures
        b == starts_with(hay@, prefix@),
{
    if prefix.len() > hay.len() {
        return false;
    }
    let mut k: usize = 0;
    while k < prefix.len()
        invariant
            prefix@.len() <= hay@.len(),
            k <= prefix@.len(),
            forall|t: int| 0 <= t < k ==> hay@[t] == prefix@[t],
        decreases prefix@.len() - k,
    {
        if hay[k] != prefix[k] {
            assert(hay@.take(prefix@.len() as int)[k as int] != prefix@[k as int]);
            return false;
        }
        k = k + 1;
    }
    assert(hay@.take(prefix@.len() as int) =~= prefix@);
    true
}

/// Copies `s[from..to]` into a new vector.
pub fn copy_range<T: Copy>(s: &[T], from: usize, to: usize) -> (v: Vec<T>)
    requires
        from <= to <= s@.len(),
    ensures
        v@ == s@.subrange(from as int, to as int),
{
    let mut v: Vec<T> = Vec::new();
    let mut i: usize = from;
    while i < to
        invariant
            from <= i <= to <= s@.len(),
            v@ =~= s@.subrange(from as int, i as int),
        decreases to - i,
    {
        v.push(s[i]);
        i = i + 1;
    }
    v
}

/// The text that `String::from_utf8_lossy` makes of `bytes`.
pub uninterp spec fn utf8_lossy(bytes: Seq<u8>) -> Seq<char>;

/// Trusted: calls `String::from_utf8_lossy` and takes the owned string. Per
/// the std documentation the result is the decoded text when `bytes` is
/// valid UTF-8, and invalid sequences become U+FFFD otherwise; the contract
/// states the valid case and names the general one.
#[verifier::external_body]
pub(crate) fn string_from_utf8_lossy(bytes: &[u8]) -> (s: String)
    ensures
        s@ == utf8_lossy(bytes@),
        vstd::utf8::valid_utf8(bytes@) ==> s@ == vstd::utf8::decode_utf8(bytes@),
{
    String::from_utf8_lossy(bytes).into_owned()
}

} // verus!
