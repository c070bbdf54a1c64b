use vstd::prelude::*;

verus! {

/// Appends one character to a string.
///
/// Trusted: calls `String::push`, which appends `c` at the end of `s`.
#[verifier::external_body]
pub(crate) fn push_char(s: &mut String, c: char)
    ensures
        final(s)@ == old(s)@.push(c),
{
    s.push(c);
}

/// Appends the characters of `t` to `s`.
pub fn push_str(s: &mut String, t: &str)
    ensures
        final(s)@ == old(s)@ + t@,
{
    s.append(t);
}

/// A fresh string holding the characters of `t`.
pub fn string_of(t: &str) -> (s: String)
    ensures
        s@ == t@,
{
    String::from_str(t)
}

/// The characters of `s`, in order.
pub fn to_chars(s: &str) -> (v: Vec<char>)
    ensures
        v@ == s@,
{
    let mut v: Vec<char> = Vec::new();
    for c in iter: s.chars()
        invariant
            v@ == iter.seq().take(iter.index() as int),
    {
        v.push(c);
    }
    v
}

/// A string made of the characters `cs[from..to]`.
pub fn string_from_chars(cs: &[char], from: usize, to: usize) -> (s: String)
    requires
        from <= to <= cs@.len(),
    ensures
        s@ == cs@.subrange(from as int, to as int),
{
    let mut s = String::new();
    let mut i = from;
    while i < to
        invariant
            from <= i <= to <= cs@.len(),
            s@ == cs@.subrange(from as int, i as int),
        decreases to - i,
    {
        push_char(&mut s, cs[i]);
        assert(cs@.subrange(from as int, i + 1) == cs@.subrange(from as int, i as int).push(cs@[i as int]));
        i += 1;
    }
    s
}

/// Whether two strings hold the same characters.
pub fn str_eq(a: &str, b: &str) -> (r: bool)
    ensures
        r == (a@ == b@),
{
    let x = to_chars(a);
    let y = to_chars(b);
    if x.len() != y.len() {
        return false;
    }
    let mut i: usize = 0;
    while i < x.len()
        invariant
            x@ == a@,
            y@ == b@,
            x.len() == y.len(),
            i <= x.len(),
            forall|k: int| 0 <= k < i ==> x@[k] == y@[k],
        decreases x.len() - i,
    {
        if x[i] != y[i] {
            return false;
        }
        i += 1;
    }
    assert(x@ =~= y@);
    true
}

pub open spec fn spec_is_ascii_digit(c: char) -> bool {
    '0' <= c && c <= '9'
}

pub open spec fn spec_is_ascii_alpha(c: char) -> bool {
    ('a' <= c && c <= 'z') || ('A' <= c && c <= 'Z')
}

pub open spec fn spec_is_ascii_alnum(c: char) -> bool {
    spec_is_ascii_digit(c) || spec_is_ascii_alpha(c)
}

/// The Unicode `White_Space` property, which `char::is_whitespace` reports.
pub open spec fn spec_is_whitespace(c: char) -> bool {
    ||| ('\u{9}' <= c && c <= '\u{d}')
    ||| c == ' '
    ||| c == '\u{85}'
    ||| c == '\u{a0}'
    ||| c == '\u{1680}'
    ||| ('\u{2000}' <= c && c <= '\u{200a}')
    ||| c == '\u{2028}'
    ||| c == '\u{2029}'
    ||| c == '\u{202f}'
    ||| c == '\u{205f}'
    ||| c == '\u{3000}'
}

pub fn is_ascii_digit(c: char) -> (b: bool)
    ensures
        b == spec_is_ascii_digit(c),
{
    '0' <= c && c <= '9'
}

pub fn is_ascii_alpha(c: char) -> (b: bool)
    ensures
        b == spec_is_ascii_alpha(c),
{
    ('a' <= c && c <= 'z') || ('A' <= c && c <= 'Z')
}

pub fn is_ascii_alnum(c: char) -> (b: bool)
    ensures
        b == spec_is_ascii_alnum(c),
{
    is_ascii_digit(c) || is_ascii_alpha(c)
}

pub fn is_whitespace(c: char) -> (b: bool)
    ensures
        b == spec_is_whitespace(c),
{
    ('\u{9}' <= c && c <= '\u{d}') || c == ' ' || c == '\u{85}' || c == '\u{a0}'
        || c == '\u{1680}' || ('\u{2000}' <= c && c <= '\u{200a}') || c == '\u{2028}'
        || c == '\u{2029}' || c == '\u{202f}' || c == '\u{205f}' || c == '\u{3000}'
}

/// The decimal digit character for `d < 10`.
pub open spec fn digit_char(d: nat) -> char {
    if d == 0 { '0' }
    else if d == 1 { '1' }
    else if d == 2 { '2' }
    else if d == 3 { '3' }
    else if d == 4 { '4' }
    else if d == 5 { '5' }
    else if d == 6 { '6' }
    else if d == 7 { '7' }
    else if d == 8 { '8' }
    else { '9' }
}

/// The decimal digit value of an ASCII digit character.
pub open spec fn char_digit_value(c: char) -> nat {
    (c as nat - '0' as nat) as nat
}

/// Decimal notation of `n`, without leading zeros.
pub open spec fn decimal(n: nat) -> Seq<char>
    decreases n,
{
    if n < 10 {
        seq![digit_char(n)]
    } else {
        decimal(n / 10).push(digit_char(n % 10))
    }
}

fn digit_to_char(d: usize) -> (c: char)
    requires
        d < 10,
    ensures
        c == digit_char(d as nat),
{
    if d == 0 { '0' }
    else if d == 1 { '1' }
    else if d == 2 { '2' }
    else if d == 3 { '3' }
    else if d == 4 { '4' }
    else if d == 5 { '5' }
    else if d == 6 { '6' }
    else if d == 7 { '7' }
    else if d == 8 { '8' }
    else { '9' }
}

/// Decimal notation of `n`, as `usize::to_string` writes it.
pub fn usize_to_string(n: usize) -> (s: String)
    ensures
        s@ == decimal(n as nat),
    decreases n,
{
    if n < 10 {
        let mut s = String::new();
        push_char(&mut s, digit_to_char(n));
        assert(s@ =~= decimal(n as nat));
        s
    } else {
        let mut s = usize_to_string(n / 10);
        push_char(&mut s, digit_to_char(n % 10));
        s
    }
}

/// Whether `pat` occurs in `s` at position `i`.
pub open spec fn occurs_at(s: Seq<char>, pat: Seq<char>, i: int) -> bool {
    0 <= i && i + pat.len() <= s.len() && s.subrange(i, i + pat.len()) == pat
}

/// Whether `pat` occurs somewhere in `s`.
pub open spec fn seq_contains(s: Seq<char>, pat: Seq<char>) -> bool {
    exists|i: int| occurs_at(s, pat, i)
}

fn occurs_at_exec(s: &Vec<char>, pat: &Vec<char>, i: usize) -> (b: bool)
    requires
        i + pat@.len() <= s@.len(),
    ensures
        b == occurs_at(s@, pat@, i as int),
{
    let mut k: usize = 0;
    assert(s.len() == s@.len());
    while k < pat.len()
        invariant
            i + pat@.len() <= s@.len(),
            s@.len() == s.len(),
            k <= pat@.len(),
            forall|j: int| 0 <= j < k ==> s@[i + j] == pat@[j],
        decreases pat.len() - k,
    {
        if s[i + k] != pat[k] {
            assert(s@.subrange(i as int, i + pat@.len())[k as int] != pat@[k as int]);
            return false;
        }
        k += 1;
    }
    assert(s@.subrange(i as int, i + pat@.len()) =~= pat@);
    true
}

/// Whether `pat` occurs in `s`, as `str::contains` reports for a string pattern.
pub fn contains_chars(s: &Vec<char>, pat: &Vec<char>) -> (b: bool)
    ensures
        b == seq_contains(s@, pat@),
{
    if pat.len() > s.len() {
        return false;
    }
    if pat.len() == 0 {
        assert(s@.subrange(0, 0) =~= pat@);
        assert(occurs_at(s@, pat@, 0));
        return true;
    }
    let end = s.len() - pat.len() + 1;
    let mut i: usize = 0;
    while i < end
        invariant
            end == s@.len() - pat@.len() + 1,
            pat@.len() <= s@.len(),
            i <= end,
            forall|j: int| 0 <= j < i ==> !occurs_at(s@, pat@, j),
        decreases end - i,
    {
        if occurs_at_exec(s, pat, i) {
            return true;
        }
        i += 1;
    }
    false
}

/// Whether the characters of `pat` occur in `s`.
pub fn contains_char_seq(s: &Vec<char>, pat: &str) -> (b: bool)
    ensures
        b == seq_contains(s@, pat@),
{
    let p = to_chars(pat);
    contains_chars(s, &p)
}

/// ASCII lowercase of one character, as `char::to_ascii_lowercase` computes it.
pub open spec fn spec_ascii_lower(c: char) -> char {
    if 'A' <= c && c <= 'Z' {
        ((c as u32) + 32) as char
    } else {
        c
    }
}

pub fn ascii_lower(c: char) -> (r: char)
    ensures
        r == spec_ascii_lower(c),
{
    if 'A' <= c && c <= 'Z' {
        let code: u32 = (c as u32) + 32;
        let r = char_from_ascii(code);
        r
    } else {
        c
    }
}

/// Trusted: the character with code `code`, for an ASCII code, as `char::from_u32`
/// gives it.
#[verifier::external_body]
fn char_from_ascii(code: u32) -> (c: char)
    requires
        code < 128,
    ensures
        c == code as char,
{
    char::from_u32(code).unwrap()
}

/// ASCII lowercase of a whole sequence, as `str::to_ascii_lowercase` computes it.
pub open spec fn seq_ascii_lower(s: Seq<char>) -> Seq<char> {
    s.map_values(|c: char| spec_ascii_lower(c))
}

pub fn chars_ascii_lower(s: &Vec<char>) -> (r: Vec<char>)
    ensures
        r@ == seq_ascii_lower(s@),
{
    let mut r: Vec<char> = Vec::new();
    let mut i: usize = 0;
    while i < s.len()
        invariant
            i <= s@.len(),
            r@ =~= seq_ascii_lower(s@.take(i as int)),
        decreases s.len() - i,
    {
        r.push(ascii_lower(s[i]));
        assert(s@.take(i + 1) =~= s@.take(i as int).push(s@[i as int]));
        i += 1;
    }
    assert(s@.take(s@.len() as int) =~= s@);
    r
}

} // verus!

verus! {

/// Whether a string has no characters.
pub fn is_empty_str(s: &str) -> (b: bool)
    ensures
        b == (s@.len() == 0),
{
    s.is_empty()
}

/// Number of characters of a string.
pub fn char_count(s: &str) -> (n: usize)
    ensures
        n == s@.len(),
{
    s.unicode_len()
}

/// What `char::is_alphanumeric` answers for a character.
pub uninterp spec fn unicode_alphanumeric(c: char) -> bool;

/// The characters that `char::to_lowercase` yields for a character.
pub uninterp spec fn unicode_lowercase(c: char) -> Seq<char>;

/// The characters that `char::to_uppercase` yields for a character.
pub uninterp spec fn unicode_uppercase(c: char) -> Seq<char>;

/// The file stem that `std::path::Path::file_stem` finds in a path, when it finds one.
pub uninterp spec fn path_file_stem(path: Seq<char>) -> Option<Seq<char>>;

/// The extension that `std::path::Path::extension` finds in a path, when it finds one.
pub uninterp spec fn path_extension(path: Seq<char>) -> Option<Seq<char>>;

/// Calls `char::is_alphanumeric`; the result is the name given to it above.
#[verifier::external_body]
pub(crate) fn is_alphanumeric_char(c: char) -> (b: bool)
    ensures
        b == unicode_alphanumeric(c),
{
    c.is_alphanumeric()
}

/// Calls `char::to_lowercase` and collects what it yields.
#[verifier::external_body]
pub(crate) fn lowercase_of(c: char) -> (r: Vec<char>)
    ensures
        r@ == unicode_lowercase(c),
{
    c.to_lowercase().collect()
}

/// Calls `char::to_uppercase` and collects what it yields.
#[verifier::external_body]
pub(crate) fn uppercase_of(c: char) -> (r: Vec<char>)
    ensures
        r@ == unicode_uppercase(c),
{
    c.to_uppercase().collect()
}

/// Calls `std::path::Path::file_stem` on a path given as text. A stem taken from
/// a `str` is always valid text, so it comes back as a `String`.
#[verifier::external_body]
pub(crate) fn file_stem_of(path: &str) -> (r: Option<String>)
    ensures
        match r {
            Some(stem) => path_file_stem(path@) == Some(stem@),
            None => path_file_stem(path@) is None,
        },
{
    std::path::Path::new(path).file_stem().and_then(|stem| stem.to_str()).map(|stem| stem.to_string())
}

/// Calls `std::path::Path::extension` on a path given as text. An extension
/// taken from a `str` is always valid text, so it comes back as a `String`.
#[verifier::external_body]
pub(crate) fn extension_of(path: &str) -> (r: Option<String>)
    ensures
        match r {
            Some(extension) => path_extension(path@) == Some(extension@),
            None => path_extension(path@) is None,
        },
{
    std::path::Path::new(path).extension().and_then(|extension| extension.to_str()).map(
        |extension| extension.to_string(),
    )
}

/// Appends characters to a string.
pub fn push_chars(s: &mut String, cs: &Vec<char>)
    ensures
        final(s)@ == old(s)@ + cs@,
{
    let mut i: usize = 0;
    while i < cs.len()
        invariant
            i <= cs@.len(),
            s@ == old(s)@ + cs@.take(i as int),
        decreases cs.len() - i,
    {
        push_char(s, cs[i]);
        assert(cs@.take(i + 1) =~= cs@.take(i as int).push(cs@[i as int]));
        i += 1;
    }
    assert(cs@.take(cs@.len() as int) =~= cs@);
}

/// Whether a string starts with the given character.
pub fn starts_with_char(s: &str, c: char) -> (b: bool)
    ensures
        b == (s@.len() > 0 && s@[0] == c),
{
    let chars = to_chars(s);
    chars.len() > 0 && chars[0] == c
}

} // verus!
