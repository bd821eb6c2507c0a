//! Character classes and lowercasing.
use vstd::prelude::*;

verus! {

/// Whether `c` is a capital letter by Unicode's `Uppercase` property.
pub uninterp spec fn unicode_upper(c: char) -> bool;

/// The lowercase mapping of `s`, character by character, by Unicode's
/// rules.
pub uninterp spec fn lower_of(s: Seq<char>) -> Seq<char>;

/// Whether `c` is an ASCII character.
pub open spec fn is_ascii_char(c: char) -> bool {
    (c as u32) <= 127
}

/// A capital letter: `A` to `Z`, or a Unicode capital beyond ASCII that
/// does not separate words.
pub open spec fn is_upper(c: char) -> bool {
    if is_ascii_char(c) {
        'A' <= c && c <= 'Z'
    } else {
        !is_wide_sep(c) && unicode_upper(c)
    }
}

/// A character beyond ASCII that separates words: control characters and
/// the Latin-1 signs (no-break space, inverted marks, quotes, `×`, `÷`),
/// the general punctuation block (spaces, dashes, curly quotes), and CJK
/// spaces and punctuation.
pub open spec fn is_wide_sep(c: char) -> bool {
    let n = c as u32;
    (0x80 <= n && n <= 0xBF) || n == 0xD7 || n == 0xF7 || (0x2000 <= n && n <= 0x206F) || (0x3000
        <= n && n <= 0x303F)
}

/// A letter that starts no word by its case: `a` to `z`, or any character
/// beyond ASCII that is neither a separator nor a capital (small letters,
/// and letters without case).
pub open spec fn is_lower(c: char) -> bool {
    if is_ascii_char(c) {
        'a' <= c && c <= 'z'
    } else {
        !is_wide_sep(c) && !unicode_upper(c)
    }
}

/// Whether `c` is a capital letter, by Unicode's `Uppercase` property.
///
/// Relies on `char::is_uppercase`, which depends on the character alone.
#[verifier::external_body]
fn upper_beyond_ascii(c: char) -> (r: bool)
    ensures
        r == unicode_upper(c),
{
    c.is_uppercase()
}

/// The lowercase form of `s`.
///
/// Relies on `str::to_lowercase`, which depends on the string alone.
#[verifier::external_body]
pub(crate) fn lowercase(s: &str) -> (r: String)
    ensures
        r@ == lower_of(s@),
{
    s.to_lowercase()
}

pub fn char_is_upper(c: char) -> (r: bool)
    ensures
        r == is_upper(c),
{
    if (c as u32) <= 127 {
        'A' <= c && c <= 'Z'
    } else {
        !char_is_wide_sep(c) && upper_beyond_ascii(c)
    }
}

pub fn char_is_wide_sep(c: char) -> (r: bool)
    ensures
        r == is_wide_sep(c),
{
    let n = c as u32;
    (0x80 <= n && n <= 0xBF) || n == 0xD7 || n == 0xF7 || (0x2000 <= n && n <= 0x206F) || (0x3000
        <= n && n <= 0x303F)
}

pub fn char_is_lower(c: char) -> (r: bool)
    ensures
        r == is_lower(c),
{
    if (c as u32) <= 127 {
        'a' <= c && c <= 'z'
    } else {
        !char_is_wide_sep(c) && !upper_beyond_ascii(c)
    }
}

/// An ASCII decimal digit.
pub open spec fn is_digit(c: char) -> bool {
    '0' <= c && c <= '9'
}

/// Every other character (underscore, hyphen, whitespace, punctuation,
/// and the separators beyond ASCII) separates words.
pub open spec fn is_sep(c: char) -> bool {
    !is_upper(c) && !is_lower(c) && !is_digit(c)
}

/// White space, by Unicode's `White_Space` property: what is trimmed from
/// the lines of a word list.
pub open spec fn is_blank(c: char) -> bool {
    let n = c as u32;
    (0x09 <= n && n <= 0x0D) || n == 0x20 || n == 0x85 || n == 0xA0 || n == 0x1680 || (0x2000 <= n
        && n <= 0x200A) || n == 0x2028 || n == 0x2029 || n == 0x202F || n == 0x205F || n == 0x3000
}

pub fn char_is_digit(c: char) -> (r: bool)
    ensures
        r == is_digit(c),
{
    '0' <= c && c <= '9'
}

pub fn char_is_sep(c: char) -> (r: bool)
    ensures
        r == is_sep(c),
{
    !char_is_upper(c) && !char_is_lower(c) && !char_is_digit(c)
}

pub fn char_is_blank(c: char) -> (r: bool)
    ensures
        r == is_blank(c),
{
    let n = c as u32;
    (0x09 <= n && n <= 0x0D) || n == 0x20 || n == 0x85 || n == 0xA0 || n == 0x1680 || (0x2000 <= n
        && n <= 0x200A) || n == 0x2028 || n == 0x2029 || n == 0x202F || n == 0x205F || n == 0x3000
}

/// The contents of a sequence of strings, one character sequence each.
pub open spec fn views(v: Seq<String>) -> Seq<Seq<char>> {
    v.map_values(|s: String| s@)
}

/// A copy of `cs[from..to]`.
pub fn slice_chars(cs: &Vec<char>, from: usize, to: usize) -> (r: Vec<char>)
    requires
        from <= to <= cs@.len(),
    ensures
        r@ == cs@.subrange(from as int, to as int),
{
    let mut out: Vec<char> = Vec::new();
    let mut i: usize = from;
    while i < to
        invariant
            from <= i <= to <= cs@.len(),
            out@ == cs@.subrange(from as int, i as int),
        decreases to - i,
    {
        out.push(cs[i]);
        i = i + 1;
        assert(out@ =~= cs@.subrange(from as int, i as int));
    }
    out
}

/// The characters of `s`, in order.
pub fn chars_of(s: &str) -> (r: Vec<char>)
    ensures
        r@ == s@,
{
    broadcast use vstd::string::group_string_axioms;

    let mut out: Vec<char> = Vec::new();
    for c in it: s.chars()
        invariant
            it.seq() == s@,
            out@ == it.seq().subrange(0, it.index() as int),
    {
        out.push(c);
        assert(out@ =~= it.seq().subrange(0, it.index() + 1));
    }
    assert(out@ =~= s@);
    out
}

/// The string made of the characters of `cs`.
///
/// Relies on `String::from_iter`: the string holds the characters in order.
#[verifier::external_body]
pub(crate) fn string_of(cs: &Vec<char>) -> (r: String)
    ensures
        r@ == cs@,
{
    String::from_iter(cs.iter())
}

/// The lowercase form of the characters `cs`.
pub fn lower_chars(cs: &Vec<char>) -> (r: Vec<char>)
    ensures
        r@ == lower_of(cs@),
{
    let s = string_of(cs);
    let l = lowercase(s.as_str());
    chars_of(l.as_str())
}

} // verus!
