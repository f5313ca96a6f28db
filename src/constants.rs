//! Codepoint classes of the Khmer script and the punctuation around it.
use vstd::prelude::*;

verus! {

/// First codepoint of the main Khmer block.
pub const KHMER_START: char = '\u{1780}';

/// Last codepoint of the main Khmer block.
pub const KHMER_END: char = '\u{17FF}';

/// First codepoint of the Khmer symbols block.
pub const KHMER_SYMBOLS_START: char = '\u{19E0}';

/// Last codepoint of the Khmer symbols block.
pub const KHMER_SYMBOLS_END: char = '\u{19FF}';

/// The subscript former (coeng).
pub const COENG: char = '\u{17D2}';

/// The zero-width space, removed from every input before segmentation.
pub const ZERO_WIDTH_SPACE: char = '\u{200B}';

pub open spec fn khmer_char(c: char) -> bool {
    (0x1780 <= c as u32 <= 0x17FF) || (0x19E0 <= c as u32 <= 0x19FF)
}

pub open spec fn consonant(c: char) -> bool {
    0x1780 <= c as u32 <= 0x17A2
}

pub open spec fn independent_vowel(c: char) -> bool {
    0x17A3 <= c as u32 <= 0x17B3
}

pub open spec fn dependent_vowel(c: char) -> bool {
    0x17B6 <= c as u32 <= 0x17C5
}

pub open spec fn sign(c: char) -> bool {
    (0x17C6 <= c as u32 <= 0x17D1) || c == '\u{17D3}' || c == '\u{17DD}'
}

pub open spec fn digit(c: char) -> bool {
    (0x30 <= c as u32 <= 0x39) || (0x17E0 <= c as u32 <= 0x17E9)
}

pub open spec fn currency_symbol(c: char) -> bool {
    c == '$' || c == '\u{17DB}' || c == '\u{20AC}' || c == '\u{A3}' || c == '\u{A5}'
}

pub open spec fn ascii_separator(c: char) -> bool {
    c == '!' || c == '?' || c == '.' || c == ',' || c == ';' || c == ':' || c == '"' || c
        == '\'' || c == '(' || c == ')' || c == '[' || c == ']' || c == '{' || c == '}' || c
        == '-' || c == '/' || c == '$' || c == '%' || c == ' '
}

pub open spec fn separator(c: char) -> bool {
    (0x17D4 <= c as u32 <= 0x17DB) || ascii_separator(c) || c == '\u{AB}' || c == '\u{BB}'
        || c == '\u{201C}' || c == '\u{201D}' || c == '\u{2DD}'
}

/// The fifteen consonants that may stand alone as a word.
pub open spec fn valid_single_consonant(c: char) -> bool {
    c == '\u{1780}' || c == '\u{1781}' || c == '\u{1782}' || c == '\u{1784}' || c == '\u{1785}'
        || c == '\u{1786}' || c == '\u{1789}' || c == '\u{178A}' || c == '\u{178F}' || c
        == '\u{1791}' || c == '\u{1796}' || c == '\u{179A}' || c == '\u{179B}' || c == '\u{179F}'
        || c == '\u{17A1}'
}

/// The eight independent vowels that may stand alone as a word.
pub open spec fn valid_single_vowel(c: char) -> bool {
    c == '\u{17AC}' || c == '\u{17AE}' || c == '\u{17AA}' || c == '\u{17AF}' || c == '\u{17B1}'
        || c == '\u{17A6}' || c == '\u{17A7}' || c == '\u{17B3}'
}

pub open spec fn valid_single_word(c: char) -> bool {
    valid_single_consonant(c) || valid_single_vowel(c)
}

/// Whether `c` lies in one of the two Khmer blocks.
pub fn is_khmer_char(c: char) -> (r: bool)
    ensures
        r == khmer_char(c),
{
    let code = c as u32;
    (code >= 0x1780 && code <= 0x17FF) || (code >= 0x19E0 && code <= 0x19FF)
}

/// Whether `c` is a base consonant.
pub fn is_consonant(c: char) -> (r: bool)
    ensures
        r == consonant(c),
{
    let code = c as u32;
    code >= 0x1780 && code <= 0x17A2
}

/// Whether `c` is an independent vowel.
pub fn is_independent_vowel(c: char) -> (r: bool)
    ensures
        r == independent_vowel(c),
{
    let code = c as u32;
    code >= 0x17A3 && code <= 0x17B3
}

/// Whether `c` is a dependent vowel sign, which never starts a word.
pub fn is_dependent_vowel(c: char) -> (r: bool)
    ensures
        r == dependent_vowel(c),
{
    let code = c as u32;
    code >= 0x17B6 && code <= 0x17C5
}

/// Whether `c` is a combining sign that belongs to the cluster before it.
pub fn is_sign(c: char) -> (r: bool)
    ensures
        r == sign(c),
{
    let code = c as u32;
    (code >= 0x17C6 && code <= 0x17D1) || c == '\u{17D3}' || c == '\u{17DD}'
}

/// Whether `c` is the subscript former.
pub fn is_coeng(c: char) -> (r: bool)
    ensures
        r == (c == COENG),
{
    c == COENG
}

/// Whether `c` is an ASCII or a Khmer digit.
pub fn is_digit(c: char) -> (r: bool)
    ensures
        r == digit(c),
{
    let code = c as u32;
    (code >= 0x30 && code <= 0x39) || (code >= 0x17E0 && code <= 0x17E9)
}

/// Whether `c` is a currency sign that may lead a number.
pub fn is_currency_symbol(c: char) -> (r: bool)
    ensures
        r == currency_symbol(c),
{
    c == '$' || c == '\u{17DB}' || c == '\u{20AC}' || c == '\u{A3}' || c == '\u{A5}'
}

/// Whether `c` is punctuation or a space, which stands as a token of its own.
/// The riel sign is both a separator and a currency symbol.
pub fn is_separator(c: char) -> (r: bool)
    ensures
        r == separator(c),
{
    let code = c as u32;
    if code >= 0x17D4 && code <= 0x17DB {
        return true;
    }
    match c {
        '!' | '?' | '.' | ',' | ';' | ':' | '"' | '\'' | '(' | ')' | '[' | ']' | '{' | '}' | '-'
        | '/' | '$' | '%' | ' ' => true,
        '\u{AB}' | '\u{BB}' | '\u{201C}' | '\u{201D}' | '\u{2DD}' => true,
        _ => false,
    }
}

/// Whether the single codepoint `c` is a word by itself.
pub fn is_valid_single_word(c: char) -> (r: bool)
    ensures
        r == valid_single_word(c),
{
    match c {
        '\u{1780}' | '\u{1781}' | '\u{1782}' | '\u{1784}' | '\u{1785}' | '\u{1786}' | '\u{1789}'
        | '\u{178A}' | '\u{178F}' | '\u{1791}' | '\u{1796}' | '\u{179A}' | '\u{179B}'
        | '\u{179F}' | '\u{17A1}' => true,
        '\u{17AC}' | '\u{17AE}' | '\u{17AA}' | '\u{17AF}' | '\u{17B1}' | '\u{17A6}' | '\u{17A7}'
        | '\u{17B3}' => true,
        _ => false,
    }
}

} // verus!
