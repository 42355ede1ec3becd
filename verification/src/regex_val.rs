//! What a single step recognises, and how much of a line it consumes.
use vstd::prelude::*;

use crate::text::{first_char, same_text};

verus! {

/// The set of characters one step recognises.
#[derive(Debug)]
pub enum RegexVal {
    /// One fixed character.
    Literal(char),
    /// Any character (`.`).
    Wildcard,
    /// A bracket list of characters, negated when the flag is set.
    Bracket(Vec<char>, bool),
    /// A named character class (`[:alpha:]` and the like), negated when the flag is set.
    Clase(String, bool),
    /// Start of line (`^`).
    Inicio,
    /// End of line (`$`).
    Fin,
}

/// The mathematical value of a [`RegexVal`].
pub enum ValView {
    Literal(char),
    Wildcard,
    Bracket(Seq<char>, bool),
    Clase(Seq<char>, bool),
    Inicio,
    Fin,
}

impl View for RegexVal {
    type V = ValView;

    open spec fn view(&self) -> ValView {
        match self {
            RegexVal::Literal(c) => ValView::Literal(*c),
            RegexVal::Wildcard => ValView::Wildcard,
            RegexVal::Bracket(cs, n) => ValView::Bracket(cs@, *n),
            RegexVal::Clase(s, n) => ValView::Clase(s@, *n),
            RegexVal::Inicio => ValView::Inicio,
            RegexVal::Fin => ValView::Fin,
        }
    }
}

/// Number of bytes of the UTF-8 encoding of `c`.
pub open spec fn utf8_width(c: char) -> nat {
    if (c as u32) < 0x80 {
        1
    } else if (c as u32) < 0x800 {
        2
    } else if (c as u32) < 0x10000 {
        3
    } else {
        4
    }
}

/// Executable counterpart of [`utf8_width`].
fn char_utf8_width(c: char) -> (n: usize)
    ensures
        n == utf8_width(c),
{
    let x = c as u32;
    if x < 0x80 {
        1
    } else if x < 0x800 {
        2
    } else if x < 0x10000 {
        3
    } else {
        4
    }
}

/// ASCII punctuation, as `char::is_ascii_punctuation` documents it.
pub open spec fn ascii_punctuation(c: char) -> bool {
    ||| ('!' <= c && c <= '/')
    ||| (':' <= c && c <= '@')
    ||| ('[' <= c && c <= '`')
    ||| ('{' <= c && c <= '~')
}

fn is_ascii_punct(c: char) -> (b: bool)
    ensures
        b == ascii_punctuation(c),
{
    let x = c as u32;
    (0x21 <= x && x <= 0x2f) || (0x3a <= x && x <= 0x40) || (0x5b <= x && x <= 0x60) || (0x7b
        <= x && x <= 0x7e)
}


/// Name for what `char::is_alphanumeric` returns (Unicode `Alphabetic` or numeric).
pub uninterp spec fn alphanumeric(c: char) -> bool;

/// Name for what `char::is_alphabetic` returns (Unicode `Alphabetic` property).
pub uninterp spec fn alphabetic(c: char) -> bool;

/// Name for what `char::is_numeric` returns (Unicode general categories for numbers).
pub uninterp spec fn numeric(c: char) -> bool;

/// Name for what `char::is_lowercase` returns (Unicode `Lowercase` property).
pub uninterp spec fn lowercase(c: char) -> bool;

/// Name for what `char::is_uppercase` returns (Unicode `Uppercase` property).
pub uninterp spec fn uppercase(c: char) -> bool;

/// Name for what `char::is_whitespace` returns (Unicode `White_Space` property).
pub uninterp spec fn whitespace(c: char) -> bool;

/// ASCII letters.
pub open spec fn ascii_letter(c: char) -> bool {
    ('a' <= c && c <= 'z') || ('A' <= c && c <= 'Z')
}

/// ASCII decimal digits.
pub open spec fn ascii_digit(c: char) -> bool {
    '0' <= c && c <= '9'
}

/// Calls `char::is_alphanumeric`, documented as `is_alphabetic() ||
/// is_numeric()`; its result depends on `c` alone and is given the name
/// [`alphanumeric`]. On ASCII it holds of letters and digits only (the
/// Unicode properties named by those two methods); which non-ASCII
/// characters qualify is not stated.
#[verifier::external_body]
fn char_is_alphanumeric(c: char) -> (b: bool)
    ensures
        b == alphanumeric(c),
        c <= '\u{7f}' ==> (b == (ascii_letter(c) || ascii_digit(c))),
{
    c.is_alphanumeric()
}

/// Calls `char::is_alphabetic` (the Unicode `Alphabetic` property); its
/// result is given the name [`alphabetic`]. On ASCII the property holds of
/// the letters only; which non-ASCII characters qualify is not stated.
#[verifier::external_body]
fn char_is_alphabetic(c: char) -> (b: bool)
    ensures
        b == alphabetic(c),
        c <= '\u{7f}' ==> (b == ascii_letter(c)),
{
    c.is_alphabetic()
}

/// Calls `char::is_numeric` (the Unicode number categories); its result is
/// given the name [`numeric`]. On ASCII they hold of the digits only; which
/// non-ASCII characters qualify is not stated.
#[verifier::external_body]
fn char_is_numeric(c: char) -> (b: bool)
    ensures
        b == numeric(c),
        c <= '\u{7f}' ==> (b == ascii_digit(c)),
{
    c.is_numeric()
}

/// Calls `char::is_lowercase` (the Unicode `Lowercase` property); its result
/// is given the name [`lowercase`]. On ASCII it holds of `a`..=`z` only;
/// which non-ASCII characters qualify is not stated.
#[verifier::external_body]
fn char_is_lowercase(c: char) -> (b: bool)
    ensures
        b == lowercase(c),
        c <= '\u{7f}' ==> (b == ('a' <= c && c <= 'z')),
{
    c.is_lowercase()
}

/// Calls `char::is_uppercase` (the Unicode `Uppercase` property); its result
/// is given the name [`uppercase`]. On ASCII it holds of `A`..=`Z` only;
/// which non-ASCII characters qualify is not stated.
#[verifier::external_body]
fn char_is_uppercase(c: char) -> (b: bool)
    ensures
        b == uppercase(c),
        c <= '\u{7f}' ==> (b == ('A' <= c && c <= 'Z')),
{
    c.is_uppercase()
}

/// Calls `char::is_whitespace` (the Unicode `White_Space` property); its
/// result is given the name [`whitespace`]. On ASCII the property holds of
/// tab, line feed, vertical tab, form feed, carriage return and space only;
/// which non-ASCII characters qualify is not stated.
#[verifier::external_body]
fn char_is_whitespace(c: char) -> (b: bool)
    ensures
        b == whitespace(c),
        c <= '\u{7f}' ==> (b == (('\t' <= c && c <= '\r') || c == ' ')),
{
    c.is_whitespace()
}

/// Whether the ASCII character `c` belongs to the class called `name`;
/// unknown names hold no character.
pub open spec fn ascii_class_holds(name: Seq<char>, c: char) -> bool {
    if name == "alnum"@ {
        ascii_letter(c) || ascii_digit(c)
    } else if name == "alpha"@ {
        ascii_letter(c)
    } else if name == "digit"@ {
        ascii_digit(c)
    } else if name == "lower"@ {
        'a' <= c && c <= 'z'
    } else if name == "upper"@ {
        'A' <= c && c <= 'Z'
    } else if name == "space"@ {
        ('\t' <= c && c <= '\r') || c == ' '
    } else if name == "punct"@ {
        ascii_punctuation(c)
    } else {
        false
    }
}

/// Whether `c` belongs to the class called `name`: on ASCII as spelled out
/// by [`ascii_class_holds`], elsewhere as the Unicode properties say;
/// unknown names hold no character.
pub open spec fn class_holds(name: Seq<char>, c: char) -> bool {
    if c <= '\u{7f}' {
        ascii_class_holds(name, c)
    } else if name == "alnum"@ {
        alphanumeric(c)
    } else if name == "alpha"@ {
        alphabetic(c)
    } else if name == "digit"@ {
        numeric(c)
    } else if name == "lower"@ {
        lowercase(c)
    } else if name == "upper"@ {
        uppercase(c)
    } else if name == "space"@ {
        whitespace(c)
    } else if name == "punct"@ {
        ascii_punctuation(c)
    } else {
        false
    }
}

/// Whether the value `v` accepts the character `c` (anchors accept none).
pub open spec fn accepts_char(v: ValView, c: char) -> bool {
    match v {
        ValView::Literal(l) => c == l,
        ValView::Wildcard => true,
        ValView::Bracket(cs, negated) => cs.contains(c) != negated,
        ValView::Clase(name, negated) => class_holds(name, c) != negated,
        ValView::Inicio => false,
        ValView::Fin => false,
    }
}

/// How many bytes `v` consumes at the start of `s`: the UTF-8 width of the
/// first character when `v` accepts it, and 0 otherwise.
pub open spec fn match_len(v: ValView, s: Seq<char>) -> nat {
    if s.len() > 0 && accepts_char(v, s[0]) {
        utf8_width(s[0])
    } else {
        0
    }
}

impl RegexVal {
    /// Number of bytes this value consumes at the start of `value` (0 when it does not match).
    pub fn matches(&self, value: &str) -> (n: usize)
        ensures
            n == match_len(self@, value@),
    {
        match self {
            RegexVal::Literal(l) => self.match_literal(l, value),
            RegexVal::Wildcard => self.match_wildcard(value),
            RegexVal::Bracket(chars, negado) => self.match_bracket(chars, negado, value),
            RegexVal::Clase(clase, negado) => self.match_clase(clase.as_str(), negado, value),
            RegexVal::Inicio => 0,
            RegexVal::Fin => 0,
        }
    }

    fn match_literal(&self, l: &char, value: &str) -> (n: usize)
        ensures
            n == match_len(ValView::Literal(*l), value@),
    {
        match first_char(value) {
            Some(c) => {
                if c == *l {
                    char_utf8_width(*l)
                } else {
                    0
                }
            },
            None => 0,
        }
    }

    fn match_wildcard(&self, value: &str) -> (n: usize)
        ensures
            n == match_len(ValView::Wildcard, value@),
    {
        if let Some(c) = first_char(value) {
            char_utf8_width(c)
        } else {
            0
        }
    }

    fn match_bracket(&self, chars: &Vec<char>, negado: &bool, value: &str) -> (n: usize)
        ensures
            n == match_len(ValView::Bracket(chars@, *negado), value@),
    {
        if let Some(c) = first_char(value) {
            if contains_char(chars, c) ^ *negado {
                char_utf8_width(c)
            } else {
                0
            }
        } else {
            0
        }
    }

    fn match_clase(&self, clase: &str, negado: &bool, value: &str) -> (n: usize)
        ensures
            n == match_len(ValView::Clase(clase@, *negado), value@),
    {
        if let Some(c) = first_char(value) {
            let matches = if same_text(clase, "alnum") {
                char_is_alphanumeric(c)
            } else if same_text(clase, "alpha") {
                char_is_alphabetic(c)
            } else if same_text(clase, "digit") {
                char_is_numeric(c)
            } else if same_text(clase, "lower") {
                char_is_lowercase(c)
            } else if same_text(clase, "upper") {
                char_is_uppercase(c)
            } else if same_text(clase, "space") {
                char_is_whitespace(c)
            } else if same_text(clase, "punct") {
                is_ascii_punct(c)
            } else {
                false
            };
            if matches ^ *negado {
                char_utf8_width(c)
            } else {
                0
            }
        } else {
            0
        }
    }
}

/// Whether `c` occurs in `chars` (`<[char]>::contains`).
fn contains_char(chars: &Vec<char>, c: char) -> (b: bool)
    ensures
        b == chars@.contains(c),
{
    let mut i: usize = 0;
    while i < chars.len()
        invariant
            i <= chars.len(),
            forall|j: int| 0 <= j < i ==> chars@[j] != c,
        decreases chars.len() - i,
    {
        if chars[i] == c {
            return true;
        }
        i += 1;
    }
    false
}

} // verus!
