//! The token alphabet of the lexer, its mathematical model, and the
//! classification of identifier characters.

use vstd::prelude::*;

verus! {

/// The lexical tokens of a mustache-style template.
///
/// A token is an immutable value; equality is structural.
#[derive(Debug)]
pub enum Token {
    /// A run of characters outside any tag.
    Text(String),
    /// The open-delimiter marker.
    LMustache,
    /// The close-delimiter marker.
    RMustache,
    /// The `&` marker: unescaped interpolation.
    UnescapeTag,
    /// The `#` marker: section open.
    Pound,
    /// The `/` marker: section close.
    Slash,
    /// The `^` marker: inverted section.
    Hat,
    /// A bare identifier appearing inside a tag.
    Id(String),
}

/// The mathematical model of a [`Token`]: the same alternatives, with the
/// string contents abstracted to character sequences.
pub ghost enum TokenV {
    Text(Seq<char>),
    LMustache,
    RMustache,
    UnescapeTag,
    Pound,
    Slash,
    Hat,
    Id(Seq<char>),
}

impl View for Token {
    type V = TokenV;

    open spec fn view(&self) -> TokenV {
        match self {
            Token::Text(s) => TokenV::Text(s@),
            Token::LMustache => TokenV::LMustache,
            Token::RMustache => TokenV::RMustache,
            Token::UnescapeTag => TokenV::UnescapeTag,
            Token::Pound => TokenV::Pound,
            Token::Slash => TokenV::Slash,
            Token::Hat => TokenV::Hat,
            Token::Id(s) => TokenV::Id(s@),
        }
    }
}

impl PartialEq for Token {
    fn eq(&self, other: &Token) -> (r: bool) {
        match (self, other) {
            (Token::Text(a), Token::Text(b)) => a.eq(b),
            (Token::LMustache, Token::LMustache) => true,
            (Token::RMustache, Token::RMustache) => true,
            (Token::UnescapeTag, Token::UnescapeTag) => true,
            (Token::Pound, Token::Pound) => true,
            (Token::Slash, Token::Slash) => true,
            (Token::Hat, Token::Hat) => true,
            (Token::Id(a), Token::Id(b)) => a.eq(b),
            _ => false,
        }
    }
}

impl vstd::std_specs::cmp::PartialEqSpecImpl for Token {
    open spec fn obeys_eq_spec() -> bool {
        true
    }

    open spec fn eq_spec(&self, other: &Token) -> bool {
        self@ == other@
    }
}

/// The two modes of the lexer: outside any tag, or between a consumed
/// open-delimiter and the matching close-delimiter.
#[derive(Clone, Copy, Debug)]
pub enum LexState {
    Normal,
    InTag,
}

/// Why token production stopped inside a tag, for callers that want a
/// diagnostic rather than a silent end of the sequence.
#[derive(Clone, Copy, Debug, PartialEq, Eq, Structural)]
pub enum LexError {
    /// An open delimiter was seen, and the input ran out before the matching
    /// close delimiter.
    UnterminatedTag,
    /// A character inside a tag matches none of the markers, is not the
    /// close delimiter, and may not start an identifier.
    UnrecognizedTagContent,
}

/// The characters admitted in an identifier: ASCII letters, ASCII digits and
/// the underscore.
pub open spec fn is_id_char(c: char) -> bool {
    (97 <= c as u32 && c as u32 <= 122)  // 'a' ..= 'z'
    || (65 <= c as u32 && c as u32 <= 90)  // 'A' ..= 'Z'
    || (48 <= c as u32 && c as u32 <= 57)  // '0' ..= '9'
    || c == '_'
}

/// Decides whether `ch` may appear in an identifier.
pub fn is_id(ch: char) -> (r: bool)
    ensures
        r == is_id_char(ch),
{
    let u = ch as u32;
    (97 <= u && u <= 122) || (65 <= u && u <= 90) || (48 <= u && u <= 57) || ch == '_'
}

} // verus!
