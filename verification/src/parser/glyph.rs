//! Characters with the classes that the lexical rules read.
//!
//! The classes are those of the standard library, which follow Unicode. They
//! are found once for every character of the source, so that the rules of the
//! parser are stated over plain values.

use vstd::prelude::*;

verus! {

/// Whether `char::is_alphabetic` holds of the character.
pub uninterp spec fn unicode_alphabetic(c: char) -> bool;

/// Whether `char::is_numeric` holds of the character.
pub uninterp spec fn unicode_numeric(c: char) -> bool;

/// Whether `char::is_whitespace` holds of the character.
pub uninterp spec fn unicode_whitespace(c: char) -> bool;

/// Calls `char::is_alphabetic`. The result depends on the character alone
/// and is known here only by its name.
#[verifier::external_body]
fn is_alphabetic(c: char) -> (yes: bool)
    ensures
        yes == unicode_alphabetic(c),
{
    c.is_alphabetic()
}

/// Calls `char::is_numeric`. The result depends on the character alone and
/// is known here only by its name.
#[verifier::external_body]
fn is_numeric(c: char) -> (yes: bool)
    ensures
        yes == unicode_numeric(c),
{
    c.is_numeric()
}

/// Calls `char::is_whitespace`. The result depends on the character alone
/// and is known here only by its name.
#[verifier::external_body]
fn is_whitespace(c: char) -> (yes: bool)
    ensures
        yes == unicode_whitespace(c),
{
    c.is_whitespace()
}

/// A character and its classes.
#[derive(Debug, Clone, Copy, PartialEq, Eq)]
pub struct Glyph {
    pub ch: char,
    pub alphabetic: bool,
    pub numeric: bool,
    pub whitespace: bool,
}

/// The classes by which the lexical rules group characters.
#[derive(Debug, Clone, Copy, PartialEq, Eq, Structural)]
pub enum Class {
    Whitespace,
    Alphanumeric,
    Numeric,
}

impl Glyph {
    /// The glyph of a character: the character with its Unicode classes.
    pub open spec fn of(ch: char) -> Glyph {
        Glyph {
            ch,
            alphabetic: unicode_alphabetic(ch),
            numeric: unicode_numeric(ch),
            whitespace: unicode_whitespace(ch),
        }
    }

    /// The marker that stands behind the glyphs of a text. It belongs to no
    /// class.
    pub open spec fn end() -> Glyph {
        Glyph { ch: '\0', alphabetic: false, numeric: false, whitespace: false }
    }

    /// Whether the glyph belongs to the class. An alphanumeric glyph is one
    /// that is alphabetic or numeric.
    pub open spec fn has_class(self, class: Class) -> bool {
        match class {
            Class::Whitespace => self.whitespace,
            Class::Alphanumeric => self.alphabetic || self.numeric,
            Class::Numeric => self.numeric,
        }
    }

    /// Finds the classes of a character.
    pub fn classify(ch: char) -> (glyph: Glyph)
        ensures
            glyph == Glyph::of(ch),
    {
        Glyph {
            ch,
            alphabetic: is_alphabetic(ch),
            numeric: is_numeric(ch),
            whitespace: is_whitespace(ch),
        }
    }

    /// The marker that stands behind the glyphs of a text.
    pub fn end_marker() -> (glyph: Glyph)
        ensures
            glyph == Glyph::end(),
    {
        Glyph { ch: '\0', alphabetic: false, numeric: false, whitespace: false }
    }

    /// Whether the glyph belongs to the class.
    pub fn belongs(&self, class: Class) -> (yes: bool)
        ensures
            yes == self.has_class(class),
    {
        match class {
            Class::Whitespace => self.whitespace,
            Class::Alphanumeric => self.alphabetic || self.numeric,
            Class::Numeric => self.numeric,
        }
    }
}

/// The glyphs of a text.
pub open spec fn glyphs_of(text: Seq<char>) -> Seq<Glyph> {
    text.map_values(|ch: char| Glyph::of(ch))
}

/// The text that glyphs spell.
pub open spec fn text_of(glyphs: Seq<Glyph>) -> Seq<char> {
    glyphs.map_values(|glyph: Glyph| glyph.ch)
}

/// The glyphs of a text spell the text.
pub proof fn lemma_glyphs_spell_text(text: Seq<char>)
    ensures
        text_of(glyphs_of(text)) == text,
        glyphs_of(text).len() == text.len(),
{
    assert(text_of(glyphs_of(text)) =~= text);
}

/// Finds the classes of every character of a text.
pub fn classify_text(source: &str) -> (glyphs: Vec<Glyph>)
    ensures
        glyphs@ == glyphs_of(source@),
{
    broadcast use vstd::string::group_string_axioms;

    let mut glyphs: Vec<Glyph> = Vec::new();
    for ch in chars: source.chars()
        invariant
            chars.seq() == source@,
            glyphs@ == glyphs_of(source@.take(chars.index())),
    {
        assert(source@.take(chars.index() + 1) =~= source@.take(chars.index()).push(ch));
        assert(glyphs_of(source@.take(chars.index()).push(ch)) =~= glyphs_of(
            source@.take(chars.index()),
        ).push(Glyph::of(ch)));
        glyphs.push(Glyph::classify(ch));
    }
    assert(source@.take(source@.len() as int) =~= source@);
    glyphs
}

} // verus!
