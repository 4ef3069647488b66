//! The character cursor that a tokenizer of query text walks.
use vstd::prelude::*;
use crate::text::chars_of;

verus! {

/// Whether a character has the Unicode `White_Space` property: U+0009 to
/// U+000D, U+0020, U+0085, U+00A0, U+1680, U+2000 to U+200A, U+2028, U+2029,
/// U+202F, U+205F and U+3000.
pub open spec fn white_space(c: char) -> bool {
    let n = c as u32;
    (0x9 <= n <= 0xD) || n == 0x20 || n == 0x85 || n == 0xA0 || n == 0x1680 || (0x2000 <= n <= 0x200A)
        || n == 0x2028 || n == 0x2029 || n == 0x202F || n == 0x205F || n == 0x3000
}

/// Relies on `char::is_whitespace`: true exactly for the characters with the
/// Unicode `White_Space` property.
#[verifier::external_body]
fn is_white_space(c: char) -> (r: bool)
    ensures
        r == white_space(c),
{
    c.is_whitespace()
}

/// A position in the characters of a query.
pub struct Lexer {
    pub input: Vec<char>,
    pub position: usize,
}

impl Lexer {
    /// A cursor at the start of `input`.
    pub fn new(input: &str) -> (r: Lexer)
        ensures
            r.input@ == input@,
            r.position == 0,
    {
        Lexer { input: chars_of(input), position: 0 }
    }

    /// Whether every character has been read.
    pub fn at_end(&self) -> (r: bool)
        ensures
            r == (self.position >= self.input@.len()),
    {
        self.position >= self.input.len()
    }

    /// The character under the cursor.
    pub fn current_char(&self) -> (r: char)
        requires
            self.position < self.input@.len(),
        ensures
            r == self.input@[self.position as int],
    {
        self.input[self.position]
    }

    /// Moves the cursor one character on.
    pub fn advance(&mut self)
        requires
            old(self).position < usize::MAX,
        ensures
            final(self).input == old(self).input,
            final(self).position == old(self).position + 1,
    {
        self.position = self.position + 1;
    }

    /// Moves the cursor past any whitespace.
    pub fn skip_whitespace(&mut self)
        ensures
            final(self).input == old(self).input,
            old(self).position <= final(self).position,
            forall|i: int| old(self).position <= i < final(self).position ==> white_space(#[trigger] final(self).input@[i]),
            final(self).position < final(self).input@.len() ==> !white_space(final(self).input@[final(self).position as int]),
    {
        while self.position < self.input.len() && is_white_space(self.input[self.position])
            invariant
                self.input == old(self).input,
                old(self).position <= self.position,
                forall|i: int| old(self).position <= i < self.position ==> white_space(#[trigger] self.input@[i]),
            decreases self.input@.len() - self.position,
        {
            self.position = self.position + 1;
        }
    }
}

} // verus!
