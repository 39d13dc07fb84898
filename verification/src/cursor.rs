//! A scanner over the characters of the input.

use crate::chars::{occurs_at, starts_with_at};
use vstd::prelude::*;

verus! {

/// A position in the input. The cursor moves forward only, by whole
/// characters, and counts the characters that it has passed.
#[derive(Clone, Copy)]
pub struct Cursor<'a> {
    input: &'a [char],
    /// The number of characters that were passed.
    offset: usize,
}

/// The state of a [`Cursor`].
pub struct CursorView {
    /// All characters of the input.
    pub input: Seq<char>,
    /// The number of characters that were passed.
    pub offset: int,
}

impl CursorView {
    /// Whether the cursor stands within the input or at its end.
    pub open spec fn within(self) -> bool {
        0 <= self.offset <= self.input.len() <= usize::MAX
    }

    /// The character at the cursor.
    pub open spec fn peek(self) -> Option<char> {
        if 0 <= self.offset < self.input.len() {
            Some(self.input[self.offset])
        } else {
            None
        }
    }

    /// The cursor behind the character at the cursor.
    pub open spec fn advance(self) -> CursorView {
        if 0 <= self.offset < self.input.len() {
            CursorView { input: self.input, offset: self.offset + 1 }
        } else {
            self
        }
    }

    /// The cursor behind `prefix`, where `prefix` stands at the cursor.
    pub open spec fn strip_prefix(self, prefix: Seq<char>) -> CursorView {
        if occurs_at(self.input, self.offset, prefix) {
            CursorView { input: self.input, offset: self.offset + prefix.len() }
        } else {
            self
        }
    }
}

/// The first position at or behind `from` where `needle` stands in `input`,
/// or the length of the input where it stands nowhere.
pub open spec fn position_of_char(input: Seq<char>, from: int, needle: char) -> int
    decreases input.len() - from,
{
    if from < 0 || from >= input.len() {
        input.len() as int
    } else if input[from] == needle {
        from
    } else {
        position_of_char(input, from + 1, needle)
    }
}

impl<'a> View for Cursor<'a> {
    type V = CursorView;

    closed spec fn view(&self) -> CursorView {
        CursorView { input: self.input@, offset: self.offset as int }
    }
}

impl<'a> Cursor<'a> {
    #[verifier::type_invariant]
    spec fn within_input(&self) -> bool {
        self.offset <= self.input@.len()
    }

    /// A cursor at the start of `input`.
    pub fn new(input: &'a [char]) -> (cursor: Cursor<'a>)
        ensures
            cursor@ == (CursorView { input: input@, offset: 0 }),
    {
        Cursor { input, offset: 0 }
    }


    /// The whole input.
    pub fn input(&self) -> (input: &'a [char])
        ensures
            input@ == self@.input,
    {
        self.input
    }

    /// Passes the character at the cursor and returns it.
    pub fn next(&mut self) -> (c: Option<char>)
        ensures
            c == old(self)@.peek(),
            final(self)@ == old(self)@.advance(),
    {
        proof {
            use_type_invariant(&*self);
        }
        if self.offset < self.input.len() {
            let c = self.input[self.offset];
            self.offset += 1;
            Some(c)
        } else {
            None
        }
    }

    /// The character at the cursor.
    pub fn peek(&self) -> (c: Option<char>)
        ensures
            c == self@.peek(),
    {
        proof {
            use_type_invariant(self);
        }
        if self.offset < self.input.len() {
            Some(self.input[self.offset])
        } else {
            None
        }
    }

    /// The character that stands `ahead` characters behind the cursor.
    pub fn peek_nth(&self, ahead: usize) -> (c: Option<char>)
        ensures
            c == if self@.offset + ahead < self@.input.len() {
                Some(self@.input[self@.offset + ahead])
            } else {
                None
            },
    {
        proof {
            use_type_invariant(self);
        }
        if ahead < self.input.len() - self.offset {
            Some(self.input[self.offset + ahead])
        } else {
            None
        }
    }

    /// The number of characters that were passed.
    pub fn offset(&self) -> (offset: usize)
        ensures
            offset == self@.offset,
            self@.within(),
    {
        proof {
            use_type_invariant(self);
        }
        let _ = self.input.len();
        self.offset
    }

    /// Tells whether `prefix` stands at the cursor.
    pub fn starts_with(&self, prefix: &[char]) -> (found: bool)
        ensures
            found == occurs_at(self@.input, self@.offset, prefix@),
    {
        proof {
            use_type_invariant(self);
        }
        starts_with_at(self.input, self.offset, prefix)
    }

    /// Where `prefix` stands at the cursor, passes it and returns the offset
    /// at which it started.
    pub fn strip_prefix(&mut self, prefix: &[char]) -> (start: Option<usize>)
        ensures
            final(self)@ == old(self)@.strip_prefix(prefix@),
            start == if occurs_at(old(self)@.input, old(self)@.offset, prefix@) {
                Some(old(self)@.offset as usize)
            } else {
                None
            },
    {
        proof {
            use_type_invariant(&*self);
        }
        let length: usize = self.input.len();
        if starts_with_at(self.input, self.offset, prefix) {
            let start: usize = self.offset;
            assert(start + prefix@.len() <= length);
            self.offset += prefix.len();
            Some(start)
        } else {
            None
        }
    }

    /// Passes the characters up to the first `needle` and the `needle`
    /// itself, and returns the offset of the `needle`. Without a `needle` the
    /// cursor ends up at the end of the input.
    pub fn find(&mut self, needle: char) -> (found: Option<usize>)
        ensures
            final(self)@.input == old(self)@.input,
            ({
                let at = position_of_char(old(self)@.input, old(self)@.offset, needle);
                if at < old(self)@.input.len() {
                    found == Some(at as usize) && final(self)@.offset == at + 1
                } else {
                    found is None && final(self)@.offset == at
                }
            }),
    {
        proof {
            use_type_invariant(&*self);
        }
        while self.offset < self.input.len()
            invariant
                self.input@ == old(self).input@,
                old(self).offset <= self.offset <= self.input@.len(),
                position_of_char(self.input@, self.offset as int, needle) == position_of_char(
                    old(self).input@,
                    old(self).offset as int,
                    needle,
                ),
            decreases self.input@.len() - self.offset,
        {
            let at: usize = self.offset;
            self.offset += 1;
            if self.input[at] == needle {
                return Some(at);
            }
        }
        None
    }
}

} // verus!
