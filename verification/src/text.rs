//! Owned text of the configuration: the symbols of groups, quotes and
//! punctuation, and the indent.

use crate::chars::{chars_of, push_char, spaces};
use crate::sealed::Sealed;
use vstd::prelude::*;

verus! {

/// A piece of text that the configuration owns. It keeps the text both as a
/// string, to print it, and as characters, to find it in the input.
pub struct Str {
    text: String,
    chars: Vec<char>,
}

impl View for Str {
    type V = Seq<char>;

    closed spec fn view(&self) -> Seq<char> {
        self.text@
    }
}

/// Values that can be turned into a [`Str`]: `&str` and `String`.
pub trait IntoStr: Sized {
    /// The characters of the value.
    spec fn text(&self) -> Seq<char>;

    /// Sealed method: it cannot be called outside of this crate.
    fn into_str(self, seal: Sealed) -> (s: Str)
        ensures
            s@ == self.text(),
    ;
}

impl IntoStr for String {
    open spec fn text(&self) -> Seq<char> {
        self@
    }

    fn into_str(self, seal: Sealed) -> (s: Str) {
        let chars = chars_of(self.as_str());
        Str { text: self, chars }
    }
}

impl<'a> IntoStr for &'a str {
    open spec fn text(&self) -> Seq<char> {
        self@
    }

    fn into_str(self, seal: Sealed) -> (s: Str) {
        let chars = chars_of(self);
        Str { text: self.to_owned(), chars }
    }
}

impl Str {
    #[verifier::type_invariant]
    spec fn well_formed(&self) -> bool {
        self.chars@ == self.text@
    }

    /// The text of `value`.
    pub fn new<S: IntoStr>(value: S) -> (s: Str)
        ensures
            s@ == value.text(),
    {
        value.into_str(Sealed)
    }

    /// The text of `count` spaces.
    pub fn n_spaces(count: usize) -> (s: Str)
        ensures
            s@ == spaces(count as nat),
    {
        let mut text = String::new();
        let mut chars: Vec<char> = Vec::new();
        let mut i: usize = 0;
        while i < count
            invariant
                i <= count,
                text@ == spaces(i as nat),
                chars@ == text@,
            decreases count - i,
        {
            push_char(&mut text, ' ');
            chars.push(' ');
            i += 1;
            assert(text@ =~= spaces(i as nat));
        }
        Str { text, chars }
    }

    /// The text as a string slice.
    pub fn as_str(&self) -> (s: &str)
        ensures
            s@ == self@,
    {
        self.text.as_str()
    }

    /// The text as characters.
    pub fn as_chars(&self) -> (chars: &[char])
        ensures
            chars@ == self@,
    {
        proof {
            use_type_invariant(self);
        }
        self.chars.as_slice()
    }

    /// Tells whether the text has no characters.
    pub fn is_empty(&self) -> (empty: bool)
        ensures
            empty == (self@.len() == 0),
    {
        proof {
            use_type_invariant(self);
        }
        self.chars.len() == 0
    }
}

} // verus!
