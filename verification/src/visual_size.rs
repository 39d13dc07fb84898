//! The visual size of text: how many columns a string takes when printed.

use vstd::prelude::*;

verus! {

/// Defines the algorithm for calculating the "visual" size of a string.
///
/// The size of a text must depend on its characters alone: `measure` says
/// which size each text has, and `visual_size` computes it.
pub trait VisualSize {
    /// The size of `text`.
    spec fn measure(&self, text: Seq<char>) -> usize;

    /// The main implementation. It is assumed to be cheap, and it is called
    /// many times during the formatting.
    fn visual_size(&self, text: &str) -> (size: usize)
        ensures
            size == self.measure(text@),
    ;
}

/// The number of characters of `text` other than `\r`.
pub open spec fn count_visible(text: Seq<char>) -> nat
    decreases text.len(),
{
    if text.len() == 0 {
        0
    } else {
        count_visible(text.drop_last()) + if text.last() == '\r' {
            0nat
        } else {
            1nat
        }
    }
}

/// The default algorithm: the number of characters in the string, with the
/// exception of `\r` characters. A size that does not fit in `usize` is
/// given as `usize::MAX`.
#[derive(Clone, Copy, Debug)]
pub struct CharCount;

impl VisualSize for CharCount {
    open spec fn measure(&self, text: Seq<char>) -> usize {
        if count_visible(text) <= usize::MAX {
            count_visible(text) as usize
        } else {
            usize::MAX
        }
    }

    fn visual_size(&self, text: &str) -> (size: usize) {
        let mut count: usize = 0;
        for c in it: text.chars()
            invariant
                it.seq() == text@,
                count == self.measure(it.seq().take(it.index() as int)),
        {
            proof {
                let before = it.seq().take(it.index() as int);
                let after = it.seq().take(it.index() + 1);
                assert(after.drop_last() =~= before);
                assert(after.last() == c);
            }
            if c != '\r' {
                count = count.saturating_add(1);
            }
        }
        proof {
            assert(text@.take(text@.len() as int) =~= text@);
        }
        count
    }
}

/// The width that the crate `unicode_width` gives to a text: the number of
/// columns that the text takes on a terminal.
pub uninterp spec fn unicode_width(text: Seq<char>) -> usize;

/// `unicode_width::UnicodeWidthStr::width`: the displayed width of `text` in
/// columns. It depends on the characters of `text` alone.
#[verifier::external_body]
fn unicode_width_of(text: &str) -> (width: usize)
    ensures
        width == unicode_width(text@),
{
    unicode_width::UnicodeWidthStr::width(text)
}

/// The algorithm of the crate `unicode_width`, which knows of wide and of
/// zero-width characters.
#[derive(Clone, Copy, Debug)]
pub struct UnicodeWidth;

impl VisualSize for UnicodeWidth {
    open spec fn measure(&self, text: Seq<char>) -> usize {
        unicode_width(text)
    }

    fn visual_size(&self, text: &str) -> (size: usize) {
        unicode_width_of(text)
    }
}

/// The algorithm that a function of the caller computes.
///
/// The function must take every text, and its result must depend on the
/// characters of the text alone.
pub struct FnVisualSize<F: Fn(&str) -> usize> {
    function: F,
}

/// Whether the function takes every text, and gives one size to equal
/// texts.
pub open spec fn is_visual_size<F: Fn(&str) -> usize>(function: F) -> bool {
    &&& forall|text: &str| #[trigger] function.requires((text,))
    &&& forall|first: &str, second: &str, size: usize|
        first@ == second@ && #[trigger] function.ensures((first,), size)
            ==> #[trigger] function.ensures((second,), size)
    &&& forall|text: &str, size: usize, other: usize|
        #[trigger] function.ensures((text,), size) && #[trigger] function.ensures((text,), other)
            ==> size == other
}

/// A text with the given characters.
pub open spec fn text_of(chars: Seq<char>) -> &'static str {
    choose|text: &'static str| text@ == chars
}

impl<F: Fn(&str) -> usize> FnVisualSize<F> {
    #[verifier::type_invariant]
    spec fn ready(&self) -> bool {
        is_visual_size(self.function)
    }

    /// The algorithm that `function` computes: the size of a text is what
    /// `function` returns for it.
    pub fn new(function: F) -> (algorithm: Self)
        requires
            is_visual_size(function),
        ensures
            forall|text: &str, size: usize| #[trigger]
                function.ensures((text,), size) ==> algorithm.measure(text@) == size,
    {
        let algorithm = FnVisualSize { function };
        proof {
            assert forall|text: &str, size: usize| #[trigger]
                function.ensures((text,), size) implies algorithm.measure(text@) == size by {
                let stands_for = choose|other: &'static str| other@ == text@;
                assert(text@ == text@);
                assert(stands_for@ == text@);
                assert(function.ensures((text_of(text@),), size));
            }
        }
        algorithm
    }
}

impl<F: Fn(&str) -> usize> VisualSize for FnVisualSize<F> {
    closed spec fn measure(&self, text: Seq<char>) -> usize {
        choose|size: usize| self.function.ensures((text_of(text),), size)
    }

    fn visual_size(&self, text: &str) -> (size: usize) {
        proof {
            use_type_invariant(self);
        }
        let size = (self.function)(text);
        proof {
            assert(self.function.ensures((text,), size));
            let stands_for = choose|other: &'static str| other@ == text@;
            assert(text@ == text@);
            assert(stands_for@ == text@);
            assert(self.function.ensures((text_of(text@),), size));
        }
        size
    }
}

/// The characters of a text together with their visual size.
pub struct Text {
    /// The characters.
    pub chars: Seq<char>,
    /// Their visual size.
    pub size: usize,
}

/// A string slice that carries its visual size.
#[derive(Clone, Copy)]
pub struct MeasuredStr<'a> {
    visual_size: usize,
    content: &'a str,
}

impl<'a> View for MeasuredStr<'a> {
    type V = Text;

    closed spec fn view(&self) -> Text {
        Text { chars: self.content@, size: self.visual_size }
    }
}

impl<'a> MeasuredStr<'a> {
    /// Measures `content` with `algorithm`.
    pub fn new<V: VisualSize>(content: &'a str, algorithm: &V) -> (measured: MeasuredStr<'a>)
        ensures
            measured@ == (Text { chars: content@, size: algorithm.measure(content@) }),
    {
        MeasuredStr { visual_size: algorithm.visual_size(content), content }
    }

    /// The string with the size `visual_size`, which the caller has measured.
    pub fn with_size(content: &'a str, visual_size: usize) -> (measured: MeasuredStr<'a>)
        ensures
            measured@ == (Text { chars: content@, size: visual_size }),
    {
        MeasuredStr { visual_size, content }
    }

    /// The string.
    pub fn as_str(&self) -> (content: &'a str)
        ensures
            content@ == self@.chars,
    {
        self.content
    }

    /// The visual size of the string.
    pub fn visual_size(&self) -> (size: usize)
        ensures
            size == self@.size,
    {
        self.visual_size
    }

    /// Tells whether the string has no characters.
    pub fn is_empty(&self) -> (empty: bool)
        ensures
            empty == (self@.chars.len() == 0),
    {
        self.content.is_empty()
    }
}

} // verus!
