//! What the tokenizer looks for: groups, quotes and punctuation.

use crate::sealed::Sealed;
use crate::space::{IntoSpace, Space};
use crate::text::{IntoStr, Str};
use vstd::prelude::*;

verus! {

/// The two ways to break a group that does not fit on one line.
#[derive(Clone, Copy, Debug, PartialEq, Eq, Structural)]
pub enum BreakStyleEnum {
    /// Every soft break of the group becomes a line break.
    Consistent,
    /// A soft break becomes a line break only where the content up to the
    /// next soft break would overflow the line.
    Compact,
}

/// Defines the algorithm used to decide whether to turn a space into a line
/// break or not.
///
/// Breaking is optional. It only takes place if the content of the group
/// cannot fit on a single line. If it does fit, it is not broken whatever the
/// [`BreakStyle`].
#[derive(Clone, Copy, Debug)]
pub struct BreakStyle(pub BreakStyleEnum);

impl BreakStyle {
    /// Turn **all** breaks into a line break so that every item appears on
    /// its own line.
    pub fn consistent() -> (style: BreakStyle)
        ensures
            style.0 == BreakStyleEnum::Consistent,
    {
        BreakStyle(BreakStyleEnum::Consistent)
    }

    /// Try to fit as much content as possible on a single line and create a
    /// newline only for the last break on the line after which the content
    /// would overflow.
    pub fn compact() -> (style: BreakStyle)
        ensures
            style.0 == BreakStyleEnum::Compact,
    {
        BreakStyle(BreakStyleEnum::Compact)
    }
}

/// The punctuation symbol. This would typically be a single character, but
/// it can also be a sequence of characters like `=>`.
pub struct Punct {
    /// The text of the symbol.
    pub symbol: Str,
    /// The rule for the blank before the symbol.
    pub leading_space: Space,
    /// The rule for the blank after the symbol.
    pub trailing_space: Space,
}

impl Punct {
    /// Creates a new [`Punct`] with the given symbol and the default rule
    /// for the blanks around it.
    pub fn new<S: IntoStr>(symbol: S) -> (punct: Punct)
        ensures
            punct.symbol@ == symbol.text(),
            punct.leading_space == (Space { size: (0usize, 1usize), breakable: false }),
            punct.trailing_space == (Space { size: (0usize, 1usize), breakable: false }),
    {
        Punct { symbol: Str::new(symbol), leading_space: Space::new(), trailing_space: Space::new() }
    }

    /// Defines the leading space of this [`Punct`].
    pub fn leading_space<S: IntoSpace>(self, value: S) -> (punct: Punct)
        ensures
            punct.symbol == self.symbol,
            punct.leading_space == value.space(),
            punct.trailing_space == self.trailing_space,
    {
        Punct {
            symbol: self.symbol,
            leading_space: value.into_space(Sealed),
            trailing_space: self.trailing_space,
        }
    }

    /// Defines the trailing space of this [`Punct`].
    pub fn trailing_space<S: IntoSpace>(self, value: S) -> (punct: Punct)
        ensures
            punct.symbol == self.symbol,
            punct.leading_space == self.leading_space,
            punct.trailing_space == value.space(),
    {
        Punct {
            symbol: self.symbol,
            leading_space: self.leading_space,
            trailing_space: value.into_space(Sealed),
        }
    }
}

/// Describes a grouping of content delimited via opening and closing
/// sequences (usually some kind of brackets).
///
/// Can be broken into multiple lines if it takes too much space to fit on a
/// single line.
pub struct Group {
    /// The symbol that opens the group.
    pub opening: Punct,
    /// The symbol that closes the group.
    pub closing: Punct,
    /// How the group is broken where it does not fit on one line.
    pub break_style: BreakStyle,
}

impl Group {
    /// Creates a new [`Group`] with the given opening and closing
    /// delimiters, broken consistently.
    pub fn new(opening: Punct, closing: Punct) -> (group: Group)
        ensures
            group.opening == opening,
            group.closing == closing,
            group.break_style.0 == BreakStyleEnum::Consistent,
    {
        Group { opening, closing, break_style: BreakStyle::consistent() }
    }

    /// Sets the [`BreakStyle`] for this group.
    pub fn break_style(self, value: BreakStyle) -> (group: Group)
        ensures
            group.opening == self.opening,
            group.closing == self.closing,
            group.break_style == value,
    {
        Group { opening: self.opening, closing: self.closing, break_style: value }
    }
}

/// Describes a quoted content that cannot be broken into multiple lines.
pub struct Quote {
    /// The sequence that opens the quoted content.
    pub opening: Str,
    /// The sequence that closes the quoted content.
    pub closing: Str,
}

impl Quote {
    /// Creates a new [`Quote`] with the given opening and closing
    /// delimiters.
    pub fn new<A: IntoStr, B: IntoStr>(opening: A, closing: B) -> (quote: Quote)
        ensures
            quote.opening@ == opening.text(),
            quote.closing@ == closing.text(),
    {
        Quote { opening: Str::new(opening), closing: Str::new(closing) }
    }
}

} // verus!
