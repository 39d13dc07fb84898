//! The tokens that the measuring part of the engine buffers.

use crate::config::BreakStyleEnum;
use crate::visual_size::{MeasuredStr, Text};
use vstd::prelude::*;

verus! {

/// The size of a run of tokens.
#[derive(Clone, Copy, Debug, PartialEq, Eq, Structural)]
pub enum Size {
    /// The run takes this much when printed on a single line.
    Fixed(usize),
    /// The run is "logically" infinitely large: it never fits, so that the
    /// break before it is always taken.
    Infinite,
}

/// The distance from a token to the next possible break, as far as it is
/// known.
#[derive(Clone, Copy, Debug, PartialEq, Eq, Structural)]
pub enum Measurement {
    /// The distance is known.
    Measured(Size),
    /// The distance is still being measured. The size of all tokens that came
    /// before this one is kept, so that the distance is one subtraction away
    /// once the next break is seen.
    Unmeasured { preceding_tokens_size: usize },
}

impl Measurement {
    /// Whether the distance is still unknown.
    pub open spec fn is_unmeasured(self) -> bool {
        self is Unmeasured
    }

    /// Whether the measurement can be completed when the size of all tokens
    /// is `total`: the tokens before this one cannot be larger than all.
    pub open spec fn within(self, total: usize) -> bool {
        self matches Measurement::Unmeasured { preceding_tokens_size } ==> preceding_tokens_size
            <= total
    }

    /// The measurement once the size of all tokens up to the next break is
    /// `planned_size`. A distance that is known already stays.
    pub open spec fn measured_from(self, planned_size: usize) -> Measurement {
        match self {
            Measurement::Unmeasured { preceding_tokens_size } => Measurement::Measured(
                Size::Fixed((planned_size - preceding_tokens_size) as usize),
            ),
            Measurement::Measured(size) => Measurement::Measured(size),
        }
    }

    /// Sets the distance to the difference between `planned_size` and the
    /// size of the preceding tokens.
    pub fn measure_from(&mut self, planned_size: usize)
        requires
            old(self).within(planned_size),
        ensures
            *final(self) == old(self).measured_from(planned_size),
    {
        match *self {
            Measurement::Unmeasured { preceding_tokens_size } => {
                *self = Measurement::Measured(Size::Fixed(planned_size - preceding_tokens_size));
            },
            Measurement::Measured(_) => {},
        }
    }
}

/// A token of the layout.
#[derive(Clone, Copy)]
pub enum Token<'a> {
    /// Starts a nested group.
    Begin {
        /// The distance to the first possible break after the end of the
        /// group, or to the end of the input.
        next_break_distance: Measurement,
        /// How the group is broken where it does not fit.
        break_style: BreakStyleEnum,
    },
    /// Raw text that is printed as it is.
    Raw(MeasuredStr<'a>),
    /// A point in the text where a line break can be inserted if the content
    /// does not fit on a single line.
    SoftBreak {
        /// The distance to the next possible break on the same level of
        /// nesting, or to the end of the input.
        next_break_distance: Measurement,
    },
    /// A run of the given number of spaces. It is dropped where it would
    /// stand next to a line break.
    Space(usize),
    /// Changes the indent of the following lines by the given number of
    /// levels.
    Indent(isize),
    /// Closes a nested group.
    End,
}

/// What a [`Token`] holds, with the text as characters.
pub enum TokenView {
    /// Starts a nested group.
    Begin { next_break_distance: Measurement, break_style: BreakStyleEnum },
    /// Raw text.
    Raw(Text),
    /// A possible line break.
    SoftBreak { next_break_distance: Measurement },
    /// A run of spaces.
    Space(usize),
    /// A change of the indent.
    Indent(isize),
    /// Closes a nested group.
    End,
}

impl<'a> View for Token<'a> {
    type V = TokenView;

    open spec fn view(&self) -> TokenView {
        match *self {
            Token::Begin { next_break_distance, break_style } => TokenView::Begin {
                next_break_distance,
                break_style,
            },
            Token::Raw(content) => TokenView::Raw(content@),
            Token::SoftBreak { next_break_distance } => TokenView::SoftBreak { next_break_distance },
            Token::Space(size) => TokenView::Space(size),
            Token::Indent(diff) => TokenView::Indent(diff),
            Token::End => TokenView::End,
        }
    }
}

impl TokenView {
    /// The distance that a `Begin` or a `SoftBreak` carries.
    pub open spec fn distance(self) -> Option<Measurement> {
        match self {
            TokenView::Begin { next_break_distance, .. } => Some(next_break_distance),
            TokenView::SoftBreak { next_break_distance } => Some(next_break_distance),
            _ => None,
        }
    }

    /// The token with `distance` in place of the distance it carries. A token
    /// that carries none stays as it is.
    pub open spec fn with_distance(self, distance: Measurement) -> TokenView {
        match self {
            TokenView::Begin { break_style, .. } => TokenView::Begin {
                next_break_distance: distance,
                break_style,
            },
            TokenView::SoftBreak { .. } => TokenView::SoftBreak { next_break_distance: distance },
            other => other,
        }
    }

    /// The size that the token takes on a single line.
    pub open spec fn size(self) -> usize {
        match self {
            TokenView::Raw(text) => text.size,
            TokenView::Space(size) => size,
            _ => 0,
        }
    }

    /// Whether the token can be among those that wait to be measured: an
    /// `End`, or a `Begin` or `SoftBreak` without a distance.
    pub open spec fn is_waiting(self) -> bool {
        self is End || self.is_unmeasured()
    }

    /// Whether the token waits for its distance.
    pub open spec fn is_unmeasured(self) -> bool {
        match self.distance() {
            Some(distance) => distance.is_unmeasured(),
            None => false,
        }
    }

    /// Whether the distance of the token, if it waits for one, can be
    /// completed when the size of all tokens is `total`.
    pub open spec fn within(self, total: usize) -> bool {
        match self.distance() {
            Some(distance) => distance.within(total),
            None => true,
        }
    }
}

} // verus!
