//! The rule for the blank that stands before or after a punctuation symbol.

use crate::sealed::Sealed;
use std::ops::RangeInclusive;
use vstd::prelude::*;

verus! {

/// Defines the rules for inserting space characters and line breaks.
#[derive(Clone, Copy, Debug)]
pub struct Space {
    /// The least and the greatest size. Where both are equal the size is
    /// fixed; otherwise the size of the blank in the input is kept, clamped
    /// to these bounds.
    pub size: (usize, usize),
    /// Whether the space may turn into a line break where the content does
    /// not fit on a single line.
    pub breakable: bool,
}

impl Space {
    /// Creates a new [`Space`] with the default settings: the size follows the
    /// input between 0 and 1, and the space never turns into a line break.
    pub fn new() -> (space: Space)
        ensures
            space == (Space { size: (0usize, 1usize), breakable: false }),
    {
        Space { size: (0, 1), breakable: false }
    }

    /// Sets the size of this [`Space`]: a number for a fixed size, an
    /// inclusive range for a size that follows the input within the range.
    pub fn size<S: SpaceSize>(self, value: S) -> (space: Space)
        ensures
            space == (Space { size: value.bounds(), breakable: self.breakable }),
    {
        Space { size: value.space_size(Sealed), breakable: self.breakable }
    }

    /// Sets whether this space can be turned into a line break if the
    /// content overflows.
    pub fn breakable(self, value: bool) -> (space: Space)
        ensures
            space == (Space { size: self.size, breakable: value }),
    {
        Space { size: self.size, breakable: value }
    }

    /// The size that this rule gives to a blank whose size in the input is
    /// `input`.
    pub open spec fn size_for(self, input: usize) -> usize {
        clamp(input, self.size.0, self.size.1)
    }
}

/// `value` moved into the bounds: `min` where it is smaller, `max` where it
/// is greater. Where `max < min`, `min` counts first.
pub open spec fn clamp(value: usize, min: usize, max: usize) -> usize {
    if value < min {
        min
    } else if value > max {
        max
    } else {
        value
    }
}

/// Represents the size constraint for a [`Space`]. If the space is shorter or
/// longer than the given range (or fixed size), it will be clamped.
pub trait SpaceSize: Sized {
    /// The least and the greatest size that the value stands for.
    spec fn bounds(&self) -> (usize, usize);

    /// Sealed method: it cannot be called outside of this crate.
    fn space_size(self, seal: Sealed) -> (size: (usize, usize))
        ensures
            size == self.bounds(),
    ;
}

/// Creates a fixed [`SpaceSize`].
impl SpaceSize for usize {
    open spec fn bounds(&self) -> (usize, usize) {
        (*self, *self)
    }

    fn space_size(self, seal: Sealed) -> (size: (usize, usize)) {
        (self, self)
    }
}

/// `RangeInclusive::into_inner`: the lower bound of the range and its upper
/// bound.
pub assume_specification<Idx>[ RangeInclusive::<Idx>::into_inner ](
    range: RangeInclusive<Idx>,
) -> (bounds: (Idx, Idx))
    ensures
        bounds.0 == range@.start,
        bounds.1 == range@.end,
;

/// Creates a range-based [`SpaceSize`], where the space size is preserved from
/// input, but clamped to the given range.
impl SpaceSize for RangeInclusive<usize> {
    open spec fn bounds(&self) -> (usize, usize) {
        (self@.start, self@.end)
    }

    fn space_size(self, seal: Sealed) -> (size: (usize, usize)) {
        self.into_inner()
    }
}

/// Convenience conversion into a [`Space`].
pub trait IntoSpace: Sized {
    /// The space that the value stands for.
    spec fn space(&self) -> Space;

    /// Sealed method: it cannot be called outside of this crate.
    fn into_space(self, seal: Sealed) -> (space: Space)
        ensures
            space == self.space(),
    ;
}

/// Identity conversion from [`Space`].
impl IntoSpace for Space {
    open spec fn space(&self) -> Space {
        *self
    }

    fn into_space(self, seal: Sealed) -> (space: Space) {
        self
    }
}

/// A shortcut for an unbreakable space of a fixed size.
impl IntoSpace for usize {
    open spec fn space(&self) -> Space {
        Space { size: (*self, *self), breakable: false }
    }

    fn into_space(self, seal: Sealed) -> (space: Space) {
        Space::new().size(self)
    }
}

/// A shortcut for an unbreakable space whose size follows the input within
/// the range.
impl IntoSpace for RangeInclusive<usize> {
    open spec fn space(&self) -> Space {
        Space { size: (self@.start, self@.end), breakable: false }
    }

    fn into_space(self, seal: Sealed) -> (space: Space) {
        Space::new().size(self)
    }
}

} // verus!
