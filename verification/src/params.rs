//! The settings of a decondenser as a caller from another language gives
//! them: a preset to start from, and settings that replace those of the
//! preset where they are there. Sizes come as 32-bit numbers.

use crate::decondenser::Decondenser;
use crate::profile::{
    has_empty_syntax, has_generic_syntax, Fmt, GroupConfig, IndentConfig, Lang, Layout,
    PunctConfig, QuoteConfig,
};
use vstd::prelude::*;

verus! {

/// A configuration to start from.
#[derive(Clone, Copy, Debug, PartialEq, Eq, Structural)]
pub enum Preset {
    /// The configuration without groups, quotes and punctuation.
    Empty,
    /// The general-purpose configuration.
    Generic,
}

/// The settings of a decondenser, each of which may be there or not.
pub struct DecondenserParams {
    /// The preset to start from; the general-purpose one where none is
    /// given.
    pub extends: Option<Preset>,
    /// The indent.
    pub indent: Option<IndentConfig>,
    /// Best-effort max size of a line to fit into.
    pub max_line_size: Option<u32>,
    /// Lines shorter than this are not broken.
    pub no_break_size: Option<u32>,
    /// The groups, in place of those of the preset.
    pub groups: Option<Vec<GroupConfig>>,
    /// The quotes, in place of those of the preset.
    pub quotes: Option<Vec<QuoteConfig>>,
    /// The punctuation, in place of that of the preset.
    pub puncts: Option<Vec<PunctConfig>>,
}

/// The size as the library counts it. A `usize` holds every 32-bit number.
pub fn uint_to_core(value: u32) -> (size: usize)
    ensures
        size == value,
{
    value as usize
}

/// The optional size as the library counts it.
pub open spec fn size_of(value: Option<u32>) -> Option<usize> {
    match value {
        Some(value) => Some(value as usize),
        None => None,
    }
}

impl DecondenserParams {
    /// The preset that the settings start from.
    pub open spec fn preset(&self) -> Preset {
        match self.extends {
            Some(preset) => preset,
            None => Preset::Generic,
        }
    }

    /// The settings as a language profile holds them.
    pub open spec fn profile(&self) -> Lang {
        Lang {
            groups: self.groups,
            quotes: self.quotes,
            puncts: self.puncts,
            fmt: Fmt {
                indent: self.indent,
                max_line_size: size_of(self.max_line_size),
                no_break_size: size_of(self.no_break_size),
            },
        }
    }

    /// The configuration that the settings stand for: that of the preset,
    /// with the settings that are there in place of its own.
    pub fn into_decondenser(self) -> (decondenser: Decondenser)
        ensures
            Layout::of(decondenser) == self.profile().fmt.merged(Layout::initial()),
            exists|base: Decondenser| #[trigger]
                self.profile().replaces_syntax(base, decondenser) && match self.preset() {
                    Preset::Empty => has_empty_syntax(base),
                    Preset::Generic => has_generic_syntax(base),
                },
    {
        let base = match self.extends {
            Some(Preset::Empty) => Decondenser::empty(),
            Some(Preset::Generic) => Decondenser::generic(),
            None => Decondenser::generic(),
        };
        let max_line_size = match self.max_line_size {
            Some(size) => Some(uint_to_core(size)),
            None => None,
        };
        let no_break_size = match self.no_break_size {
            Some(size) => Some(uint_to_core(size)),
            None => None,
        };
        let profile = Lang {
            groups: self.groups,
            quotes: self.quotes,
            puncts: self.puncts,
            fmt: Fmt { indent: self.indent, max_line_size, no_break_size },
        };
        let ghost start = base;
        let decondenser = profile.merge_into(base);
        proof {
            assert(profile == self.profile());
            assert(self.profile().replaces_syntax(start, decondenser));
        }
        decondenser
    }
}

} // verus!
