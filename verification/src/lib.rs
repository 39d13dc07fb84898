//! Pretty-printing of arbitrary text by bracket nesting and punctuation.
//!
//! The text is split into tokens by the configured groups, quotes and
//! punctuation, and laid out again so that every group either fits on one
//! line or is broken into several lines with consistent indentation.

pub mod chars;
pub mod config;
pub mod cursor;
pub mod decondenser;
pub mod formatting;
pub mod order;
pub mod params;
pub mod parsing;
pub mod profile;
pub mod sealed;
pub mod space;
pub mod text;
pub mod visual_size;

pub use crate::config::{BreakStyle, BreakStyleEnum, Group, Punct, Quote};
pub use crate::decondenser::{Decondenser, Indent};
pub use crate::params::{DecondenserParams, Preset};
pub use crate::parsing::quoted::unescape;
pub use crate::profile::{
    Config, ConfigError, Fmt, GroupConfig, IndentConfig, Lang, NamedLang, PunctConfig, QuoteConfig,
    SpaceConfig,
};
pub use crate::sealed::Sealed;
pub use crate::space::{IntoSpace, Space, SpaceSize};
pub use crate::text::{IntoStr, Str};
pub use crate::visual_size::{CharCount, FnVisualSize, UnicodeWidth, VisualSize};
