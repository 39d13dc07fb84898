//! The configuration of the formatter.

use crate::chars::spaces;
use crate::config::{BreakStyleEnum, Group, Punct, Quote};
use crate::sealed::Sealed;
use crate::space::Space;
use crate::text::{IntoStr, Str};
use crate::visual_size::{CharCount, VisualSize};
use vstd::prelude::*;

verus! {

/// Provide configuration and run [`Decondenser::decondense()`] to format the
/// input.
pub struct Decondenser<V: VisualSize = CharCount> {
    /// String used to make a single level of indentation.
    pub indent: Str,
    /// Best-effort max size of a line to fit into.
    pub max_line_size: usize,
    /// Lines shorter than this, ignoring indent, are not broken. Without a
    /// value it is half of `max_line_size`.
    pub no_break_size: Option<usize>,
    /// The groups, in the order in which they are looked for.
    pub groups: Vec<Group>,
    /// The punctuation, in the order in which it is looked for.
    pub puncts: Vec<Punct>,
    /// The quotes, in the order in which they are looked for.
    pub quotes: Vec<Quote>,
    /// The character that starts an escape sequence in quoted content.
    pub escape_char: char,
    /// Algorithm used to calculate the visual size of a string.
    pub visual_size: V,
}

/// A trait used to specify "string-like" values (`&str`, `String`) and the
/// special case of a [`usize`] that represents a number of whitespace
/// characters to use.
pub trait Indent: Sized {
    /// The text of one level of indentation.
    spec fn indent_text(&self) -> Seq<char>;

    /// Sealed method: it cannot be called outside of this crate.
    fn indent(self, seal: Sealed) -> (indent: Str)
        ensures
            indent@ == self.indent_text(),
    ;
}

impl<T: IntoStr> Indent for T {
    open spec fn indent_text(&self) -> Seq<char> {
        self.text()
    }

    fn indent(self, seal: Sealed) -> (indent: Str) {
        Str::new(self)
    }
}

impl Indent for usize {
    open spec fn indent_text(&self) -> Seq<char> {
        spaces(*self as nat)
    }

    fn indent(self, seal: Sealed) -> (indent: Str) {
        Str::n_spaces(self)
    }
}

/// A group of the general-purpose configuration: a pair of brackets with a
/// breakable padding of `padding` spaces inside.
pub open spec fn is_bracket(group: Group, opening: Seq<char>, closing: Seq<char>, padding: usize) -> bool {
    &&& group.opening.symbol@ == opening
    &&& group.opening.leading_space == (Space { size: (0usize, 1usize), breakable: false })
    &&& group.opening.trailing_space == (Space { size: (padding, padding), breakable: true })
    &&& group.closing.symbol@ == closing
    &&& group.closing.leading_space == (Space { size: (padding, padding), breakable: true })
    &&& group.closing.trailing_space == (Space { size: (0usize, 1usize), breakable: false })
    &&& group.break_style.0 == BreakStyleEnum::Consistent
}

/// A punctuation symbol of the general-purpose configuration: it is followed
/// by one space, at which the line can be broken.
pub open spec fn is_separator(punct: Punct, symbol: Seq<char>) -> bool {
    &&& punct.symbol@ == symbol
    &&& punct.leading_space == (Space { size: (0usize, 1usize), breakable: false })
    &&& punct.trailing_space == (Space { size: (1usize, 1usize), breakable: true })
}

/// A quote with the given delimiters.
pub open spec fn is_quote(quote: Quote, opening: Seq<char>, closing: Seq<char>) -> bool {
    quote.opening@ == opening && quote.closing@ == closing
}

/// What the tokenizer looks for.
pub struct Syntax {
    /// The groups, in the order in which they are looked for.
    pub groups: Seq<Group>,
    /// The quotes, in the order in which they are looked for.
    pub quotes: Seq<Quote>,
    /// The punctuation, in the order in which it is looked for.
    pub puncts: Seq<Punct>,
    /// The character that starts an escape sequence in quoted content.
    pub escape_char: char,
}

impl<V: VisualSize> Decondenser<V> {
    /// What the tokenizer looks for.
    pub open spec fn syntax(&self) -> Syntax {
        Syntax {
            groups: self.groups@,
            quotes: self.quotes@,
            puncts: self.puncts@,
            escape_char: self.escape_char,
        }
    }

    /// The size that every line is granted: the configured one, or half of
    /// `max_line_size`.
    pub open spec fn spec_effective_no_break_size(&self) -> usize {
        match self.no_break_size {
            Some(size) => size,
            None => self.max_line_size / 2,
        }
    }

    /// The size that every line is granted, however deep it is indented.
    #[verifier::when_used_as_spec(spec_effective_no_break_size)]
    pub fn effective_no_break_size(&self) -> (size: usize)
        ensures
            size == self.spec_effective_no_break_size(),
    {
        match self.no_break_size {
            Some(size) => size,
            None => self.max_line_size / 2,
        }
    }

    /// String to used to make a single level of indentation: a string, or a
    /// number of spaces.
    ///
    /// Defaults to 4 spaces.
    pub fn indent<I: Indent>(self, value: I) -> (decondenser: Decondenser<V>)
        ensures
            decondenser.indent@ == value.indent_text(),
            decondenser.max_line_size == self.max_line_size,
            decondenser.no_break_size == self.no_break_size,
            decondenser.groups == self.groups,
            decondenser.puncts == self.puncts,
            decondenser.quotes == self.quotes,
            decondenser.escape_char == self.escape_char,
            decondenser.visual_size == self.visual_size,
    {
        Decondenser {
            indent: value.indent(Sealed),
            max_line_size: self.max_line_size,
            no_break_size: self.no_break_size,
            groups: self.groups,
            puncts: self.puncts,
            quotes: self.quotes,
            escape_char: self.escape_char,
            visual_size: self.visual_size,
        }
    }

    /// Best-effort max size of a line to fit into.
    ///
    /// The resulting output will try to fit into this many characters per
    /// line, but it is not guaranteed: `no_break_size` can cause some lines
    /// to be longer, and so can sequences of characters that cannot be
    /// broken into several lines.
    pub fn max_line_size(self, value: usize) -> (decondenser: Decondenser<V>)
        ensures
            decondenser.indent == self.indent,
            decondenser.max_line_size == value,
            decondenser.no_break_size == self.no_break_size,
            decondenser.groups == self.groups,
            decondenser.puncts == self.puncts,
            decondenser.quotes == self.quotes,
            decondenser.escape_char == self.escape_char,
            decondenser.visual_size == self.visual_size,
    {
        Decondenser {
            indent: self.indent,
            max_line_size: value,
            no_break_size: self.no_break_size,
            groups: self.groups,
            puncts: self.puncts,
            quotes: self.quotes,
            escape_char: self.escape_char,
            visual_size: self.visual_size,
        }
    }

    /// Lines shorter than this, ignoring indent, are not broken no matter
    /// the `max_line_size`.
    ///
    /// By default, this is set to `max_line_size / 2`.
    pub fn no_break_size(self, value: usize) -> (decondenser: Decondenser<V>)
        ensures
            decondenser.indent == self.indent,
            decondenser.max_line_size == self.max_line_size,
            decondenser.no_break_size == Some(value),
            decondenser.groups == self.groups,
            decondenser.puncts == self.puncts,
            decondenser.quotes == self.quotes,
            decondenser.escape_char == self.escape_char,
            decondenser.visual_size == self.visual_size,
    {
        Decondenser {
            indent: self.indent,
            max_line_size: self.max_line_size,
            no_break_size: Some(value),
            groups: self.groups,
            puncts: self.puncts,
            quotes: self.quotes,
            escape_char: self.escape_char,
            visual_size: self.visual_size,
        }
    }

    /// Algorithm used to calculate the effective "visual" size of a string.
    ///
    /// The default algorithm counts the characters of the string other than
    /// `\r`. A space always has the size 1, whatever the algorithm.
    pub fn visual_size<W: VisualSize>(self, value: W) -> (decondenser: Decondenser<W>)
        ensures
            decondenser.indent == self.indent,
            decondenser.max_line_size == self.max_line_size,
            decondenser.no_break_size == self.no_break_size,
            decondenser.groups == self.groups,
            decondenser.puncts == self.puncts,
            decondenser.quotes == self.quotes,
            decondenser.escape_char == self.escape_char,
            decondenser.visual_size == value,
    {
        Decondenser {
            indent: self.indent,
            max_line_size: self.max_line_size,
            no_break_size: self.no_break_size,
            groups: self.groups,
            puncts: self.puncts,
            quotes: self.quotes,
            escape_char: self.escape_char,
            visual_size: value,
        }
    }

    /// Set group characters that are used to nest content.
    pub fn groups(self, value: Vec<Group>) -> (decondenser: Decondenser<V>)
        ensures
            decondenser.indent == self.indent,
            decondenser.max_line_size == self.max_line_size,
            decondenser.no_break_size == self.no_break_size,
            decondenser.groups == value,
            decondenser.puncts == self.puncts,
            decondenser.quotes == self.quotes,
            decondenser.escape_char == self.escape_char,
            decondenser.visual_size == self.visual_size,
    {
        Decondenser {
            indent: self.indent,
            max_line_size: self.max_line_size,
            no_break_size: self.no_break_size,
            groups: value,
            puncts: self.puncts,
            quotes: self.quotes,
            escape_char: self.escape_char,
            visual_size: self.visual_size,
        }
    }

    /// Punctuation sequences used to separate content and potentially break
    /// it into multiple lines.
    pub fn puncts(self, value: Vec<Punct>) -> (decondenser: Decondenser<V>)
        ensures
            decondenser.indent == self.indent,
            decondenser.max_line_size == self.max_line_size,
            decondenser.no_break_size == self.no_break_size,
            decondenser.groups == self.groups,
            decondenser.puncts == value,
            decondenser.quotes == self.quotes,
            decondenser.escape_char == self.escape_char,
            decondenser.visual_size == self.visual_size,
    {
        Decondenser {
            indent: self.indent,
            max_line_size: self.max_line_size,
            no_break_size: self.no_break_size,
            groups: self.groups,
            puncts: value,
            quotes: self.quotes,
            escape_char: self.escape_char,
            visual_size: self.visual_size,
        }
    }

    /// Quotes notations that enclose unbreakable string-literal-like
    /// content.
    pub fn quotes(self, value: Vec<Quote>) -> (decondenser: Decondenser<V>)
        ensures
            decondenser.indent == self.indent,
            decondenser.max_line_size == self.max_line_size,
            decondenser.no_break_size == self.no_break_size,
            decondenser.groups == self.groups,
            decondenser.puncts == self.puncts,
            decondenser.quotes == value,
            decondenser.escape_char == self.escape_char,
            decondenser.visual_size == self.visual_size,
    {
        Decondenser {
            indent: self.indent,
            max_line_size: self.max_line_size,
            no_break_size: self.no_break_size,
            groups: self.groups,
            puncts: self.puncts,
            quotes: value,
            escape_char: self.escape_char,
            visual_size: self.visual_size,
        }
    }
}

impl Decondenser<CharCount> {
    /// Whether the configuration has the formatting options of [`empty`]:
    /// an indent of 4 spaces, lines of 80, `\` as the escape character, and
    /// the number of characters other than `\r` as the visual size.
    ///
    /// [`empty`]: Decondenser::empty
    pub open spec fn has_default_options(&self) -> bool {
        &&& self.indent@ == spaces(4)
        &&& self.max_line_size == 80
        &&& self.no_break_size is None
        &&& self.escape_char == '\\'
    }

    /// Creates an empty [`Decondenser`] instance without any groups, quotes,
    /// or punctuation sequences configured. It is only useful as a starting
    /// point for custom configurations. Use [`Decondenser::generic()`] to get
    /// a general-purpose [`Decondenser`] configured for free-form text
    /// formatting.
    pub fn empty() -> (decondenser: Decondenser<CharCount>)
        ensures
            decondenser.has_default_options(),
            decondenser.groups@.len() == 0,
            decondenser.puncts@.len() == 0,
            decondenser.quotes@.len() == 0,
    {
        Decondenser {
            indent: Str::n_spaces(4),
            max_line_size: 80,
            no_break_size: None,
            groups: Vec::new(),
            puncts: Vec::new(),
            quotes: Vec::new(),
            escape_char: '\\',
            visual_size: CharCount,
        }
    }

    /// Create a new [`Decondenser`] instance with the default configuration
    /// for general-purpose formatting of arbitrary text based on brackets
    /// nesting.
    ///
    /// The groups are `()`, `[]`, `{}` and `<<>>`, the punctuation is `,` and
    /// `;`, and the quotes are `"""`, `"`, `'''` and `'`.
    pub fn generic() -> (decondenser: Decondenser<CharCount>)
        ensures
            decondenser.has_default_options(),
            decondenser.groups@.len() == 4,
            is_bracket(decondenser.groups@[0], "("@, ")"@, 0),
            is_bracket(decondenser.groups@[1], "["@, "]"@, 0),
            is_bracket(decondenser.groups@[2], "{"@, "}"@, 1),
            is_bracket(decondenser.groups@[3], "<<"@, ">>"@, 0),
            decondenser.puncts@.len() == 2,
            is_separator(decondenser.puncts@[0], ","@),
            is_separator(decondenser.puncts@[1], ";"@),
            decondenser.quotes@.len() == 4,
            is_quote(decondenser.quotes@[0], "\"\"\""@, "\"\"\""@),
            is_quote(decondenser.quotes@[1], "\""@, "\""@),
            is_quote(decondenser.quotes@[2], "'''"@, "'''"@),
            is_quote(decondenser.quotes@[3], "'"@, "'"@),
    {
        let mut groups: Vec<Group> = Vec::new();
        groups.push(bracket("(", ")", 0));
        groups.push(bracket("[", "]", 0));
        groups.push(bracket("{", "}", 1));
        // Elixir's bitstrings
        groups.push(bracket("<<", ">>", 0));
        let mut puncts: Vec<Punct> = Vec::new();
        puncts.push(separator(","));
        puncts.push(separator(";"));
        let mut quotes: Vec<Quote> = Vec::new();
        quotes.push(Quote::new("\"\"\"", "\"\"\""));
        quotes.push(Quote::new("\"", "\""));
        quotes.push(Quote::new("'''", "'''"));
        quotes.push(Quote::new("'", "'"));
        Decondenser::empty().groups(groups).puncts(puncts).quotes(quotes)
    }
}

/// The group of a pair of brackets with a breakable padding inside.
fn bracket(opening: &str, closing: &str, padding: usize) -> (group: Group)
    ensures
        is_bracket(group, opening@, closing@, padding),
{
    let padding = Space::new().size(padding).breakable(true);
    Group::new(
        Punct::new(opening).trailing_space(padding),
        Punct::new(closing).leading_space(padding),
    )
}

/// The punctuation symbol that is followed by one breakable space.
fn separator(symbol: &str) -> (punct: Punct)
    ensures
        is_separator(punct, symbol@),
{
    Punct::new(symbol).trailing_space(Space::new().size(1usize).breakable(true))
}

} // verus!
