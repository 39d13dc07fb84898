//! The second level of the lexer of quoted content: pieces that carry their
//! text.

use crate::chars::{part, string_of};
use crate::cursor::Cursor;
use crate::parsing::quoted::l1;
use crate::parsing::quoted::l1::Unescaped;
use vstd::prelude::*;

verus! {

/// An escape sequence with its text.
pub struct Escape {
    /// The text of the sequence, the escape character included.
    pub source: String,
    /// What the sequence stands for.
    pub unescaped: Unescaped,
}

/// A piece of quoted content with its text.
pub enum Token {
    /// Raw text.
    Raw(String),
    /// An escape sequence.
    Escape(Escape),
}

/// What a [`Token`] holds.
pub enum TokenView {
    /// Raw text.
    Raw(Seq<char>),
    /// An escape sequence: its text, and what it stands for.
    Escape { source: Seq<char>, unescaped: Unescaped },
}

impl TokenView {
    /// The text of the piece in the input.
    pub open spec fn source(self) -> Seq<char> {
        match self {
            TokenView::Raw(text) => text,
            TokenView::Escape { source, .. } => source,
        }
    }
}

impl View for Token {
    type V = TokenView;

    open spec fn view(&self) -> TokenView {
        match self {
            Token::Raw(text) => TokenView::Raw(text@),
            Token::Escape(escape) => TokenView::Escape {
                source: escape.source@,
                unescaped: escape.unescaped,
            },
        }
    }
}

impl Token {
    /// The text of the piece in the input.
    pub fn source(&self) -> (source: &str)
        ensures
            source@ == self@.source(),
    {
        match self {
            Token::Raw(text) => text.as_str(),
            Token::Escape(escape) => escape.source.as_str(),
        }
    }
}

/// The views of the given pieces.
pub open spec fn token_views(tokens: Seq<Token>) -> Seq<TokenView> {
    tokens.map_values(|token: Token| token@)
}

/// The piece with its text, which ends at `end`.
pub open spec fn with_text(input: Seq<char>, token: l1::Token, end: int) -> TokenView {
    match token {
        l1::Token::Raw(start) => TokenView::Raw(part(input, start as int, end)),
        l1::Token::Escape(escape) => TokenView::Escape {
            source: part(input, escape.start as int, end),
            unescaped: escape.unescaped,
        },
    }
}

/// Where the text of the `i`-th piece ends: where the next piece starts, or
/// at `end` for the last piece.
pub open spec fn end_of(tokens: Seq<l1::Token>, i: int, end: int) -> int {
    if i + 1 < tokens.len() {
        tokens[i + 1].spec_start() as int
    } else {
        end
    }
}

/// The pieces with their texts. The text of each piece ends where the next
/// piece starts, that of the last piece at `end`.
pub open spec fn with_texts(input: Seq<char>, tokens: Seq<l1::Token>, end: int) -> Seq<TokenView> {
    Seq::new(tokens.len(), |i: int| with_text(input, tokens[i], end_of(tokens, i, end)))
}

/// Gives the pieces their texts.
pub fn convert(input: &[char], tokens: &Vec<l1::Token>, end: usize) -> (content: Vec<Token>)
    ensures
        token_views(content@) == with_texts(input@, tokens@, end as int),
{
    let mut content: Vec<Token> = Vec::new();
    let mut i: usize = 0;
    while i < tokens.len()
        invariant
            i <= tokens@.len(),
            content@.len() == i,
            token_views(content@) == with_texts(input@, tokens@, end as int).take(i as int),
        decreases tokens@.len() - i,
    {
        let token = tokens[i];
        let text_end: usize = if i + 1 < tokens.len() {
            tokens[i + 1].start()
        } else {
            end
        };
        let text = string_of(input, token.start(), text_end);
        let piece = match token {
            l1::Token::Raw(_) => Token::Raw(text),
            l1::Token::Escape(escape) => Token::Escape(
                Escape { source: text, unescaped: escape.unescaped },
            ),
        };
        assert(piece@ == with_text(input@, tokens@[i as int], end_of(tokens@, i as int, end as int)));
        let ghost before = content@;
        content.push(piece);
        i += 1;
        assert(token_views(content@) =~= with_texts(input@, tokens@, end as int).take(i as int)) by {
            let all = with_texts(input@, tokens@, end as int);
            assert(token_views(content@).len() == i);
            assert forall|k: int| 0 <= k < i implies token_views(content@)[k] == all.take(
                i as int,
            )[k] by {
                if k < i - 1 {
                    assert(token_views(content@)[k] == token_views(before)[k]);
                    assert(all.take(i - 1)[k] == all.take(i as int)[k]);
                }
            }
        }
    }
    assert(with_texts(input@, tokens@, end as int).take(i as int) =~= with_texts(
        input@,
        tokens@,
        end as int,
    ));
    content
}

/// The pieces of a text that is quoted content as a whole, with `\` as the
/// escape character.
pub open spec fn text_pieces(input: Seq<char>) -> Seq<TokenView> {
    with_texts(input, l1::pieces(input, 0, '\\', None), input.len() as int)
}

/// Splits `input` into raw text and escape sequences.
pub fn unescape(input: &[char]) -> (content: Vec<Token>)
    ensures
        token_views(content@) == text_pieces(input@),
{
    let mut lexer = l1::Lexer::new(Cursor::new(input));
    let tokens = lexer.collect();
    convert(input, &tokens, input.len())
}

} // verus!
