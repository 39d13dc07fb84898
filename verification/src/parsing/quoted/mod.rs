//! Quoted content: the lexer that tells raw text from escape sequences, and
//! the unescaping of a whole text.

pub mod l1;
pub mod l2;

use crate::chars::{chars_of, push_char};
use crate::parsing::quoted::l1::Unescaped;
use crate::parsing::quoted::l2::{text_pieces, token_views, Token, TokenView};
use std::borrow::Cow;
use vstd::prelude::*;

verus! {

/// What a piece of text becomes when it is unescaped: raw text stays, an
/// escape sequence becomes the character that it stands for, or nothing
/// where it stands for nothing, and stays where it is not in the grammar.
pub open spec fn unescaped_piece(piece: TokenView) -> Seq<char> {
    match piece {
        TokenView::Raw(text) => text,
        TokenView::Escape { source, unescaped } => match unescaped {
            Unescaped::Char(c) => seq![c],
            Unescaped::Ignore => Seq::empty(),
            Unescaped::Invalid => source,
        },
    }
}

/// What the pieces become when they are unescaped, one after another.
pub open spec fn unescaped_pieces(pieces: Seq<TokenView>) -> Seq<char>
    decreases pieces.len(),
{
    if pieces.len() == 0 {
        Seq::empty()
    } else {
        unescaped_pieces(pieces.drop_last()) + unescaped_piece(pieces.last())
    }
}

/// The text with every escape sequence replaced by what it stands for.
pub open spec fn unescaped(input: Seq<char>) -> Seq<char> {
    unescaped_pieces(text_pieces(input))
}

/// Whether one of the pieces is an escape sequence.
pub open spec fn has_escape(pieces: Seq<TokenView>) -> bool {
    exists|i: int| 0 <= i < pieces.len() && #[trigger] pieces[i] is Escape
}

/// Unescape the string by replacing the escape sequences with their actual
/// characters.
///
/// Uses the superset of string literals escaping grammar from the languages
/// JSON, Rust, Elixir and Python. By using the superset of the grammars,
/// this function is not fully compliant with any of these languages'
/// literals: it does not know the origin of its input string and does not
/// attempt to detect it. It is suited as a debugging tool where unescaping
/// extra characters does not break anything.
///
/// A string without escape sequences is returned as it is, borrowed.
pub fn unescape(input: &str) -> (output: Cow<'_, str>)
    ensures
        output@ == unescaped(input@),
        output is Borrowed <==> !has_escape(text_pieces(input@)),
{
    let chars = chars_of(input);
    let tokens = l2::unescape(chars.as_slice());
    let ghost pieces = text_pieces(input@);
    let mut escapes = false;
    let mut i: usize = 0;
    while i < tokens.len()
        invariant
            i <= tokens@.len(),
            token_views(tokens@) == pieces,
            escapes <==> has_escape(pieces.take(i as int)),
        decreases tokens@.len() - i,
    {
        if let Token::Escape(_) = tokens[i] {
            escapes = true;
            assert(pieces.take(i + 1)[i as int] is Escape);
        } else {
            proof {
                assert(forall|k: int|
                    0 <= k < i + 1 && #[trigger] pieces.take(i + 1)[k] is Escape ==> pieces.take(
                        i as int,
                    )[k] is Escape);
                if has_escape(pieces.take(i as int)) {
                    let k = choose|k: int|
                        0 <= k < pieces.take(i as int).len() && #[trigger] pieces.take(
                            i as int,
                        )[k] is Escape;
                    assert(pieces.take(i + 1)[k] is Escape);
                }
            }
        }
        i += 1;
    }
    assert(pieces.take(i as int) =~= pieces);
    if !escapes {
        proof {
            lemma_unescaped_raw(input@);
        }
        return Cow::Borrowed(input);
    }
    let mut output = String::new();
    let mut i: usize = 0;
    while i < tokens.len()
        invariant
            i <= tokens@.len(),
            token_views(tokens@) == pieces,
            output@ == unescaped_pieces(pieces.take(i as int)),
        decreases tokens@.len() - i,
    {
        proof {
            assert(pieces.take(i + 1).drop_last() =~= pieces.take(i as int));
        }
        write_token(&mut output, &tokens[i]);
        i += 1;
    }
    assert(pieces.take(i as int) =~= pieces);
    Cow::Owned(output)
}

/// Appends to `buf` what the piece becomes when it is unescaped.
fn write_token(buf: &mut String, token: &Token)
    ensures
        final(buf)@ == old(buf)@ + unescaped_piece(token@),
{
    match token {
        Token::Raw(text) => buf.append(text.as_str()),
        Token::Escape(escape) => match escape.unescaped {
            Unescaped::Char(c) => {
                push_char(buf, c);
                assert(buf@ =~= old(buf)@ + seq![c]);
            },
            Unescaped::Ignore => {
                assert(buf@ =~= old(buf)@ + Seq::<char>::empty());
            },
            Unescaped::Invalid => buf.append(escape.source.as_str()),
        },
    }
}

/// A text whose pieces are all raw text is its own unescaped form.
pub proof fn lemma_unescaped_raw(input: Seq<char>)
    requires
        !has_escape(text_pieces(input)),
    ensures
        unescaped(input) == input,
{
    let pieces = l1::pieces(input, 0, '\\', None);
    let texts = text_pieces(input);
    if input.len() == 0 {
        assert(texts =~= Seq::<TokenView>::empty());
    } else {
        l1::lemma_raw_end(input, 1, '\\', None);
        let end = l1::raw_end(input, 1, '\\', None);
        let rest = l1::pieces(input, end, '\\', None);
        if input[0] == '\\' {
            assert(pieces[0] is Escape);
            assert(texts[0] is Escape);
            assert(false);
        }
        assert(pieces == seq![l1::Token::Raw(0)] + rest);
        if end < input.len() {
            assert(input[end] == '\\');
            assert(rest[0] is Escape);
            assert(pieces[1] == rest[0]);
            assert(texts[1] is Escape);
            assert(false);
        }
        assert(rest =~= Seq::<l1::Token>::empty());
        assert(pieces =~= seq![l1::Token::Raw(0)]);
        assert(texts =~= seq![TokenView::Raw(input)]) by {
            assert(texts.len() == 1);
            assert(input.subrange(0, input.len() as int) =~= input);
        }
        assert(texts.drop_last() =~= Seq::<TokenView>::empty());
        assert(unescaped_pieces(texts.drop_last()) =~= Seq::<char>::empty());
        assert(unescaped_pieces(texts) =~= input);
    }
}

/// A text that is one escape sequence becomes what the sequence stands for:
/// the character, or nothing for an escaped line break; a sequence that is
/// not in the grammar stays as it is.
pub proof fn lemma_unescaped_escape(input: Seq<char>)
    requires
        input.len() >= 1,
        input[0] == '\\',
        l1::escape_after(input, 1).1 == input.len(),
    ensures
        unescaped(input) == match l1::escape_after(input, 1).0 {
            Unescaped::Char(c) => seq![c],
            Unescaped::Ignore => Seq::empty(),
            Unescaped::Invalid => input,
        },
{
    let pieces = l1::pieces(input, 0, '\\', None);
    let texts = text_pieces(input);
    let unescaped = l1::escape_after(input, 1).0;
    let rest = l1::pieces(input, input.len() as int, '\\', None);
    assert(rest =~= Seq::<l1::Token>::empty());
    if input.len() > 1 {
        assert(pieces == seq![l1::Token::Escape(l1::Escape { start: 0, unescaped })] + rest);
    }
    assert(pieces =~= seq![l1::Token::Escape(l1::Escape { start: 0, unescaped })]);
    assert(input.subrange(0, input.len() as int) =~= input);
    assert(texts =~= seq![TokenView::Escape { source: input, unescaped }]);
    assert(texts.drop_last() =~= Seq::<TokenView>::empty());
    assert(unescaped_pieces(texts.drop_last()) =~= Seq::<char>::empty());
    assert(unescaped_pieces(texts) =~= unescaped_piece(texts[0]));
}


/// What the text from `from` on becomes when it is unescaped.
pub open spec fn unescaped_from(input: Seq<char>, from: int) -> Seq<char> {
    unescaped_pieces(
        l2::with_texts(input, l1::pieces(input, from, '\\', None), input.len() as int),
    )
}

/// What a first piece and the pieces behind it become.
pub proof fn lemma_unescaped_pieces_first(first: TokenView, rest: Seq<TokenView>)
    ensures
        unescaped_pieces(seq![first] + rest) == unescaped_piece(first) + unescaped_pieces(rest),
    decreases rest.len(),
{
    let all = seq![first] + rest;
    if rest.len() == 0 {
        assert(all.drop_last() =~= Seq::<TokenView>::empty());
        assert(all.last() == first);
        assert(unescaped_pieces(all.drop_last()) =~= Seq::<char>::empty());
        assert(unescaped_pieces(rest) =~= Seq::<char>::empty());
        assert(unescaped_pieces(all) =~= unescaped_piece(first) + unescaped_pieces(rest));
    } else {
        lemma_unescaped_pieces_first(first, rest.drop_last());
        assert(all.drop_last() =~= seq![first] + rest.drop_last());
        assert(all.last() == rest.last());
        assert(unescaped_pieces(all) =~= unescaped_piece(first) + unescaped_pieces(rest));
    }
}

/// Unescaping goes through a text from its start, piece by piece, whatever
/// stands before and behind a piece. Raw text up to the next `\` stays as
/// it is. An escape sequence becomes the character that it stands for, or
/// nothing for an escaped line break; a sequence that is not in the grammar
/// stays as it is, character by character. Behind the piece the rest of
/// the text is unescaped in the same way.
pub proof fn lemma_unescaped_step(input: Seq<char>, from: int)
    requires
        0 <= from < input.len() <= usize::MAX,
    ensures
        unescaped(input) == unescaped_from(input, 0),
        unescaped_from(input, input.len() as int) == Seq::<char>::empty(),
        input[from] != '\\' ==> ({
            let end = l1::raw_end(input, from + 1, '\\', None);
            &&& from < end <= input.len()
            &&& unescaped_from(input, from) == input.subrange(from, end) + unescaped_from(
                input,
                end,
            )
        }),
        input[from] == '\\' ==> ({
            let (unescaped, end) = l1::escape_after(input, from + 1);
            &&& from < end <= input.len()
            &&& unescaped_from(input, from) == (match unescaped {
                Unescaped::Char(c) => seq![c],
                Unescaped::Ignore => Seq::empty(),
                Unescaped::Invalid => input.subrange(from, end),
            }) + unescaped_from(input, end)
        }),
{
    let length = input.len() as int;
    assert(l2::with_texts(input, l1::pieces(input, length, '\\', None), length)
        =~= Seq::<TokenView>::empty());
    l1::lemma_piece_end(input, from, '\\', None);
    let (token, next) = l1::piece_at(input, from, '\\', None)->0;
    let rest = l1::pieces(input, next, '\\', None);
    let tokens = l1::pieces(input, from, '\\', None);
    assert(tokens == seq![token] + rest);
    crate::parsing::l2::cover::lemma_pieces_cover(input, next, '\\', None);
    let texts = l2::with_texts(input, tokens, length);
    let others = l2::with_texts(input, rest, length);
    let first = l2::with_text(input, token, next);
    assert(texts =~= seq![first] + others) by {
        assert(texts.len() == others.len() + 1);
        assert forall|i: int| 0 <= i < texts.len() implies texts[i] == (seq![first] + others)[i] by {
            if i > 0 {
                assert(tokens[i] == rest[i - 1]);
                if i + 1 < tokens.len() {
                    assert(tokens[i + 1] == rest[i]);
                }
            } else {
                if rest.len() > 0 {
                    assert(tokens[1] == rest[0]);
                }
            }
        }
    }
    lemma_unescaped_pieces_first(first, others);
}

} // verus!
