//! The text of tokens: what stands in the input where the tokens stand,
//! without the blanks.

use crate::formatting::left;
use crate::parsing::l2::token_tree::TreeView;
use crate::parsing::quoted::l2::TokenView as QuotedView;
use vstd::prelude::*;

verus! {

/// The texts of the pieces, one after another.
pub open spec fn pieces_text(pieces: Seq<QuotedView>) -> Seq<char>
    decreases pieces.len(),
{
    if pieces.len() == 0 {
        Seq::empty()
    } else {
        pieces_text(pieces.drop_last()) + pieces.last().source()
    }
}

/// The text of quoted content: its opening delimiter, the texts of its
/// pieces and, where it is closed, its closing delimiter. The text of
/// another token has no characters.
pub open spec fn quoted_text(token: TreeView) -> Seq<char> {
    match token {
        TreeView::Quoted { content, closed, config } => config.opening@ + pieces_text(content)
            + if closed {
            config.closing@
        } else {
            Seq::empty()
        },
        _ => Seq::empty(),
    }
}

/// The text of a token: that of raw text, the symbol of punctuation, the
/// text of quoted content, and for a group its opening symbol, the text
/// `inner` of its content and, where it is closed, its closing symbol. A
/// blank has no text.
pub open spec fn token_text(token: TreeView, inner: Seq<char>) -> Seq<char> {
    match token {
        TreeView::Raw(text) => text,
        TreeView::Punct(punct) => punct.symbol@,
        TreeView::Group { closed, config, .. } => config.opening.symbol@ + inner + if closed {
            config.closing.symbol@
        } else {
            Seq::empty()
        },
        TreeView::Quoted { .. } => quoted_text(token),
        _ => Seq::empty(),
    }
}

/// The texts of the tokens from `from` up to `end`, one after another,
/// without the blanks.
#[verifier::opaque]
pub open spec fn tokens_text(tokens: Seq<TreeView>, from: int, end: int) -> Seq<char>
    decreases tokens, left(from, end),
{
    if from < 0 || from >= end || end > tokens.len() {
        Seq::empty()
    } else {
        token_text(
            tokens[from],
            match tokens[from] {
                TreeView::Group { content, .. } => tokens_text(content, 0, content.len() as int),
                _ => Seq::empty(),
            },
        ) + tokens_text(tokens, from + 1, end)
    }
}

/// The text of the content of a group; no text for another token.
pub open spec fn inner_text(token: TreeView) -> Seq<char> {
    match token {
        TreeView::Group { content, .. } => tokens_text(content, 0, content.len() as int),
        _ => Seq::empty(),
    }
}

/// The text of tokens is the text of the first and the text of the others.
pub proof fn lemma_tokens_text(tokens: Seq<TreeView>, from: int, end: int)
    ensures
        tokens_text(tokens, from, end) == if from < 0 || from >= end || end > tokens.len() {
            Seq::<char>::empty()
        } else {
            token_text(tokens[from], inner_text(tokens[from])) + tokens_text(tokens, from + 1, end)
        },
{
    reveal(tokens_text);
}

/// The text of the tokens behind a first token.
pub proof fn lemma_tokens_text_shift(first: TreeView, rest: Seq<TreeView>, from: int, end: int)
    requires
        0 <= from <= end <= rest.len(),
    ensures
        tokens_text(seq![first] + rest, from + 1, end + 1) == tokens_text(rest, from, end),
    decreases end - from,
{
    let all = seq![first] + rest;
    lemma_tokens_text(all, from + 1, end + 1);
    lemma_tokens_text(rest, from, end);
    if from < end {
        assert(all[from + 1] == rest[from]);
        lemma_tokens_text_shift(first, rest, from + 1, end);
    }
}

/// The text of a first token and the tokens behind it.
pub proof fn lemma_tokens_text_first(first: TreeView, rest: Seq<TreeView>)
    ensures
        tokens_text(seq![first] + rest, 0, rest.len() as int + 1) == token_text(
            first,
            inner_text(first),
        )
            + tokens_text(rest, 0, rest.len() as int),
{
    let all = seq![first] + rest;
    lemma_tokens_text(all, 0, rest.len() as int + 1);
    lemma_tokens_text_shift(first, rest, 0, rest.len() as int);
}

/// No tokens have no text.
pub proof fn lemma_tokens_text_none(tokens: Seq<TreeView>)
    requires
        tokens.len() == 0,
    ensures
        tokens_text(tokens, 0, 0) == Seq::<char>::empty(),
{
    lemma_tokens_text(tokens, 0, 0);
}

} // verus!
