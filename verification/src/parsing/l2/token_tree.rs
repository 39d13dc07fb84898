//! The tokens of the second level: they carry their text.

use crate::config;
use crate::parsing::quoted::l2::{token_views, Token as QuotedContent, TokenView as QuotedView};
use vstd::prelude::*;

verus! {

/// Quoted content: what stands between an opening and a closing sequence.
pub struct Quoted<'a> {
    /// The pieces between the sequences.
    pub content: Vec<QuotedContent>,
    /// Whether the closing sequence was found.
    pub closed: bool,
    /// The quote that was found.
    pub config: &'a config::Quote,
}

/// A group: what stands between an opening and a closing symbol.
pub struct Group<'a> {
    /// The tokens between the symbols.
    pub content: Vec<TokenTree<'a>>,
    /// Whether the closing symbol was found.
    pub closed: bool,
    /// The group that was found.
    pub config: &'a config::Group,
}

/// A token of the second level.
pub enum TokenTree<'a> {
    /// One maximal run of whitespace without line breaks.
    Space(String),
    /// One maximal run of line breaks, with their number.
    Newline(usize),
    /// One maximal run of characters that are neither whitespace nor a
    /// part of a symbol.
    Raw(String),
    /// A punctuation symbol.
    Punct(&'a config::Punct),
    /// A group.
    Group(Group<'a>),
    /// Quoted content.
    Quoted(Quoted<'a>),
}

/// What a [`TokenTree`] holds.
#[allow(inconsistent_fields)]
pub enum TreeView {
    /// One maximal run of whitespace without line breaks.
    Space(Seq<char>),
    /// One maximal run of line breaks, with their number.
    Newline(usize),
    /// One maximal run of other characters.
    Raw(Seq<char>),
    /// A punctuation symbol.
    Punct(config::Punct),
    /// A group.
    Group { content: Seq<TreeView>, closed: bool, config: config::Group },
    /// Quoted content.
    Quoted { content: Seq<QuotedView>, closed: bool, config: config::Quote },
}

impl TreeView {
    /// Whether the token is a blank: whitespace or line breaks.
    pub open spec fn is_blank(self) -> bool {
        self is Space || self is Newline
    }
}

/// What the token holds.
pub open spec fn tree_view<'a>(token: TokenTree<'a>) -> TreeView
    decreases token,
{
    match token {
        TokenTree::Space(text) => TreeView::Space(text@),
        TokenTree::Newline(count) => TreeView::Newline(count),
        TokenTree::Raw(text) => TreeView::Raw(text@),
        TokenTree::Punct(punct) => TreeView::Punct(*punct),
        TokenTree::Group(group) => TreeView::Group {
            content: Seq::new(
                group.content@.len(),
                |i: int|
                    if 0 <= i < group.content@.len() {
                        tree_view(group.content@[i])
                    } else {
                        TreeView::Newline(0)
                    },
            ),
            closed: group.closed,
            config: *group.config,
        },
        TokenTree::Quoted(quoted) => TreeView::Quoted {
            content: token_views(quoted.content@),
            closed: quoted.closed,
            config: *quoted.config,
        },
    }
}

impl<'a> View for TokenTree<'a> {
    type V = TreeView;

    open spec fn view(&self) -> TreeView {
        tree_view(*self)
    }
}

/// The views of the given tokens.
pub open spec fn tree_views<'a>(tokens: Seq<TokenTree<'a>>) -> Seq<TreeView> {
    Seq::new(tokens.len(), |i: int| tokens[i]@)
}

/// The view of a group holds the views of its content.
pub proof fn lemma_group_view<'a>(group: Group<'a>)
    ensures
        TokenTree::Group(group)@ == (TreeView::Group {
            content: tree_views(group.content@),
            closed: group.closed,
            config: *group.config,
        }),
{
    let token = TokenTree::Group(group);
    match token@ {
        TreeView::Group { content, .. } => {
            assert(content =~= tree_views(group.content@));
        },
        _ => {},
    }
}

impl<'a> TokenTree<'a> {
    /// Tells whether the token is a blank: whitespace or line breaks.
    pub fn is_blank(&self) -> (blank: bool)
        ensures
            blank == self@.is_blank(),
    {
        match self {
            TokenTree::Space(_) => true,
            TokenTree::Newline(_) => true,
            _ => false,
        }
    }
}

} // verus!
