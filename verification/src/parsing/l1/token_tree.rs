//! The tokens of the first level: they carry the offset at which they start.

use crate::config;
use crate::parsing::quoted::l1::Token as QuotedContent;
use vstd::prelude::*;

verus! {

/// An occurrence of a punctuation symbol.
pub struct Punct<'a> {
    /// The offset at which the symbol starts.
    pub start: usize,
    /// The punctuation that was found.
    pub config: &'a config::Punct,
}

/// A group: what stands between an opening and a closing symbol.
pub struct Group<'a> {
    /// The offset at which the opening symbol starts.
    pub opening: usize,
    /// The tokens between the symbols.
    pub content: Vec<TokenTree<'a>>,
    /// The offset at which the closing symbol starts, if there is one.
    pub closing: Option<usize>,
    /// The group that was found.
    pub config: &'a config::Group,
}

/// Quoted content: what stands between an opening and a closing sequence.
pub struct Quoted<'a> {
    /// The offset at which the opening sequence starts.
    pub opening: usize,
    /// The pieces between the sequences.
    pub content: Vec<QuotedContent>,
    /// The offset at which the closing sequence starts, if there is one.
    pub closing: Option<usize>,
    /// The quote that was found.
    pub config: &'a config::Quote,
}

/// A token of the first level.
pub enum TokenTree<'a> {
    /// Single-line consecutive whitespace characters.
    Space { start: usize },
    /// One or many subsequent line breaks.
    Newline { start: usize },
    /// Raw non-whitespace text.
    Raw { start: usize },
    /// A punctuation symbol.
    Punct(Punct<'a>),
    /// A group.
    Group(Group<'a>),
    /// Quoted content.
    Quoted(Quoted<'a>),
}

/// What a [`TokenTree`] holds.
#[allow(inconsistent_fields)]
pub enum TreeView {
    /// Single-line consecutive whitespace characters.
    Space { start: usize },
    /// One or many subsequent line breaks.
    Newline { start: usize },
    /// Raw non-whitespace text.
    Raw { start: usize },
    /// A punctuation symbol.
    Punct { start: usize, config: config::Punct },
    /// A group.
    Group { opening: usize, content: Seq<TreeView>, closing: Option<usize>, config: config::Group },
    /// Quoted content.
    Quoted {
        opening: usize,
        content: Seq<QuotedContent>,
        closing: Option<usize>,
        config: config::Quote,
    },
}

impl TreeView {
    /// The offset at which the token starts.
    pub open spec fn start(self) -> usize {
        match self {
            TreeView::Space { start } => start,
            TreeView::Newline { start } => start,
            TreeView::Raw { start } => start,
            TreeView::Punct { start, .. } => start,
            TreeView::Group { opening, .. } => opening,
            TreeView::Quoted { opening, .. } => opening,
        }
    }
}

/// What the token holds.
pub open spec fn tree_view<'a>(token: TokenTree<'a>) -> TreeView
    decreases token,
{
    match token {
        TokenTree::Space { start } => TreeView::Space { start },
        TokenTree::Newline { start } => TreeView::Newline { start },
        TokenTree::Raw { start } => TreeView::Raw { start },
        TokenTree::Punct(punct) => TreeView::Punct { start: punct.start, config: *punct.config },
        TokenTree::Group(group) => TreeView::Group {
            opening: group.opening,
            content: Seq::new(
                group.content@.len(),
                |i: int|
                    if 0 <= i < group.content@.len() {
                        tree_view(group.content@[i])
                    } else {
                        TreeView::Space { start: 0 }
                    },
            ),
            closing: group.closing,
            config: *group.config,
        },
        TokenTree::Quoted(quoted) => TreeView::Quoted {
            opening: quoted.opening,
            content: quoted.content@,
            closing: quoted.closing,
            config: *quoted.config,
        },
    }
}

impl<'a> View for TokenTree<'a> {
    type V = TreeView;

    open spec fn view(&self) -> TreeView {
        tree_view(*self)
    }
}

/// The views of the given tokens.
pub open spec fn tree_views<'a>(tokens: Seq<TokenTree<'a>>) -> Seq<TreeView> {
    Seq::new(tokens.len(), |i: int| tokens[i]@)
}

/// The view of a group holds the views of its content.
pub proof fn lemma_group_view<'a>(group: Group<'a>)
    ensures
        TokenTree::Group(group)@ == (TreeView::Group {
            opening: group.opening,
            content: tree_views(group.content@),
            closing: group.closing,
            config: *group.config,
        }),
{
    let token = TokenTree::Group(group);
    match token@ {
        TreeView::Group { content, .. } => {
            assert(content.len() == group.content@.len());
            assert forall|i: int| 0 <= i < content.len() implies content[i] == tree_views(
                group.content@,
            )[i] by {}
            assert(content =~= tree_views(group.content@));
        },
        _ => {},
    }
}

impl<'a> TokenTree<'a> {
    /// The offset at which the token starts.
    pub fn start(&self) -> (start: usize)
        ensures
            start == self@.start(),
    {
        match self {
            TokenTree::Space { start } => *start,
            TokenTree::Newline { start } => *start,
            TokenTree::Raw { start } => *start,
            TokenTree::Punct(punct) => punct.start,
            TokenTree::Group(group) => group.opening,
            TokenTree::Quoted(quoted) => quoted.opening,
        }
    }
}

} // verus!
