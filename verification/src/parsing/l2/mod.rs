//! The second level of the tokenizer: it gives the tokens their text. The
//! text of a token ends where the next token starts; that of the last token
//! of a group ends at the closing symbol of the group, where there is one.

pub mod cover;
pub mod laws;
pub mod origin;
pub mod quotes;
pub mod text;
pub mod token_tree;
pub mod weight;

use crate::chars::part;
use crate::chars::string_of;
use crate::decondenser::{Decondenser, Syntax};
use crate::parsing::l1;
use crate::parsing::l2::token_tree::{lemma_group_view, tree_views, Group, Quoted, TokenTree, TreeView};
use crate::parsing::quoted::l2 as quoted;
use crate::visual_size::VisualSize;
use vstd::prelude::*;

verus! {

/// The number of line breaks in `text`: the number of its characters `\n`.
pub open spec fn line_breaks(text: Seq<char>) -> nat
    decreases text.len(),
{
    if text.len() == 0 {
        0
    } else {
        line_breaks(text.drop_last()) + if text.last() == '\n' {
            1nat
        } else {
            0nat
        }
    }
}

/// Counts the line breaks in the characters of `input` from `from` up to
/// `to`.
pub fn count_line_breaks(input: &[char], from: usize, to: usize) -> (count: usize)
    ensures
        count == line_breaks(part(input@, from as int, to as int)),
{
    if from > to || to > input.len() {
        return 0;
    }
    let mut count: usize = 0;
    let mut i: usize = from;
    assert(input@.subrange(from as int, i as int) =~= Seq::<char>::empty());
    while i < to
        invariant
            from <= i <= to <= input@.len(),
            count == line_breaks(input@.subrange(from as int, i as int)),
            count <= i - from,
        decreases to - i,
    {
        proof {
            assert(input@.subrange(from as int, i + 1).drop_last() =~= input@.subrange(
                from as int,
                i as int,
            ));
        }
        if input[i] == '\n' {
            count += 1;
        }
        i += 1;
    }
    count
}

/// Where the text of the `i`-th token ends: where the next token starts, or
/// at `end` for the last token.
pub open spec fn end_of(nodes: Seq<l1::token_tree::TreeView>, i: int, end: int) -> int {
    if i + 1 < nodes.len() {
        nodes[i + 1].start() as int
    } else {
        end
    }
}

/// The offset, or `end` where there is none.
pub open spec fn or_end(closing: Option<usize>, end: int) -> int {
    match closing {
        Some(offset) => offset as int,
        None => end,
    }
}

/// The token with its text, which ends at `end`. The content of a group or
/// of quoted content ends at the closing symbol, or at `end` without one.
pub open spec fn convert_node(input: Seq<char>, node: l1::token_tree::TreeView, end: int) -> TreeView
    decreases node,
{
    match node {
        l1::token_tree::TreeView::Space { start } => TreeView::Space(
            part(input, start as int, end),
        ),
        l1::token_tree::TreeView::Newline { start } => TreeView::Newline(
            line_breaks(part(input, start as int, end)) as usize,
        ),
        l1::token_tree::TreeView::Raw { start } => TreeView::Raw(part(input, start as int, end)),
        l1::token_tree::TreeView::Punct { config, .. } => TreeView::Punct(config),
        l1::token_tree::TreeView::Group { content, closing, config, .. } => TreeView::Group {
            content: Seq::new(
                content.len(),
                |i: int|
                    if 0 <= i < content.len() {
                        convert_node(input, content[i], end_of(content, i, or_end(closing, end)))
                    } else {
                        TreeView::Newline(0)
                    },
            ),
            closed: closing is Some,
            config,
        },
        l1::token_tree::TreeView::Quoted { content, closing, config, .. } => TreeView::Quoted {
            content: quoted::with_texts(input, content, or_end(closing, end)),
            closed: closing is Some,
            config,
        },
    }
}

/// The tokens with their texts. The text of the last token ends at `end`.
pub open spec fn convert(input: Seq<char>, nodes: Seq<l1::token_tree::TreeView>, end: int) -> Seq<
    TreeView,
> {
    Seq::new(nodes.len(), |i: int| convert_node(input, nodes[i], end_of(nodes, i, end)))
}

/// The tokens of `input`, with their texts.
pub open spec fn parsed(syntax: Syntax, input: Seq<char>) -> Seq<TreeView> {
    convert(input, l1::parsed(syntax, input), input.len() as int)
}

/// A group with its text holds its content with its text.
pub proof fn lemma_convert_group(input: Seq<char>, node: l1::token_tree::TreeView, end: int)
    requires
        node is Group,
    ensures
        convert_node(input, node, end) == (TreeView::Group {
            content: convert(input, node->Group_content, or_end(node->Group_closing, end)),
            closed: node->Group_closing is Some,
            config: node->Group_config,
        }),
{
    match convert_node(input, node, end) {
        TreeView::Group { content, .. } => {
            assert(content =~= convert(
                input,
                node->Group_content,
                or_end(node->Group_closing, end),
            ));
        },
        _ => {},
    }
}

/// Splits `input` into tokens.
pub fn parse<'a, V: VisualSize>(config: &'a Decondenser<V>, input: &'a [char]) -> (tokens: Vec<
    TokenTree<'a>,
>)
    ensures
        tree_views(tokens@) == parsed(config.syntax(), input@),
{
    let tokens = l1::parse(config, input);
    (TokenTreesFromL1 { input }).convert(&tokens, input.len())
}

/// The input, from which the tokens take their text.
#[derive(Clone, Copy)]
pub struct TokenTreesFromL1<'a> {
    input: &'a [char],
}

impl<'a> TokenTreesFromL1<'a> {
    /// The characters of the input.
    pub closed spec fn input(&self) -> Seq<char> {
        self.input@
    }

    /// Gives the tokens their texts. `end` is the offset behind the last
    /// token: where the token starts that follows the surrounding group, or
    /// the length of the input.
    pub fn convert(self, nodes: &Vec<l1::token_tree::TokenTree<'a>>, end: usize) -> (tokens: Vec<
        TokenTree<'a>,
    >)
        ensures
            tree_views(tokens@) == convert(
                self.input(),
                l1::token_tree::tree_views(nodes@),
                end as int,
            ),
        decreases nodes@,
    {
        let input = self.input;
        let ghost views = l1::token_tree::tree_views(nodes@);
        let ghost target = convert(input@, views, end as int);
        let mut tokens: Vec<TokenTree<'a>> = Vec::new();
        let mut i: usize = 0;
        while i < nodes.len()
            invariant
                i <= nodes@.len(),
                tokens@.len() == i,
                input == self.input,
                views == l1::token_tree::tree_views(nodes@),
                target == convert(input@, views, end as int),
                forall|k: int| 0 <= k < i ==> (#[trigger] tokens@[k])@ == target[k],
            decreases nodes@.len() - i,
        {
            let node = &nodes[i];
            let end: usize = if i + 1 < nodes.len() {
                nodes[i + 1].start()
            } else {
                end
            };
            assert(end == end_of(views, i as int, end as int));
            let token = match node {
                l1::token_tree::TokenTree::Space { start } => TokenTree::Space(
                    string_of(input, *start, end),
                ),
                l1::token_tree::TokenTree::Newline { start } => TokenTree::Newline(
                    count_line_breaks(input, *start, end),
                ),
                l1::token_tree::TokenTree::Raw { start } => TokenTree::Raw(
                    string_of(input, *start, end),
                ),
                l1::token_tree::TokenTree::Punct(punct) => TokenTree::Punct(punct.config),
                l1::token_tree::TokenTree::Group(group) => {
                    let content_end: usize = match group.closing {
                        Some(closing) => closing,
                        None => end,
                    };
                    let content = self.convert(&group.content, content_end);
                    let converted = Group { content, closed: group.closing.is_some(), config: group.config };
                    proof {
                        lemma_group_view(converted);
                        l1::token_tree::lemma_group_view(*group);
                        lemma_convert_group(input@, node@, end as int);
                    }
                    TokenTree::Group(converted)
                },
                l1::token_tree::TokenTree::Quoted(quoted) => {
                    let content_end: usize = match quoted.closing {
                        Some(closing) => closing,
                        None => end,
                    };
                    TokenTree::Quoted(
                        Quoted {
                            content: quoted::convert(input, &quoted.content, content_end),
                            closed: quoted.closing.is_some(),
                            config: quoted.config,
                        },
                    )
                },
            };
            assert(token@ == target[i as int]);
            tokens.push(token);
            i += 1;
        }
        assert(tree_views(tokens@) =~= target);
        tokens
    }
}

} // verus!
