//! The operations for an input are not more than sixteen for each of its
//! characters: the counts in the laws are within `usize` for every input
//! that a machine can hold sixteen times.

use crate::decondenser::Decondenser;
use crate::formatting::engine::normal::{
    all_emitted, blank_ops, control_ops, final_ops, indent_ops, normalized_ops, waiting_ops,
};
use crate::formatting::engine::{FormatterView, Op};
use crate::formatting::laws::balance::{lemma_input_ops_tidy, tidy};
use crate::formatting::laws::fit::no_hard_break;
use crate::formatting::laws::blanks::{operations, start};
use crate::formatting::{
    blank_count, format_ops, group_inner, inner_end, input_ops, left, lemma_format_ops,
    node_ops, pieces_ops, taken_blank,
};
use crate::parsing::l2;
use crate::parsing::l2::token_tree::TreeView;
use crate::parsing::l2::weight::{
    inner_weight, lemma_parsed_weighs, lemma_weights, lemma_weights_range, node_weight, weights,
};
use crate::parsing::quoted::l2::TokenView as QuotedView;
use crate::visual_size::VisualSize;
use vstd::prelude::*;

verus! {

/// Whether the operations for the input can be counted in `usize`: sixteen
/// times its characters, and four, are within `usize`.
pub open spec fn countable(input: Seq<char>) -> bool {
    16 * input.len() + 4 <= usize::MAX
}

/// The pieces of quoted content get one operation each.
pub proof fn lemma_pieces_ops_count<V: VisualSize>(
    config: &Decondenser<V>,
    pieces: Seq<QuotedView>,
)
    ensures
        pieces_ops(config, pieces).len() == pieces.len(),
    decreases pieces.len(),
{
    if pieces.len() > 0 {
        lemma_pieces_ops_count(config, pieces.drop_last());
    }
}

/// The operations for tokens are not more than sixteen for each token and
/// each piece of quoted content.
pub proof fn lemma_format_ops_count<V: VisualSize>(
    config: &Decondenser<V>,
    tokens: Seq<TreeView>,
    from: int,
    end: int,
)
    ensures
        format_ops(config, tokens, from, end).len() <= 16 * weights(tokens, from, end),
    decreases tokens, left(from, end),
{
    lemma_format_ops(config, tokens, from, end);
    let blank = blank_count(tokens, from, end);
    let at = from + blank;
    if from < 0 || from >= end || end > tokens.len() || at >= end {
    } else {
        let token = tokens[at];
        let inner = group_inner(config, token);
        let next = at + 1 + taken_blank(tokens, at, end);
        lemma_format_ops_count(config, tokens, next, end);
        lemma_weights(tokens, at, end);
        lemma_weights_range(tokens, from, end, at, end);
        lemma_weights_range(tokens, at + 1, end, next, end);
        let node = node_ops(config, tokens, blank, at, end, inner);
        match token {
            TreeView::Group { content, closed, config: group } => {
                lemma_format_ops_count(
                    config,
                    content,
                    blank_count(content, 0, inner_end(content)) as int,
                    inner_end(content),
                );
                lemma_weights_range(
                    content,
                    0,
                    content.len() as int,
                    blank_count(content, 0, inner_end(content)) as int,
                    inner_end(content),
                );
                assert(node.len() <= 16 + inner.len());
            },
            TreeView::Quoted { content, closed, config: quote } => {
                lemma_pieces_ops_count(config, content);
                assert(node.len() <= 4 + content.len());
            },
            _ => {
                assert(node.len() <= 16);
            },
        }
        assert(node.len() <= 16 * node_weight(token, inner_weight(token)));
    }
}

/// What the normalization hands on is not more than what the formatter was
/// given, where that holds no line break that is always taken.
pub proof fn lemma_all_emitted_count(state: FormatterView, ops: Seq<Op>)
    requires
        waiting_ops(state).len() == 0,
        !(state.blank is HardBreak),
        no_hard_break(ops),
    ensures
        all_emitted(state, ops).len() + waiting_ops(state.apply_all(ops)).len() <= ops.len(),
        !(state.apply_all(ops).blank is HardBreak),
    decreases ops.len(),
{
    reveal(FormatterView::apply_all);
    if ops.len() > 0 {
        let before = ops.drop_last();
        let op = ops.last();
        lemma_all_emitted_count(state, before);
        let middle = state.apply_all(before);
        assert(!(ops[ops.len() - 1] is HardBreak));
    }
}

/// The operations that the layout engine gets for an input are not more
/// than sixteen for each character of the input, and two.
pub proof fn lemma_operations_count<V: VisualSize>(config: &Decondenser<V>, input: Seq<char>)
    requires
        input.len() <= usize::MAX,
    ensures
        normalized_ops(start(config), operations(config, input)).len() <= 16 * input.len() + 2,
{
    let tokens = l2::parsed(config.syntax(), input);
    let ops = operations(config, input);
    lemma_parsed_weighs(config.syntax(), input);
    let first = blank_count(tokens, 0, tokens.len() as int) as int;
    lemma_format_ops_count(config, tokens, first, tokens.len() as int);
    lemma_weights_range(tokens, 0, tokens.len() as int, first, tokens.len() as int);
    lemma_input_ops_tidy(config, tokens);
    lemma_all_emitted_count(start(config), ops);
}

} // verus!
