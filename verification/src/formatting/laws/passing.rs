//! What holds of the operations for every token holds of the operations
//! for the whole input, where it holds of sequences one after another.

use crate::config;
use crate::decondenser::Decondenser;
use crate::formatting::engine::Op;
use crate::formatting::laws::no_raw;
use crate::formatting::{
    blank_count, blank_size, closing_ops, empty_group_ops, format_ops, group_body_ops,
    group_content_ops, group_inner, inner_end, input_ops, left, lemma_format_ops, measured,
    node_ops, punct_ops, quoted_ops, space_ops, taken_blank,
};
use crate::parsing::l2::token_tree::TreeView;
use crate::visual_size::VisualSize;
use vstd::prelude::*;

verus! {

/// Whether `good` holds of no operations and of every operation that is no
/// raw text, and of two sequences one after another where it holds of
/// both.
pub open spec fn composes(good: spec_fn(Seq<Op>) -> bool) -> bool {
    &&& good(Seq::<Op>::empty())
    &&& forall|op: Op| !(op is Raw) ==> #[trigger] good(seq![op])
    &&& forall|first: Seq<Op>, second: Seq<Op>|
        good(first) && good(second) ==> #[trigger] good(first + second)
}

/// The operation for a text.
pub open spec fn text_op<V: VisualSize>(config: &Decondenser<V>, text: Seq<char>) -> Seq<Op> {
    seq![Op::Raw(measured(config, text))]
}

/// Whether `good` holds of the operations for each text of the token and
/// of the tokens in it: raw text, the symbols of punctuation and groups,
/// and quoted content as a whole.
pub open spec fn token_passes<V: VisualSize>(
    config: &Decondenser<V>,
    token: TreeView,
    good: spec_fn(Seq<Op>) -> bool,
) -> bool
    decreases token,
{
    match token {
        TreeView::Raw(text) => good(text_op(config, text)),
        TreeView::Punct(punct) => good(text_op(config, punct.symbol@)),
        TreeView::Group { content, closed, config: group } => {
            &&& good(text_op(config, group.opening.symbol@))
            &&& closed ==> good(text_op(config, group.closing.symbol@))
            &&& forall|i: int|
                0 <= i < content.len() ==> token_passes(config, #[trigger] content[i], good)
        },
        TreeView::Quoted { content, closed, config: quote } => good(
            quoted_ops(config, content, closed, quote),
        ),
        _ => true,
    }
}

/// Whether `good` holds of the operations for each text of the tokens.
pub open spec fn tokens_pass<V: VisualSize>(
    config: &Decondenser<V>,
    tokens: Seq<TreeView>,
    good: spec_fn(Seq<Op>) -> bool,
) -> bool {
    forall|i: int| 0 <= i < tokens.len() ==> token_passes(config, #[trigger] tokens[i], good)
}

/// What composes holds of operations without raw text.
pub proof fn lemma_no_raw_good(ops: Seq<Op>, good: spec_fn(Seq<Op>) -> bool)
    requires
        composes(good),
        no_raw(ops),
    ensures
        good(ops),
    decreases ops.len(),
{
    if ops.len() == 0 {
        assert(ops =~= Seq::<Op>::empty());
    } else {
        lemma_no_raw_good(ops.drop_last(), good);
        assert(!(ops[ops.len() - 1] is Raw));
        assert(good(seq![ops.last()]));
        assert(ops =~= ops.drop_last() + seq![ops.last()]);
    }
}

/// What composes holds of the operations for a punctuation symbol where it
/// holds of the operation for the symbol.
pub proof fn lemma_punct_ops_good<V: VisualSize>(
    config: &Decondenser<V>,
    leading: usize,
    punct: config::Punct,
    trailing: usize,
    good: spec_fn(Seq<Op>) -> bool,
)
    requires
        composes(good),
        good(text_op(config, punct.symbol@)),
    ensures
        good(punct_ops(config, leading, punct, trailing)),
{
    let first = space_ops(leading, punct.leading_space);
    let last = space_ops(trailing, punct.trailing_space);
    lemma_no_raw_good(first, good);
    lemma_no_raw_good(last, good);
    assert(good(first + text_op(config, punct.symbol@)));
    assert(good(first + text_op(config, punct.symbol@) + last));
}

/// What composes holds of the operations for a group where it holds of
/// those for its symbols and its content.
pub proof fn lemma_group_content_ops_good<V: VisualSize>(
    config: &Decondenser<V>,
    leading: usize,
    content: Seq<TreeView>,
    closed: bool,
    group: config::Group,
    trailing: usize,
    inner: Seq<Op>,
    good: spec_fn(Seq<Op>) -> bool,
)
    requires
        composes(good),
        good(text_op(config, group.opening.symbol@)),
        closed ==> good(text_op(config, group.closing.symbol@)),
        good(inner),
    ensures
        good(group_content_ops(config, leading, content, closed, group, trailing, inner)),
{
    let begin = seq![Op::Begin(group.break_style.0)];
    let end = seq![Op::End];
    assert(good(begin));
    assert(good(end));
    if inner_end(content) <= 0 {
        let first = space_ops(leading, group.opening.leading_space);
        lemma_no_raw_good(first, good);
        let second = text_op(config, group.opening.symbol@);
        let third = if closed {
            text_op(config, group.closing.symbol@) + space_ops(
                trailing,
                group.closing.trailing_space,
            )
        } else {
            Seq::<Op>::empty()
        };
        if closed {
            lemma_no_raw_good(space_ops(trailing, group.closing.trailing_space), good);
        }
        assert(good(first + second));
        assert(good(first + second + third));
        let body = empty_group_ops(config, leading, closed, group, trailing);
        assert(body == first + second + third);
        assert(good(begin + body));
        assert(good(begin + body + end));
    } else {
        let opening = punct_ops(
            config,
            leading,
            group.opening,
            crate::formatting::blank_size_at(config, content, 0, inner_end(content)),
        );
        let closing = closing_ops(config, content, closed, group, trailing);
        lemma_punct_ops_good(
            config,
            leading,
            group.opening,
            crate::formatting::blank_size_at(config, content, 0, inner_end(content)),
            good,
        );
        if closed {
            lemma_punct_ops_good(
                config,
                blank_size(
                    config,
                    content,
                    inner_end(content),
                    crate::formatting::trailing_blank_count(content, content.len() as int),
                ),
                group.closing,
                trailing,
                good,
            );
        }
        let deeper = seq![Op::Indent(1isize)];
        let back = seq![Op::Indent(-1isize)];
        assert(good(deeper));
        assert(good(back));
        assert(good(opening + deeper));
        assert(good(opening + deeper + inner));
        assert(good(opening + deeper + inner + back));
        assert(good(opening + deeper + inner + back + closing));
        let body = group_body_ops(config, leading, content, closed, group, trailing, inner);
        assert(body == opening + deeper + inner + back + closing);
        assert(good(begin + body));
        assert(good(begin + body + end));
    }
}

/// What composes holds of the operations for tokens where it holds of the
/// operations for each of their texts.
pub proof fn lemma_format_ops_good<V: VisualSize>(
    config: &Decondenser<V>,
    tokens: Seq<TreeView>,
    from: int,
    end: int,
    good: spec_fn(Seq<Op>) -> bool,
)
    requires
        composes(good),
        tokens_pass(config, tokens, good),
    ensures
        good(format_ops(config, tokens, from, end)),
    decreases tokens, left(from, end),
{
    lemma_format_ops(config, tokens, from, end);
    let blank = blank_count(tokens, from, end);
    let at = from + blank;
    if from < 0 || from >= end || end > tokens.len() || at >= end {
    } else {
        let token = tokens[at];
        let inner = group_inner(config, token);
        let next = at + 1 + taken_blank(tokens, at, end);
        lemma_format_ops_good(config, tokens, next, end, good);
        let leading = blank_size(config, tokens, at - blank, blank);
        let trailing = blank_size(config, tokens, at + 1, taken_blank(tokens, at, end));
        let node = node_ops(config, tokens, blank, at, end, inner);
        assert(token_passes(config, token, good));
        let between = crate::formatting::between_ops(
            blank > 0,
            crate::formatting::blank_has_newline(tokens, at - blank, blank),
        );
        match token {
            TreeView::Punct(punct) => {
                lemma_punct_ops_good(config, leading, punct, trailing, good);
            },
            TreeView::Group { content, closed, config: group } => {
                assert(tokens_pass(config, content, good));
                lemma_format_ops_good(
                    config,
                    content,
                    blank_count(content, 0, inner_end(content)) as int,
                    inner_end(content),
                    good,
                );
                lemma_group_content_ops_good(
                    config,
                    leading,
                    content,
                    closed,
                    group,
                    trailing,
                    inner,
                    good,
                );
            },
            TreeView::Raw(text) => {
                lemma_no_raw_good(between, good);
                assert(good(between + text_op(config, text)));
            },
            TreeView::Quoted { content, closed, config: quote } => {
                lemma_no_raw_good(between, good);
                assert(good(between + quoted_ops(config, content, closed, quote)));
            },
            _ => {},
        }
        assert(good(node + format_ops(config, tokens, next, end)));
    }
}

/// What composes holds of the operations for the whole input where it holds
/// of the operations for each text of its tokens.
pub proof fn lemma_input_ops_good<V: VisualSize>(
    config: &Decondenser<V>,
    tokens: Seq<TreeView>,
    good: spec_fn(Seq<Op>) -> bool,
)
    requires
        composes(good),
        tokens_pass(config, tokens, good),
    ensures
        good(input_ops(config, tokens)),
{
    let begin = seq![Op::Begin(config::BreakStyleEnum::Consistent)];
    let inner = format_ops(
        config,
        tokens,
        blank_count(tokens, 0, tokens.len() as int) as int,
        tokens.len() as int,
    );
    lemma_format_ops_good(
        config,
        tokens,
        blank_count(tokens, 0, tokens.len() as int) as int,
        tokens.len() as int,
        good,
    );
    assert(good(begin));
    assert(good(seq![Op::End]));
    assert(good(begin + inner));
    assert(good(begin + inner + seq![Op::End]));
}

} // verus!
