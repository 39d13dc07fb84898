//! The groups of the operations that the driver issues, and of those that
//! the normalization hands on: every group that begins ends, no group ends
//! that has not begun, and no line break is asked for that is always taken.

use crate::config;
use crate::decondenser::Decondenser;
use crate::formatting::engine::normal::{
    all_emitted, blank_ops, control_ops, indent_ops, normalized_ops,
};
use crate::formatting::engine::{FormatterView, Op};
use crate::formatting::laws::fit::{depth_after, nested, no_hard_break};
use crate::formatting::{
    blank_count, blank_size, closing_ops, empty_group_ops, format_ops, group_body_ops,
    group_content_ops, group_inner, inner_end, input_ops, left, lemma_format_ops, node_ops,
    pieces_ops, punct_ops, quoted_ops, taken_blank,
};
use crate::parsing::l2::token_tree::TreeView;
use crate::parsing::quoted::l2::TokenView as QuotedView;
use crate::visual_size::VisualSize;
use vstd::prelude::*;

verus! {

/// Whether the operations begin and end no group and ask for no line break
/// that is always taken.
pub open spec fn plain(ops: Seq<Op>) -> bool {
    forall|i: int|
        0 <= i < ops.len() ==> !(#[trigger] ops[i] is Begin) && !(ops[i] is End) && !(
        ops[i] is HardBreak)
}

/// Whether every group that the operations begin ends, no group ends that
/// has not begun, and no line break is asked for that is always taken.
pub open spec fn tidy(ops: Seq<Op>) -> bool {
    &&& no_hard_break(ops)
    &&& nested(ops)
    &&& depth_after(ops) == 0
}

/// Operations that leave no group unbegun, one sequence after another,
/// leave none unbegun, and their groups add up.
pub proof fn lemma_nested_concat(first: Seq<Op>, second: Seq<Op>)
    requires
        nested(first),
        nested(second),
    ensures
        nested(first + second),
        depth_after(first + second) == depth_after(first) + depth_after(second),
        depth_after(first) >= 0,
    decreases second.len(),
{
    if second.len() == 0 {
        assert(first + second =~= first);
    } else {
        lemma_nested_concat(first, second.drop_last());
        assert((first + second).drop_last() =~= first + second.drop_last());
    }
}

/// Operations without groups are tidy.
pub proof fn lemma_plain_tidy(ops: Seq<Op>)
    requires
        plain(ops),
    ensures
        tidy(ops),
    decreases ops.len(),
{
    if ops.len() > 0 {
        lemma_plain_tidy(ops.drop_last());
    }
}

/// Tidy operations, one sequence after another, are tidy.
pub proof fn lemma_tidy_concat(first: Seq<Op>, second: Seq<Op>)
    requires
        tidy(first),
        tidy(second),
    ensures
        tidy(first + second),
{
    lemma_nested_concat(first, second);
}

/// Tidy operations in a group are tidy.
pub proof fn lemma_tidy_group(break_style: config::BreakStyleEnum, body: Seq<Op>)
    requires
        tidy(body),
    ensures
        tidy(seq![Op::Begin(break_style)] + body + seq![Op::End]),
{
    let begin = seq![Op::Begin(break_style)];
    assert(begin.drop_last() =~= Seq::<Op>::empty());
    assert(depth_after(begin.drop_last()) == 0);
    assert(nested(begin.drop_last()));
    assert(depth_after(begin) == 1);
    assert(nested(begin));
    lemma_nested_concat(begin, body);
    let all = begin + body + seq![Op::End];
    assert(all.drop_last() =~= begin + body);
}

/// The operations for a punctuation symbol begin and end no group.
pub proof fn lemma_punct_ops_plain<V: VisualSize>(
    config: &Decondenser<V>,
    leading: usize,
    punct: config::Punct,
    trailing: usize,
)
    ensures
        plain(punct_ops(config, leading, punct, trailing)),
{
}

/// The operations for the pieces of quoted content begin and end no group.
pub proof fn lemma_pieces_ops_plain<V: VisualSize>(
    config: &Decondenser<V>,
    pieces: Seq<QuotedView>,
)
    ensures
        plain(pieces_ops(config, pieces)),
    decreases pieces.len(),
{
    if pieces.len() > 0 {
        lemma_pieces_ops_plain(config, pieces.drop_last());
    }
}

/// The operations for a group are tidy where those for its content are.
pub proof fn lemma_group_content_ops_tidy<V: VisualSize>(
    config: &Decondenser<V>,
    leading: usize,
    content: Seq<TreeView>,
    closed: bool,
    group: config::Group,
    trailing: usize,
    inner: Seq<Op>,
)
    requires
        tidy(inner),
    ensures
        tidy(group_content_ops(config, leading, content, closed, group, trailing, inner)),
{
    if inner_end(content) <= 0 {
        let body = empty_group_ops(config, leading, closed, group, trailing);
        assert(plain(body));
        lemma_plain_tidy(body);
        lemma_tidy_group(group.break_style.0, body);
    } else {
        let opening = punct_ops(
            config,
            leading,
            group.opening,
            crate::formatting::blank_size_at(config, content, 0, inner_end(content)),
        );
        let closing = closing_ops(config, content, closed, group, trailing);
        let before = opening + seq![Op::Indent(1isize)];
        let back = seq![Op::Indent(-1isize)];
        assert(plain(before));
        assert(plain(back));
        assert(plain(closing));
        lemma_plain_tidy(before);
        lemma_plain_tidy(back);
        lemma_plain_tidy(closing);
        lemma_tidy_concat(before, inner);
        lemma_tidy_concat(before + inner, back);
        lemma_tidy_concat(before + inner + back, closing);
        let body = group_body_ops(config, leading, content, closed, group, trailing, inner);
        assert(body == before + inner + back + closing);
        lemma_tidy_group(group.break_style.0, body);
    }
}

/// The operations for tokens are tidy.
pub proof fn lemma_format_ops_tidy<V: VisualSize>(
    config: &Decondenser<V>,
    tokens: Seq<TreeView>,
    from: int,
    end: int,
)
    ensures
        tidy(format_ops(config, tokens, from, end)),
    decreases tokens, left(from, end),
{
    lemma_format_ops(config, tokens, from, end);
    let blank = blank_count(tokens, from, end);
    let at = from + blank;
    if from < 0 || from >= end || end > tokens.len() || at >= end {
        lemma_plain_tidy(Seq::<Op>::empty());
    } else {
        let token = tokens[at];
        let inner = group_inner(config, token);
        let next = at + 1 + taken_blank(tokens, at, end);
        lemma_format_ops_tidy(config, tokens, next, end);
        let leading = blank_size(config, tokens, at - blank, blank);
        let trailing = blank_size(config, tokens, at + 1, taken_blank(tokens, at, end));
        let node = node_ops(config, tokens, blank, at, end, inner);
        match token {
            TreeView::Punct(punct) => {
                lemma_punct_ops_plain(config, leading, punct, trailing);
                lemma_plain_tidy(node);
            },
            TreeView::Group { content, closed, config: group } => {
                lemma_format_ops_tidy(
                    config,
                    content,
                    blank_count(content, 0, inner_end(content)) as int,
                    inner_end(content),
                );
                lemma_group_content_ops_tidy(
                    config,
                    leading,
                    content,
                    closed,
                    group,
                    trailing,
                    inner,
                );
            },
            TreeView::Raw(text) => {
                assert(plain(node));
                lemma_plain_tidy(node);
            },
            TreeView::Quoted { content, closed, config: quote } => {
                lemma_pieces_ops_plain(config, content);
                assert(plain(quoted_ops(config, content, closed, quote)));
                assert(plain(node));
                lemma_plain_tidy(node);
            },
            _ => {
                lemma_plain_tidy(node);
            },
        }
        lemma_tidy_concat(node, format_ops(config, tokens, next, end));
    }
}

/// The operations for the whole input are tidy.
pub proof fn lemma_input_ops_tidy<V: VisualSize>(config: &Decondenser<V>, tokens: Seq<TreeView>)
    ensures
        tidy(input_ops(config, tokens)),
{
    let inner = format_ops(
        config,
        tokens,
        blank_count(tokens, 0, tokens.len() as int) as int,
        tokens.len() as int,
    );
    lemma_format_ops_tidy(
        config,
        tokens,
        blank_count(tokens, 0, tokens.len() as int) as int,
        tokens.len() as int,
    );
    lemma_tidy_group(config::BreakStyleEnum::Consistent, inner);
}

/// Operations without groups, put into operations that leave no group
/// unbegun, change nothing of the groups.
pub proof fn lemma_nested_insert(first: Seq<Op>, middle: Seq<Op>, last: Seq<Op>)
    requires
        nested(first + last),
        plain(middle),
    ensures
        nested(first + middle + last),
        depth_after(first + middle + last) == depth_after(first + last),
    decreases last.len(),
{
    if last.len() == 0 {
        assert(first + last =~= first);
        assert(first + middle + last =~= first + middle);
        lemma_plain_tidy(middle);
        lemma_nested_concat(first, middle);
    } else {
        assert((first + last).drop_last() =~= first + last.drop_last());
        assert((first + middle + last).drop_last() =~= first + middle + last.drop_last());
        lemma_nested_insert(first, middle, last.drop_last());
    }
}

/// What the normalization has handed on, with the operations on groups
/// that wait, leaves no group unbegun and as many groups open as the
/// operations that the formatter was given. No line break that is always
/// taken is handed on or waits.
pub proof fn lemma_all_emitted_nested(state: FormatterView, ops: Seq<Op>)
    requires
        state.control.len() == 0,
        !(state.blank is HardBreak),
        no_hard_break(ops),
        nested(ops),
    ensures
        no_hard_break(all_emitted(state, ops)),
        !(state.apply_all(ops).blank is HardBreak),
        nested(all_emitted(state, ops) + control_ops(state.apply_all(ops).control)),
        depth_after(all_emitted(state, ops) + control_ops(state.apply_all(ops).control))
            == depth_after(ops),
    decreases ops.len(),
{
    reveal(FormatterView::apply_all);
    if ops.len() == 0 {
        assert(all_emitted(state, ops) + control_ops(state.control) =~= Seq::<Op>::empty());
    } else {
        let before = ops.drop_last();
        let op = ops.last();
        lemma_all_emitted_nested(state, before);
        let middle = state.apply_all(before);
        let after = middle.apply(op);
        let handed = all_emitted(state, before);
        let waiting = control_ops(middle.control);
        let all = handed + waiting;
        assert(!(op is HardBreak));
        match op {
            Op::Begin(_) => {
                assert(all_emitted(state, ops) =~= handed);
                assert(handed + control_ops(after.control) =~= all.push(op));
                assert(all.push(op).drop_last() =~= all);
            },
            Op::End => {
                assert(all_emitted(state, ops) =~= handed);
                if middle.control.len() > 0 && middle.control.last() is Begin {
                    assert(handed + control_ops(after.control) =~= all.drop_last());
                } else {
                    assert(handed + control_ops(after.control) =~= all.push(op));
                    assert(all.push(op).drop_last() =~= all);
                }
            },
            Op::Indent(_) => {
                assert(all_emitted(state, ops) =~= handed);
            },
            Op::SoftBreak => {
                assert(all_emitted(state, ops) =~= handed);
                if after.control != middle.control {
                    assert(handed + control_ops(after.control) =~= all.push(op));
                    assert(all.push(op).drop_last() =~= all);
                }
            },
            Op::Space(_) => {
                assert(all_emitted(state, ops) =~= handed);
            },
            Op::HardBreak(_) => {},
            Op::Raw(text) => {
                if text.chars.len() == 0 {
                    assert(all_emitted(state, ops) =~= handed);
                } else {
                    let indent = indent_ops(middle.indent);
                    let blank = blank_ops(middle.blank).push(op);
                    lemma_nested_insert(handed, indent, waiting);
                    lemma_plain_tidy(blank);
                    lemma_nested_concat(handed + indent + waiting, blank);
                    assert(all_emitted(state, ops) =~= handed + indent + waiting + blank);
                    assert(control_ops(after.control) =~= Seq::<Op>::empty());
                    assert(all_emitted(state, ops) + control_ops(after.control) =~= handed
                        + indent + waiting + blank);
                }
            },
        }
    }
}

/// The operations that the normalization hands on for tidy operations are
/// tidy.
pub proof fn lemma_normalized_tidy(state: FormatterView, ops: Seq<Op>)
    requires
        state.control.len() == 0,
        !(state.blank is HardBreak),
        tidy(ops),
    ensures
        tidy(normalized_ops(state, ops)),
{
    lemma_all_emitted_nested(state, ops);
    let last = state.apply_all(ops);
    let handed = all_emitted(state, ops);
    lemma_nested_insert(handed, indent_ops(last.indent), control_ops(last.control));
    assert(normalized_ops(state, ops) =~= handed + indent_ops(last.indent) + control_ops(
        last.control,
    ));
}

} // verus!
