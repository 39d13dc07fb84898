//! The formatter changes nothing but whitespace.

use crate::chars::{
    fill, is_blank_text, is_whitespace, lemma_repeat_blank, lemma_visible_blank,
    lemma_visible_concat, repeat, visible,
};
use crate::config;
use crate::decondenser::Decondenser;
use crate::formatting::engine::normal::{
    all_emitted, emitted, final_ops, lemma_formatter_trace, normalized_ops, waiting_ops,
};
use crate::formatting::engine::printer::{Blanks, PrinterView};
use crate::formatting::engine::trace::{lemma_run_empty, lemma_run_push, shapes, PrinterOp};
use crate::formatting::engine::{FormatterView, Op};
use crate::formatting::laws::fidelity::{
    lemma_blank_run, lemma_quoted_ops_text, lemma_run_text_same, run_text,
};
use crate::parsing::l2::text::{lemma_tokens_text, quoted_text, tokens_text};
use crate::formatting::laws::leading::lemma_blank_count_ends;
use crate::formatting::{
    between_ops, blank_count, blank_has_newline, blank_size, blank_size_at, closing_ops,
    empty_group_ops, format_ops, group_body_ops, group_content_ops, group_inner, inner_end, left,
    lemma_format_ops, lemma_trailing_blank, measured, node_ops, punct_ops, quoted_ops, space_ops,
    taken_blank, trailing_blank_count,
};
use crate::formatting::laws::blanks::{operations, start};
use crate::formatting::laws::{lemma_waiting_no_raw, no_raw};
use crate::formatting::{formatted, input_ops};
use crate::space::Space;
use crate::parsing::l2;
use crate::parsing::l2::token_tree::TreeView;
use crate::visual_size::VisualSize;
use crate::formatting::laws::count::{countable, lemma_operations_count};
use vstd::prelude::*;

verus! {

/// The texts of the raw operations among the operations, one after another.
pub open spec fn ops_text(ops: Seq<Op>) -> Seq<char> {
    run_text(ops, 0, ops.len() as int)
}

/// The text of operations behind other operations.
pub proof fn lemma_ops_text_concat(first: Seq<Op>, second: Seq<Op>)
    ensures
        ops_text(first + second) == ops_text(first) + ops_text(second),
    decreases second.len(),
{
    let all = first + second;
    if second.len() == 0 {
        assert(all =~= first);
        assert(ops_text(first) + ops_text(second) =~= ops_text(first));
    } else {
        let shorter = second.drop_last();
        lemma_ops_text_concat(first, shorter);
        let most = first + shorter;
        lemma_run_text_same(most, all, 0, most.len() as int);
        lemma_run_text_same(shorter, second, 0, shorter.len() as int);
        assert(all[all.len() - 1] == second[second.len() - 1]);
        assert(ops_text(all) =~= ops_text(first) + ops_text(second));
    }
}

/// Operations without raw text have no text.
pub proof fn lemma_ops_text_no_raw(ops: Seq<Op>)
    requires
        no_raw(ops),
    ensures
        ops_text(ops) == Seq::<char>::empty(),
    decreases ops.len(),
{
    if ops.len() > 0 {
        let shorter = ops.drop_last();
        assert(no_raw(shorter)) by {
            assert forall|i: int| 0 <= i < shorter.len() implies !(#[trigger] shorter[i] is Raw) by {
                assert(shorter[i] == ops[i]);
            }
        }
        lemma_ops_text_no_raw(shorter);
        lemma_run_text_same(shorter, ops, 0, shorter.len() as int);
        assert(!(ops[ops.len() - 1] is Raw));
        assert(ops_text(ops) =~= Seq::<char>::empty());
    }
}

/// The text of one operation.
pub proof fn lemma_ops_text_single(op: Op)
    ensures
        ops_text(seq![op]) == match op {
            Op::Raw(text) => text.chars,
            _ => Seq::<char>::empty(),
        },
{
    let ops = seq![op];
    assert(run_text(ops, 0, 0) =~= Seq::<char>::empty());
    assert(ops_text(ops) =~= match op {
        Op::Raw(text) => text.chars,
        _ => Seq::<char>::empty(),
    });
}

/// What a printer appends for a blank is whitespace, where the indent is
/// whitespace.
pub proof fn lemma_blank_text_is_blank(printer: PrinterView)
    requires
        is_blank_text(printer.indent.chars),
    ensures
        is_blank_text(printer.blank_text()),
{
    match printer.pending {
        Blanks::Spaces(count) => {},
        Blanks::Breaks(count) => {
            let breaks = fill('\n', count as nat);
            let indent = repeat(printer.indent.chars, printer.indent_level as nat);
            lemma_repeat_blank(printer.indent.chars, printer.indent_level as nat);
            let blank = breaks + indent;
            assert forall|i: int| 0 <= i < blank.len() implies is_whitespace(
                #[trigger] blank[i],
            ) by {
                if i < breaks.len() {
                    assert(blank[i] == breaks[i]);
                } else {
                    assert(blank[i] == indent[i - breaks.len()]);
                }
            }
        },
    }
}

/// The visible characters that a printer prints are those of the raw texts
/// that it is told, where the indent is whitespace.
pub proof fn lemma_run_visible(printer: PrinterView, told: Seq<PrinterOp>)
    requires
        is_blank_text(printer.indent.chars),
    ensures
        visible(printer.run(told).output) == visible(printer.output) + visible(
            ops_text(shapes(told)),
        ),
        printer.run(told).indent == printer.indent,
    decreases told.len(),
{
    let ops = shapes(told);
    if told.len() == 0 {
        assert(told =~= Seq::<PrinterOp>::empty());
        lemma_run_empty(printer);
        assert(visible(printer.output) + visible(ops_text(ops)) =~= visible(printer.output));
    } else {
        let shorter = told.drop_last();
        lemma_run_visible(printer, shorter);
        lemma_run_push(printer, shorter, told.last());
        assert(shorter.push(told.last()) =~= told);
        let before = printer.run(shorter);
        let op = told.last();
        assert(ops =~= shapes(shorter).push(op.shape()));
        assert(shapes(shorter).push(op.shape()) =~= shapes(shorter) + seq![op.shape()]);
        lemma_ops_text_concat(shapes(shorter), seq![op.shape()]);
        lemma_ops_text_single(op.shape());
        lemma_visible_concat(ops_text(shapes(shorter)), ops_text(seq![op.shape()]));
        match op {
            PrinterOp::Raw(text) => {
                lemma_blank_text_is_blank(before);
                lemma_visible_blank(before.blank_text());
                lemma_visible_concat(before.output, before.blank_text());
                lemma_visible_concat(before.output + before.blank_text(), text.chars);
                assert(visible(before.step(op).output) =~= visible(before.output) + visible(
                    text.chars,
                ));
                assert(visible(printer.run(told).output) =~= visible(printer.output) + visible(
                    ops_text(ops),
                ));
            },
            _ => {
                assert(visible(ops_text(seq![op.shape()])) =~= Seq::<char>::empty());
                assert(visible(printer.run(told).output) =~= visible(printer.output) + visible(
                    ops_text(ops),
                ));
            },
        }
    }
}

/// The operations that the measuring part gets have the text of the
/// operations that the formatter is given.
pub proof fn lemma_all_emitted_text(state: FormatterView, ops: Seq<Op>)
    ensures
        ops_text(all_emitted(state, ops)) == ops_text(ops),
    decreases ops.len(),
{
    if ops.len() == 0 {
        assert(ops_text(ops) =~= Seq::<char>::empty());
    } else {
        let shorter = ops.drop_last();
        lemma_all_emitted_text(state, shorter);
        let middle = state.apply_all(shorter);
        let op = ops.last();
        lemma_ops_text_concat(all_emitted(state, shorter), emitted(middle, op));
        assert(shorter + seq![op] =~= ops);
        lemma_ops_text_concat(shorter, seq![op]);
        lemma_ops_text_single(op);
        lemma_waiting_no_raw(middle);
        lemma_ops_text_no_raw(waiting_ops(middle));
        match op {
            Op::Raw(text) => {
                if text.chars.len() > 0 {
                    assert(waiting_ops(middle).push(op) =~= waiting_ops(middle) + seq![op]);
                    lemma_ops_text_concat(waiting_ops(middle), seq![op]);
                    assert(ops_text(emitted(middle, op)) =~= text.chars);
                } else {
                    assert(ops_text(emitted(middle, op)) =~= Seq::<char>::empty());
                    assert(text.chars =~= Seq::<char>::empty());
                }
            },
            _ => {
                assert(ops_text(emitted(middle, op)) =~= Seq::<char>::empty());
            },
        }
    }
}

/// The operations that the normalization hands on have the text of the
/// operations that the formatter is given.
pub proof fn lemma_normalized_text(state: FormatterView, ops: Seq<Op>)
    ensures
        ops_text(normalized_ops(state, ops)) == ops_text(ops),
{
    lemma_all_emitted_text(state, ops);
    let last = final_ops(state.apply_all(ops));
    lemma_waiting_no_raw(state.apply_all(ops));
    lemma_ops_text_no_raw(last);
    lemma_ops_text_concat(all_emitted(state, ops), last);
    assert(ops_text(ops) + Seq::<char>::empty() =~= ops_text(ops));
}

/// The visible characters of the output of a formatter are those of the raw
/// texts that it is given, where the indent is whitespace.
pub proof fn lemma_formatter_visible(state: FormatterView, ops: Seq<Op>)
    requires
        state.wf(),
        state.fmt.deque.items.len() == 0,
        state.fmt.printer.output.len() == 0,
        is_blank_text(state.fmt.printer.indent.chars),
        normalized_ops(state, ops).len() <= usize::MAX,
    ensures
        visible(state.apply_all(ops).eoi()) == visible(ops_text(ops)),
{
    let told = lemma_formatter_trace(state, ops);
    lemma_run_visible(state.fmt.printer, told);
    lemma_normalized_text(state, ops);
    assert(visible(state.fmt.printer.output) =~= Seq::<char>::empty());
    assert(Seq::<char>::empty() + visible(ops_text(ops)) =~= visible(ops_text(ops)));
}

/// A blank at the start adds nothing to the text of tokens.
pub proof fn lemma_tokens_text_skip(tokens: Seq<TreeView>, from: int, end: int, count: nat)
    requires
        0 <= from,
        count <= blank_count(tokens, from, end),
    ensures
        tokens_text(tokens, from, end) == tokens_text(tokens, from + count, end),
    decreases count,
{
    if count > 0 {
        lemma_blank_run(tokens, from, end, from);
        lemma_tokens_text(tokens, from, end);
        lemma_tokens_text_skip(tokens, from + 1, end, (count - 1) as nat);
        assert(Seq::<char>::empty() + tokens_text(tokens, from + 1, end) =~= tokens_text(
            tokens,
            from + 1,
            end,
        ));
    }
}

/// A blank token at the end adds nothing to the text of tokens.
pub proof fn lemma_tokens_text_drop_last(tokens: Seq<TreeView>, from: int, end: int)
    requires
        0 <= from < end <= tokens.len(),
        tokens[end - 1].is_blank(),
    ensures
        tokens_text(tokens, from, end) == tokens_text(tokens, from, end - 1),
    decreases end - from,
{
    lemma_tokens_text(tokens, from, end);
    lemma_tokens_text(tokens, from, end - 1);
    if from < end - 1 {
        lemma_tokens_text_drop_last(tokens, from + 1, end);
    } else {
        lemma_tokens_text(tokens, from + 1, end);
        assert(Seq::<char>::empty() + Seq::<char>::empty() =~= Seq::<char>::empty());
    }
}

/// A blank at the end adds nothing to the text of tokens.
pub proof fn lemma_tokens_text_trim(tokens: Seq<TreeView>, from: int, end: int, count: nat)
    requires
        0 <= from <= end - count,
        end <= tokens.len(),
        count <= trailing_blank_count(tokens, end),
    ensures
        tokens_text(tokens, from, end) == tokens_text(tokens, from, end - count),
    decreases count,
{
    if count > 0 {
        lemma_tokens_text_drop_last(tokens, from, end);
        lemma_tokens_text_trim(tokens, from, end - 1, (count - 1) as nat);
    }
}

/// The operations for a space have no text.
pub proof fn lemma_space_ops_text(input: usize, space: Space)
    ensures
        ops_text(space_ops(input, space)) == Seq::<char>::empty(),
{
    lemma_ops_text_no_raw(space_ops(input, space));
}

/// The text of the operations for a punctuation symbol is the symbol.
pub proof fn lemma_punct_ops_text<V: VisualSize>(
    config: &Decondenser<V>,
    leading: usize,
    punct: config::Punct,
    trailing: usize,
)
    ensures
        ops_text(punct_ops(config, leading, punct, trailing)) == punct.symbol@,
{
    let first = space_ops(leading, punct.leading_space);
    let second = seq![Op::Raw(measured(config, punct.symbol@))];
    let third = space_ops(trailing, punct.trailing_space);
    lemma_space_ops_text(leading, punct.leading_space);
    lemma_space_ops_text(trailing, punct.trailing_space);
    lemma_ops_text_single(second[0]);
    lemma_ops_text_concat(first, second);
    lemma_ops_text_concat(first + second, third);
    assert(Seq::<char>::empty() + punct.symbol@ + Seq::<char>::empty() =~= punct.symbol@);
}

/// The text of the operations for a group is its opening symbol, the text
/// of the operations for its content and, where it is closed, its closing
/// symbol.
pub proof fn lemma_group_content_ops_text<V: VisualSize>(
    config: &Decondenser<V>,
    leading: usize,
    content: Seq<TreeView>,
    closed: bool,
    group: config::Group,
    trailing: usize,
    inner: Seq<Op>,
)
    requires
        inner_end(content) <= 0 ==> ops_text(inner) == Seq::<char>::empty(),
    ensures
        ops_text(group_content_ops(config, leading, content, closed, group, trailing, inner))
            == group.opening.symbol@ + ops_text(inner) + if closed {
            group.closing.symbol@
        } else {
            Seq::<char>::empty()
        },
{
    let begin = seq![Op::Begin(group.break_style.0)];
    let end = seq![Op::End];
    lemma_ops_text_single(begin[0]);
    lemma_ops_text_single(end[0]);
    let closing_text = if closed {
        group.closing.symbol@
    } else {
        Seq::<char>::empty()
    };
    if inner_end(content) <= 0 {
        let first = space_ops(leading, group.opening.leading_space);
        let second = seq![Op::Raw(measured(config, group.opening.symbol@))];
        let third = if closed {
            seq![Op::Raw(measured(config, group.closing.symbol@))] + space_ops(
                trailing,
                group.closing.trailing_space,
            )
        } else {
            Seq::<Op>::empty()
        };
        lemma_space_ops_text(leading, group.opening.leading_space);
        lemma_ops_text_single(second[0]);
        lemma_ops_text_concat(first, second);
        if closed {
            let symbol = seq![Op::Raw(measured(config, group.closing.symbol@))];
            lemma_ops_text_single(symbol[0]);
            lemma_space_ops_text(trailing, group.closing.trailing_space);
            lemma_ops_text_concat(symbol, space_ops(trailing, group.closing.trailing_space));
            assert(ops_text(third) =~= closing_text);
        } else {
            assert(ops_text(third) =~= closing_text);
        }
        lemma_ops_text_concat(first + second, third);
        let body = empty_group_ops(config, leading, closed, group, trailing);
        lemma_ops_text_concat(begin, body);
        lemma_ops_text_concat(begin + body, end);
        assert(ops_text(begin + body + end) =~= group.opening.symbol@ + ops_text(inner)
            + closing_text);
    } else {
        let opening = punct_ops(
            config,
            leading,
            group.opening,
            blank_size_at(config, content, 0, inner_end(content)),
        );
        let closing = closing_ops(config, content, closed, group, trailing);
        lemma_punct_ops_text(
            config,
            leading,
            group.opening,
            blank_size_at(config, content, 0, inner_end(content)),
        );
        if closed {
            lemma_punct_ops_text(
                config,
                blank_size(
                    config,
                    content,
                    inner_end(content),
                    trailing_blank_count(content, content.len() as int),
                ),
                group.closing,
                trailing,
            );
        } else {
            assert(ops_text(closing) =~= Seq::<char>::empty());
        }
        let indent = seq![Op::Indent(1isize)];
        let dedent = seq![Op::Indent(-1isize)];
        lemma_ops_text_single(indent[0]);
        lemma_ops_text_single(dedent[0]);
        lemma_ops_text_concat(opening, indent);
        lemma_ops_text_concat(opening + indent, inner);
        lemma_ops_text_concat(opening + indent + inner, dedent);
        lemma_ops_text_concat(opening + indent + inner + dedent, closing);
        let body = group_body_ops(config, leading, content, closed, group, trailing, inner);
        lemma_ops_text_concat(begin, body);
        lemma_ops_text_concat(begin + body, end);
        assert(ops_text(begin + body + end) =~= group.opening.symbol@ + ops_text(inner)
            + closing_text);
    }
}

/// The text of the operations for tokens is the text of the tokens.
pub proof fn lemma_format_ops_text<V: VisualSize>(
    config: &Decondenser<V>,
    tokens: Seq<TreeView>,
    from: int,
    end: int,
)
    requires
        0 <= from <= end <= tokens.len(),
    ensures
        ops_text(format_ops(config, tokens, from, end)) == tokens_text(tokens, from, end),
    decreases tokens, left(from, end),
{
    lemma_format_ops(config, tokens, from, end);
    let blank = blank_count(tokens, from, end);
    let at = from + blank;
    lemma_blank_count_ends(tokens, from, end);
    lemma_tokens_text_skip(tokens, from, end, blank);
    lemma_tokens_text(tokens, at, end);
    if at >= end {
        assert(ops_text(Seq::<Op>::empty()) =~= Seq::<char>::empty());
    } else {
        let token = tokens[at];
        let inner = group_inner(config, token);
        let taken = taken_blank(tokens, at, end);
        let next = at + 1 + taken;
        lemma_blank_count_ends(tokens, at + 1, end);
        lemma_format_ops_text(config, tokens, next, end);
        lemma_tokens_text_skip(tokens, at + 1, end, taken);
        let node = node_ops(config, tokens, blank, at, end, inner);
        let leading = blank_size(config, tokens, at - blank, blank);
        let trailing = blank_size(config, tokens, at + 1, taken);
        let between = between_ops(blank > 0, blank_has_newline(tokens, at - blank, blank));
        lemma_ops_text_no_raw(between);
        match token {
            TreeView::Punct(punct) => {
                lemma_punct_ops_text(config, leading, punct, trailing);
            },
            TreeView::Group { content, closed, config: group } => {
                let last = inner_end(content);
                let first = blank_count(content, 0, last);
                lemma_trailing_blank(content, content.len() as int);
                lemma_blank_count_ends(content, 0, if last >= 0 {
                    last
                } else {
                    0
                });
                if last > 0 {
                    lemma_format_ops_text(config, content, first as int, last);
                    lemma_tokens_text_skip(content, 0, last, first);
                    lemma_tokens_text_trim(
                        content,
                        0,
                        content.len() as int,
                        trailing_blank_count(content, content.len() as int),
                    );
                } else {
                    lemma_format_ops(config, content, first as int, last);
                    assert(ops_text(Seq::<Op>::empty()) =~= Seq::<char>::empty());
                    lemma_tokens_text_trim(
                        content,
                        0,
                        content.len() as int,
                        trailing_blank_count(content, content.len() as int),
                    );
                    lemma_tokens_text(content, 0, 0);
                }
                lemma_group_content_ops_text(
                    config,
                    leading,
                    content,
                    closed,
                    group,
                    trailing,
                    inner,
                );
            },
            TreeView::Raw(text) => {
                let raw = seq![Op::Raw(measured(config, text))];
                lemma_ops_text_single(raw[0]);
                lemma_ops_text_concat(between, raw);
                assert(Seq::<char>::empty() + text =~= text);
            },
            TreeView::Quoted { content, closed, config: quote } => {
                lemma_quoted_ops_text(config, token);
                lemma_ops_text_concat(between, quoted_ops(config, content, closed, quote));
                assert(Seq::<char>::empty() + quoted_text(token) =~= quoted_text(token));
            },
            _ => {
                assert(ops_text(Seq::<Op>::empty()) =~= Seq::<char>::empty());
            },
        }
        lemma_ops_text_concat(node, format_ops(config, tokens, next, end));
    }
}

/// The text of the operations for the whole input is the text of its
/// tokens.
pub proof fn lemma_input_ops_text<V: VisualSize>(config: &Decondenser<V>, tokens: Seq<TreeView>)
    ensures
        ops_text(input_ops(config, tokens)) == tokens_text(tokens, 0, tokens.len() as int),
{
    let end = tokens.len() as int;
    let first = blank_count(tokens, 0, end);
    let begin = seq![Op::Begin(crate::config::BreakStyleEnum::Consistent)];
    let inner = format_ops(config, tokens, first as int, end);
    lemma_blank_count_ends(tokens, 0, end);
    lemma_format_ops_text(config, tokens, first as int, end);
    lemma_tokens_text_skip(tokens, 0, end, first);
    lemma_ops_text_single(begin[0]);
    lemma_ops_text_single(Op::End);
    lemma_ops_text_concat(begin, inner);
    lemma_ops_text_concat(begin + inner, seq![Op::End]);
    assert(Seq::<char>::empty() + tokens_text(tokens, 0, end) + Seq::<char>::empty()
        =~= tokens_text(tokens, 0, end));
}

/// The visible characters of the output are those of the texts of the
/// tokens of the input: the formatter prints every token that is no blank,
/// in the order of the input, adds no symbol, and puts nothing but
/// whitespace in between. In particular a group that is not closed gets no
/// closing symbol.
///
/// This holds where the indent is whitespace. The input must be
/// countable.
pub proof fn lemma_formatted_keeps_tokens<V: VisualSize>(config: &Decondenser<V>, input: Seq<char>)
    requires
        is_blank_text(config.indent@),
        countable(input),
    ensures
        visible(formatted(config, input)) == visible(
            tokens_text(
                l2::parsed(config.syntax(), input),
                0,
                l2::parsed(config.syntax(), input).len() as int,
            ),
        ),
{
    lemma_operations_count(config, input);
    let tokens = l2::parsed(config.syntax(), input);
    lemma_input_ops_text(config, tokens);
    lemma_formatter_visible(start(config), operations(config, input));
}

/// The formatter changes nothing but whitespace: the characters of the
/// output that are no whitespace are those of the input, in their order.
///
/// So the formatter adds no character that is no whitespace, drops none
/// and moves none: every bracket of the input is in the output, and no
/// closing symbol is made up for a group that is not closed.
///
/// This holds where the indent is whitespace. The input must be countable.
pub proof fn lemma_formatted_changes_whitespace_only<V: VisualSize>(
    config: &Decondenser<V>,
    input: Seq<char>,
)
    requires
        is_blank_text(config.indent@),
        countable(input),
    ensures
        visible(formatted(config, input)) == visible(input),
{
    lemma_operations_count(config, input);
    lemma_formatted_keeps_tokens(config, input);
    crate::parsing::l2::cover::lemma_tokens_cover(config.syntax(), input);
}

/// Formatting the output again changes nothing but whitespace: the
/// characters that are no whitespace are still those of the input, in
/// their order.
///
/// This holds where the indent is whitespace. The input and the output must
/// be countable.
pub proof fn lemma_formatting_again_changes_whitespace_only<V: VisualSize>(
    config: &Decondenser<V>,
    input: Seq<char>,
)
    requires
        is_blank_text(config.indent@),
        countable(input),
        countable(formatted(config, input)),
    ensures
        visible(formatted(config, formatted(config, input))) == visible(input),
{
    lemma_operations_count(config, input);
    lemma_formatted_changes_whitespace_only(config, input);
    lemma_formatted_changes_whitespace_only(config, formatted(config, input));
}

} // verus!
