//! Input that fits in a line is laid out on one line: while the tokens fit,
//! the measuring part prints nothing and forces no break, and at the end of
//! the input the printer takes every distance as fitting.

use crate::decondenser::{Decondenser, Syntax};
use crate::parsing::l2::token_tree::TreeView;
use crate::formatting::engine::normal::{lemma_formatter_run, normalized_ops};
use crate::formatting::engine::normalized::{
    lemma_size_drop_first, single_line_size, NormalizedView,
};
use crate::formatting::engine::Op;
use crate::formatting::engine::printer::{max_size, Blanks, GroupFit, PrinterView};
use crate::formatting::engine::token::{Measurement, Size, TokenView};
use crate::formatting::engine::trace::{
    lemma_normalized_run_empty, lemma_normalized_run_push, lemma_push_shapes, token_shapes,
};
use crate::formatting::formatted;
use crate::formatting::laws::{
    all_quoted_satisfy, lemma_input_ops_satisfy, lemma_normalized_raws,
    lemma_token_symbols_satisfy, lemma_tokens_satisfy, syntax_satisfies, token_symbols_satisfy,
};
use crate::formatting::laws::balance::{lemma_input_ops_tidy, lemma_normalized_tidy};
use crate::formatting::laws::blanks::one_line;
use crate::formatting::laws::blanks::{operations, start};
use crate::formatting::laws::steady::{
    lemma_measure_below, lemma_steady_push, lemma_steady_push_waiting, marks_of, open_groups,
    placed, steady,
};
use crate::parsing::l2::laws::{is_clean, lemma_parsed_raws_clean};
use crate::parsing::l2::origin::lemma_parsed_from_syntax;
use crate::parsing::l2;
use crate::visual_size::VisualSize;
use crate::formatting::laws::count::{countable, lemma_operations_count};
use vstd::prelude::*;

verus! {

/// The size that the operation takes on a single line.
pub open spec fn op_size(op: Op) -> nat {
    match op {
        Op::Raw(text) => text.size as nat,
        Op::Space(size) => size as nat,
        _ => 0,
    }
}

/// The size that the operations take on a single line.
pub open spec fn line_size(ops: Seq<Op>) -> nat
    decreases ops.len(),
{
    if ops.len() == 0 {
        0
    } else {
        line_size(ops.drop_last()) + op_size(ops.last())
    }
}

/// What the operation adds to the number of open groups.
pub open spec fn op_depth(op: Op) -> int {
    match op {
        Op::Begin(_) => 1,
        Op::End => -1,
        _ => 0,
    }
}

/// The number of groups that the operations leave open.
pub open spec fn depth_after(ops: Seq<Op>) -> int
    decreases ops.len(),
{
    if ops.len() == 0 {
        0
    } else {
        depth_after(ops.drop_last()) + op_depth(ops.last())
    }
}

/// Whether no operation ends a group that has not begun.
pub open spec fn nested(ops: Seq<Op>) -> bool
    decreases ops.len(),
{
    ops.len() == 0 || (nested(ops.drop_last()) && depth_after(ops) >= 0)
}

/// Whether none of the operations is a line break that is always taken.
pub open spec fn no_hard_break(ops: Seq<Op>) -> bool {
    forall|i: int| 0 <= i < ops.len() ==> !(#[trigger] ops[i] is HardBreak)
}

/// The tokens take the size of the operations that they stand for, and
/// leave as many groups open.
pub proof fn lemma_tokens_agree(items: Seq<TokenView>)
    ensures
        single_line_size(items) == line_size(token_shapes(items)),
        open_groups(items) == depth_after(token_shapes(items)),
    decreases items.len(),
{
    if items.len() > 0 {
        lemma_tokens_agree(items.drop_last());
        assert(token_shapes(items).drop_last() =~= token_shapes(items.drop_last()));
        assert(marks_of(items).drop_last() =~= marks_of(items.drop_last()));
    }
}

/// Every operation but a line break that is always taken keeps the state
/// steady, as long as the tokens fit in the limit and no group ends that
/// has not begun. The token of the operation comes to the queue, and
/// nothing is printed.
pub proof fn lemma_steady_apply(state: NormalizedView, limit: usize, op: Op)
    requires
        steady(state, limit),
        !(op is HardBreak),
        line_size(token_shapes(state.deque.items).push(op)) <= limit,
        depth_after(token_shapes(state.deque.items).push(op)) >= 0,
        state.deque.items.len() + 1 < usize::MAX,
    ensures
        steady(state.apply(op), limit),
        token_shapes(state.apply(op).deque.items) == token_shapes(state.deque.items).push(op),
        state.apply(op).printer == state.printer,
{
    let items = state.deque.items;
    let shapes = token_shapes(items);
    lemma_tokens_agree(items);
    assert(shapes.push(op).drop_last() =~= shapes);
    match op {
        Op::Begin(break_style) => {
            let token = TokenView::Begin {
                next_break_distance: Measurement::Unmeasured { preceding_tokens_size: state.total },
                break_style,
            };
            lemma_steady_push_waiting(state, limit, token);
            lemma_push_shapes(items, token);
        },
        Op::End => {
            lemma_steady_push_waiting(state, limit, TokenView::End);
            lemma_push_shapes(items, TokenView::End);
        },
        Op::Indent(diff) => {
            lemma_steady_push(state, limit, TokenView::Indent(diff));
            lemma_push_shapes(items, TokenView::Indent(diff));
            assert(state.push(TokenView::Indent(diff)).grown(0) == state.indent(diff));
        },
        Op::SoftBreak => {
            let measured = state.measure();
            lemma_measure_below(state, limit, state.unmeasured.len() as int, 0);
            let token = TokenView::SoftBreak {
                next_break_distance: Measurement::Unmeasured {
                    preceding_tokens_size: measured.total,
                },
            };
            lemma_steady_push_waiting(measured, limit, token);
            lemma_push_shapes(measured.deque.items, token);
        },
        Op::Space(size) => {
            lemma_steady_push(state, limit, TokenView::Space(size));
            lemma_push_shapes(items, TokenView::Space(size));
            let pushed = state.push(TokenView::Space(size)).grown(size);
            assert(!pushed.overflows());
            assert(pushed.break_while(false) == pushed);
        },
        Op::Raw(text) => {
            lemma_steady_push(state, limit, TokenView::Raw(text));
            lemma_push_shapes(items, TokenView::Raw(text));
            let pushed = state.push(TokenView::Raw(text)).grown(text.size);
            assert(!pushed.overflows());
            assert(pushed.break_while(false) == pushed);
        },
        Op::HardBreak(_) => {},
    }
}

/// Operations without a line break that is always taken keep a state
/// steady that has no tokens yet, as long as they fit in the limit and no
/// group ends that has not begun. Their tokens are all in the queue, and
/// nothing is printed.
pub proof fn lemma_steady_run(state: NormalizedView, limit: usize, ops: Seq<Op>)
    requires
        steady(state, limit),
        state.deque.items.len() == 0,
        no_hard_break(ops),
        nested(ops),
        line_size(ops) <= limit,
        ops.len() + 1 < usize::MAX,
    ensures
        steady(state.run(ops), limit),
        token_shapes(state.run(ops).deque.items) == ops,
        state.run(ops).printer == state.printer,
    decreases ops.len(),
{
    if ops.len() == 0 {
        lemma_normalized_run_empty(state);
        assert(ops =~= Seq::<Op>::empty());
        assert(token_shapes(state.deque.items) =~= ops);
    } else {
        let before = ops.drop_last();
        lemma_steady_run(state, limit, before);
        lemma_normalized_run_push(state, before, ops.last());
        assert(before.push(ops.last()) =~= ops);
        lemma_steady_apply(state.run(before), limit, ops.last());
    }
}

/// Whether every token of the queue can be printed on the line that the
/// printer is on: no token waits, every distance is known and ends within
/// `limit`, and the printer has broken no line and no group.
pub open spec fn prints_on_line(state: NormalizedView, limit: usize) -> bool {
    let items = state.deque.items;
    let printer = state.printer;
    &&& state.unmeasured.len() == 0
    &&& state.printed + single_line_size(items) <= limit
    &&& limit <= printer.line_size_budget + state.printed
    &&& forall|i: int|
        0 <= i < items.len() ==> match (#[trigger] items[i]).distance() {
            Some(Measurement::Measured(Size::Fixed(distance))) => state.printed
                + single_line_size(items.take(i)) + distance <= limit,
            Some(_) => false,
            None => true,
        }
    &&& forall|i: int|
        0 <= i < items.len() ==> (#[trigger] items[i] matches TokenView::Raw(text) ==> one_line(
            text.chars,
        ))
    &&& forall|i: int| 0 <= i < printer.groups.len() ==> #[trigger] printer.groups[i] is Inline
    &&& one_line(printer.output)
    &&& printer.pending is Spaces || printer.pending == Blanks::Breaks(0)
}

/// The state after the front token is printed can print the other tokens
/// on the line.
proof fn lemma_printed_on_line(state: NormalizedView, limit: usize, printer: PrinterView)
    requires
        prints_on_line(state, limit),
        state.deque.items.len() > 0,
        limit <= printer.line_size_budget + state.printed + state.deque.items[0].size(),
        forall|i: int| 0 <= i < printer.groups.len() ==> #[trigger] printer.groups[i] is Inline,
        one_line(printer.output),
        printer.pending is Spaces || printer.pending == Blanks::Breaks(0),
    ensures
        prints_on_line(state.printed_front(printer), limit),
{
    let items = state.deque.items;
    let next = state.printed_front(printer);
    lemma_size_drop_first(items);
    assert forall|i: int| 0 <= i < next.deque.items.len() implies match (
    #[trigger] next.deque.items[i]).distance() {
        Some(Measurement::Measured(Size::Fixed(distance))) => next.printed + single_line_size(
            next.deque.items.take(i),
        ) + distance <= limit,
        Some(_) => false,
        None => true,
    } by {
        assert(next.deque.items[i] == items[i + 1]);
        lemma_size_drop_first(items.take(i + 1));
        assert(items.take(i + 1).drop_first() =~= next.deque.items.take(i));
    }
    assert forall|i: int| 0 <= i < next.deque.items.len() implies (
    #[trigger] next.deque.items[i] matches TokenView::Raw(text) ==> one_line(text.chars)) by {
        assert(next.deque.items[i] == items[i + 1]);
    }
}

/// Text without line breaks behind text without line breaks has no line
/// break.
pub proof fn lemma_one_line_concat(first: Seq<char>, second: Seq<char>)
    requires
        one_line(first),
        one_line(second),
    ensures
        one_line(first + second),
{
}

/// Tokens that can be printed on the line are all printed, and the output
/// has no line break.
pub proof fn lemma_print_on_line(state: NormalizedView, limit: usize)
    requires
        prints_on_line(state, limit),
    ensures
        state.print_measured().deque.items.len() == 0,
        one_line(state.print_measured().printer.output),
    decreases state.deque.items.len(),
{
    let items = state.deque.items;
    let printer = state.printer;
    if items.len() > 0 {
        assert(items.take(0) =~= Seq::<TokenView>::empty());
        assert(single_line_size(items.take(0)) == 0);
        lemma_size_drop_first(items);
        match items[0] {
            TokenView::Raw(text) => {
                let blank = printer.blank_text();
                lemma_one_line_concat(printer.output, blank);
                lemma_one_line_concat(printer.output + blank, text.chars);
                lemma_printed_on_line(state, limit, printer.raw(text));
                lemma_print_on_line(state.printed_front(printer.raw(text)), limit);
            },
            TokenView::Space(size) => {
                lemma_printed_on_line(state, limit, printer.space(size));
                lemma_print_on_line(state.printed_front(printer.space(size)), limit);
            },
            TokenView::SoftBreak { next_break_distance } => {
                let distance = next_break_distance->Measured_0;
                assert(printer.fits(distance));
                lemma_printed_on_line(state, limit, printer.soft_break(distance));
                lemma_print_on_line(state.printed_front(printer.soft_break(distance)), limit);
            },
            TokenView::Begin { next_break_distance, break_style } => {
                let distance = next_break_distance->Measured_0;
                let next = printer.begin(break_style, distance);
                assert(next.groups.last() == GroupFit::Inline(break_style));
                assert forall|i: int| 0 <= i < next.groups.len() implies #[trigger] next.groups[i] is Inline by {
                    if i < printer.groups.len() {
                        assert(printer.groups[i] is Inline);
                    }
                }
                lemma_printed_on_line(state, limit, next);
                lemma_print_on_line(state.printed_front(next), limit);
            },
            TokenView::Indent(diff) => {
                lemma_printed_on_line(state, limit, printer.indent(diff));
                lemma_print_on_line(state.printed_front(printer.indent(diff)), limit);
            },
            TokenView::End => {
                let next = printer.end();
                assert forall|i: int| 0 <= i < next.groups.len() implies #[trigger] next.groups[i] is Inline by {
                    assert(printer.groups[i] is Inline);
                }
                lemma_printed_on_line(state, limit, next);
                lemma_print_on_line(state.printed_front(next), limit);
            },
        }
    }
}

/// Whether the printer has printed nothing, or nothing with a line break,
/// and is on the line on which it has begun.
pub open spec fn on_first_line(printer: PrinterView) -> bool {
    &&& printer.groups.len() == 0
    &&& one_line(printer.output)
    &&& printer.pending is Spaces || printer.pending == Blanks::Breaks(0)
}

/// At the end of the input, tokens that fit in the line and leave no group
/// open are printed without a line break but those of their raw text.
pub proof fn lemma_eoi_on_line(state: NormalizedView, limit: usize)
    requires
        steady(state, limit),
        open_groups(state.deque.items) == 0,
        on_first_line(state.printer),
        forall|i: int|
            0 <= i < state.deque.items.len() ==> (
            #[trigger] state.deque.items[i] matches TokenView::Raw(text) ==> one_line(text.chars)),
    ensures
        one_line(state.eoi().printer.output),
{
    let measured = state.measure();
    lemma_measure_below(state, limit, state.unmeasured.len() as int, 0);
    let items = measured.deque.items;
    assert forall|i: int| 0 <= i < items.len() implies match (#[trigger] items[i]).distance() {
        Some(Measurement::Measured(Size::Fixed(distance))) => measured.printed
            + single_line_size(items.take(i)) + distance <= limit,
        Some(_) => false,
        None => true,
    } by {
        assert(placed(items, i, measured.total));
        if items[i].is_unmeasured() {
            assert(measured.unmeasured.contains(i as usize));
        }
    }
    assert forall|i: int| 0 <= i < items.len() implies (
    #[trigger] items[i] matches TokenView::Raw(text) ==> one_line(text.chars)) by {
        assert(token_shapes(items)[i] == token_shapes(state.deque.items)[i]);
        assert(state.deque.items[i] is Raw ==> state.deque.items[i] == items[i]);
    }
    lemma_print_on_line(measured, limit);
    let printed = measured.print_measured();
    assert(printed.break_while(true) == printed);
}


/// The size that the input takes when it is laid out on a single line: the
/// sizes of all raw text and of all spaces that the layout engine gets for
/// it.
pub open spec fn flat_size<V: VisualSize>(config: &Decondenser<V>, input: Seq<char>) -> nat {
    line_size(normalized_ops(start(config), operations(config, input)))
}

/// Whether no symbol of the configuration holds a line break.
pub open spec fn syntax_one_line(syntax: Syntax) -> bool {
    syntax_satisfies(syntax, |text: Seq<char>| one_line(text))
}

/// Whether no quoted content among the tokens, or in the tokens in them,
/// holds a line break.
pub open spec fn quoted_one_line(tokens: Seq<TreeView>) -> bool {
    all_quoted_satisfy(tokens, |text: Seq<char>| one_line(text))
}

/// Input that fits in a line is laid out on one line: the output has no
/// line break. A line takes `max_line_size`, or `no_break_size` where that
/// is more.
///
/// This holds where the symbols of the configuration and the quoted
/// content of the input hold no line break. The input must be countable.
pub proof fn lemma_fitting_input_stays_on_one_line<V: VisualSize>(
    config: &Decondenser<V>,
    input: Seq<char>,
)
    requires
        flat_size(config, input) <= max_size(
            config.max_line_size,
            config.spec_effective_no_break_size(),
        ),
        syntax_one_line(config.syntax()),
        quoted_one_line(l2::parsed(config.syntax(), input)),
        countable(input),
    ensures
        one_line(formatted(config, input)),
{
    lemma_operations_count(config, input);
    let holds = |text: Seq<char>| one_line(text);
    let limit = max_size(config.max_line_size, config.spec_effective_no_break_size());
    let ops = operations(config, input);
    let handed = normalized_ops(start(config), ops);
    let tokens = l2::parsed(config.syntax(), input);
    lemma_parsed_raws_clean(config.syntax(), input);
    lemma_parsed_from_syntax(config.syntax(), input);
    assert forall|text: Seq<char>| is_clean(text) implies #[trigger] holds(text) by {
        assert(crate::chars::is_whitespace('\n'));
    }
    assert forall|i: int| 0 <= i < tokens.len() implies token_symbols_satisfy(
        #[trigger] tokens[i],
        holds,
    ) by {
        lemma_token_symbols_satisfy(config.syntax(), tokens[i], holds);
    }
    lemma_tokens_satisfy(tokens, holds);
    lemma_input_ops_satisfy(config, tokens, holds);
    lemma_normalized_raws(start(config), ops, holds);
    lemma_input_ops_tidy(config, tokens);
    lemma_normalized_tidy(start(config), ops);
    lemma_formatter_run(start(config), ops);
    let first = start(config).fmt;
    assert(steady(first, limit)) by {
        assert(marks_of(first.deque.items) =~= Seq::<int>::empty());
    }
    lemma_steady_run(first, limit, handed);
    let last = first.run(handed);
    lemma_tokens_agree(last.deque.items);
    assert forall|i: int| 0 <= i < last.deque.items.len() implies (
    #[trigger] last.deque.items[i] matches TokenView::Raw(text) ==> one_line(text.chars)) by {
        assert(token_shapes(last.deque.items)[i] == handed[i]);
    }
    lemma_eoi_on_line(last, limit);
}

} // verus!
