//! What the printer is told: the measuring part hands every token to the
//! printer, in the order in which the tokens came, and adds nothing but the
//! distances.

use crate::config::BreakStyleEnum;
use crate::formatting::engine::normalized::{
    front_is_ready, lemma_force_front_wf, lemma_forget_wf, lemma_print_measured_len,
    lemma_printed_front_wf, lemma_printer_keeps_wf, lemma_push_sized_wf, lemma_push_unmeasured_wf,
    lemma_push_wf, NormalizedView,
};
use crate::formatting::engine::printer::PrinterView;
use crate::formatting::engine::token::{Measurement, Size, TokenView};
use crate::formatting::engine::Op;
use crate::visual_size::Text;
use vstd::prelude::*;

verus! {

/// What the printer is told to do.
pub enum PrinterOp {
    /// A group begins; the first break behind it is this far.
    Begin(BreakStyleEnum, Size),
    /// The innermost group ends.
    End,
    /// The level of indentation changes.
    Indent(isize),
    /// A possible break; the next one is this far.
    SoftBreak(Size),
    /// A run of spaces.
    Space(usize),
    /// Line breaks that are always taken.
    HardBreak(usize),
    /// Raw text.
    Raw(Text),
}

impl PrinterOp {
    /// The operation without its distance.
    pub open spec fn shape(self) -> Op {
        match self {
            PrinterOp::Begin(break_style, _) => Op::Begin(break_style),
            PrinterOp::End => Op::End,
            PrinterOp::Indent(diff) => Op::Indent(diff),
            PrinterOp::SoftBreak(_) => Op::SoftBreak,
            PrinterOp::Space(size) => Op::Space(size),
            PrinterOp::HardBreak(count) => Op::HardBreak(count),
            PrinterOp::Raw(text) => Op::Raw(text),
        }
    }
}

/// The operations without their distances.
pub open spec fn shapes(ops: Seq<PrinterOp>) -> Seq<Op> {
    ops.map_values(|op: PrinterOp| op.shape())
}

impl TokenView {
    /// The operation that the token stands for.
    pub open spec fn shape(self) -> Op {
        match self {
            TokenView::Begin { break_style, .. } => Op::Begin(break_style),
            TokenView::Raw(text) => Op::Raw(text),
            TokenView::SoftBreak { .. } => Op::SoftBreak,
            TokenView::Space(size) => Op::Space(size),
            TokenView::Indent(diff) => Op::Indent(diff),
            TokenView::End => Op::End,
        }
    }

    /// The distance of the token once it is measured; infinite before.
    pub open spec fn measured_distance(self) -> Size {
        match self.distance() {
            Some(Measurement::Measured(size)) => size,
            _ => Size::Infinite,
        }
    }

    /// What the printer is told for the token.
    pub open spec fn printer_op(self) -> PrinterOp {
        match self {
            TokenView::Begin { break_style, .. } => PrinterOp::Begin(
                break_style,
                self.measured_distance(),
            ),
            TokenView::Raw(text) => PrinterOp::Raw(text),
            TokenView::SoftBreak { .. } => PrinterOp::SoftBreak(self.measured_distance()),
            TokenView::Space(size) => PrinterOp::Space(size),
            TokenView::Indent(diff) => PrinterOp::Indent(diff),
            TokenView::End => PrinterOp::End,
        }
    }
}

/// The operations that the tokens stand for.
pub open spec fn token_shapes(items: Seq<TokenView>) -> Seq<Op> {
    items.map_values(|token: TokenView| token.shape())
}

impl PrinterView {
    /// The state after the operation.
    pub open spec fn step(self, op: PrinterOp) -> PrinterView {
        match op {
            PrinterOp::Begin(break_style, distance) => self.begin(break_style, distance),
            PrinterOp::End => self.end(),
            PrinterOp::Indent(diff) => self.indent(diff),
            PrinterOp::SoftBreak(distance) => self.soft_break(distance),
            PrinterOp::Space(size) => self.space(size),
            PrinterOp::HardBreak(count) => self.hard_break(count),
            PrinterOp::Raw(text) => self.raw(text),
        }
    }

    /// The state after the operations, in their order.
    #[verifier::opaque]
    pub open spec fn run(self, ops: Seq<PrinterOp>) -> PrinterView
        decreases ops.len(),
    {
        if ops.len() == 0 {
            self
        } else {
            self.run(ops.drop_last()).step(ops.last())
        }
    }
}

/// Doing no operation changes nothing.
pub proof fn lemma_run_empty(printer: PrinterView)
    ensures
        printer.run(Seq::empty()) == printer,
{
    reveal(PrinterView::run);
}

/// Doing the operations and then one more is doing them all.
pub proof fn lemma_run_push(printer: PrinterView, ops: Seq<PrinterOp>, op: PrinterOp)
    ensures
        printer.run(ops.push(op)) == printer.run(ops).step(op),
{
    reveal(PrinterView::run);
    assert(ops.push(op).drop_last() =~= ops);
}

/// Doing the operations `first` and then `second` is doing `first + second`.
pub proof fn lemma_run_concat(printer: PrinterView, first: Seq<PrinterOp>, second: Seq<PrinterOp>)
    ensures
        printer.run(first + second) == printer.run(first).run(second),
    decreases second.len(),
{
    reveal(PrinterView::run);
    if second.len() == 0 {
        assert(first + second =~= first);
    } else {
        lemma_run_concat(printer, first, second.drop_last());
        assert((first + second).drop_last() =~= first + second.drop_last());
    }
}

/// Doing one operation and then others is doing them all.
pub proof fn lemma_run_first(printer: PrinterView, op: PrinterOp, rest: Seq<PrinterOp>)
    ensures
        printer.run(seq![op] + rest) == printer.step(op).run(rest),
{
    lemma_run_concat(printer, seq![op], rest);
    lemma_run_empty(printer);
    lemma_run_push(printer, Seq::empty(), op);
    assert(Seq::<PrinterOp>::empty().push(op) =~= seq![op]);
}

impl NormalizedView {
    /// The state after the operation.
    pub open spec fn apply(self, op: Op) -> NormalizedView {
        match op {
            Op::Begin(break_style) => self.begin(break_style),
            Op::End => self.end(),
            Op::Indent(diff) => self.indent(diff),
            Op::SoftBreak => self.soft_break(),
            Op::Space(size) => self.space(size),
            Op::HardBreak(count) => self.hard_break(count),
            Op::Raw(text) => self.raw(text),
        }
    }

    /// The state after the operations, in their order.
    #[verifier::opaque]
    pub open spec fn run(self, ops: Seq<Op>) -> NormalizedView
        decreases ops.len(),
    {
        if ops.len() == 0 {
            self
        } else {
            self.run(ops.drop_last()).apply(ops.last())
        }
    }
}

/// What printing has done: the printer was told `told`, which are the tokens
/// that left the queue.
pub open spec fn hands_over(
    before: NormalizedView,
    after: NormalizedView,
    told: Seq<PrinterOp>,
) -> bool {
    &&& after.printer == before.printer.run(told)
    &&& shapes(told) + token_shapes(after.deque.items) == token_shapes(before.deque.items)
}

/// Printing the measured tokens tells the printer the tokens that leave the
/// queue, in their order, and keeps the invariant.
pub proof fn lemma_print_measured_trace(state: NormalizedView) -> (told: Seq<PrinterOp>)
    requires
        state.wf(),
    ensures
        state.print_measured().wf(),
        hands_over(state, state.print_measured(), told),
        state.print_measured().total == state.total,
    decreases state.deque.items.len(),
{
    if front_is_ready(state) {
        let front = state.deque.items[0];
        let next = state.printed_front(state.printer.step(front.printer_op()));
        lemma_printed_front_wf(state, state.printer.step(front.printer_op()));
        assert(state.print_measured() == next.print_measured());
        let rest = lemma_print_measured_trace(next);
        let told = seq![front.printer_op()] + rest;
        lemma_run_first(state.printer, front.printer_op(), rest);
        assert(shapes(told) + token_shapes(next.print_measured().deque.items) =~= token_shapes(
            state.deque.items,
        )) by {
            assert(shapes(told) =~= seq![front.shape()] + shapes(rest));
            assert(token_shapes(state.deque.items) =~= seq![front.shape()] + token_shapes(
                next.deque.items,
            ));
        }
        told
    } else {
        lemma_run_empty(state.printer);
        assert(state.print_measured() == state);
        assert(shapes(Seq::empty()) + token_shapes(state.deque.items) =~= token_shapes(
            state.deque.items,
        ));
        Seq::empty()
    }
}

/// Giving up on the distance of the front token changes no token but in its
/// distance.
pub proof fn lemma_force_front_shapes(state: NormalizedView)
    ensures
        token_shapes(state.force_front().deque.items) == token_shapes(state.deque.items),
        state.force_front().printer == state.printer,
        state.force_front().total == state.total,
{
    assert(token_shapes(state.force_front().deque.items) =~= token_shapes(state.deque.items));
}

/// Printing while the tokens overflow, or all of them where `always` holds,
/// tells the printer the tokens that leave the queue, in their order, and
/// keeps the invariant. Where `always` holds no token stays in the queue.
pub proof fn lemma_break_while_trace(state: NormalizedView, always: bool) -> (told: Seq<
    PrinterOp,
>)
    requires
        state.wf(),
    ensures
        state.break_while(always).wf(),
        hands_over(state, state.break_while(always), told),
        state.break_while(always).total == state.total,
        always ==> state.break_while(always).deque.items.len() == 0,
        state.break_while(always).deque.items.len() <= state.deque.items.len(),
    decreases state.deque.items.len(),
{
    if !(always || state.overflows()) || state.deque.items.len() == 0 {
        lemma_run_empty(state.printer);
        assert(shapes(Seq::empty()) + token_shapes(state.deque.items) =~= token_shapes(
            state.deque.items,
        ));
        Seq::empty()
    } else {
        let forced = state.force_front();
        lemma_force_front_wf(state);
        lemma_force_front_shapes(state);
        lemma_print_measured_len(forced);
        let next = forced.print_measured();
        let first = lemma_print_measured_trace(forced);
        let rest = lemma_break_while_trace(next, always);
        lemma_run_concat(state.printer, first, rest);
        let told = first + rest;
        assert(shapes(told) + token_shapes(state.break_while(always).deque.items)
            =~= token_shapes(state.deque.items)) by {
            assert(shapes(told) =~= shapes(first) + shapes(rest));
            assert(shapes(first) + (shapes(rest) + token_shapes(
                next.break_while(always).deque.items,
            )) =~= shapes(first) + shapes(rest) + token_shapes(
                next.break_while(always).deque.items,
            ));
        }
        told
    }
}

/// Measuring a token changes no token but in its distance.
pub proof fn lemma_measured_shapes(state: NormalizedView, index: usize)
    ensures
        token_shapes(state.measured(index).deque.items) == token_shapes(state.deque.items),
        state.measured(index).printer == state.printer,
        state.measured(index).total == state.total,
        state.measured(index).unmeasured == state.unmeasured,
{
    assert(token_shapes(state.measured(index).deque.items) =~= token_shapes(state.deque.items));
}

/// Measuring changes no token but in its distance, tells the printer
/// nothing, and keeps the invariant.
pub proof fn lemma_measure_below_shapes(state: NormalizedView, cursor: int, depth: nat)
    requires
        state.wf(),
    ensures
        state.measure_below(cursor, depth).wf(),
        state.measure_below(cursor, depth).deque.items.len() == state.deque.items.len(),
        token_shapes(state.measure_below(cursor, depth).deque.items) == token_shapes(
            state.deque.items,
        ),
        state.measure_below(cursor, depth).printer == state.printer,
        state.measure_below(cursor, depth).total == state.total,
    decreases cursor,
{
    if cursor <= 0 || cursor > state.unmeasured.len() {
    } else {
        let at = cursor - 1;
        let index = state.unmeasured[at];
        lemma_forget_wf(state, at, true);
        lemma_measured_shapes(state.forget(at), index);
        match state.deque.get(index) {
            None => {
                lemma_measure_below_shapes(state.forget(at), at, depth);
            },
            Some(TokenView::Begin { .. }) => {
                if depth == 0 {
                    if at + 1 == state.unmeasured.len() {
                        lemma_measure_below_shapes(state, at, depth);
                    }
                } else {
                    lemma_measure_below_shapes(
                        state.forget(at).measured(index),
                        at,
                        (depth - 1) as nat,
                    );
                }
            },
            Some(TokenView::End) => {
                lemma_measure_below_shapes(state.forget(at), at, depth + 1);
            },
            Some(TokenView::SoftBreak { .. }) => {
                if depth != 0 {
                    lemma_measure_below_shapes(state.forget(at).measured(index), at, depth);
                }
            },
            Some(_) => {
                lemma_measure_below_shapes(state, at, depth);
            },
        }
    }
}

/// What an operation has done: the printer was told `told`, which are the
/// tokens that left the queue; the token of the operation came to the
/// queue.
pub open spec fn takes_in(
    before: NormalizedView,
    after: NormalizedView,
    op: Op,
    told: Seq<PrinterOp>,
) -> bool {
    &&& after.printer == before.printer.run(told)
    &&& shapes(told) + token_shapes(after.deque.items) == token_shapes(before.deque.items).push(op)
}

/// A token at the back of the queue is an operation at the back of the
/// operations of the queue.
pub proof fn lemma_push_shapes(items: Seq<TokenView>, token: TokenView)
    ensures
        token_shapes(items.push(token)) == token_shapes(items).push(token.shape()),
{
    assert(token_shapes(items.push(token)) =~= token_shapes(items).push(token.shape()));
}

/// Every operation keeps the invariant, and tells the printer some of the
/// tokens of the queue, in their order.
pub proof fn lemma_apply_trace(state: NormalizedView, op: Op) -> (told: Seq<PrinterOp>)
    requires
        state.wf(),
        state.deque.items.len() < usize::MAX,
    ensures
        state.apply(op).wf(),
        takes_in(state, state.apply(op), op, told),
        state.apply(op).deque.items.len() <= state.deque.items.len() + 1,
{
    let items = state.deque.items;
    match op {
        Op::Begin(break_style) => {
            let token = TokenView::Begin {
                next_break_distance: Measurement::Unmeasured { preceding_tokens_size: state.total },
                break_style,
            };
            lemma_push_unmeasured_wf(state, token);
            lemma_push_shapes(items, token);
            lemma_run_empty(state.printer);
            assert(shapes(Seq::empty()) + token_shapes(items.push(token)) =~= token_shapes(
                items,
            ).push(op));
            Seq::empty()
        },
        Op::End => {
            lemma_push_unmeasured_wf(state, TokenView::End);
            lemma_push_shapes(items, TokenView::End);
            lemma_run_empty(state.printer);
            assert(shapes(Seq::empty()) + token_shapes(items.push(TokenView::End))
                =~= token_shapes(items).push(op));
            Seq::empty()
        },
        Op::Indent(diff) => {
            lemma_push_wf(state, TokenView::Indent(diff));
            lemma_push_shapes(items, TokenView::Indent(diff));
            lemma_run_empty(state.printer);
            assert(shapes(Seq::empty()) + token_shapes(items.push(TokenView::Indent(diff)))
                =~= token_shapes(items).push(op));
            Seq::empty()
        },
        Op::SoftBreak => {
            lemma_measure_below_shapes(state, state.unmeasured.len() as int, 0);
            let measured = state.measure();
            let token = TokenView::SoftBreak {
                next_break_distance: Measurement::Unmeasured {
                    preceding_tokens_size: measured.total,
                },
            };
            lemma_push_unmeasured_wf(measured, token);
            lemma_push_shapes(measured.deque.items, token);
            lemma_run_empty(state.printer);
            assert(shapes(Seq::empty()) + token_shapes(measured.deque.items.push(token))
                =~= token_shapes(items).push(op));
            Seq::empty()
        },
        Op::Space(size) => {
            let token = TokenView::Space(size);
            lemma_push_sized_wf(state, token);
            lemma_push_shapes(items, token);
            let pushed = state.push(token).grown(size);
            let told = lemma_break_while_trace(pushed, false);
            told
        },
        Op::Raw(text) => {
            let token = TokenView::Raw(text);
            lemma_push_sized_wf(state, token);
            lemma_push_shapes(items, token);
            let pushed = state.push(token).grown(text.size);
            let told = lemma_break_while_trace(pushed, false);
            told
        },
        Op::HardBreak(count) => {
            lemma_measure_below_shapes(state, state.unmeasured.len() as int, 0);
            let measured = state.measure();
            let first = lemma_break_while_trace(measured, true);
            let flushed = measured.break_while(true);
            lemma_printer_keeps_wf(flushed, flushed.printer.hard_break(count));
            let told = first.push(PrinterOp::HardBreak(count));
            lemma_run_push(state.printer, first, PrinterOp::HardBreak(count));
            assert(shapes(told) + token_shapes(state.apply(op).deque.items) =~= token_shapes(
                items,
            ).push(op)) by {
                assert(shapes(told) =~= shapes(first).push(op));
                assert(shapes(first) =~= shapes(first) + token_shapes(flushed.deque.items));
            }
            told
        },
    }
}

/// Doing no operation changes nothing.
pub proof fn lemma_normalized_run_empty(state: NormalizedView)
    ensures
        state.run(Seq::empty()) == state,
{
    reveal(NormalizedView::run);
}

/// Doing the operations and then one more is doing them all.
pub proof fn lemma_normalized_run_push(state: NormalizedView, ops: Seq<Op>, op: Op)
    ensures
        state.run(ops.push(op)) == state.run(ops).apply(op),
{
    reveal(NormalizedView::run);
    assert(ops.push(op).drop_last() =~= ops);
}

/// Doing the operations `first` and then `second` is doing `first + second`.
pub proof fn lemma_normalized_run_concat(state: NormalizedView, first: Seq<Op>, second: Seq<Op>)
    ensures
        state.run(first + second) == state.run(first).run(second),
    decreases second.len(),
{
    reveal(NormalizedView::run);
    if second.len() == 0 {
        assert(first + second =~= first);
    } else {
        lemma_normalized_run_concat(state, first, second.drop_last());
        assert((first + second).drop_last() =~= first + second.drop_last());
    }
}

/// The operations keep the invariant, and tell the printer some of the
/// tokens of the queue, in their order.
pub proof fn lemma_run_trace(state: NormalizedView, ops: Seq<Op>) -> (told: Seq<PrinterOp>)
    requires
        state.wf(),
        state.deque.items.len() + ops.len() <= usize::MAX,
    ensures
        state.run(ops).wf(),
        state.run(ops).printer == state.printer.run(told),
        shapes(told) + token_shapes(state.run(ops).deque.items) == token_shapes(
            state.deque.items,
        ) + ops,
        state.run(ops).deque.items.len() <= state.deque.items.len() + ops.len(),
    decreases ops.len(),
{
    if ops.len() == 0 {
        assert(ops =~= Seq::<Op>::empty());
        lemma_normalized_run_empty(state);
        lemma_run_empty(state.printer);
        assert(shapes(Seq::empty()) + token_shapes(state.deque.items) =~= token_shapes(
            state.deque.items,
        ) + ops);
        Seq::empty()
    } else {
        let first = lemma_run_trace(state, ops.drop_last());
        let middle = state.run(ops.drop_last());
        assert(middle.deque.items.len() < usize::MAX);
        let second = lemma_apply_trace(middle, ops.last());
        assert(ops.drop_last().push(ops.last()) =~= ops);
        lemma_normalized_run_push(state, ops.drop_last(), ops.last());
        assert(state.run(ops) == middle.apply(ops.last()));
        lemma_run_concat(state.printer, first, second);
        let told = first + second;
        assert(shapes(told) + token_shapes(state.run(ops).deque.items) =~= token_shapes(
            state.deque.items,
        ) + ops) by {
            assert(shapes(told) =~= shapes(first) + shapes(second));
            assert(shapes(first) + token_shapes(middle.deque.items) == token_shapes(
                state.deque.items,
            ) + ops.drop_last());
            assert(shapes(second) + token_shapes(state.run(ops).deque.items) == token_shapes(
                middle.deque.items,
            ).push(ops.last()));
            assert((shapes(first) + shapes(second)) + token_shapes(state.run(ops).deque.items)
                =~= shapes(first) + (shapes(second) + token_shapes(
                state.run(ops).deque.items,
            )));
            assert(shapes(first) + token_shapes(middle.deque.items).push(ops.last()) =~= (shapes(
                first,
            ) + token_shapes(middle.deque.items)).push(ops.last()));
            assert((token_shapes(state.deque.items) + ops.drop_last()).push(ops.last())
                =~= token_shapes(state.deque.items) + ops);
        }
        told
    }
}

/// At the end of the input the printer is told all tokens of the queue, in
/// their order.
pub proof fn lemma_eoi_trace(state: NormalizedView) -> (told: Seq<PrinterOp>)
    requires
        state.wf(),
    ensures
        state.eoi().printer == state.printer.run(told),
        shapes(told) == token_shapes(state.deque.items),
{
    lemma_measure_below_shapes(state, state.unmeasured.len() as int, 0);
    let measured = state.measure();
    let first = lemma_print_measured_trace(measured);
    let printed = measured.print_measured();
    let second = lemma_break_while_trace(printed, true);
    lemma_run_concat(state.printer, first, second);
    let told = first + second;
    assert(shapes(told) =~= token_shapes(state.deque.items)) by {
        assert(shapes(told) =~= shapes(first) + shapes(second));
        assert(shapes(second) =~= shapes(second) + token_shapes(
            printed.break_while(true).deque.items,
        ));
    }
    told
}

/// The printer of a formatter that was given operations and then the end of
/// the input was told these operations, in their order, each with some
/// distance.
pub proof fn lemma_printer_is_told_all(state: NormalizedView, ops: Seq<Op>) -> (told: Seq<
    PrinterOp,
>)
    requires
        state.wf(),
        state.deque.items.len() == 0,
        ops.len() <= usize::MAX,
    ensures
        state.run(ops).eoi().printer == state.printer.run(told),
        shapes(told) == ops,
{
    let first = lemma_run_trace(state, ops);
    let second = lemma_eoi_trace(state.run(ops));
    lemma_run_concat(state.printer, first, second);
    assert(shapes(first + second) =~= ops) by {
        assert(shapes(first + second) =~= shapes(first) + shapes(second));
        assert(token_shapes(state.deque.items) + ops =~= ops);
    }
    first + second
}

} // verus!
