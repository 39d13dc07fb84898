//! What the normalization layer hands on: the operations that the measuring
//! part gets for the operations that the formatter is given.

use crate::formatting::engine::normalized::NormalizedView;
use crate::formatting::engine::trace::{
    lemma_normalized_run_concat, lemma_normalized_run_empty, lemma_normalized_run_push,
    lemma_printer_is_told_all, shapes, PrinterOp,
};
use crate::formatting::engine::{apply_controls, Blank, Control, FormatterView, Op};
use vstd::prelude::*;

verus! {

/// The operation that a waiting control stands for.
pub open spec fn control_op(control: Control) -> Op {
    match control {
        Control::SoftBreak => Op::SoftBreak,
        Control::Begin(break_style) => Op::Begin(break_style),
        Control::End => Op::End,
    }
}

/// The operations that the waiting controls stand for.
pub open spec fn control_ops(controls: Seq<Control>) -> Seq<Op> {
    controls.map_values(|control: Control| control_op(control))
}

/// The operation that a waiting blank stands for, if it stands for one.
pub open spec fn blank_ops(blank: Blank) -> Seq<Op> {
    match blank {
        Blank::Space(size) => if size > 0 {
            seq![Op::Space(size)]
        } else {
            Seq::empty()
        },
        Blank::HardBreak(count) => if count > 0 {
            seq![Op::HardBreak(count)]
        } else {
            Seq::empty()
        },
    }
}

/// The operation that a waiting change of indentation stands for, if it
/// stands for one.
pub open spec fn indent_ops(indent: isize) -> Seq<Op> {
    if indent != 0 {
        seq![Op::Indent(indent)]
    } else {
        Seq::empty()
    }
}

/// The operations that wait in the formatter, in the order in which the next
/// raw text hands them on: the change of indentation, the controls, the
/// blank.
pub open spec fn waiting_ops(state: FormatterView) -> Seq<Op> {
    indent_ops(state.indent) + control_ops(state.control) + blank_ops(state.blank)
}

/// The operations that the measuring part gets when the formatter is given
/// `op`: raw text is handed on behind all that waits; every other
/// operation, and raw text without characters, only waits or is dropped.
pub open spec fn emitted(state: FormatterView, op: Op) -> Seq<Op> {
    match op {
        Op::Raw(text) => if text.chars.len() > 0 {
            waiting_ops(state).push(op)
        } else {
            Seq::empty()
        },
        _ => Seq::empty(),
    }
}

/// The operations that the measuring part gets when the formatter is given
/// `ops`.
pub open spec fn all_emitted(state: FormatterView, ops: Seq<Op>) -> Seq<Op>
    decreases ops.len(),
{
    if ops.len() == 0 {
        Seq::empty()
    } else {
        all_emitted(state, ops.drop_last()) + emitted(
            state.apply_all(ops.drop_last()),
            ops.last(),
        )
    }
}

/// The operations that the measuring part gets at the end of the input: all
/// that waits but the blank, which is dropped.
pub open spec fn final_ops(state: FormatterView) -> Seq<Op> {
    indent_ops(state.indent) + control_ops(state.control)
}

/// All operations that the measuring part gets when the formatter is given
/// `ops` and then the end of the input.
pub open spec fn normalized_ops(state: FormatterView, ops: Seq<Op>) -> Seq<Op> {
    all_emitted(state, ops) + final_ops(state.apply_all(ops))
}

/// The waiting controls are handed on one by one.
pub proof fn lemma_apply_controls(fmt: NormalizedView, controls: Seq<Control>)
    ensures
        apply_controls(fmt, controls) == fmt.run(control_ops(controls)),
    decreases controls.len(),
{
    if controls.len() == 0 {
        assert(control_ops(controls) =~= Seq::<Op>::empty());
        lemma_normalized_run_empty(fmt);
    } else {
        lemma_apply_controls(fmt, controls.drop_last());
        lemma_normalized_run_push(
            fmt,
            control_ops(controls.drop_last()),
            control_op(controls.last()),
        );
        assert(control_ops(controls.drop_last()).push(control_op(controls.last()))
            =~= control_ops(controls));
    }
}

/// Handing on one operation, if there is one.
pub proof fn lemma_run_optional(fmt: NormalizedView, ops: Seq<Op>)
    requires
        ops.len() <= 1,
    ensures
        fmt.run(ops) == if ops.len() == 0 {
            fmt
        } else {
            fmt.apply(ops[0])
        },
{
    if ops.len() == 0 {
        assert(ops =~= Seq::<Op>::empty());
        lemma_normalized_run_empty(fmt);
    } else {
        lemma_normalized_run_empty(fmt);
        lemma_normalized_run_push(fmt, Seq::empty(), ops[0]);
        assert(Seq::<Op>::empty().push(ops[0]) =~= ops);
    }
}

/// What waits is handed on in its order.
pub proof fn lemma_flush(state: FormatterView)
    ensures
        state.flush().fmt == state.fmt.run(waiting_ops(state)),
        state.flush().indent == 0,
        state.flush().control == Seq::<Control>::empty(),
        state.flush().blank == Blank::Space(0),
{
    let indented = state.fmt.run(indent_ops(state.indent));
    lemma_run_optional(state.fmt, indent_ops(state.indent));
    lemma_apply_controls(indented, state.control);
    let controlled = indented.run(control_ops(state.control));
    lemma_run_optional(controlled, blank_ops(state.blank));
    lemma_normalized_run_concat(state.fmt, indent_ops(state.indent), control_ops(state.control));
    lemma_normalized_run_concat(
        state.fmt,
        indent_ops(state.indent) + control_ops(state.control),
        blank_ops(state.blank),
    );
}

/// The measuring part gets what `emitted` tells.
pub proof fn lemma_emitted(state: FormatterView, op: Op)
    ensures
        state.apply(op).fmt == state.fmt.run(emitted(state, op)),
{
    match op {
        Op::Raw(text) => {
            if text.chars.len() > 0 {
                lemma_flush(state);
                lemma_normalized_run_push(state.fmt, waiting_ops(state), op);
            } else {
                lemma_normalized_run_empty(state.fmt);
            }
        },
        _ => {
            lemma_normalized_run_empty(state.fmt);
        },
    }
}

/// The measuring part gets what `all_emitted` tells.
pub proof fn lemma_all_emitted(state: FormatterView, ops: Seq<Op>)
    ensures
        state.apply_all(ops).fmt == state.fmt.run(all_emitted(state, ops)),
    decreases ops.len(),
{
    reveal(FormatterView::apply_all);
    if ops.len() == 0 {
        lemma_normalized_run_empty(state.fmt);
    } else {
        lemma_all_emitted(state, ops.drop_last());
        let middle = state.apply_all(ops.drop_last());
        lemma_emitted(middle, ops.last());
        lemma_normalized_run_concat(
            state.fmt,
            all_emitted(state, ops.drop_last()),
            emitted(middle, ops.last()),
        );
    }
}

/// The output of a formatter that is given operations and then the end of
/// the input is that of the measuring part when it gets the operations that
/// the normalization hands on, and then the end of the input.
pub proof fn lemma_formatter_run(state: FormatterView, ops: Seq<Op>)
    ensures
        state.apply_all(ops).eoi() == state.fmt.run(
            normalized_ops(state, ops),
        ).eoi().printer.output,
{
    let last = state.apply_all(ops);
    let dropped = FormatterView { blank: Blank::Space(0), ..last };
    lemma_all_emitted(state, ops);
    lemma_flush(dropped);
    assert(waiting_ops(dropped) =~= final_ops(last));
    lemma_normalized_run_concat(state.fmt, all_emitted(state, ops), final_ops(last));
}

/// The output of a formatter that is given operations and then the end of
/// the input is what a printer prints that is told the operations that the
/// normalization hands on, in their order, each with some distance.
pub proof fn lemma_formatter_trace(state: FormatterView, ops: Seq<Op>) -> (told: Seq<PrinterOp>)
    requires
        state.wf(),
        state.fmt.deque.items.len() == 0,
        normalized_ops(state, ops).len() <= usize::MAX,
    ensures
        state.apply_all(ops).eoi() == state.fmt.printer.run(told).output,
        shapes(told) == normalized_ops(state, ops),
{
    lemma_formatter_run(state, ops);
    lemma_printer_is_told_all(state.fmt, normalized_ops(state, ops))
}

} // verus!
