//! Quoted content goes to the output as it is, in one piece.

use crate::chars::{contains, fill, occurs_at};
use crate::decondenser::Decondenser;
use crate::formatting::engine::normal::{
    all_emitted, emitted, lemma_formatter_trace, normalized_ops, waiting_ops,
};
use crate::formatting::engine::printer::{Blanks, PrinterView};
use crate::formatting::engine::trace::{lemma_run_push, shapes, PrinterOp};
use crate::formatting::engine::{Blank, FormatterView, Op};
use crate::formatting::laws::leading::lemma_all_emitted_take;
use crate::formatting::laws::blanks::{operations, start};
use crate::formatting::{
    between_ops, blank_count, blank_has_newline, blank_size, blank_size_at, closing_ops,
    format_ops, formatted, group_body_ops, group_inner, inner_end, left, lemma_format_ops,
    lemma_trailing_blank, measured, node_ops, pieces_ops, punct_ops, quoted_ops, taken_blank,
    trailing_blank_count,
};
use crate::parsing::l2;
use crate::parsing::l2::quotes::{lemma_parsed_quoted, quoted_in};
use crate::parsing::l2::text::{pieces_text, quoted_text};
use crate::parsing::l2::token_tree::TreeView;
use crate::visual_size::VisualSize;
use crate::parsing::quoted::l2::TokenView as QuotedView;
use crate::formatting::laws::count::{countable, lemma_operations_count};
use vstd::prelude::*;

verus! {

/// Whether `text` ends with `part`.
pub open spec fn ends_with(text: Seq<char>, part: Seq<char>) -> bool {
    occurs_at(text, text.len() - part.len(), part)
}

/// Whether the operations from `from` up to `to` are all raw text.
pub open spec fn is_raw_run(ops: Seq<Op>, from: int, to: int) -> bool {
    &&& 0 <= from <= to <= ops.len()
    &&& forall|i: int| from <= i < to ==> (#[trigger] ops[i]) is Raw
}

/// The texts of the raw operations from `from` up to `to`, one after
/// another.
pub open spec fn run_text(ops: Seq<Op>, from: int, to: int) -> Seq<char>
    decreases to - from,
{
    if to <= from || to > ops.len() || from < 0 {
        Seq::empty()
    } else {
        run_text(ops, from, to - 1) + match ops[to - 1] {
            Op::Raw(text) => text.chars,
            _ => Seq::empty(),
        }
    }
}

/// A printer only ever adds to its output: what stood in it stands in it.
pub proof fn lemma_step_keeps(printer: PrinterView, op: PrinterOp, part: Seq<char>)
    requires
        contains(printer.output, part),
    ensures
        contains(printer.step(op).output, part),
{
    let at = choose|at: int| occurs_at(printer.output, at, part);
    let after = printer.step(op).output;
    match op {
        PrinterOp::Raw(text) => {
            assert(after.subrange(at, at + part.len()) =~= printer.output.subrange(
                at,
                at + part.len(),
            ));
            assert(occurs_at(after, at, part));
        },
        _ => {
            assert(occurs_at(after, at, part));
        },
    }
}

/// A printer that is told a run of raw texts with characters prints them one
/// right after another.
pub proof fn lemma_run_prints_run(printer: PrinterView, told: Seq<PrinterOp>, from: int, to: int)
    requires
        is_raw_run(shapes(told), from, to),
        forall|i: int|
            from <= i < to ==> (#[trigger] shapes(told)[i] matches Op::Raw(text)
                && text.chars.len() > 0),
    ensures
        ends_with(printer.run(told.take(to)).output, run_text(shapes(told), from, to)),
        from < to ==> printer.run(told.take(to)).pending == Blanks::Spaces(0),
    decreases to - from,
{
    let ops = shapes(told);
    let after = printer.run(told.take(to));
    if from == to {
        assert(after.output.subrange(after.output.len() as int, after.output.len() as int)
            =~= Seq::<char>::empty());
    } else {
        lemma_run_prints_run(printer, told, from, to - 1);
        let before = printer.run(told.take(to - 1));
        let op = told[to - 1];
        assert(told.take(to) =~= told.take(to - 1).push(op));
        lemma_run_push(printer, told.take(to - 1), op);
        assert(ops[to - 1] == op.shape());
        match op {
            PrinterOp::Raw(text) => {
                let earlier = run_text(ops, from, to - 1);
                let all = run_text(ops, from, to);
                assert(all == earlier + text.chars);
                if from < to - 1 {
                    assert(before.blank_text() =~= Seq::<char>::empty()) by {
                        assert(fill(' ', 0) =~= Seq::<char>::empty());
                    }
                    assert(after.output =~= before.output + text.chars);
                    let at = before.output.len() - earlier.len();
                    assert(after.output.subrange(at, at + all.len()) =~= before.output.subrange(
                        at,
                        at + earlier.len(),
                    ) + text.chars);
                } else {
                    assert(earlier =~= Seq::<char>::empty());
                    let at = after.output.len() - text.chars.len();
                    assert(after.output.subrange(at, at + all.len()) =~= text.chars);
                }
            },
            _ => {},
        }
    }
}

/// What a printer has printed after some of its operations stands in what
/// it has printed after all of them.
pub proof fn lemma_run_keeps(printer: PrinterView, told: Seq<PrinterOp>, count: int, part: Seq<char>)
    requires
        0 <= count <= told.len(),
        contains(printer.run(told.take(count)).output, part),
    ensures
        contains(printer.run(told).output, part),
    decreases told.len() - count,
{
    if count == told.len() {
        assert(told.take(count) =~= told);
    } else {
        let op = told[count];
        assert(told.take(count + 1) =~= told.take(count).push(op));
        lemma_run_push(printer, told.take(count), op);
        lemma_step_keeps(printer.run(told.take(count)), op, part);
        lemma_run_keeps(printer, told, count + 1, part);
    }
}

/// A printer that is told a run of raw texts with characters, among other
/// operations, has the texts of the run in its output, one right after
/// another.
pub proof fn lemma_printer_keeps_run(printer: PrinterView, told: Seq<PrinterOp>, from: int, to: int)
    requires
        is_raw_run(shapes(told), from, to),
        forall|i: int|
            from <= i < to ==> (#[trigger] shapes(told)[i] matches Op::Raw(text)
                && text.chars.len() > 0),
    ensures
        contains(printer.run(told).output, run_text(shapes(told), from, to)),
{
    lemma_run_prints_run(printer, told, from, to);
    let after = printer.run(told.take(to)).output;
    let part = run_text(shapes(told), from, to);
    assert(occurs_at(after, after.len() - part.len(), part));
    lemma_run_keeps(printer, told, to, part);
}

/// The text of a run depends on the operations of the run alone.
pub proof fn lemma_run_text_same(first: Seq<Op>, second: Seq<Op>, from: int, to: int)
    requires
        0 <= from <= to <= first.len(),
        to <= second.len(),
        forall|i: int| from <= i < to ==> first[i] == second[i],
    ensures
        run_text(first, from, to) == run_text(second, from, to),
    decreases to - from,
{
    if from < to {
        lemma_run_text_same(first, second, from, to - 1);
    }
}

/// Whether nothing waits in the formatter.
pub open spec fn nothing_waits(state: FormatterView) -> bool {
    &&& state.indent == 0
    &&& state.control.len() == 0
    &&& state.blank == Blank::Space(0)
}

/// Whether the operations from `from` on are a run of raw texts with
/// characters whose text is `text`.
pub open spec fn ends_in_run(ops: Seq<Op>, from: int, text: Seq<char>) -> bool {
    &&& is_raw_run(ops, from, ops.len() as int)
    &&& forall|i: int|
        from <= i < ops.len() ==> (#[trigger] ops[i] matches Op::Raw(text)
            && text.chars.len() > 0)
    &&& run_text(ops, from, ops.len() as int) == text
}

/// A run of raw texts that the formatter is given is handed on as a run of
/// the raw texts with characters, with nothing in between.
pub proof fn lemma_emitted_run(state: FormatterView, ops: Seq<Op>, from: int, to: int) -> (at: int)
    requires
        is_raw_run(ops, from, to),
    ensures
        ends_in_run(all_emitted(state, ops.take(to)), at, run_text(ops, from, to)),
        at < all_emitted(state, ops.take(to)).len() ==> nothing_waits(
            state.apply_all(ops.take(to)),
        ),
    decreases to - from,
{
    reveal(FormatterView::apply_all);
    if from == to {
        let handed = all_emitted(state, ops.take(to));
        handed.len() as int
    } else {
        let at = lemma_emitted_run(state, ops, from, to - 1);
        let earlier = all_emitted(state, ops.take(to - 1));
        let middle = state.apply_all(ops.take(to - 1));
        let op = ops[to - 1];
        assert(ops.take(to).drop_last() =~= ops.take(to - 1));
        assert(ops.take(to).last() == op);
        let handed = all_emitted(state, ops.take(to));
        assert(handed == earlier + emitted(middle, op));
        match op {
            Op::Raw(text) => {
                if text.chars.len() == 0 {
                    assert(handed =~= earlier);
                    assert(run_text(ops, from, to) =~= run_text(ops, from, to - 1));
                    at
                } else if at < earlier.len() {
                    assert(waiting_ops(middle) =~= Seq::<Op>::empty());
                    assert(handed =~= earlier.push(op));
                    lemma_run_text_same(earlier, handed, at, earlier.len() as int);
                    at
                } else {
                    let start: int = (earlier.len() + waiting_ops(middle).len()) as int;
                    assert(handed =~= earlier + waiting_ops(middle).push(op));
                    assert(handed[start] == op);
                    assert(run_text(ops, from, to - 1) =~= Seq::<char>::empty());
                    assert(run_text(handed, start, start) =~= Seq::<char>::empty());
                    assert(run_text(handed, start, start + 1) =~= text.chars);
                    assert(run_text(ops, from, to) =~= text.chars);
                    start
                }
            },
            _ => {
                at
            },
        }
    }
}

/// A run of raw texts that the formatter is given is, among the operations
/// that the normalization hands on, a run of the raw texts with characters,
/// with nothing in between.
pub proof fn lemma_normalized_run(state: FormatterView, ops: Seq<Op>, from: int, to: int) -> (run:
    (int, int))
    requires
        is_raw_run(ops, from, to),
    ensures
        is_raw_run(normalized_ops(state, ops), run.0, run.1),
        forall|i: int|
            run.0 <= i < run.1 ==> (#[trigger] normalized_ops(state, ops)[i] matches Op::Raw(text)
                && text.chars.len() > 0),
        run_text(normalized_ops(state, ops), run.0, run.1) == run_text(ops, from, to),
{
    let at = lemma_emitted_run(state, ops, from, to);
    let short = all_emitted(state, ops.take(to));
    let all = all_emitted(state, ops);
    let handed = normalized_ops(state, ops);
    lemma_all_emitted_take(state, ops, to);
    let end = short.len() as int;
    assert forall|i: int| 0 <= i < end implies short[i] == handed[i] by {
        assert(short[i] == all.take(end)[i]);
        assert(handed[i] == all[i]);
    }
    assert forall|i: int| at <= i < end implies (#[trigger] handed[i]) is Raw by {
        assert(short[i] is Raw);
    }
    assert forall|i: int| at <= i < end implies (#[trigger] handed[i] matches Op::Raw(text)
        && text.chars.len() > 0) by {
        assert(short[i] == handed[i]);
    }
    lemma_run_text_same(short, handed, at, end);
    (at, end)
}

/// Whether `run` stands somewhere among the operations, with nothing in
/// between.
pub open spec fn holds_run(ops: Seq<Op>, run: Seq<Op>) -> bool {
    exists|at: int| 0 <= at && at + run.len() <= ops.len() && #[trigger] ops.subrange(
        at,
        at + run.len(),
    ) == run
}

/// Operations behind a run change nothing of it.
pub proof fn lemma_holds_run_append(ops: Seq<Op>, more: Seq<Op>, run: Seq<Op>)
    requires
        holds_run(ops, run),
    ensures
        holds_run(ops + more, run),
{
    let at = choose|at: int|
        0 <= at && at + run.len() <= ops.len() && #[trigger] ops.subrange(at, at + run.len())
            == run;
    assert((ops + more).subrange(at, at + run.len()) =~= ops.subrange(at, at + run.len()));
}

/// Operations before a run change nothing of it.
pub proof fn lemma_holds_run_prepend(more: Seq<Op>, ops: Seq<Op>, run: Seq<Op>)
    requires
        holds_run(ops, run),
    ensures
        holds_run(more + ops, run),
{
    let at = choose|at: int|
        0 <= at && at + run.len() <= ops.len() && #[trigger] ops.subrange(at, at + run.len())
            == run;
    assert((more + ops).subrange(more.len() + at, more.len() + at + run.len())
        =~= ops.subrange(at, at + run.len()));
}

/// The operations hold themselves.
pub proof fn lemma_holds_run_self(run: Seq<Op>)
    ensures
        holds_run(run, run),
{
    assert(run.subrange(0int, 0int + run.len()) =~= run);
}

/// The text of a run that is behind another run.
pub proof fn lemma_run_text_concat(first: Seq<Op>, second: Seq<Op>)
    requires
        is_raw_run(first, 0, first.len() as int),
        is_raw_run(second, 0, second.len() as int),
    ensures
        is_raw_run(first + second, 0, (first + second).len() as int),
        run_text(first + second, 0, (first + second).len() as int) == run_text(
            first,
            0,
            first.len() as int,
        ) + run_text(second, 0, second.len() as int),
    decreases second.len(),
{
    let all = first + second;
    assert forall|i: int| 0 <= i < all.len() implies (#[trigger] all[i]) is Raw by {
        if i < first.len() {
            assert(all[i] == first[i]);
        } else {
            assert(all[i] == second[i - first.len()]);
        }
    }
    if second.len() == 0 {
        assert(all =~= first);
        assert(run_text(second, 0, 0) =~= Seq::<char>::empty());
        assert(run_text(first, 0, first.len() as int) + Seq::<char>::empty() =~= run_text(
            first,
            0,
            first.len() as int,
        ));
    } else {
        let shorter = second.drop_last();
        assert(is_raw_run(shorter, 0, shorter.len() as int)) by {
            assert forall|i: int| 0 <= i < shorter.len() implies (#[trigger] shorter[i]) is Raw by {
                assert(shorter[i] == second[i]);
            }
        }
        lemma_run_text_concat(first, shorter);
        let most = first + shorter;
        lemma_run_text_same(most, all, 0, most.len() as int);
        lemma_run_text_same(shorter, second, 0, shorter.len() as int);
        assert(all[all.len() - 1] == second[second.len() - 1]);
        assert(run_text(all, 0, all.len() as int) =~= run_text(first, 0, first.len() as int)
            + run_text(second, 0, second.len() as int));
    }
}

/// The operations for the pieces of quoted content are a run of raw texts
/// with the text of the pieces.
pub proof fn lemma_pieces_ops_text<V: VisualSize>(config: &Decondenser<V>, pieces: Seq<QuotedView>)
    ensures
        is_raw_run(pieces_ops(config, pieces), 0, pieces_ops(config, pieces).len() as int),
        run_text(pieces_ops(config, pieces), 0, pieces_ops(config, pieces).len() as int)
            == pieces_text(pieces),
    decreases pieces.len(),
{
    if pieces.len() > 0 {
        lemma_pieces_ops_text(config, pieces.drop_last());
        let last = seq![Op::Raw(measured(config, pieces.last().source()))];
        assert(run_text(last, 0, 0) =~= Seq::<char>::empty());
        assert(run_text(last, 0, 1) =~= pieces.last().source());
        lemma_run_text_concat(pieces_ops(config, pieces.drop_last()), last);
    }
}

/// The operations for quoted content are a run of raw texts with the text
/// of the quoted content.
pub proof fn lemma_quoted_ops_text<V: VisualSize>(config: &Decondenser<V>, token: TreeView)
    requires
        token is Quoted,
    ensures
        ({
            let ops = quoted_ops(
                config,
                token->Quoted_content,
                token->Quoted_closed,
                token->Quoted_config,
            );
            is_raw_run(ops, 0, ops.len() as int) && run_text(ops, 0, ops.len() as int)
                == quoted_text(token)
        }),
{
    let content = token->Quoted_content;
    let quote = token->Quoted_config;
    let first = seq![Op::Raw(measured(config, quote.opening@))];
    let second = pieces_ops(config, content);
    let third = if token->Quoted_closed {
        seq![Op::Raw(measured(config, quote.closing@))]
    } else {
        Seq::<Op>::empty()
    };
    assert(run_text(first, 0, 0) =~= Seq::<char>::empty());
    assert(run_text(first, 0, 1) =~= quote.opening@);
    lemma_pieces_ops_text(config, content);
    lemma_run_text_concat(first, second);
    if token->Quoted_closed {
        assert(run_text(third, 0, 0) =~= Seq::<char>::empty());
        assert(run_text(third, 0, 1) =~= quote.closing@);
    } else {
        assert(run_text(third, 0, 0) =~= Seq::<char>::empty());
    }
    lemma_run_text_concat(first + second, third);
}

/// Whether the token is `quoted`, or a group that holds `quoted`.
pub open spec fn token_holds(token: TreeView, quoted: TreeView) -> bool
    decreases token,
{
    token == quoted || (token matches TreeView::Group { content, .. } && exists|i: int|
        0 <= i < content.len() && token_holds(#[trigger] content[i], quoted))
}

/// Whether one of the tokens is `quoted`, or a group that holds `quoted`.
pub open spec fn tokens_hold(tokens: Seq<TreeView>, quoted: TreeView) -> bool {
    exists|i: int| 0 <= i < tokens.len() && token_holds(#[trigger] tokens[i], quoted)
}

/// Where the quoted content in a token stands in the input, so does the
/// quoted content that the token holds.
pub proof fn lemma_held_quoted_in(input: Seq<char>, token: TreeView, quoted: TreeView)
    requires
        token_holds(token, quoted),
        quoted_in(input, token),
    ensures
        quoted_in(input, quoted),
    decreases token,
{
    if token != quoted {
        let content = token->Group_content;
        let i = choose|i: int| 0 <= i < content.len() && token_holds(#[trigger] content[i], quoted);
        lemma_held_quoted_in(input, content[i], quoted);
    }
}

/// The tokens of a blank are blanks.
pub proof fn lemma_blank_run(tokens: Seq<TreeView>, from: int, end: int, at: int)
    requires
        0 <= from <= at < from + blank_count(tokens, from, end),
    ensures
        tokens[at].is_blank(),
        at < end <= tokens.len(),
    decreases end - from,
{
    if 0 <= from < end <= tokens.len() && tokens[from].is_blank() {
        if at > from {
            lemma_blank_run(tokens, from + 1, end, at);
        }
    }
}

/// The tokens of the blank at the end are blanks.
pub proof fn lemma_trailing_blank_run(tokens: Seq<TreeView>, end: int, at: int)
    requires
        end - trailing_blank_count(tokens, end) <= at < end,
    ensures
        tokens[at].is_blank(),
    decreases end,
{
    if 0 < end <= tokens.len() && tokens[end - 1].is_blank() {
        if at < end - 1 {
            lemma_trailing_blank_run(tokens, end - 1, at);
        }
    }
}

/// The operations for tokens hold, in one piece, the operations for the
/// quoted content that is among the tokens or in a group among them.
pub proof fn lemma_format_ops_hold<V: VisualSize>(
    config: &Decondenser<V>,
    tokens: Seq<TreeView>,
    from: int,
    end: int,
    index: int,
    quoted: TreeView,
)
    requires
        0 <= from <= index < end <= tokens.len(),
        quoted is Quoted,
        token_holds(tokens[index], quoted),
    ensures
        holds_run(
            format_ops(config, tokens, from, end),
            quoted_ops(
                config,
                quoted->Quoted_content,
                quoted->Quoted_closed,
                quoted->Quoted_config,
            ),
        ),
    decreases tokens, left(from, end),
{
    let run = quoted_ops(
        config,
        quoted->Quoted_content,
        quoted->Quoted_closed,
        quoted->Quoted_config,
    );
    lemma_format_ops(config, tokens, from, end);
    let blank = blank_count(tokens, from, end);
    let at = from + blank;
    if index < at {
        lemma_blank_run(tokens, from, end, index);
    }
    let inner = group_inner(config, tokens[at]);
    let taken = taken_blank(tokens, at, end);
    let next = at + 1 + taken;
    let node = node_ops(config, tokens, blank, at, end, inner);
    let rest = format_ops(config, tokens, next, end);
    if index > at {
        if index < next {
            lemma_blank_run(tokens, at + 1, end, index);
        }
        lemma_format_ops_hold(config, tokens, next, end, index, quoted);
        lemma_holds_run_prepend(node, rest, run);
    } else {
        let leading = blank_size(config, tokens, at - blank, blank);
        let trailing = blank_size(config, tokens, at + 1, taken);
        match tokens[at] {
            TreeView::Quoted { content, closed, config: quote } => {
                lemma_holds_run_self(run);
                lemma_holds_run_prepend(
                    between_ops(blank > 0, blank_has_newline(tokens, at - blank, blank)),
                    run,
                    run,
                );
            },
            TreeView::Group { content, closed, config: group } => {
                let inside = choose|i: int|
                    0 <= i < content.len() && token_holds(#[trigger] content[i], quoted);
                let last = inner_end(content);
                let first = blank_count(content, 0, last) as int;
                lemma_trailing_blank(content, content.len() as int);
                if inside >= last {
                    lemma_trailing_blank_run(content, content.len() as int, inside);
                }
                if inside < first {
                    lemma_blank_run(content, 0, last, inside);
                }
                lemma_format_ops_hold(config, content, first, last, inside, quoted);
                let opening = punct_ops(
                    config,
                    leading,
                    group.opening,
                    blank_size_at(config, content, 0, last),
                );
                let head = opening + seq![Op::Indent(1isize)];
                lemma_holds_run_prepend(head, inner, run);
                lemma_holds_run_append(head + inner, seq![Op::Indent(-1isize)], run);
                lemma_holds_run_append(
                    head + inner + seq![Op::Indent(-1isize)],
                    closing_ops(config, content, closed, group, trailing),
                    run,
                );
                let body = group_body_ops(config, leading, content, closed, group, trailing, inner);
                lemma_holds_run_prepend(seq![Op::Begin(group.break_style.0)], body, run);
                lemma_holds_run_append(
                    seq![Op::Begin(group.break_style.0)] + body,
                    seq![Op::End],
                    run,
                );
            },
            _ => {},
        }
        lemma_holds_run_append(node, rest, run);
    }
}

/// The text of quoted content, from its opening delimiter to its closing
/// delimiter, stands in the input and stands in the output as it is, in one
/// piece, whatever it holds. This holds of quoted content that is not
/// closed too, up to the end of the input.
///
/// `quoted` is any quoted content among the tokens of the input or in a
/// group among them. The input must be countable.
pub proof fn lemma_quoted_fidelity<V: VisualSize>(
    config: &Decondenser<V>,
    input: Seq<char>,
    quoted: TreeView,
)
    requires
        quoted is Quoted,
        tokens_hold(l2::parsed(config.syntax(), input), quoted),
        countable(input),
    ensures
        contains(input, quoted_text(quoted)),
        contains(formatted(config, input), quoted_text(quoted)),
{
    lemma_operations_count(config, input);
    let tokens = l2::parsed(config.syntax(), input);
    let end = tokens.len() as int;
    lemma_parsed_quoted(config.syntax(), input);
    let holder = choose|i: int| 0 <= i < tokens.len() && token_holds(#[trigger] tokens[i], quoted);
    lemma_held_quoted_in(input, tokens[holder], quoted);
    let ops = operations(config, input);
    let run = quoted_ops(
        config,
        quoted->Quoted_content,
        quoted->Quoted_closed,
        quoted->Quoted_config,
    );
    let index = choose|i: int| 0 <= i < tokens.len() && token_holds(#[trigger] tokens[i], quoted);
    let first = blank_count(tokens, 0, end) as int;
    if index < first {
        lemma_blank_run(tokens, 0, end, index);
    }
    lemma_format_ops_hold(config, tokens, first, end, index, quoted);
    let begin = seq![Op::Begin(crate::config::BreakStyleEnum::Consistent)];
    let inner = format_ops(config, tokens, first, end);
    lemma_holds_run_prepend(begin, inner, run);
    lemma_holds_run_append(begin + inner, seq![Op::End], run);
    let at = choose|at: int|
        0 <= at && at + run.len() <= ops.len() && #[trigger] ops.subrange(at, at + run.len())
            == run;
    lemma_quoted_ops_text(config, quoted);
    assert(is_raw_run(ops, at, at + run.len())) by {
        assert forall|i: int| at <= i < at + run.len() implies (#[trigger] ops[i]) is Raw by {
            assert(ops[i] == ops.subrange(at, at + run.len())[i - at]);
        }
    }
    lemma_run_text_shift(ops, at, run);
    let handed = lemma_normalized_run(start(config), ops, at, at + run.len());
    let told = lemma_formatter_trace(start(config), ops);
    lemma_printer_keeps_run(start(config).fmt.printer, told, handed.0, handed.1);
}

/// The text of a run that stands among other operations.
pub proof fn lemma_run_text_shift(ops: Seq<Op>, at: int, run: Seq<Op>)
    requires
        0 <= at,
        at + run.len() <= ops.len(),
        ops.subrange(at, at + run.len()) == run,
    ensures
        run_text(ops, at, at + run.len()) == run_text(run, 0, run.len() as int),
    decreases run.len(),
{
    if run.len() > 0 {
        let shorter = run.drop_last();
        assert(ops.subrange(at, at + shorter.len()) =~= shorter);
        lemma_run_text_shift(ops, at, shorter);
        lemma_run_text_same(shorter, run, 0, shorter.len() as int);
        assert(ops[at + run.len() - 1] == ops.subrange(at, at + run.len())[run.len() - 1]);
    }
}

} // verus!
