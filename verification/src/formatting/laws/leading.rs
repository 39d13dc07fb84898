//! The output does not start with whitespace.

use crate::chars::{fill, is_whitespace, repeat};
use crate::decondenser::Decondenser;
use crate::formatting::engine::normal::{
    all_emitted, emitted, final_ops, lemma_formatter_trace, normalized_ops, waiting_ops,
};
use crate::formatting::engine::printer::{Blanks, PrinterView};
use crate::formatting::engine::trace::{lemma_run_empty, lemma_run_push, shapes, PrinterOp};
use crate::formatting::engine::{FormatterView, Op};
use crate::formatting::laws::blanks::{operations, start};
use crate::config;
use crate::formatting::{
    blank_count, between_ops, closing_ops, empty_group_ops, format_ops, formatted, group_body_ops,
    group_inner, inner_end, input_ops, lemma_format_ops, measured, node_ops, pieces_ops, punct_ops,
    quoted_ops, space_ops, taken_blank,
};
use crate::parsing::l2;
use crate::decondenser::Syntax;
use crate::parsing::l2::laws::{lemma_parsed_raws_clean, raw_texts_clean};
use crate::parsing::l2::origin::{lemma_parsed_from_syntax, token_from};
use crate::parsing::l2::token_tree::TreeView;
use crate::visual_size::VisualSize;
use crate::formatting::laws::count::{countable, lemma_operations_count};
use vstd::prelude::*;

verus! {

/// Whether the operation can change nothing of what is printed at the start
/// of the output: the begin or the end of a group, or spaces.
pub open spec fn is_quiet(op: Op) -> bool {
    match op {
        Op::Begin(_) => true,
        Op::End => true,
        Op::Space(_) => true,
        _ => false,
    }
}

/// Whether the operation is quiet, or raw text without characters, which
/// the formatter drops.
pub open spec fn is_idle(op: Op) -> bool {
    is_quiet(op) || (op matches Op::Raw(text) && text.chars.len() == 0)
}

/// Whether the first `count` operations are idle.
pub open spec fn idle_until(ops: Seq<Op>, count: int) -> bool {
    forall|i: int| 0 <= i < count && i < ops.len() ==> is_idle(#[trigger] ops[i])
}

/// Whether the operations start gently: they are all idle, or the first one
/// that is not idle is raw text that starts with a character that is no
/// whitespace.
pub open spec fn starts_gently(ops: Seq<Op>) -> bool {
    idle_until(ops, ops.len() as int) || exists|lead: int|
        0 <= lead < ops.len() && is_lead(#[trigger] ops[lead]) && idle_until(ops, lead)
}

/// Whether the operation is raw text that starts with a character that is
/// no whitespace.
pub open spec fn is_lead(op: Op) -> bool {
    op matches Op::Raw(text) && text.chars.len() > 0 && !is_whitespace(text.chars[0])
}

/// Whether the first `count` operations are quiet.
pub open spec fn quiet_until(ops: Seq<Op>, count: int) -> bool {
    forall|i: int| 0 <= i < count && i < ops.len() ==> is_quiet(#[trigger] ops[i])
}

/// Whether the operations start calmly: they are all quiet, or the first
/// one that is not quiet is raw text that starts with a character that is no
/// whitespace.
pub open spec fn starts_calmly(ops: Seq<Op>) -> bool {
    quiet_until(ops, ops.len() as int) || exists|lead: int|
        0 <= lead < ops.len() && is_lead(#[trigger] ops[lead]) && quiet_until(ops, lead)
}

/// Whether nothing is printed and nothing waits in the printer.
pub open spec fn is_fresh(printer: PrinterView) -> bool {
    &&& printer.output.len() == 0
    &&& printer.pending == Blanks::Breaks(0)
    &&& printer.indent_level == 0
}

/// Whether the output starts with a character that is no whitespace.
pub open spec fn starts_with_text(output: Seq<char>) -> bool {
    output.len() > 0 && !is_whitespace(output[0])
}

/// A printer only ever adds to its output.
pub proof fn lemma_step_extends(printer: PrinterView, op: PrinterOp)
    ensures
        printer.output.len() <= printer.step(op).output.len(),
        printer.output.len() > 0 ==> printer.step(op).output[0] == printer.output[0],
{
}

/// A fresh printer that is told operations that start calmly prints nothing
/// or starts its output with a character that is no whitespace.
pub proof fn lemma_run_starts_with_text(printer: PrinterView, told: Seq<PrinterOp>, count: int)
    requires
        is_fresh(printer),
        starts_calmly(shapes(told)),
        0 <= count <= told.len(),
    ensures
        ({
            let after = printer.run(told.take(count));
            if quiet_until(shapes(told), count) {
                is_fresh(after)
            } else {
                starts_with_text(after.output)
            }
        }),
    decreases count,
{
    let ops = shapes(told);
    if count == 0 {
        assert(told.take(0) =~= Seq::<PrinterOp>::empty());
        lemma_run_empty(printer);
    } else {
        lemma_run_starts_with_text(printer, told, count - 1);
        let before = printer.run(told.take(count - 1));
        let op = told[count - 1];
        assert(told.take(count) =~= told.take(count - 1).push(op));
        lemma_run_push(printer, told.take(count - 1), op);
        lemma_step_extends(before, op);
        assert(ops[count - 1] == op.shape());
        if quiet_until(ops, count) {
            assert(is_quiet(ops[count - 1]));
            assert(quiet_until(ops, count - 1));
        } else if quiet_until(ops, count - 1) {
            assert(!is_quiet(ops[count - 1]));
            assert(!quiet_until(ops, ops.len() as int)) by {
                if quiet_until(ops, ops.len() as int) {
                    assert(is_quiet(ops[count - 1]));
                }
            }
            let lead = choose|lead: int|
                0 <= lead < ops.len() && is_lead(#[trigger] ops[lead]) && quiet_until(ops, lead);
            if lead > count - 1 {
                assert(is_quiet(ops[count - 1]));
            }
            if lead < count - 1 {
                assert(is_quiet(ops[lead]));
            }
            assert(lead == count - 1);
            match op {
                PrinterOp::Raw(text) => {
                    assert(before.blank_text() =~= Seq::<char>::empty()) by {
                        assert(fill('\n', 0) =~= Seq::<char>::empty());
                        assert(repeat(before.indent.chars, 0) =~= Seq::<char>::empty());
                    }
                    assert(before.step(op).output =~= text.chars);
                },
                _ => {},
            }
        }
    }
}

/// Whether nothing waits in the formatter that is not quiet.
pub open spec fn waits_quietly(state: FormatterView) -> bool {
    &&& state.indent == 0
    &&& !(state.blank is HardBreak)
    &&& forall|i: int| 0 <= i < state.control.len() ==> !(#[trigger] state.control[i] is SoftBreak)
}

/// Idle operations leave the formatter waiting quietly, and hand nothing
/// on.
pub proof fn lemma_quiet_waits(state: FormatterView, ops: Seq<Op>)
    requires
        waits_quietly(state),
        idle_until(ops, ops.len() as int),
    ensures
        waits_quietly(state.apply_all(ops)),
        all_emitted(state, ops) == Seq::<Op>::empty(),
    decreases ops.len(),
{
    reveal(FormatterView::apply_all);
    if ops.len() > 0 {
        assert(idle_until(ops.drop_last(), ops.drop_last().len() as int)) by {
            assert forall|i: int| 0 <= i < ops.drop_last().len() implies is_idle(
                #[trigger] ops.drop_last()[i],
            ) by {
                assert(ops.drop_last()[i] == ops[i]);
            }
        }
        lemma_quiet_waits(state, ops.drop_last());
        assert(is_idle(ops[ops.len() - 1]));
        let middle = state.apply_all(ops.drop_last());
        let after = middle.apply(ops.last());
        assert forall|i: int| 0 <= i < after.control.len() implies !(
        #[trigger] after.control[i] is SoftBreak) by {
            if i < middle.control.len() {
                assert(after.control[i] == middle.control[i]);
            }
        }
        assert(all_emitted(state, ops) =~= Seq::<Op>::empty());
    }
}

/// What waits quietly is handed on as quiet operations.
pub proof fn lemma_waiting_is_quiet(state: FormatterView)
    requires
        waits_quietly(state),
    ensures
        quiet_until(waiting_ops(state), waiting_ops(state).len() as int),
        quiet_until(final_ops(state), final_ops(state).len() as int),
{
    let waiting = waiting_ops(state);
    assert forall|i: int| 0 <= i < waiting.len() implies is_quiet(#[trigger] waiting[i]) by {
        if i < state.control.len() {
            assert(!(state.control[i] is SoftBreak));
        }
    }
    let last = final_ops(state);
    assert forall|i: int| 0 <= i < last.len() implies is_quiet(#[trigger] last[i]) by {
        assert(!(state.control[i] is SoftBreak));
    }
}

/// Operations that start gently are handed on as operations that start
/// calmly.
pub proof fn lemma_normalized_starts_calmly(state: FormatterView, ops: Seq<Op>)
    requires
        waits_quietly(state),
        starts_gently(ops),
    ensures
        starts_calmly(normalized_ops(state, ops)),
{
    let handed = normalized_ops(state, ops);
    if idle_until(ops, ops.len() as int) {
        lemma_quiet_waits(state, ops);
        lemma_waiting_is_quiet(state.apply_all(ops));
        assert(handed =~= final_ops(state.apply_all(ops)));
    } else {
        let lead = choose|lead: int|
            0 <= lead < ops.len() && is_lead(#[trigger] ops[lead]) && idle_until(ops, lead);
        let head = ops.take(lead);
        assert(idle_until(head, head.len() as int)) by {
            assert forall|i: int| 0 <= i < head.len() implies is_idle(#[trigger] head[i]) by {
                assert(head[i] == ops[i]);
            }
        }
        lemma_quiet_waits(state, head);
        let middle = state.apply_all(head);
        lemma_waiting_is_quiet(middle);
        lemma_all_emitted_take(state, ops, lead + 1);
        let first = all_emitted(state, ops.take(lead + 1));
        assert(ops.take(lead + 1).drop_last() =~= head);
        assert(ops.take(lead + 1).last() == ops[lead]);
        assert(first =~= waiting_ops(middle).push(ops[lead]));
        let at = waiting_ops(middle).len() as int;
        let all = all_emitted(state, ops);
        assert(first == all.take(first.len() as int));
        assert(all[at] == first[at]);
        assert(handed[at] == all[at]);
        assert(handed[at] == ops[lead]);
        assert forall|i: int| 0 <= i < at implies is_quiet(#[trigger] handed[i]) by {
            assert(all[i] == first[i]);
            assert(handed[i] == all[i]);
            assert(handed[i] == waiting_ops(middle)[i]);
        }
        assert(is_lead(handed[at]) && quiet_until(handed, at));
    }
}

/// The operations that are handed on for the first operations are the first
/// of the operations that are handed on for all.
pub proof fn lemma_all_emitted_take(state: FormatterView, ops: Seq<Op>, count: int)
    requires
        0 <= count <= ops.len(),
    ensures
        all_emitted(state, ops.take(count)).len() <= all_emitted(state, ops).len(),
        all_emitted(state, ops.take(count)) == all_emitted(state, ops).take(
            all_emitted(state, ops.take(count)).len() as int,
        ),
    decreases ops.len() - count,
{
    if count == ops.len() {
        assert(ops.take(count) =~= ops);
        assert(all_emitted(state, ops).take(all_emitted(state, ops).len() as int)
            =~= all_emitted(state, ops));
    } else {
        lemma_all_emitted_take(state, ops, count + 1);
        let longer = ops.take(count + 1);
        assert(longer.drop_last() =~= ops.take(count));
        let short = all_emitted(state, ops.take(count));
        let long = all_emitted(state, longer);
        assert(long == short + emitted(state.apply_all(ops.take(count)), longer.last()));
        assert(short =~= long.take(short.len() as int));
        assert(short =~= all_emitted(state, ops).take(short.len() as int));
    }
}

/// Whether one of the operations is raw text that starts with a character
/// that is no whitespace, and all operations before it are idle.
pub open spec fn has_lead(ops: Seq<Op>) -> bool {
    exists|lead: int|
        0 <= lead < ops.len() && is_lead(#[trigger] ops[lead]) && idle_until(ops, lead)
}

/// Operations behind a lead change nothing of it.
pub proof fn lemma_has_lead_append(ops: Seq<Op>, more: Seq<Op>)
    requires
        has_lead(ops),
    ensures
        has_lead(ops + more),
{
    let lead = choose|lead: int|
        0 <= lead < ops.len() && is_lead(#[trigger] ops[lead]) && idle_until(ops, lead);
    assert((ops + more)[lead] == ops[lead]);
    assert forall|i: int| 0 <= i < lead implies is_idle(#[trigger] (ops + more)[i]) by {
        assert((ops + more)[i] == ops[i]);
    }
}

/// Idle operations before a lead change nothing of it.
pub proof fn lemma_has_lead_prepend(idle: Seq<Op>, ops: Seq<Op>)
    requires
        idle_until(idle, idle.len() as int),
        has_lead(ops),
    ensures
        has_lead(idle + ops),
{
    let lead = choose|lead: int|
        0 <= lead < ops.len() && is_lead(#[trigger] ops[lead]) && idle_until(ops, lead);
    let at = idle.len() + lead;
    assert((idle + ops)[at] == ops[lead]);
    assert forall|i: int| 0 <= i < at implies is_idle(#[trigger] (idle + ops)[i]) by {
        if i < idle.len() {
            assert((idle + ops)[i] == idle[i]);
        } else {
            assert((idle + ops)[i] == ops[i - idle.len()]);
        }
    }
}

/// Whether the text has characters and starts with one that is no
/// whitespace.
pub open spec fn leads(text: Seq<char>) -> bool {
    text.len() > 0 && !is_whitespace(text[0])
}

/// The operations for a punctuation symbol whose leading space cannot break
/// have the symbol as their lead.
pub proof fn lemma_punct_ops_lead<V: VisualSize>(
    config: &Decondenser<V>,
    leading: usize,
    punct: config::Punct,
    trailing: usize,
)
    requires
        !punct.leading_space.breakable,
        leads(punct.symbol@),
    ensures
        has_lead(punct_ops(config, leading, punct, trailing)),
{
    let first = space_ops(leading, punct.leading_space);
    let second = seq![Op::Raw(measured(config, punct.symbol@))];
    assert(is_lead(second[0]));
    lemma_has_lead_prepend(first, second);
    lemma_has_lead_append(first + second, space_ops(trailing, punct.trailing_space));
}

/// Whether the token can stand first in the input without a blank before it
/// in the output: its first text is no whitespace, and no line break can
/// stand before it.
pub open spec fn token_leads(token: TreeView) -> bool {
    match token {
        TreeView::Raw(text) => leads(text),
        TreeView::Quoted { config, .. } => leads(config.opening@),
        TreeView::Punct(punct) => !punct.leading_space.breakable && leads(punct.symbol@),
        TreeView::Group { config, .. } => !config.opening.leading_space.breakable && leads(
            config.opening.symbol@,
        ),
        _ => false,
    }
}

/// The operations for a token that leads have a lead.
pub proof fn lemma_node_ops_lead<V: VisualSize>(
    config: &Decondenser<V>,
    tokens: Seq<TreeView>,
    at: int,
    end: int,
    inner: Seq<Op>,
)
    requires
        0 <= at < end <= tokens.len(),
        token_leads(tokens[at]),
    ensures
        has_lead(node_ops(config, tokens, 0, at, end, inner)),
{
    let leading = crate::formatting::blank_size(config, tokens, at, 0);
    let trailing = crate::formatting::blank_size(
        config,
        tokens,
        at + 1,
        taken_blank(tokens, at, end),
    );
    let newline = crate::formatting::blank_has_newline(tokens, at, 0);
    match tokens[at] {
        TreeView::Raw(text) => {
            let raw = seq![Op::Raw(measured(config, text))];
            assert(is_lead(raw[0]));
            lemma_has_lead_prepend(between_ops(false, newline), raw);
        },
        TreeView::Quoted { content, closed, config: quote } => {
            let opening = seq![Op::Raw(measured(config, quote.opening@))];
            assert(is_lead(opening[0]));
            lemma_has_lead_append(opening, pieces_ops(config, content));
            lemma_has_lead_append(
                opening + pieces_ops(config, content),
                if closed {
                    seq![Op::Raw(measured(config, quote.closing@))]
                } else {
                    Seq::<Op>::empty()
                },
            );
            lemma_has_lead_prepend(
                between_ops(false, newline),
                quoted_ops(config, content, closed, quote),
            );
        },
        TreeView::Punct(punct) => {
            lemma_punct_ops_lead(config, leading, punct, trailing);
        },
        TreeView::Group { content, closed, config: group } => {
            let begin = seq![Op::Begin(group.break_style.0)];
            if inner_end(content) <= 0 {
                let first = space_ops(leading, group.opening.leading_space);
                let second = seq![Op::Raw(measured(config, group.opening.symbol@))];
                assert(is_lead(second[0]));
                lemma_has_lead_prepend(first, second);
                lemma_has_lead_append(
                    first + second,
                    if closed {
                        seq![Op::Raw(measured(config, group.closing.symbol@))] + space_ops(
                            trailing,
                            group.closing.trailing_space,
                        )
                    } else {
                        Seq::<Op>::empty()
                    },
                );
                let body = empty_group_ops(config, leading, closed, group, trailing);
                lemma_has_lead_prepend(begin, body);
                lemma_has_lead_append(begin + body, seq![Op::End]);
            } else {
                let opening = punct_ops(
                    config,
                    leading,
                    group.opening,
                    crate::formatting::blank_size_at(config, content, 0, inner_end(content)),
                );
                lemma_punct_ops_lead(
                    config,
                    leading,
                    group.opening,
                    crate::formatting::blank_size_at(config, content, 0, inner_end(content)),
                );
                lemma_has_lead_append(opening, seq![Op::Indent(1isize)]);
                lemma_has_lead_append(opening + seq![Op::Indent(1isize)], inner);
                lemma_has_lead_append(
                    opening + seq![Op::Indent(1isize)] + inner,
                    seq![Op::Indent(-1isize)],
                );
                lemma_has_lead_append(
                    opening + seq![Op::Indent(1isize)] + inner + seq![Op::Indent(-1isize)],
                    closing_ops(config, content, closed, group, trailing),
                );
                let body = group_body_ops(config, leading, content, closed, group, trailing, inner);
                lemma_has_lead_prepend(begin, body);
                lemma_has_lead_append(begin + body, seq![Op::End]);
            }
        },
        _ => {},
    }
}

/// No blank stands where a blank has ended.
pub proof fn lemma_blank_count_ends(tokens: Seq<TreeView>, from: int, end: int)
    requires
        0 <= from <= end <= tokens.len(),
    ensures
        from + blank_count(tokens, from, end) <= end,
        blank_count(tokens, from + blank_count(tokens, from, end), end) == 0,
    decreases end - from,
{
    if from < end && tokens[from].is_blank() {
        lemma_blank_count_ends(tokens, from + 1, end);
    }
}

/// Whether the first token of the input that is no blank leads.
pub open spec fn first_token_leads(tokens: Seq<TreeView>) -> bool {
    let first = blank_count(tokens, 0, tokens.len() as int) as int;
    first < tokens.len() ==> token_leads(tokens[first])
}

/// The operations for an input whose first token leads start gently.
pub proof fn lemma_input_ops_start_gently<V: VisualSize>(
    config: &Decondenser<V>,
    tokens: Seq<TreeView>,
)
    requires
        first_token_leads(tokens),
    ensures
        starts_gently(input_ops(config, tokens)),
{
    let end = tokens.len() as int;
    let first = blank_count(tokens, 0, end) as int;
    let begin = seq![Op::Begin(crate::config::BreakStyleEnum::Consistent)];
    let ops = input_ops(config, tokens);
    lemma_blank_count_ends(tokens, 0, end);
    lemma_format_ops(config, tokens, first, end);
    if first >= end {
        assert(ops =~= seq![Op::Begin(crate::config::BreakStyleEnum::Consistent), Op::End]);
        assert(idle_until(ops, ops.len() as int));
    } else {
        let inner = group_inner(config, tokens[first]);
        lemma_node_ops_lead(config, tokens, first, end, inner);
        let node = node_ops(config, tokens, 0, first, end, inner);
        let rest = format_ops(config, tokens, first + 1 + taken_blank(tokens, first, end), end);
        lemma_has_lead_append(node, rest);
        lemma_has_lead_prepend(begin, node + rest);
        lemma_has_lead_append(begin + (node + rest), seq![Op::End]);
    }
}

/// Whether every symbol with which a token can start leads: the symbols of
/// the punctuation and the opening symbols of the groups and quotes have
/// characters, the first of which is no whitespace, and the space before
/// punctuation and before a group cannot break.
pub open spec fn syntax_leads(syntax: Syntax) -> bool {
    &&& forall|i: int|
        0 <= i < syntax.puncts.len() ==> !(#[trigger] syntax.puncts[i]).leading_space.breakable
            && leads(syntax.puncts[i].symbol@)
    &&& forall|i: int|
        0 <= i < syntax.groups.len() ==> !(
        #[trigger] syntax.groups[i]).opening.leading_space.breakable && leads(
            syntax.groups[i].opening.symbol@,
        )
    &&& forall|i: int|
        0 <= i < syntax.quotes.len() ==> leads((#[trigger] syntax.quotes[i]).opening@)
}

/// The output does not start with whitespace.
///
/// This holds where every symbol with which a token can start leads: the
/// symbols of the punctuation and the opening symbols of the groups and
/// quotes have characters, the first of which is no whitespace, and the
/// space before punctuation and before a group cannot break. The input
/// must be countable.
pub proof fn lemma_formatted_starts_with_text<V: VisualSize>(
    config: &Decondenser<V>,
    input: Seq<char>,
)
    requires
        syntax_leads(config.syntax()),
        countable(input),
    ensures
        formatted(config, input).len() == 0 || !is_whitespace(formatted(config, input)[0]),
{
    lemma_operations_count(config, input);
    let ops = operations(config, input);
    let syntax = config.syntax();
    let tokens = l2::parsed(syntax, input);
    lemma_parsed_raws_clean(syntax, input);
    lemma_parsed_from_syntax(syntax, input);
    let first = blank_count(tokens, 0, tokens.len() as int) as int;
    lemma_blank_count_ends(tokens, 0, tokens.len() as int);
    if first < tokens.len() {
        assert(raw_texts_clean(tokens[first]));
        assert(token_from(syntax, tokens[first]));
        assert(blank_count(tokens, first, tokens.len() as int) == 0);
        assert(!tokens[first].is_blank());
        match tokens[first] {
            TreeView::Punct(punct) => {
                let i = choose|i: int| 0 <= i < syntax.puncts.len() && #[trigger] syntax.puncts[i]
                    == punct;
                assert(leads(syntax.puncts[i].symbol@));
            },
            TreeView::Group { config: group, .. } => {
                let i = choose|i: int| 0 <= i < syntax.groups.len() && #[trigger] syntax.groups[i]
                    == group;
                assert(leads(syntax.groups[i].opening.symbol@));
            },
            TreeView::Quoted { config: quote, .. } => {
                let i = choose|i: int| 0 <= i < syntax.quotes.len() && #[trigger] syntax.quotes[i]
                    == quote;
                assert(leads(syntax.quotes[i].opening@));
            },
            _ => {},
        }
    }
    lemma_input_ops_start_gently(config, tokens);
    lemma_normalized_starts_calmly(start(config), ops);
    let told = lemma_formatter_trace(start(config), ops);
    lemma_run_starts_with_text(start(config).fmt.printer, told, told.len() as int);
    assert(told.take(told.len() as int) =~= told);
}

} // verus!
