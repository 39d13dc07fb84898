//! No line of the output ends with a space, and the output ends with the
//! last character of the last text of the input.
//!
//! Raw text that is handed on right behind raw text is printed right behind
//! it. So a text may end with a space where text follows at once, as
//! quoted content does before its closing delimiter.

use crate::chars::is_whitespace;
use crate::formatting::engine::printer::{Blanks, PrinterView};
use crate::formatting::engine::trace::{lemma_run_empty, lemma_run_push, shapes, PrinterOp};
use crate::decondenser::{Decondenser, Syntax};
use crate::formatting::engine::normal::{
    all_emitted, final_ops, lemma_formatter_trace, normalized_ops, waiting_ops,
};
use crate::formatting::engine::{FormatterView, Op};
use crate::formatting::laws::blanks::{operations, start};
use crate::formatting::laws::passing::{
    composes, lemma_input_ops_good, text_op, token_passes, tokens_pass,
};
use crate::formatting::laws::{
    lemma_normalized_raws, lemma_waiting_no_raw, no_raw, syntax_satisfies,
};
use crate::formatting::{formatted, measured, pieces_ops, quoted_ops};
use crate::parsing::l2;
use crate::parsing::l2::laws::{lemma_parsed_raws_clean, raw_texts_clean};
use crate::parsing::l2::origin::{lemma_parsed_from_syntax, token_from};
use crate::parsing::l2::text::pieces_text;
use crate::parsing::l2::token_tree::TreeView;
use crate::visual_size::VisualSize;
use crate::formatting::laws::blanks::{lemma_blank_text, no_space_before_break, one_line};
use crate::parsing::quoted::l2::TokenView as QuotedView;
use crate::formatting::laws::count::{countable, lemma_operations_count};
use vstd::prelude::*;

verus! {

/// What is known of the text that was handed on so far.
pub struct Flow {
    /// Whether the last operation was raw text with characters.
    pub adjacent: bool,
    /// The last character of the last raw text, if there was raw text with
    /// characters.
    pub last: Option<char>,
}

/// What is known before any operation.
pub open spec fn no_flow() -> Flow {
    Flow { adjacent: false, last: None }
}

/// Whether the operation can follow without a space coming to stand before
/// a line break. Raw text holds no space right before a line break, and
/// starts with a line break only right behind raw text that does not end
/// with a space. Any other operation may end the line, so the text before
/// it does not end with a space. Raw text without characters is dropped.
pub open spec fn follows(flow: Flow, op: Op) -> bool {
    match op {
        Op::Raw(text) => text.chars.len() == 0 || {
            &&& no_space_before_break(text.chars)
            &&& text.chars[0] == '\n' ==> flow.adjacent && flow.last != Some(' ')
        },
        _ => flow.last != Some(' '),
    }
}

/// What is known after the operation.
pub open spec fn after(flow: Flow, op: Op) -> Flow {
    match op {
        Op::Raw(text) => if text.chars.len() == 0 {
            flow
        } else {
            Flow { adjacent: true, last: Some(text.chars.last()) }
        },
        _ => Flow { adjacent: false, last: flow.last },
    }
}

/// What is known after the operations.
pub open spec fn track(ops: Seq<Op>, flow: Flow) -> Flow
    decreases ops.len(),
{
    if ops.len() == 0 {
        flow
    } else {
        after(track(ops.drop_last(), flow), ops.last())
    }
}

/// Whether each of the operations can follow those before it.
pub open spec fn flows(ops: Seq<Op>, flow: Flow) -> bool
    decreases ops.len(),
{
    ops.len() == 0 || (flows(ops.drop_last(), flow) && follows(
        track(ops.drop_last(), flow),
        ops.last(),
    ))
}

/// Operations, one sequence after another, are tracked one after another.
pub proof fn lemma_flow_concat(first: Seq<Op>, second: Seq<Op>, flow: Flow)
    ensures
        track(first + second, flow) == track(second, track(first, flow)),
        flows(first + second, flow) == (flows(first, flow) && flows(second, track(first, flow))),
    decreases second.len(),
{
    if second.len() == 0 {
        assert(first + second =~= first);
    } else {
        lemma_flow_concat(first, second.drop_last(), flow);
        assert((first + second).drop_last() =~= first + second.drop_last());
    }
}

/// Texts without a space right before a line break, one after another, hold
/// none, unless the first ends with a space and the second starts with a
/// line break.
pub proof fn lemma_no_space_before_break_concat(first: Seq<char>, second: Seq<char>)
    requires
        no_space_before_break(first),
        no_space_before_break(second),
        !(first.len() > 0 && second.len() > 0 && first.last() == ' ' && second[0] == '\n'),
    ensures
        no_space_before_break(first + second),
{
    let all = first + second;
    assert forall|i: int| 0 <= i && i + 1 < all.len() && #[trigger] all[i] == ' ' implies all[i
        + 1] != '\n' by {
        if i + 1 < first.len() {
            assert(all[i] == first[i]);
            assert(all[i + 1] == first[i + 1]);
        } else if i < first.len() {
            assert(all[i] == first[i]);
            assert(all[i + 1] == second[0]);
        } else {
            assert(all[i] == second[i - first.len()]);
            assert(all[i + 1] == second[i + 1 - first.len()]);
        }
    }
}

/// Whether every raw text that the printer is told has characters.
pub open spec fn told_texts(told: Seq<PrinterOp>) -> bool {
    forall|i: int|
        0 <= i < told.len() ==> (#[trigger] told[i] matches PrinterOp::Raw(text)
            ==> text.chars.len() > 0)
}

/// What a printer has printed that started with nothing ends with the last
/// character of the last raw text that it was told. Where each operation
/// can follow those before it, no space stands right before a line break.
pub proof fn lemma_run_flow(printer: PrinterView, told: Seq<PrinterOp>)
    requires
        printer.output.len() == 0,
        told_texts(told),
    ensures
        printer.run(told).indent == printer.indent,
        track(shapes(told), no_flow()).last is None <==> printer.run(told).output.len() == 0,
        track(shapes(told), no_flow()).last matches Some(last) ==> printer.run(
            told,
        ).output.last() == last,
        track(shapes(told), no_flow()).adjacent ==> printer.run(told).pending == Blanks::Spaces(0),
        flows(shapes(told), no_flow()) && one_line(printer.indent.chars) ==> no_space_before_break(
            printer.run(told).output,
        ),
        flows(shapes(told), no_flow()) && track(shapes(told), no_flow()).last == Some(' ')
            ==> track(shapes(told), no_flow()).adjacent,
    decreases told.len(),
{
    if told.len() == 0 {
        assert(told =~= Seq::<PrinterOp>::empty());
        lemma_run_empty(printer);
    } else {
        let first = told.drop_last();
        let op = told.last();
        assert forall|i: int| 0 <= i < first.len() implies (
        #[trigger] first[i] matches PrinterOp::Raw(text) ==> text.chars.len() > 0) by {
            assert(first[i] == told[i]);
        }
        lemma_run_flow(printer, first);
        lemma_run_push(printer, first, op);
        assert(first.push(op) =~= told);
        assert(shapes(told).drop_last() =~= shapes(first));
        assert(shapes(told).last() == op.shape());
        assert(told[told.len() - 1] == op);
        let before = printer.run(first);
        let flow = track(shapes(first), no_flow());
        match op {
            PrinterOp::Raw(text) => {
                let blank = before.blank_text();
                if flow.adjacent {
                    assert(blank =~= Seq::<char>::empty());
                }
                assert((before.output + blank + text.chars).last() == text.chars.last());
                if flows(shapes(told), no_flow()) && one_line(printer.indent.chars) {
                    lemma_blank_text(before);
                    lemma_no_space_before_break_concat(before.output, blank);
                    if blank.len() > 0 {
                        assert((before.output + blank).last() == blank.last());
                        if blank.last() == ' ' {
                            assert(!flow.adjacent);
                        }
                    } else {
                        assert(before.output + blank =~= before.output);
                    }
                    lemma_no_space_before_break_concat(before.output + blank, text.chars);
                }
            },
            _ => {},
        }
    }
}


/// Operations without raw text can follow text that does not end with a
/// space, and leave its last character as it is.
pub proof fn lemma_no_raw_flow(ops: Seq<Op>, flow: Flow)
    requires
        no_raw(ops),
    ensures
        track(ops, flow) == if ops.len() == 0 {
            flow
        } else {
            Flow { adjacent: false, last: flow.last }
        },
        flows(ops, flow) == (ops.len() == 0 || flow.last != Some(' ')),
    decreases ops.len(),
{
    if ops.len() > 0 {
        lemma_no_raw_flow(ops.drop_last(), flow);
        assert(!(ops[ops.len() - 1] is Raw));
    }
}

/// What the normalization has handed on ends with the text that the
/// formatter was given last. Where the formatter was given raw text last,
/// nothing waits and raw text was handed on last. Where each operation
/// that the formatter was given can follow those before it, so can each
/// that was handed on.
pub proof fn lemma_all_emitted_flow(state: FormatterView, ops: Seq<Op>)
    ensures
        track(all_emitted(state, ops), no_flow()).last == track(ops, no_flow()).last,
        track(ops, no_flow()).adjacent ==> track(all_emitted(state, ops), no_flow()).adjacent
            && waiting_ops(state.apply_all(ops)).len() == 0,
        flows(ops, no_flow()) ==> flows(all_emitted(state, ops), no_flow()) && (track(
            ops,
            no_flow(),
        ).last == Some(' ') ==> track(ops, no_flow()).adjacent),
    decreases ops.len(),
{
    reveal(FormatterView::apply_all);
    if ops.len() > 0 {
        let before = ops.drop_last();
        let op = ops.last();
        lemma_all_emitted_flow(state, before);
        let middle = state.apply_all(before);
        let handed = all_emitted(state, before);
        let given = track(before, no_flow());
        let known = track(handed, no_flow());
        match op {
            Op::Raw(text) => {
                if text.chars.len() == 0 {
                    assert(all_emitted(state, ops) =~= handed);
                } else {
                    let waiting = waiting_ops(middle);
                    lemma_waiting_no_raw(middle);
                    lemma_no_raw_flow(waiting, known);
                    lemma_flow_concat(handed, waiting.push(op), no_flow());
                    assert(waiting.push(op).drop_last() =~= waiting);
                    assert(all_emitted(state, ops) =~= handed + waiting.push(op));
                    assert(waiting_ops(middle.apply(op)) =~= Seq::<Op>::empty());
                }
            },
            _ => {
                assert(all_emitted(state, ops) =~= handed);
            },
        }
    }
}

/// What the normalization hands on for operations and the end of the input
/// ends with the text that the formatter was given last. Where each
/// operation that the formatter was given can follow those before it, and
/// the last text does not end with a space, so it is with what is handed
/// on.
pub proof fn lemma_normalized_flow(state: FormatterView, ops: Seq<Op>)
    ensures
        track(normalized_ops(state, ops), no_flow()).last == track(ops, no_flow()).last,
        flows(ops, no_flow()) && track(ops, no_flow()).last != Some(' ') ==> flows(
            normalized_ops(state, ops),
            no_flow(),
        ),
{
    lemma_all_emitted_flow(state, ops);
    let handed = all_emitted(state, ops);
    let rest = final_ops(state.apply_all(ops));
    lemma_waiting_no_raw(state.apply_all(ops));
    lemma_no_raw_flow(rest, track(handed, no_flow()));
    lemma_flow_concat(handed, rest, no_flow());
}


/// Whether no line of the text ends with a space: no space stands right
/// before a line break or at the end of the text.
pub open spec fn no_line_ends_with_space(text: Seq<char>) -> bool {
    forall|i: int|
        0 <= i < text.len() && #[trigger] text[i] == ' ' ==> i + 1 < text.len() && text[i + 1]
            != '\n'
}

/// Whether the text has characters, does not start with a line break, does
/// not end with a space and holds no space right before a line break.
pub open spec fn firm(text: Seq<char>) -> bool {
    &&& text.len() > 0
    &&& text[0] != '\n'
    &&& text.last() != ' '
    &&& no_space_before_break(text)
}

/// Whether the text has characters, the last of which is no whitespace.
pub open spec fn ends_with_text(text: Seq<char>) -> bool {
    text.len() > 0 && !is_whitespace(text.last())
}

/// Whether the operations can follow any text that does not end with a
/// space, and end with text that does not end with a space.
pub open spec fn passes(ops: Seq<Op>) -> bool {
    forall|flow: Flow|
        #![trigger flows(ops, flow)]
        #![trigger track(ops, flow)]
        flow.last != Some(' ') ==> flows(ops, flow) && track(ops, flow).last != Some(' ')
}

/// Whether the operations, behind text that is none or ends with a
/// character that is no whitespace, end with such text.
pub open spec fn closes(ops: Seq<Op>) -> bool {
    forall|flow: Flow| ends_well(flow) ==> ends_well(#[trigger] track(ops, flow))
}

/// Whether the last text, if there is one, ends with a character that is
/// no whitespace.
pub open spec fn ends_well(flow: Flow) -> bool {
    flow.last matches Some(last) ==> !is_whitespace(last)
}

/// Passing, as a condition on operations.
pub open spec fn passing() -> spec_fn(Seq<Op>) -> bool {
    |ops: Seq<Op>| passes(ops)
}

/// Closing, as a condition on operations.
pub open spec fn closing() -> spec_fn(Seq<Op>) -> bool {
    |ops: Seq<Op>| closes(ops)
}

/// Whether every symbol of the configuration is firm, or has no
/// characters.
pub open spec fn syntax_firm(syntax: Syntax) -> bool {
    syntax_satisfies(syntax, |text: Seq<char>| firm(text))
}

/// Whether every symbol of the configuration ends with a character that is
/// no whitespace, or has no characters.
pub open spec fn syntax_ends_with_text(syntax: Syntax) -> bool {
    syntax_satisfies(syntax, |text: Seq<char>| ends_with_text(text))
}

/// Passing and closing compose.
pub proof fn lemma_composes()
    ensures
        composes(passing()),
        composes(closing()),
{
    assert forall|first: Seq<Op>, second: Seq<Op>| passes(first) && passes(second) implies passes(
        first + second,
    ) by {
        assert forall|flow: Flow| flow.last != Some(' ') implies #[trigger] flows(
            first + second,
            flow,
        ) && track(first + second, flow).last != Some(' ') by {
            lemma_flow_concat(first, second, flow);
            assert(flows(first, flow));
            assert(flows(second, track(first, flow)));
        }
    }
    assert forall|first: Seq<Op>, second: Seq<Op>| closes(first) && closes(second) implies closes(
        first + second,
    ) by {
        assert forall|flow: Flow| ends_well(flow) implies ends_well(
            #[trigger] track(first + second, flow),
        ) by {
            lemma_flow_concat(first, second, flow);
            assert(ends_well(track(first, flow)));
            assert(ends_well(track(second, track(first, flow))));
        }
    }
    assert forall|op: Op| !(op is Raw) implies passes(seq![op]) && closes(seq![op]) by {
        lemma_single_flow(op);
    }
    assert(passes(Seq::<Op>::empty()));
    assert(closes(Seq::<Op>::empty()));
}

/// One operation is tracked as it follows.
pub proof fn lemma_single_flow(op: Op)
    ensures
        forall|flow: Flow| #[trigger] track(seq![op], flow) == after(flow, op),
        forall|flow: Flow| #[trigger] flows(seq![op], flow) == follows(flow, op),
{
    let none = Seq::<Op>::empty();
    assert(seq![op].drop_last() =~= none);
    assert forall|flow: Flow| #[trigger] track(seq![op], flow) == after(flow, op) by {
        assert(track(none, flow) == flow);
        assert(seq![op].last() == op);
    }
    assert forall|flow: Flow| #[trigger] flows(seq![op], flow) == follows(flow, op) by {
        assert(track(none, flow) == flow);
        assert(flows(none, flow));
        assert(seq![op].last() == op);
    }
}

/// The operations for the pieces of quoted content behind raw text end
/// with the last character of the content. They can follow where the content
/// holds no space right before a line break, and the text before it does
/// not end with a space.
pub proof fn lemma_pieces_flow<V: VisualSize>(
    config: &Decondenser<V>,
    pieces: Seq<QuotedView>,
    flow: Flow,
)
    requires
        flow.adjacent,
    ensures
        track(pieces_ops(config, pieces), flow) == if pieces_text(pieces).len() == 0 {
            flow
        } else {
            Flow { adjacent: true, last: Some(pieces_text(pieces).last()) }
        },
        flow.last != Some(' ') && no_space_before_break(pieces_text(pieces)) ==> flows(
            pieces_ops(config, pieces),
            flow,
        ),
    decreases pieces.len(),
{
    if pieces.len() > 0 {
        let before = pieces.drop_last();
        let text = pieces.last().source();
        let body = pieces_text(before);
        let all = pieces_text(pieces);
        lemma_pieces_flow(config, before, flow);
        let op = Op::Raw(measured(config, text));
        lemma_flow_concat(pieces_ops(config, before), seq![op], flow);
        lemma_single_flow(op);
        assert(all == body + text);
        if text.len() > 0 {
            assert(all.last() == text.last());
        } else {
            assert(all =~= body);
        }
        if flow.last != Some(' ') && no_space_before_break(all) {
            assert forall|i: int|
                0 <= i && i + 1 < body.len() && #[trigger] body[i] == ' ' implies body[i + 1]
                != '\n' by {
                assert(all[i] == body[i]);
                assert(all[i + 1] == body[i + 1]);
            }
            assert forall|i: int|
                0 <= i && i + 1 < text.len() && #[trigger] text[i] == ' ' implies text[i + 1]
                != '\n' by {
                assert(all[body.len() + i] == text[i]);
                assert(all[body.len() + i + 1] == text[i + 1]);
            }
            if text.len() > 0 && body.len() > 0 {
                assert(all[body.len() - 1] == body.last());
                assert(all[body.len() as int] == text[0]);
            }
        }
    }
}

/// Whether the quoted content of the token, and of the tokens in it, holds
/// no space right before a line break, and does not end with a space where
/// no closing delimiter follows it.
pub open spec fn quoted_tied(token: TreeView) -> bool
    decreases token,
{
    match token {
        TreeView::Group { content, .. } => forall|i: int|
            0 <= i < content.len() ==> quoted_tied(#[trigger] content[i]),
        TreeView::Quoted { content, closed, config } => {
            &&& no_space_before_break(pieces_text(content))
            &&& (closed && config.closing@.len() > 0) || pieces_text(content).len() == 0
                || pieces_text(content).last() != ' '
        },
        _ => true,
    }
}

/// Whether the quoted content of the token, and of the tokens in it, ends
/// with a character that is no whitespace where no closing delimiter
/// follows it.
pub open spec fn quoted_ends(token: TreeView) -> bool
    decreases token,
{
    match token {
        TreeView::Group { content, .. } => forall|i: int|
            0 <= i < content.len() ==> quoted_ends(#[trigger] content[i]),
        TreeView::Quoted { content, closed, config } => (closed && config.closing@.len() > 0)
            || pieces_text(content).len() == 0 || !is_whitespace(pieces_text(content).last()),
        _ => true,
    }
}

/// Without quotes in the configuration, the conditions on the quoted
/// content hold of every token of an input.
pub proof fn lemma_no_quotes_tied(syntax: Syntax, token: TreeView)
    requires
        token_from(syntax, token),
        syntax.quotes.len() == 0,
    ensures
        quoted_tied(token),
        quoted_ends(token),
    decreases token,
{
    match token {
        TreeView::Group { content, .. } => {
            assert forall|k: int| 0 <= k < content.len() implies quoted_tied(
                #[trigger] content[k],
            ) && quoted_ends(content[k]) by {
                lemma_no_quotes_tied(syntax, content[k]);
            }
        },
        _ => {},
    }
}

/// The operation for a text that is firm, or has no characters, passes;
/// that for a text that ends with text, or has no characters, closes.
pub proof fn lemma_text_op<V: VisualSize>(config: &Decondenser<V>, text: Seq<char>)
    ensures
        text.len() == 0 || firm(text) ==> passes(text_op(config, text)),
        text.len() == 0 || ends_with_text(text) ==> closes(text_op(config, text)),
{
    let op = Op::Raw(measured(config, text));
    let ops = text_op(config, text);
    lemma_single_flow(op);
    assert(ops == seq![op]);
    if text.len() == 0 || firm(text) {
        assert forall|flow: Flow| flow.last != Some(' ') implies #[trigger] flows(ops, flow)
            && track(ops, flow).last != Some(' ') by {
            assert(track(seq![op], flow) == after(flow, op));
            assert(flows(seq![op], flow) == follows(flow, op));
        }
    }
    if text.len() == 0 || ends_with_text(text) {
        assert forall|flow: Flow| ends_well(flow) implies ends_well(#[trigger] track(ops, flow)) by {
            assert(track(seq![op], flow) == after(flow, op));
        }
    }
}

/// The operations for quoted content pass and close under the conditions
/// on its delimiters and its content.
pub proof fn lemma_quoted_ops_flow<V: VisualSize>(config: &Decondenser<V>, token: TreeView)
    requires
        token is Quoted,
        token->Quoted_config.opening@.len() > 0,
    ensures
        firm(token->Quoted_config.opening@) && (token->Quoted_config.closing@.len() == 0 || firm(
            token->Quoted_config.closing@,
        )) && quoted_tied(token) ==> passes(
            quoted_ops(config, token->Quoted_content, token->Quoted_closed, token->Quoted_config),
        ),
        ends_with_text(token->Quoted_config.opening@) && (token->Quoted_config.closing@.len() == 0
            || ends_with_text(token->Quoted_config.closing@)) && quoted_ends(token) ==> closes(
            quoted_ops(config, token->Quoted_content, token->Quoted_closed, token->Quoted_config),
        ),
{
    let content = token->Quoted_content;
    let closed = token->Quoted_closed;
    let quote = token->Quoted_config;
    let first = text_op(config, quote.opening@);
    let second = pieces_ops(config, content);
    let third = if closed {
        text_op(config, quote.closing@)
    } else {
        Seq::<Op>::empty()
    };
    let all = quoted_ops(config, content, closed, quote);
    assert(all == first + second + third);
    lemma_single_flow(Op::Raw(measured(config, quote.opening@)));
    lemma_single_flow(Op::Raw(measured(config, quote.closing@)));
    assert forall|flow: Flow| true implies {
        &&& track(first, flow).adjacent
        &&& #[trigger] track(all, flow) == track(third, track(second, track(first, flow)))
        &&& flows(all, flow) == (flows(first, flow) && flows(second, track(first, flow))
            && flows(third, track(second, track(first, flow))))
    } by {
        lemma_flow_concat(first, second, flow);
        lemma_flow_concat(first + second, third, flow);
        lemma_pieces_flow(config, content, track(first, flow));
    }
    assert forall|flow: Flow| #![trigger track(all, flow)]
        {
            let opened = track(first, flow);
            &&& track(second, opened) == if pieces_text(content).len() == 0 {
                opened
            } else {
                Flow { adjacent: true, last: Some(pieces_text(content).last()) }
            }
            &&& opened.last != Some(' ') && no_space_before_break(pieces_text(content))
                ==> flows(second, opened)
        } by {
        lemma_pieces_flow(config, content, track(first, flow));
    }
}

/// The operations for each text of a token of an input pass and close
/// under the conditions on the symbols of the configuration and on the
/// quoted content.
pub proof fn lemma_token_passes<V: VisualSize>(
    config: &Decondenser<V>,
    syntax: Syntax,
    token: TreeView,
)
    requires
        token_from(syntax, token),
        raw_texts_clean(token),
    ensures
        syntax_firm(syntax) && quoted_tied(token)
            ==> token_passes(config, token, passing()),
        syntax_ends_with_text(syntax) && quoted_ends(token)
            ==> token_passes(config, token, closing()),
    decreases token,
{
    match token {
        TreeView::Raw(text) => {
            assert(is_whitespace(' ') && is_whitespace('\n'));
            assert(!is_whitespace(text[0]));
            assert(!is_whitespace(text.last()));
            assert(firm(text));
            lemma_text_op(config, text);
        },
        TreeView::Punct(punct) => {
            let i = choose|i: int| 0 <= i < syntax.puncts.len() && #[trigger] syntax.puncts[i]
                == punct;
            lemma_text_op(config, punct.symbol@);
        },
        TreeView::Group { content, closed, config: group } => {
            let i = choose|i: int| 0 <= i < syntax.groups.len() && #[trigger] syntax.groups[i]
                == group;
            lemma_text_op(config, group.opening.symbol@);
            lemma_text_op(config, group.closing.symbol@);
            assert forall|k: int| 0 <= k < content.len() implies {
                &&& syntax_firm(syntax) && quoted_tied(token) ==> token_passes(
                    config,
                    #[trigger] content[k],
                    passing(),
                )
                &&& syntax_ends_with_text(syntax) && quoted_ends(token) ==> token_passes(
                    config,
                    content[k],
                    closing(),
                )
            } by {
                lemma_token_passes(config, syntax, content[k]);
            }
        },
        TreeView::Quoted { content, closed, config: quote } => {
            let i = choose|i: int| 0 <= i < syntax.quotes.len() && #[trigger] syntax.quotes[i]
                == quote;
            lemma_quoted_ops_flow(config, token);
        },
        _ => {},
    }
}


/// The output ends with the last character of the last text of the
/// operations for the input, and has no characters where they have no
/// text.
///
/// The input must be countable.
pub proof fn lemma_output_ends_with_last_text<V: VisualSize>(
    config: &Decondenser<V>,
    input: Seq<char>,
)
    requires
        countable(input),
    ensures
        track(operations(config, input), no_flow()).last is None <==> formatted(
            config,
            input,
        ).len() == 0,
        track(operations(config, input), no_flow()).last matches Some(last) ==> formatted(
            config,
            input,
        ).last() == last,
{
    lemma_operations_count(config, input);
    let ops = operations(config, input);
    lemma_normalized_raws(start(config), ops, |text: Seq<char>| true);
    lemma_normalized_flow(start(config), ops);
    let told = lemma_formatter_trace(start(config), ops);
    assert forall|i: int| 0 <= i < told.len() implies (#[trigger] told[i] matches PrinterOp::Raw(
        text,
    ) ==> text.chars.len() > 0) by {
        assert(shapes(told)[i] == told[i].shape());
        assert(normalized_ops(start(config), ops)[i] == told[i].shape());
    }
    lemma_run_flow(start(config).fmt.printer, told);
}

/// The conditions on the symbols of the configuration and on the quoted
/// content of the input hold of the operations for the input.
pub proof fn lemma_operations_flow<V: VisualSize>(config: &Decondenser<V>, input: Seq<char>)
    requires
        input.len() <= usize::MAX,
    ensures
        syntax_firm(config.syntax()) && (forall|i: int|
            0 <= i < l2::parsed(config.syntax(), input).len() ==> quoted_tied(
                #[trigger] l2::parsed(config.syntax(), input)[i],
            )) ==> passes(operations(config, input)),
        syntax_ends_with_text(config.syntax()) && (forall|
            i: int,
        |
            0 <= i < l2::parsed(config.syntax(), input).len() ==> quoted_ends(
                #[trigger] l2::parsed(config.syntax(), input)[i],
            )) ==> closes(operations(config, input)),
{
    let syntax = config.syntax();
    let tokens = l2::parsed(syntax, input);
    lemma_parsed_raws_clean(syntax, input);
    lemma_parsed_from_syntax(syntax, input);
    lemma_composes();
    assert forall|i: int| 0 <= i < tokens.len() implies {
        &&& syntax_firm(syntax) && quoted_tied(
            #[trigger] tokens[i],
        ) ==> token_passes(config, tokens[i], passing())
        &&& syntax_ends_with_text(syntax) && quoted_ends(
            tokens[i],
        ) ==> token_passes(config, tokens[i], closing())
    } by {
        lemma_token_passes(config, syntax, tokens[i]);
    }
    if syntax_firm(syntax) && (forall|i: int|
        0 <= i < tokens.len() ==> quoted_tied(#[trigger] tokens[i])) {
        assert(tokens_pass(config, tokens, passing()));
        lemma_input_ops_good(config, tokens, passing());
    }
    if syntax_ends_with_text(syntax) && (forall|i: int|
        0 <= i < tokens.len() ==> quoted_ends(#[trigger] tokens[i])) {
        assert(tokens_pass(config, tokens, closing()));
        lemma_input_ops_good(config, tokens, closing());
    }
}

/// No line of the output ends with a space.
///
/// This holds where the indent holds no line break, every symbol of the
/// configuration is firm, and the quoted content of the input holds no
/// space right before a line break, nor a space at its end where it is not
/// closed. A symbol is firm where it does not start with a line break, does
/// not end with a space, and holds no space right before a line break. The
/// input must be countable.
pub proof fn lemma_no_line_ends_with_space<V: VisualSize>(
    config: &Decondenser<V>,
    input: Seq<char>,
)
    requires
        one_line(config.indent@),
        syntax_firm(config.syntax()),
        forall|i: int|
            0 <= i < l2::parsed(config.syntax(), input).len() ==> quoted_tied(
                #[trigger] l2::parsed(config.syntax(), input)[i],
            ),
        countable(input),
    ensures
        no_line_ends_with_space(formatted(config, input)),
{
    lemma_operations_count(config, input);
    let ops = operations(config, input);
    let output = formatted(config, input);
    lemma_operations_flow(config, input);
    assert(flows(ops, no_flow()) && track(ops, no_flow()).last != Some(' '));
    lemma_normalized_raws(start(config), ops, |text: Seq<char>| true);
    lemma_normalized_flow(start(config), ops);
    let told = lemma_formatter_trace(start(config), ops);
    assert forall|i: int| 0 <= i < told.len() implies (#[trigger] told[i] matches PrinterOp::Raw(
        text,
    ) ==> text.chars.len() > 0) by {
        assert(shapes(told)[i] == told[i].shape());
        assert(normalized_ops(start(config), ops)[i] == told[i].shape());
    }
    lemma_run_flow(start(config).fmt.printer, told);
    assert forall|i: int| 0 <= i < output.len() && #[trigger] output[i] == ' ' implies i + 1
        < output.len() && output[i + 1] != '\n' by {
        if i + 1 == output.len() {
            assert(output.last() == output[i]);
        }
    }
}

/// The output does not end with whitespace: neither with a blank nor with a
/// line break.
///
/// This holds where every symbol of the configuration ends with a
/// character that is no whitespace, and so does the quoted content of the
/// input that is not closed. The input must be countable.
pub proof fn lemma_output_ends_with_text<V: VisualSize>(config: &Decondenser<V>, input: Seq<char>)
    requires
        syntax_ends_with_text(config.syntax()),
        forall|i: int|
            0 <= i < l2::parsed(config.syntax(), input).len() ==> quoted_ends(
                #[trigger] l2::parsed(config.syntax(), input)[i],
            ),
        countable(input),
    ensures
        formatted(config, input).len() == 0 || !is_whitespace(formatted(config, input).last()),
{
    lemma_operations_count(config, input);
    lemma_operations_flow(config, input);
    assert(ends_well(no_flow()));
    assert(ends_well(track(operations(config, input), no_flow())));
    lemma_output_ends_with_last_text(config, input);
}

} // verus!
