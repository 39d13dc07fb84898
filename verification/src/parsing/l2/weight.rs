//! The tokens of an input are not more than its characters: every token,
//! and every piece of quoted content, takes a character of its own.

use crate::decondenser::Syntax;
use crate::formatting::left;
use crate::parsing::l1;
use crate::parsing::l1::token_tree::TreeView as StartView;
use crate::parsing::l1::{
    lemma_parse_group, lemma_parse_punct, lemma_parse_quote, lemma_parse_run, lemma_parse_stop,
    newline_len, parse_from, quoted_lexer, rule_at, Last, Parsed, Rule,
};
use crate::parsing::l2::cover::{lemma_convert_first, lemma_parse_covers};
use crate::parsing::l2::laws::{first_start, lemma_parse_clean};
use crate::parsing::l2::token_tree::TreeView;
use crate::parsing::l2::{convert, convert_node, lemma_convert_group, or_end, parsed};
use crate::parsing::quoted::l1::{
    content_end, lemma_content_end, lemma_piece_end, piece_at, pieces,
};
use vstd::prelude::*;

verus! {

/// The number of tokens that a token stands for: itself, and the pieces of
/// quoted content or the `inner` tokens of a group.
pub open spec fn node_weight(token: TreeView, inner: nat) -> nat {
    match token {
        TreeView::Group { .. } => 1 + inner,
        TreeView::Quoted { content, .. } => 1 + content.len(),
        _ => 1,
    }
}

/// The number of the tokens from `from` up to `end`, of the tokens in them
/// and of the pieces of their quoted content.
#[verifier::opaque]
pub open spec fn weights(tokens: Seq<TreeView>, from: int, end: int) -> nat
    decreases tokens, left(from, end),
{
    if from < 0 || from >= end || end > tokens.len() {
        0
    } else {
        node_weight(
            tokens[from],
            match tokens[from] {
                TreeView::Group { content, .. } => weights(content, 0, content.len() as int),
                _ => 0,
            },
        ) + weights(tokens, from + 1, end)
    }
}

/// The number of the tokens in a group; 0 for another token.
pub open spec fn inner_weight(token: TreeView) -> nat {
    match token {
        TreeView::Group { content, .. } => weights(content, 0, content.len() as int),
        _ => 0,
    }
}

/// The number of tokens is that of the first and that of the others.
pub proof fn lemma_weights(tokens: Seq<TreeView>, from: int, end: int)
    ensures
        weights(tokens, from, end) == if from < 0 || from >= end || end > tokens.len() {
            0
        } else {
            node_weight(tokens[from], inner_weight(tokens[from])) + weights(tokens, from + 1, end)
        },
{
    reveal(weights);
}

/// The number of the tokens behind a first token.
pub proof fn lemma_weights_shift(first: TreeView, rest: Seq<TreeView>, from: int, end: int)
    requires
        0 <= from <= end <= rest.len(),
    ensures
        weights(seq![first] + rest, from + 1, end + 1) == weights(rest, from, end),
    decreases end - from,
{
    let all = seq![first] + rest;
    lemma_weights(all, from + 1, end + 1);
    lemma_weights(rest, from, end);
    if from < end {
        assert(all[from + 1] == rest[from]);
        lemma_weights_shift(first, rest, from + 1, end);
    }
}

/// The number of a first token and the tokens behind it.
pub proof fn lemma_weights_first(first: TreeView, rest: Seq<TreeView>)
    ensures
        weights(seq![first] + rest, 0, rest.len() as int + 1) == node_weight(
            first,
            inner_weight(first),
        ) + weights(rest, 0, rest.len() as int),
{
    let all = seq![first] + rest;
    lemma_weights(all, 0, rest.len() as int + 1);
    lemma_weights_shift(first, rest, 0, rest.len() as int);
}

/// Fewer tokens count less.
pub proof fn lemma_weights_range(tokens: Seq<TreeView>, from: int, end: int, start: int, stop: int)
    requires
        0 <= from <= start,
        stop <= end <= tokens.len(),
    ensures
        weights(tokens, start, stop) <= weights(tokens, from, end),
    decreases end - from,
{
    lemma_weights(tokens, from, end);
    lemma_weights(tokens, start, stop);
    if start >= stop {
    } else if from < start {
        lemma_weights_range(tokens, from + 1, end, start, stop);
    } else {
        lemma_weights_range(tokens, from + 1, end, start + 1, stop);
    }
}

/// The pieces of quoted content are not more than its characters.
pub proof fn lemma_pieces_count(
    input: Seq<char>,
    from: int,
    escape_char: char,
    terminator: Option<Seq<char>>,
)
    requires
        0 <= from <= input.len(),
    ensures
        from + pieces(input, from, escape_char, terminator).len() <= content_end(
            input,
            from,
            escape_char,
            terminator,
        ),
    decreases input.len() - from,
{
    match piece_at(input, from, escape_char, terminator) {
        None => {},
        Some((token, next)) => {
            lemma_piece_end(input, from, escape_char, terminator);
            lemma_pieces_count(input, next, escape_char, terminator);
        },
    }
}

/// What holds of the tokens of a run that starts at `from`: they are not
/// more than the characters of the run.
pub open spec fn run_weighs(input: Seq<char>, from: int, run: Parsed) -> bool {
    from + weights(
        convert(input, run.tokens, or_end(run.closing, input.len() as int)),
        0,
        run.tokens.len() as int,
    ) <= run.end
}

/// A token that takes the characters from `from` up to where the rest
/// starts at `next`, before the tokens of the rest.
proof fn lemma_weighs_after(input: Seq<char>, from: int, next: int, token: StartView, rest: Parsed)
    requires
        run_weighs(input, next, rest),
        from + node_weight(
            convert_node(
                input,
                token,
                first_start(rest.tokens, or_end(rest.closing, input.len() as int)),
            ),
            inner_weight(
                convert_node(
                    input,
                    token,
                    first_start(rest.tokens, or_end(rest.closing, input.len() as int)),
                ),
            ),
        ) <= next,
    ensures
        run_weighs(input, from, rest.after(token)),
{
    let stop = or_end(rest.closing, input.len() as int);
    lemma_convert_first(input, token, rest.tokens, stop);
    let head = convert_node(input, token, first_start(rest.tokens, stop));
    let others = convert(input, rest.tokens, stop);
    lemma_weights_first(head, others);
}

/// The tokens from a position on are not more than the characters that
/// they take.
pub proof fn lemma_parse_weighs(
    syntax: Syntax,
    input: Seq<char>,
    from: int,
    terminator: Option<Seq<char>>,
    last: Last,
)
    requires
        0 <= from <= input.len() <= usize::MAX,
    ensures
        run_weighs(input, from, parse_from(syntax, input, from, terminator, last)),
    decreases input.len() - from,
{
    let length = input.len() as int;
    lemma_parse_stop(syntax, input, from, terminator, last);
    lemma_parse_run(syntax, input, from, terminator, last);
    lemma_parse_clean(syntax, input, from, terminator, last);
    match rule_at(syntax, input, from, terminator) {
        Rule::End => {
            lemma_weights(convert(input, Seq::<StartView>::empty(), length), 0, 0);
        },
        Rule::Closing => {
            lemma_weights(convert(input, Seq::<StartView>::empty(), from), 0, 0);
        },
        Rule::Newline => {
            let next = from + newline_len(input, from);
            lemma_parse_weighs(syntax, input, next, terminator, Last::Newline);
            let rest = parse_from(syntax, input, next, terminator, Last::Newline);
            lemma_weighs_after(input, from, next, StartView::Newline { start: from as usize }, rest);
        },
        Rule::Space => {
            lemma_parse_weighs(syntax, input, from + 1, terminator, Last::Space);
            let rest = parse_from(syntax, input, from + 1, terminator, Last::Space);
            lemma_weighs_after(input, from, from + 1, StartView::Space { start: from as usize }, rest);
        },
        Rule::Raw => {
            lemma_parse_weighs(syntax, input, from + 1, terminator, Last::Raw);
            let rest = parse_from(syntax, input, from + 1, terminator, Last::Raw);
            lemma_weighs_after(input, from, from + 1, StartView::Raw { start: from as usize }, rest);
        },
        Rule::Punct(index) => {
            lemma_parse_punct(syntax, input, from, terminator, last);
            let config = syntax.puncts[index];
            let next = from + config.symbol@.len();
            lemma_parse_weighs(syntax, input, next, terminator, Last::Complete);
            let rest = parse_from(syntax, input, next, terminator, Last::Complete);
            lemma_weighs_after(
                input,
                from,
                next,
                StartView::Punct { start: from as usize, config },
                rest,
            );
        },
        Rule::Group(index) => {
            lemma_parse_group(syntax, input, from, terminator, last);
            let config = syntax.groups[index];
            let inside = from + config.opening.symbol@.len();
            let closing = Some(config.closing.symbol@);
            lemma_parse_weighs(syntax, input, inside, closing, Last::Complete);
            lemma_parse_clean(syntax, input, inside, closing, Last::Complete);
            let inner = parse_from(syntax, input, inside, closing, Last::Complete);
            lemma_parse_weighs(syntax, input, inner.end, terminator, Last::Complete);
            lemma_parse_covers(syntax, input, inner.end, terminator, Last::Complete);
            let rest = parse_from(syntax, input, inner.end, terminator, Last::Complete);
            let group = StartView::Group {
                opening: from as usize,
                content: inner.tokens,
                closing: inner.closing,
                config,
            };
            let first = first_start(rest.tokens, or_end(rest.closing, length));
            lemma_convert_group(input, group, first);
            assert(or_end(inner.closing, first) == or_end(inner.closing, length));
            lemma_weighs_after(input, from, inner.end, group, rest);
        },
        Rule::Quote(index) => {
            lemma_parse_quote(syntax, input, from, terminator, last);
            let config = syntax.quotes[index];
            let lexer = quoted_lexer(syntax, input, from, config);
            lemma_content_end(input, lexer.cursor.offset, lexer.escape_char, lexer.terminator);
            lemma_pieces_count(input, lexer.cursor.offset, lexer.escape_char, lexer.terminator);
            let end = lexer.finished().cursor.offset;
            lemma_parse_weighs(syntax, input, end, terminator, Last::Complete);
            let rest = parse_from(syntax, input, end, terminator, Last::Complete);
            lemma_weighs_after(input, from, end, l1::quoted_token(syntax, input, from, config), rest);
        },
    }
}

/// The tokens of an input, the tokens in them and the pieces of their
/// quoted content are together not more than the characters of the input.
pub proof fn lemma_parsed_weighs(syntax: Syntax, input: Seq<char>)
    requires
        input.len() <= usize::MAX,
    ensures
        weights(parsed(syntax, input), 0, parsed(syntax, input).len() as int) <= input.len(),
{
    lemma_parse_weighs(syntax, input, 0, None, Last::Complete);
    lemma_parse_clean(syntax, input, 0, None, Last::Complete);
}

} // verus!
