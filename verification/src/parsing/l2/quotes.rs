//! Quoted content among the tokens stands in the input as it is, from its
//! opening delimiter to its closing delimiter.

use crate::chars::{contains, occurs_at};
use crate::decondenser::Syntax;
use crate::parsing::l1;
use crate::parsing::l1::token_tree::TreeView as StartView;
use crate::parsing::l1::{
    lemma_parse_group, lemma_parse_punct, lemma_parse_quote, lemma_parse_run, lemma_parse_stop,
    newline_len, parse_from, quoted_lexer, rule_at, Last, Parsed, Rule,
};
use crate::parsing::l2::cover::{lemma_convert_first, lemma_parse_covers, lemma_quoted_covers};
use crate::parsing::l2::laws::{first_start, lemma_parse_clean};
use crate::parsing::l2::text::quoted_text;
use crate::parsing::l2::token_tree::TreeView;
use crate::parsing::l2::{convert, convert_node, lemma_convert_group, or_end, parsed};
use crate::parsing::quoted::l1::lemma_content_end;
use vstd::prelude::*;

verus! {

/// Whether the text of the token, where it is quoted content, and of all
/// quoted content in it, where it is a group, stands in the input.
pub open spec fn quoted_in(input: Seq<char>, token: TreeView) -> bool
    decreases token,
{
    match token {
        TreeView::Quoted { .. } => contains(input, quoted_text(token)),
        TreeView::Group { content, .. } => forall|i: int|
            0 <= i < content.len() ==> quoted_in(input, #[trigger] content[i]),
        _ => true,
    }
}

/// Whether the text of all quoted content among the tokens stands in the
/// input.
pub open spec fn all_quoted_in(input: Seq<char>, tokens: Seq<TreeView>) -> bool {
    forall|i: int| 0 <= i < tokens.len() ==> quoted_in(input, #[trigger] tokens[i])
}

/// What holds of the tokens of a run with their texts.
pub open spec fn run_quoted(input: Seq<char>, run: Parsed) -> bool {
    all_quoted_in(input, convert(input, run.tokens, or_end(run.closing, input.len() as int)))
}

/// A token before tokens whose quoted content stands in the input.
proof fn lemma_quoted_after(input: Seq<char>, token: StartView, rest: Parsed)
    requires
        run_quoted(input, rest),
        quoted_in(
            input,
            convert_node(
                input,
                token,
                first_start(rest.tokens, or_end(rest.closing, input.len() as int)),
            ),
        ),
    ensures
        run_quoted(input, rest.after(token)),
{
    let stop = or_end(rest.closing, input.len() as int);
    lemma_convert_first(input, token, rest.tokens, stop);
    let head = convert_node(input, token, first_start(rest.tokens, stop));
    let others = convert(input, rest.tokens, stop);
    let all = convert(input, seq![token] + rest.tokens, stop);
    assert forall|i: int| 0 <= i < all.len() implies quoted_in(input, #[trigger] all[i]) by {
        if i > 0 {
            assert(all[i] == others[i - 1]);
        }
    }
}

/// The quoted content among the tokens from a position on stands in the
/// input.
pub proof fn lemma_parse_quoted(
    syntax: Syntax,
    input: Seq<char>,
    from: int,
    terminator: Option<Seq<char>>,
    last: Last,
)
    requires
        0 <= from <= input.len() <= usize::MAX,
    ensures
        run_quoted(input, parse_from(syntax, input, from, terminator, last)),
    decreases input.len() - from,
{
    let length = input.len() as int;
    lemma_parse_stop(syntax, input, from, terminator, last);
    lemma_parse_run(syntax, input, from, terminator, last);
    match rule_at(syntax, input, from, terminator) {
        Rule::End => {},
        Rule::Closing => {},
        Rule::Newline => {
            let next = from + newline_len(input, from);
            lemma_parse_quoted(syntax, input, next, terminator, Last::Newline);
            let rest = parse_from(syntax, input, next, terminator, Last::Newline);
            lemma_quoted_after(input, StartView::Newline { start: from as usize }, rest);
        },
        Rule::Space => {
            lemma_parse_quoted(syntax, input, from + 1, terminator, Last::Space);
            let rest = parse_from(syntax, input, from + 1, terminator, Last::Space);
            lemma_quoted_after(input, StartView::Space { start: from as usize }, rest);
        },
        Rule::Raw => {
            lemma_parse_quoted(syntax, input, from + 1, terminator, Last::Raw);
            let rest = parse_from(syntax, input, from + 1, terminator, Last::Raw);
            lemma_quoted_after(input, StartView::Raw { start: from as usize }, rest);
        },
        Rule::Punct(index) => {
            lemma_parse_punct(syntax, input, from, terminator, last);
            let config = syntax.puncts[index];
            let next = from + config.symbol@.len();
            lemma_parse_quoted(syntax, input, next, terminator, Last::Complete);
            let rest = parse_from(syntax, input, next, terminator, Last::Complete);
            lemma_quoted_after(input, StartView::Punct { start: from as usize, config }, rest);
        },
        Rule::Group(index) => {
            lemma_parse_group(syntax, input, from, terminator, last);
            let config = syntax.groups[index];
            let inside = from + config.opening.symbol@.len();
            let closing = Some(config.closing.symbol@);
            lemma_parse_quoted(syntax, input, inside, closing, Last::Complete);
            lemma_parse_clean(syntax, input, inside, closing, Last::Complete);
            let inner = parse_from(syntax, input, inside, closing, Last::Complete);
            lemma_parse_quoted(syntax, input, inner.end, terminator, Last::Complete);
            lemma_parse_covers(syntax, input, inner.end, terminator, Last::Complete);
            let rest = parse_from(syntax, input, inner.end, terminator, Last::Complete);
            let group = StartView::Group {
                opening: from as usize,
                content: inner.tokens,
                closing: inner.closing,
                config,
            };
            let first = first_start(rest.tokens, or_end(rest.closing, length));
            lemma_convert_group(input, group, first);
            assert(or_end(inner.closing, first) == or_end(inner.closing, length));
            lemma_quoted_after(input, group, rest);
        },
        Rule::Quote(index) => {
            lemma_parse_quote(syntax, input, from, terminator, last);
            let config = syntax.quotes[index];
            let lexer = quoted_lexer(syntax, input, from, config);
            lemma_content_end(input, lexer.cursor.offset, lexer.escape_char, lexer.terminator);
            let end = lexer.finished().cursor.offset;
            lemma_parse_quoted(syntax, input, end, terminator, Last::Complete);
            lemma_parse_covers(syntax, input, end, terminator, Last::Complete);
            let rest = parse_from(syntax, input, end, terminator, Last::Complete);
            lemma_quoted_covers(syntax, input, from, config, end);
            let token = l1::quoted_token(syntax, input, from, config);
            let head = convert_node(input, token, end);
            assert(quoted_text(head) == input.subrange(from, end));
            assert(occurs_at(input, from, quoted_text(head)));
            lemma_quoted_after(input, token, rest);
        },
    }
}

/// The quoted content among the tokens of an input, and in the groups among
/// them, stands in the input as it is: the text from an opening delimiter
/// to the closing delimiter, or to the end of the input.
pub proof fn lemma_parsed_quoted(syntax: Syntax, input: Seq<char>)
    requires
        input.len() <= usize::MAX,
    ensures
        all_quoted_in(input, parsed(syntax, input)),
{
    lemma_parse_quoted(syntax, input, 0, None, Last::Complete);
    lemma_parse_clean(syntax, input, 0, None, Last::Complete);
}

} // verus!
