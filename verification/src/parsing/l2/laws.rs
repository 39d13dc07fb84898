//! What holds of the tokens of every input: the text of a raw token has
//! characters, and none of them is whitespace.

use crate::chars::{is_whitespace, part};
use crate::decondenser::Syntax;
use crate::parsing::l1;
use crate::parsing::l1::token_tree::TreeView as StartView;
use crate::parsing::l1::{
    lemma_parse_group, lemma_parse_punct, lemma_parse_quote, lemma_parse_run, lemma_parse_stop,
    newline_len, parse_from, quoted_lexer, rule_at, Last, Parsed, Rule,
};
use crate::parsing::l2::token_tree::TreeView;
use crate::parsing::l2::{convert, convert_node, end_of, lemma_convert_group, or_end, parsed};
use crate::parsing::quoted::l1::lemma_content_end;
use vstd::prelude::*;

verus! {

/// Whether none of the characters of `input` from `from` up to `to` is
/// whitespace.
pub open spec fn no_whitespace(input: Seq<char>, from: int, to: int) -> bool {
    forall|at: int| from <= at < to ==> !is_whitespace(#[trigger] input[at])
}

/// Whether the text of the token, which ends at `end`, and the texts of the
/// tokens in it are clean where they are raw: they have characters, within
/// the input, and none of them is whitespace.
pub open spec fn token_clean(input: Seq<char>, token: StartView, end: int) -> bool
    decreases token,
{
    match token {
        StartView::Raw { start } => 0 <= start < end <= input.len() && no_whitespace(
            input,
            start as int,
            end,
        ),
        StartView::Group { content, closing, .. } => forall|i: int|
            0 <= i < content.len() ==> token_clean(
                input,
                #[trigger] content[i],
                end_of(content, i, or_end(closing, end)),
            ),
        _ => true,
    }
}

/// Whether the texts of the tokens, the last of which ends at `end`, are
/// clean where they are raw.
pub open spec fn tokens_clean(input: Seq<char>, tokens: Seq<StartView>, end: int) -> bool {
    forall|i: int|
        0 <= i < tokens.len() ==> token_clean(input, #[trigger] tokens[i], end_of(tokens, i, end))
}

/// Where the first of the tokens starts, or `end` without a token.
pub open spec fn first_start(tokens: Seq<StartView>, end: int) -> int {
    if tokens.len() > 0 {
        tokens[0].start() as int
    } else {
        end
    }
}

/// Whether the tokens start at or behind `from` and at or before `end`.
pub open spec fn starts_within(tokens: Seq<StartView>, from: int, end: int) -> bool {
    forall|i: int| 0 <= i < tokens.len() ==> from <= (#[trigger] tokens[i]).start() <= end
}

/// What holds of the tokens from a position on.
pub open spec fn run_clean(input: Seq<char>, from: int, last: Last, parsed: Parsed) -> bool {
    let stop = or_end(parsed.closing, input.len() as int);
    &&& from <= stop <= parsed.end <= input.len()
    &&& parsed.closing is None ==> parsed.end == input.len()
    &&& starts_within(parsed.tokens, from, stop)
    &&& last is Raw ==> no_whitespace(input, from, first_start(parsed.tokens, stop))
    &&& tokens_clean(input, parsed.tokens, stop)
}

/// A token before clean tokens, with a clean text of its own, gives clean
/// tokens.
pub proof fn lemma_after_clean(
    input: Seq<char>,
    rest: Seq<StartView>,
    token: StartView,
    from: int,
    stop: int,
)
    requires
        tokens_clean(input, rest, stop),
        token_clean(input, token, first_start(rest, stop)),
        token.start() == from,
        starts_within(rest, from, stop),
        from <= stop,
    ensures
        tokens_clean(input, seq![token] + rest, stop),
        starts_within(seq![token] + rest, from, stop),
        first_start(seq![token] + rest, stop) == from,
{
    let all = seq![token] + rest;
    assert forall|i: int| 0 <= i < all.len() implies token_clean(
        input,
        #[trigger] all[i],
        end_of(all, i, stop),
    ) by {
        if i > 0 {
            assert(all[i] == rest[i - 1]);
            if i + 1 < all.len() {
                assert(all[i + 1] == rest[i]);
            }
            assert(end_of(all, i, stop) == end_of(rest, i - 1, stop));
        } else {
            if 1 < all.len() {
                assert(all[1] == rest[0]);
            }
        }
    }
    assert forall|i: int| 0 <= i < all.len() implies from <= (#[trigger] all[i]).start()
        <= stop by {
        if i > 0 {
            assert(all[i] == rest[i - 1]);
        }
    }
}

/// The text of every raw token among the tokens from a position on has
/// characters, none of which is whitespace.
pub proof fn lemma_parse_clean(
    syntax: Syntax,
    input: Seq<char>,
    from: int,
    terminator: Option<Seq<char>>,
    last: Last,
)
    requires
        0 <= from <= input.len() <= usize::MAX,
    ensures
        run_clean(input, from, last, parse_from(syntax, input, from, terminator, last)),
        terminator is None ==> parse_from(syntax, input, from, terminator, last).closing is None,
    decreases input.len() - from,
{
    let parsed = parse_from(syntax, input, from, terminator, last);
    let length = input.len() as int;
    lemma_parse_stop(syntax, input, from, terminator, last);
    lemma_parse_run(syntax, input, from, terminator, last);
    match rule_at(syntax, input, from, terminator) {
        Rule::End => {},
        Rule::Closing => {},
        Rule::Newline => {
            let next = from + newline_len(input, from);
            lemma_parse_clean(syntax, input, next, terminator, Last::Newline);
            let rest = parse_from(syntax, input, next, terminator, Last::Newline);
            let stop = or_end(rest.closing, length);
            if !(last is Newline) {
                assert(starts_within(rest.tokens, from, stop));
                lemma_after_clean(
                    input,
                    rest.tokens,
                    StartView::Newline { start: from as usize },
                    from,
                    stop,
                );
            } else {
                assert(starts_within(rest.tokens, from, stop));
            }
        },
        Rule::Space => {
            lemma_parse_clean(syntax, input, from + 1, terminator, Last::Space);
            let rest = parse_from(syntax, input, from + 1, terminator, Last::Space);
            let stop = or_end(rest.closing, length);
            assert(starts_within(rest.tokens, from, stop));
            if !(last is Space) {
                lemma_after_clean(
                    input,
                    rest.tokens,
                    StartView::Space { start: from as usize },
                    from,
                    stop,
                );
            }
        },
        Rule::Raw => {
            lemma_parse_clean(syntax, input, from + 1, terminator, Last::Raw);
            let rest = parse_from(syntax, input, from + 1, terminator, Last::Raw);
            let stop = or_end(rest.closing, length);
            let first = first_start(rest.tokens, stop);
            assert(starts_within(rest.tokens, from, stop));
            assert(from + 1 <= first <= stop) by {
                if rest.tokens.len() > 0 {
                    assert(from + 1 <= rest.tokens[0].start() <= stop);
                }
            }
            assert(no_whitespace(input, from, first)) by {
                assert forall|at: int| from <= at < first implies !is_whitespace(
                    #[trigger] input[at],
                ) by {
                    if at > from {
                        assert(no_whitespace(input, from + 1, first));
                    }
                }
            }
            if !(last is Raw) {
                lemma_after_clean(
                    input,
                    rest.tokens,
                    StartView::Raw { start: from as usize },
                    from,
                    stop,
                );
            }
        },
        Rule::Group(index) => {
            lemma_parse_group(syntax, input, from, terminator, last);
            let config = syntax.groups[index];
            let inside = from + config.opening.symbol@.len();
            lemma_parse_clean(syntax, input, inside, Some(config.closing.symbol@), Last::Complete);
            let inner = parse_from(
                syntax,
                input,
                inside,
                Some(config.closing.symbol@),
                Last::Complete,
            );
            lemma_parse_clean(syntax, input, inner.end, terminator, Last::Complete);
            let rest = parse_from(syntax, input, inner.end, terminator, Last::Complete);
            let stop = or_end(rest.closing, length);
            let group = StartView::Group {
                opening: from as usize,
                content: inner.tokens,
                closing: inner.closing,
                config,
            };
            lemma_parse_stop(syntax, input, inner.end, terminator, Last::Complete);
            assert(starts_within(rest.tokens, from, stop));
            assert(or_end(inner.closing, first_start(rest.tokens, stop)) == or_end(
                inner.closing,
                length,
            ));
            lemma_after_clean(input, rest.tokens, group, from, stop);
        },
        Rule::Quote(index) => {
            lemma_parse_quote(syntax, input, from, terminator, last);
            let config = syntax.quotes[index];
            let lexer = quoted_lexer(syntax, input, from, config);
            lemma_content_end(
                input,
                lexer.cursor.offset,
                lexer.escape_char,
                lexer.terminator,
            );
            let end = lexer.finished().cursor.offset;
            lemma_parse_clean(syntax, input, end, terminator, Last::Complete);
            let rest = parse_from(syntax, input, end, terminator, Last::Complete);
            let stop = or_end(rest.closing, length);
            assert(starts_within(rest.tokens, from, stop));
            lemma_after_clean(
                input,
                rest.tokens,
                l1::quoted_token(syntax, input, from, config),
                from,
                stop,
            );
        },
        Rule::Punct(index) => {
            lemma_parse_punct(syntax, input, from, terminator, last);
            let config = syntax.puncts[index];
            let next = from + config.symbol@.len();
            lemma_parse_clean(syntax, input, next, terminator, Last::Complete);
            let rest = parse_from(syntax, input, next, terminator, Last::Complete);
            let stop = or_end(rest.closing, length);
            assert(starts_within(rest.tokens, from, stop));
            lemma_after_clean(
                input,
                rest.tokens,
                StartView::Punct { start: from as usize, config },
                from,
                stop,
            );
        },
    }
}

/// Whether the text has characters, none of which is whitespace.
pub open spec fn is_clean(text: Seq<char>) -> bool {
    text.len() > 0 && forall|i: int| 0 <= i < text.len() ==> !is_whitespace(#[trigger] text[i])
}

/// Whether the text of every raw token among the tokens, and among the
/// tokens in them, has characters, none of which is whitespace.
pub open spec fn raw_texts_clean(token: TreeView) -> bool
    decreases token,
{
    match token {
        TreeView::Raw(text) => is_clean(text),
        TreeView::Group { content, .. } => forall|i: int|
            0 <= i < content.len() ==> raw_texts_clean(#[trigger] content[i]),
        _ => true,
    }
}

/// A token with a clean region gets a clean text.
pub proof fn lemma_convert_clean(input: Seq<char>, node: StartView, end: int)
    requires
        token_clean(input, node, end),
    ensures
        raw_texts_clean(convert_node(input, node, end)),
    decreases node,
{
    match node {
        StartView::Raw { start } => {
            let text = part(input, start as int, end);
            assert forall|i: int| 0 <= i < text.len() implies !is_whitespace(
                #[trigger] text[i],
            ) by {
                assert(text[i] == input[start + i]);
            }
        },
        StartView::Group { content, closing, .. } => {
            lemma_convert_group(input, node, end);
            let converted = convert(input, content, or_end(closing, end));
            assert forall|i: int| 0 <= i < converted.len() implies raw_texts_clean(
                #[trigger] converted[i],
            ) by {
                lemma_convert_clean(input, content[i], end_of(content, i, or_end(closing, end)));
            }
        },
        _ => {},
    }
}

/// The text of every raw token of an input has characters, none of which is
/// whitespace.
pub proof fn lemma_parsed_raws_clean(syntax: Syntax, input: Seq<char>)
    requires
        input.len() <= usize::MAX,
    ensures
        forall|i: int|
            0 <= i < parsed(syntax, input).len() ==> raw_texts_clean(
                #[trigger] parsed(syntax, input)[i],
            ),
{
    lemma_parse_clean(syntax, input, 0, None, Last::Complete);
    let tokens = l1::parsed(syntax, input);
    let end = input.len() as int;
    assert forall|i: int| 0 <= i < parsed(syntax, input).len() implies raw_texts_clean(
        #[trigger] parsed(syntax, input)[i],
    ) by {
        assert(token_clean(input, tokens[i], end_of(tokens, i, end)));
        lemma_convert_clean(input, tokens[i], end_of(tokens, i, end));
    }
}

} // verus!
