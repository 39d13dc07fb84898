//! Quoted content that the tokenizer finds in the input stands in the
//! output as it stands in the input.

use crate::chars::contains;
use crate::decondenser::{Decondenser, Syntax};
use crate::formatting::formatted;
use crate::formatting::laws::count::countable;
use crate::formatting::laws::fidelity::{lemma_quoted_fidelity, token_holds, tokens_hold};
use crate::parsing::l1;
use crate::parsing::l1::token_tree::TreeView as StartView;
use crate::parsing::l1::{
    lemma_parse_group, lemma_parse_punct, lemma_parse_quote, lemma_parse_run, lemma_parse_stop,
    newline_len, parse_from, quoted_lexer, rule_at, Last, Parsed, Rule,
};
use crate::parsing::l2;
use crate::parsing::l2::cover::{lemma_convert_first, lemma_parse_covers, lemma_quoted_covers};
use crate::parsing::l2::laws::{first_start, lemma_parse_clean};
use crate::parsing::l2::text::quoted_text;
use crate::parsing::l2::token_tree::TreeView;
use crate::parsing::l2::{convert, convert_node, lemma_convert_group, or_end};
use crate::parsing::quoted::l1::lemma_content_end;
use crate::visual_size::VisualSize;
use vstd::prelude::*;

verus! {

/// Where the quoted content ends whose opening delimiter stands at `at`:
/// behind its closing delimiter, or at the end of the input.
pub open spec fn quote_end(syntax: Syntax, input: Seq<char>, at: int, index: int) -> int {
    quoted_lexer(syntax, input, at, syntax.quotes[index]).finished().cursor.offset
}

/// Whether the tokenizer, on its way from `from` to the closing symbol
/// `terminator` or the end of the input, comes to `at` outside of quoted
/// content and finds the opening delimiter of the quote `index` there.
pub open spec fn opens_quote(
    syntax: Syntax,
    input: Seq<char>,
    from: int,
    terminator: Option<Seq<char>>,
    at: int,
    index: int,
) -> bool
    decreases input.len() - from,
{
    if from < 0 || from >= input.len() {
        false
    } else {
        match rule_at(syntax, input, from, terminator) {
            Rule::End => false,
            Rule::Closing => false,
            Rule::Newline => {
                let next = from + newline_len(input, from);
                from < next && opens_quote(syntax, input, next, terminator, at, index)
            },
            Rule::Space => opens_quote(syntax, input, from + 1, terminator, at, index),
            Rule::Raw => opens_quote(syntax, input, from + 1, terminator, at, index),
            Rule::Punct(found) => {
                let next = from + syntax.puncts[found].symbol@.len();
                from < next && opens_quote(syntax, input, next, terminator, at, index)
            },
            Rule::Group(found) => {
                let config = syntax.groups[found];
                let inside = from + config.opening.symbol@.len();
                let closing = Some(config.closing.symbol@);
                let end = parse_from(syntax, input, inside, closing, Last::Complete).end;
                ||| from < inside <= input.len() && opens_quote(
                    syntax,
                    input,
                    inside,
                    closing,
                    at,
                    index,
                )
                ||| from < end <= input.len() && opens_quote(
                    syntax,
                    input,
                    end,
                    terminator,
                    at,
                    index,
                )
            },
            Rule::Quote(found) => {
                let end = quote_end(syntax, input, from, found);
                ||| from == at && found == index
                ||| from < end <= input.len() && opens_quote(
                    syntax,
                    input,
                    end,
                    terminator,
                    at,
                    index,
                )
            },
        }
    }
}

/// The quoted content whose opening delimiter stands at `at`, as a token
/// with its text.
pub open spec fn quote_at(syntax: Syntax, input: Seq<char>, at: int, index: int) -> TreeView {
    convert_node(
        input,
        l1::quoted_token(syntax, input, at, syntax.quotes[index]),
        quote_end(syntax, input, at, index),
    )
}

/// What holds of the tokens of a run in which the tokenizer finds the
/// opening delimiter of a quote: the quoted content is among the tokens or
/// in a group among them.
pub open spec fn run_holds(syntax: Syntax, input: Seq<char>, run: Parsed, at: int, index: int) -> bool {
    tokens_hold(
        convert(input, run.tokens, or_end(run.closing, input.len() as int)),
        quote_at(syntax, input, at, index),
    )
}

/// A token before the tokens of a run: what the token or the run holds,
/// the tokens together hold.
proof fn lemma_holds_after(input: Seq<char>, token: StartView, rest: Parsed, quoted: TreeView)
    requires
        tokens_hold(convert(input, rest.tokens, or_end(rest.closing, input.len() as int)), quoted)
            || token_holds(
            convert_node(
                input,
                token,
                first_start(rest.tokens, or_end(rest.closing, input.len() as int)),
            ),
            quoted,
        ),
    ensures
        tokens_hold(
            convert(input, rest.after(token).tokens, or_end(rest.closing, input.len() as int)),
            quoted,
        ),
{
    let stop = or_end(rest.closing, input.len() as int);
    lemma_convert_first(input, token, rest.tokens, stop);
    let head = convert_node(input, token, first_start(rest.tokens, stop));
    let others = convert(input, rest.tokens, stop);
    let all = convert(input, seq![token] + rest.tokens, stop);
    if token_holds(head, quoted) {
        assert(token_holds(all[0], quoted));
    } else {
        let i = choose|i: int| 0 <= i < others.len() && token_holds(#[trigger] others[i], quoted);
        assert(all[i + 1] == others[i]);
        assert(token_holds(all[i + 1], quoted));
    }
}

/// Quoted content whose opening delimiter the tokenizer finds is among the
/// tokens, or in a group among them, and its text is the input from the
/// opening delimiter to the end of the closing delimiter.
#[verifier::rlimit(50)]
pub proof fn lemma_parse_holds(
    syntax: Syntax,
    input: Seq<char>,
    from: int,
    terminator: Option<Seq<char>>,
    last: Last,
    at: int,
    index: int,
)
    requires
        0 <= from <= input.len() <= usize::MAX,
        opens_quote(syntax, input, from, terminator, at, index),
    ensures
        run_holds(syntax, input, parse_from(syntax, input, from, terminator, last), at, index),
        from <= at < quote_end(syntax, input, at, index) <= input.len(),
        0 <= index < syntax.quotes.len(),
        quoted_text(quote_at(syntax, input, at, index)) == input.subrange(
            at,
            quote_end(syntax, input, at, index),
        ),
    decreases input.len() - from,
{
    let length = input.len() as int;
    let quoted = quote_at(syntax, input, at, index);
    lemma_parse_stop(syntax, input, from, terminator, last);
    lemma_parse_run(syntax, input, from, terminator, last);
    match rule_at(syntax, input, from, terminator) {
        Rule::End => {},
        Rule::Closing => {},
        Rule::Newline => {
            let next = from + newline_len(input, from);
            lemma_parse_holds(syntax, input, next, terminator, Last::Newline, at, index);
            let rest = parse_from(syntax, input, next, terminator, Last::Newline);
            lemma_holds_after(input, StartView::Newline { start: from as usize }, rest, quoted);
        },
        Rule::Space => {
            lemma_parse_holds(syntax, input, from + 1, terminator, Last::Space, at, index);
            let rest = parse_from(syntax, input, from + 1, terminator, Last::Space);
            lemma_holds_after(input, StartView::Space { start: from as usize }, rest, quoted);
        },
        Rule::Raw => {
            lemma_parse_holds(syntax, input, from + 1, terminator, Last::Raw, at, index);
            let rest = parse_from(syntax, input, from + 1, terminator, Last::Raw);
            lemma_holds_after(input, StartView::Raw { start: from as usize }, rest, quoted);
        },
        Rule::Punct(found) => {
            lemma_parse_punct(syntax, input, from, terminator, last);
            let config = syntax.puncts[found];
            let next = from + config.symbol@.len();
            lemma_parse_clean(syntax, input, from, terminator, last);
            lemma_parse_holds(syntax, input, next, terminator, Last::Complete, at, index);
            let rest = parse_from(syntax, input, next, terminator, Last::Complete);
            lemma_holds_after(
                input,
                StartView::Punct { start: from as usize, config },
                rest,
                quoted,
            );
        },
        Rule::Group(found) => {
            lemma_parse_group(syntax, input, from, terminator, last);
            let config = syntax.groups[found];
            let inside = from + config.opening.symbol@.len();
            let closing = Some(config.closing.symbol@);
            let inner = parse_from(syntax, input, inside, closing, Last::Complete);
            let group = StartView::Group {
                opening: from as usize,
                content: inner.tokens,
                closing: inner.closing,
                config,
            };
            if from < inside <= input.len() {
                lemma_parse_clean(syntax, input, inside, closing, Last::Complete);
            }
            if from < inner.end <= input.len() {
                lemma_parse_covers(syntax, input, inner.end, terminator, Last::Complete);
                let rest = parse_from(syntax, input, inner.end, terminator, Last::Complete);
                let first = first_start(rest.tokens, or_end(rest.closing, length));
                lemma_convert_group(input, group, first);
                if from < inside <= input.len() && opens_quote(
                    syntax,
                    input,
                    inside,
                    closing,
                    at,
                    index,
                ) {
                    lemma_parse_holds(syntax, input, inside, closing, Last::Complete, at, index);
                    assert(or_end(inner.closing, first) == or_end(inner.closing, length));
                    let head = convert_node(input, group, first);
                    let content = convert(input, inner.tokens, or_end(inner.closing, length));
                    let i = choose|i: int|
                        0 <= i < content.len() && token_holds(#[trigger] content[i], quoted);
                    assert(head->Group_content[i] == content[i]);
                    assert(token_holds(head, quoted));
                } else {
                    lemma_parse_holds(
                        syntax,
                        input,
                        inner.end,
                        terminator,
                        Last::Complete,
                        at,
                        index,
                    );
                }
                lemma_holds_after(input, group, rest, quoted);
            }
        },
        Rule::Quote(found) => {
            lemma_parse_quote(syntax, input, from, terminator, last);
            let config = syntax.quotes[found];
            let lexer = quoted_lexer(syntax, input, from, config);
            lemma_content_end(input, lexer.cursor.offset, lexer.escape_char, lexer.terminator);
            let end = lexer.finished().cursor.offset;
            lemma_quoted_covers(syntax, input, from, config, end);
            let token = l1::quoted_token(syntax, input, from, config);
            if from < end <= input.len() {
                lemma_parse_covers(syntax, input, end, terminator, Last::Complete);
                let rest = parse_from(syntax, input, end, terminator, Last::Complete);
                if from == at && found == index {
                    assert(token_holds(convert_node(input, token, end), quoted));
                } else {
                    lemma_parse_holds(syntax, input, end, terminator, Last::Complete, at, index);
                }
                lemma_holds_after(input, token, rest, quoted);
            }
        },
    }
}

/// Quoted content that the tokenizer finds in the input stands in the
/// output as it stands in the input: the text from its opening delimiter at
/// `at` to the end of its closing delimiter, or to the end of the input
/// where it is not closed, in one piece, whatever it holds.
///
/// The input must be countable.
pub proof fn lemma_quoted_text_is_kept<V: VisualSize>(
    config: &Decondenser<V>,
    input: Seq<char>,
    at: int,
    index: int,
)
    requires
        opens_quote(config.syntax(), input, 0, None, at, index),
        countable(input),
    ensures
        0 <= at < quote_end(config.syntax(), input, at, index) <= input.len(),
        contains(
            formatted(config, input),
            input.subrange(at, quote_end(config.syntax(), input, at, index)),
        ),
{
    let syntax = config.syntax();
    lemma_parse_holds(syntax, input, 0, None, Last::Complete, at, index);
    lemma_parse_clean(syntax, input, 0, None, Last::Complete);
    lemma_quoted_fidelity(config, input, quote_at(syntax, input, at, index));
}

} // verus!
