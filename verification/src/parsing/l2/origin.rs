//! Where the tokens come from: the punctuation, the groups and the quotes
//! of the tokens of an input are those of the configuration.

use crate::config;
use crate::decondenser::Syntax;
use crate::parsing::l1;
use crate::parsing::l1::token_tree::TreeView as StartView;
use crate::parsing::l1::{
    lemma_parse_group, lemma_parse_punct, lemma_parse_quote, lemma_parse_run, lemma_parse_stop,
    newline_len, parse_from, quoted_lexer, rule_at, Last, Rule,
};
use crate::parsing::l2::laws::lemma_parse_clean;
use crate::parsing::l2::token_tree::TreeView;
use crate::parsing::l2::{convert, convert_node, end_of, lemma_convert_group, or_end, parsed};
use crate::parsing::quoted::l1::lemma_content_end;
use vstd::prelude::*;

verus! {

/// Whether the punctuation is one of the configuration.
pub open spec fn is_punct_of(syntax: Syntax, punct: config::Punct) -> bool {
    exists|i: int| 0 <= i < syntax.puncts.len() && #[trigger] syntax.puncts[i] == punct
}

/// Whether the group is one of the configuration.
pub open spec fn is_group_of(syntax: Syntax, group: config::Group) -> bool {
    exists|i: int| 0 <= i < syntax.groups.len() && #[trigger] syntax.groups[i] == group
}

/// Whether the quote is one of the configuration.
pub open spec fn is_quote_of(syntax: Syntax, quote: config::Quote) -> bool {
    exists|i: int| 0 <= i < syntax.quotes.len() && #[trigger] syntax.quotes[i] == quote
}

/// Whether the token, and the tokens in it, stand for punctuation, groups
/// and quotes of the configuration, and the opening symbol of every group
/// and quote has characters.
pub open spec fn start_from(syntax: Syntax, token: StartView) -> bool
    decreases token,
{
    match token {
        StartView::Punct { config, .. } => is_punct_of(syntax, config),
        StartView::Group { content, config, .. } => is_group_of(syntax, config)
            && config.opening.symbol@.len() > 0 && forall|i: int|
            0 <= i < content.len() ==> start_from(syntax, #[trigger] content[i]),
        StartView::Quoted { config, .. } => is_quote_of(syntax, config) && config.opening@.len()
            > 0,
        _ => true,
    }
}

/// Whether the tokens stand for punctuation, groups and quotes of the
/// configuration.
pub open spec fn starts_from(syntax: Syntax, tokens: Seq<StartView>) -> bool {
    forall|i: int| 0 <= i < tokens.len() ==> start_from(syntax, #[trigger] tokens[i])
}

/// A token of the configuration before tokens of the configuration.
pub proof fn lemma_after_from(syntax: Syntax, token: StartView, rest: Seq<StartView>)
    requires
        start_from(syntax, token),
        starts_from(syntax, rest),
    ensures
        starts_from(syntax, seq![token] + rest),
{
    let all = seq![token] + rest;
    assert forall|i: int| 0 <= i < all.len() implies start_from(syntax, #[trigger] all[i]) by {
        if i > 0 {
            assert(all[i] == rest[i - 1]);
        }
    }
}

/// The tokens from a position on stand for punctuation, groups and quotes
/// of the configuration, and the opening symbol of every group and quote
/// among them has characters.
pub proof fn lemma_parse_from_syntax(
    syntax: Syntax,
    input: Seq<char>,
    from: int,
    terminator: Option<Seq<char>>,
    last: Last,
)
    requires
        0 <= from <= input.len() <= usize::MAX,
    ensures
        starts_from(syntax, parse_from(syntax, input, from, terminator, last).tokens),
    decreases input.len() - from,
{
    lemma_parse_stop(syntax, input, from, terminator, last);
    lemma_parse_run(syntax, input, from, terminator, last);
    match rule_at(syntax, input, from, terminator) {
        Rule::End => {},
        Rule::Closing => {},
        Rule::Newline => {
            let next = from + newline_len(input, from);
            lemma_parse_from_syntax(syntax, input, next, terminator, Last::Newline);
            let rest = parse_from(syntax, input, next, terminator, Last::Newline);
            lemma_after_from(syntax, StartView::Newline { start: from as usize }, rest.tokens);
        },
        Rule::Space => {
            lemma_parse_from_syntax(syntax, input, from + 1, terminator, Last::Space);
            let rest = parse_from(syntax, input, from + 1, terminator, Last::Space);
            lemma_after_from(syntax, StartView::Space { start: from as usize }, rest.tokens);
        },
        Rule::Raw => {
            lemma_parse_from_syntax(syntax, input, from + 1, terminator, Last::Raw);
            let rest = parse_from(syntax, input, from + 1, terminator, Last::Raw);
            lemma_after_from(syntax, StartView::Raw { start: from as usize }, rest.tokens);
        },
        Rule::Group(index) => {
            lemma_parse_group(syntax, input, from, terminator, last);
            let config = syntax.groups[index];
            let inside = from + config.opening.symbol@.len();
            lemma_parse_from_syntax(
                syntax,
                input,
                inside,
                Some(config.closing.symbol@),
                Last::Complete,
            );
            lemma_parse_clean(syntax, input, inside, Some(config.closing.symbol@), Last::Complete);
            let inner = parse_from(
                syntax,
                input,
                inside,
                Some(config.closing.symbol@),
                Last::Complete,
            );
            lemma_parse_from_syntax(syntax, input, inner.end, terminator, Last::Complete);
            let rest = parse_from(syntax, input, inner.end, terminator, Last::Complete);
            let group = StartView::Group {
                opening: from as usize,
                content: inner.tokens,
                closing: inner.closing,
                config,
            };
            assert(start_from(syntax, group));
            lemma_after_from(syntax, group, rest.tokens);
        },
        Rule::Quote(index) => {
            lemma_parse_quote(syntax, input, from, terminator, last);
            let config = syntax.quotes[index];
            let lexer = quoted_lexer(syntax, input, from, config);
            lemma_content_end(input, lexer.cursor.offset, lexer.escape_char, lexer.terminator);
            let end = lexer.finished().cursor.offset;
            lemma_parse_from_syntax(syntax, input, end, terminator, Last::Complete);
            let rest = parse_from(syntax, input, end, terminator, Last::Complete);
            lemma_after_from(syntax, l1::quoted_token(syntax, input, from, config), rest.tokens);
        },
        Rule::Punct(index) => {
            lemma_parse_punct(syntax, input, from, terminator, last);
            let config = syntax.puncts[index];
            let next = from + config.symbol@.len();
            lemma_parse_from_syntax(syntax, input, next, terminator, Last::Complete);
            let rest = parse_from(syntax, input, next, terminator, Last::Complete);
            lemma_after_from(syntax, StartView::Punct { start: from as usize, config }, rest.tokens);
        },
    }
}

/// Whether the token, and the tokens in it, stand for punctuation, groups
/// and quotes of the configuration, and the opening symbol of every group
/// and quote has characters.
pub open spec fn token_from(syntax: Syntax, token: TreeView) -> bool
    decreases token,
{
    match token {
        TreeView::Punct(punct) => is_punct_of(syntax, punct),
        TreeView::Group { content, config, .. } => is_group_of(syntax, config)
            && config.opening.symbol@.len() > 0 && forall|i: int|
            0 <= i < content.len() ==> token_from(syntax, #[trigger] content[i]),
        TreeView::Quoted { config, .. } => is_quote_of(syntax, config) && config.opening@.len()
            > 0,
        _ => true,
    }
}

/// A token with its text stands for what the token stands for.
pub proof fn lemma_convert_from(syntax: Syntax, input: Seq<char>, node: StartView, end: int)
    requires
        start_from(syntax, node),
    ensures
        token_from(syntax, convert_node(input, node, end)),
    decreases node,
{
    match node {
        StartView::Group { content, closing, .. } => {
            lemma_convert_group(input, node, end);
            let converted = convert(input, content, or_end(closing, end));
            assert forall|i: int| 0 <= i < converted.len() implies token_from(
                syntax,
                #[trigger] converted[i],
            ) by {
                lemma_convert_from(
                    syntax,
                    input,
                    content[i],
                    end_of(content, i, or_end(closing, end)),
                );
            }
        },
        _ => {},
    }
}

/// The tokens of an input stand for punctuation, groups and quotes of the
/// configuration, and the opening symbol of every group and quote among
/// them has characters.
pub proof fn lemma_parsed_from_syntax(syntax: Syntax, input: Seq<char>)
    requires
        input.len() <= usize::MAX,
    ensures
        forall|i: int|
            0 <= i < parsed(syntax, input).len() ==> token_from(
                syntax,
                #[trigger] parsed(syntax, input)[i],
            ),
{
    lemma_parse_from_syntax(syntax, input, 0, None, Last::Complete);
    let tokens = l1::parsed(syntax, input);
    let end = input.len() as int;
    assert forall|i: int| 0 <= i < parsed(syntax, input).len() implies token_from(
        syntax,
        #[trigger] parsed(syntax, input)[i],
    ) by {
        assert(start_from(syntax, tokens[i]));
        lemma_convert_from(syntax, input, tokens[i], end_of(tokens, i, end));
    }
}

} // verus!
