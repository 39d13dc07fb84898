//! The tokens cover the input: the texts of the tokens of an input, one
//! after another, are the input without its whitespace outside of quoted
//! content.

use crate::chars::{
    is_blank_text, is_whitespace, lemma_visible_blank, lemma_visible_concat, occurs_at, part,
    visible,
};
use crate::decondenser::Syntax;
use crate::parsing::l1;
use crate::parsing::l1::token_tree::TreeView as StartView;
use crate::parsing::l1::{
    lemma_parse_group, lemma_parse_punct, lemma_parse_quote, lemma_parse_run, lemma_parse_stop,
    newline_len, parse_from, quoted_lexer, rule_at, Last, Parsed, Rule,
};
use crate::parsing::l2::laws::{first_start, lemma_parse_clean, run_clean};
use crate::parsing::l2::text::{
    inner_text, lemma_tokens_text_first, lemma_tokens_text_none, pieces_text, quoted_text,
    token_text, tokens_text,
};
use crate::parsing::l2::{convert, convert_node, end_of, lemma_convert_group, or_end, parsed};
use crate::parsing::quoted::l1 as pieces;
use crate::parsing::quoted::l2::{with_text, with_texts, TokenView as QuotedView};
use vstd::prelude::*;

verus! {

/// The text of pieces behind a first piece.
pub proof fn lemma_pieces_text_first(first: QuotedView, rest: Seq<QuotedView>)
    ensures
        pieces_text(seq![first] + rest) == first.source() + pieces_text(rest),
    decreases rest.len(),
{
    let all = seq![first] + rest;
    if rest.len() == 0 {
        assert(all.drop_last() =~= Seq::<QuotedView>::empty());
        assert(all.last() == first);
        assert(pieces_text(all.drop_last()) =~= Seq::<char>::empty());
        assert(pieces_text(rest) =~= Seq::<char>::empty());
        assert(pieces_text(all) =~= first.source() + pieces_text(rest));
    } else {
        lemma_pieces_text_first(first, rest.drop_last());
        assert(all.drop_last() =~= seq![first] + rest.drop_last());
        assert(all.last() == rest.last());
        assert(pieces_text(all) =~= first.source() + pieces_text(rest));
    }
}

/// Where the first of the pieces starts, or `end` without a piece.
pub open spec fn first_piece(tokens: Seq<pieces::Token>, end: int) -> int {
    if tokens.len() > 0 {
        tokens[0].spec_start() as int
    } else {
        end
    }
}

/// The pieces of quoted content cover the content: their texts, one after
/// another, are the content.
pub proof fn lemma_pieces_cover(
    input: Seq<char>,
    from: int,
    escape_char: char,
    terminator: Option<Seq<char>>,
)
    requires
        0 <= from <= input.len() <= usize::MAX,
    ensures
        ({
            let end = pieces::content_end(input, from, escape_char, terminator);
            let tokens = pieces::pieces(input, from, escape_char, terminator);
            &&& from <= end <= input.len()
            &&& first_piece(tokens, end) == from
            &&& pieces_text(with_texts(input, tokens, end)) == input.subrange(from, end)
            &&& end < input.len() ==> pieces::closes_at(input, end, terminator)
        }),
    decreases input.len() - from,
{
    let end = pieces::content_end(input, from, escape_char, terminator);
    let tokens = pieces::pieces(input, from, escape_char, terminator);
    match pieces::piece_at(input, from, escape_char, terminator) {
        None => {
            assert(with_texts(input, tokens, end) =~= Seq::<QuotedView>::empty());
            assert(input.subrange(from, end) =~= Seq::<char>::empty());
        },
        Some((token, next)) => {
            pieces::lemma_piece_end(input, from, escape_char, terminator);
            lemma_pieces_cover(input, next, escape_char, terminator);
            let rest = pieces::pieces(input, next, escape_char, terminator);
            assert(tokens == seq![token] + rest);
            let texts = with_texts(input, tokens, end);
            let others = with_texts(input, rest, end);
            let first = with_text(input, token, next);
            assert(texts =~= seq![first] + others) by {
                assert(texts.len() == others.len() + 1);
                assert forall|i: int| 0 <= i < texts.len() implies texts[i] == (seq![first]
                    + others)[i] by {
                    if i > 0 {
                        assert(tokens[i] == rest[i - 1]);
                        if i + 1 < tokens.len() {
                            assert(tokens[i + 1] == rest[i]);
                        }
                    } else {
                        if rest.len() > 0 {
                            assert(tokens[1] == rest[0]);
                        }
                    }
                }
            }
            lemma_pieces_text_first(first, others);
            assert(first.source() == input.subrange(from, next));
            assert(input.subrange(from, next) + input.subrange(next, end) =~= input.subrange(
                from,
                end,
            ));
        },
    }
}

/// The tokens with their texts behind a first token.
pub proof fn lemma_convert_first(input: Seq<char>, first: StartView, rest: Seq<StartView>, end: int)
    ensures
        convert(input, seq![first] + rest, end) == seq![
            convert_node(input, first, first_start(rest, end)),
        ] + convert(input, rest, end),
{
    let all = seq![first] + rest;
    let texts = convert(input, all, end);
    let others = convert(input, rest, end);
    let head = convert_node(input, first, first_start(rest, end));
    assert(texts.len() == others.len() + 1);
    assert forall|i: int| 0 <= i < texts.len() implies texts[i] == (seq![head] + others)[i] by {
        if i > 0 {
            assert(all[i] == rest[i - 1]);
            if i + 1 < all.len() {
                assert(all[i + 1] == rest[i]);
            }
            assert(end_of(all, i, end) == end_of(rest, i - 1, end));
        } else {
            if rest.len() > 0 {
                assert(all[1] == rest[0]);
            }
        }
    }
    assert(texts =~= seq![head] + others);
}

/// The text of the tokens with their texts.
pub open spec fn covered(input: Seq<char>, tokens: Seq<StartView>, end: int) -> Seq<char> {
    tokens_text(convert(input, tokens, end), 0, tokens.len() as int)
}

/// The text of the tokens behind a first token.
pub proof fn lemma_covered_first(input: Seq<char>, first: StartView, rest: Seq<StartView>, end: int)
    ensures
        ({
            let head = convert_node(input, first, first_start(rest, end));
            covered(input, seq![first] + rest, end) == token_text(head, inner_text(head)) + covered(
                input,
                rest,
                end,
            )
        }),
{
    lemma_convert_first(input, first, rest, end);
    let head = convert_node(input, first, first_start(rest, end));
    lemma_tokens_text_first(head, convert(input, rest, end));
}

/// The visible characters of a part of the input are those of its first
/// part and those of the rest.
pub proof fn lemma_visible_split(input: Seq<char>, from: int, middle: int, end: int)
    requires
        0 <= from <= middle <= end <= input.len(),
    ensures
        visible(input.subrange(from, end)) == visible(input.subrange(from, middle)) + visible(
            input.subrange(middle, end),
        ),
{
    assert(input.subrange(from, middle) + input.subrange(middle, end) =~= input.subrange(
        from,
        end,
    ));
    lemma_visible_concat(input.subrange(from, middle), input.subrange(middle, end));
}

/// What holds of the tokens from a position on: their texts cover the input
/// from where the first of them starts, up to whitespace.
pub open spec fn run_covers(
    input: Seq<char>,
    from: int,
    terminator: Option<Seq<char>>,
    last: Last,
    parsed: Parsed,
) -> bool {
    let stop = or_end(parsed.closing, input.len() as int);
    let first = first_start(parsed.tokens, stop);
    &&& last is Complete ==> first == from
    &&& last is Space || last is Newline ==> is_blank_text(input.subrange(from, first))
    &&& parsed.closing is Some ==> terminator is Some && occurs_at(input, stop, terminator->0)
        && parsed.end == stop + terminator->0.len()
    &&& visible(covered(input, parsed.tokens, stop)) == visible(input.subrange(first, stop))
}

/// A part of the input that starts with whitespace, before a part of
/// whitespace, is whitespace.
pub proof fn lemma_blank_extend(input: Seq<char>, from: int, middle: int, end: int)
    requires
        0 <= from <= middle <= end <= input.len(),
        is_blank_text(input.subrange(from, middle)),
        is_blank_text(input.subrange(middle, end)),
    ensures
        is_blank_text(input.subrange(from, end)),
{
    let all = input.subrange(from, end);
    assert forall|i: int| 0 <= i < all.len() implies is_whitespace(#[trigger] all[i]) by {
        if i < middle - from {
            assert(all[i] == input.subrange(from, middle)[i]);
        } else {
            assert(all[i] == input.subrange(middle, end)[i - (middle - from)]);
        }
    }
}

/// A blank token before tokens that cover the input behind a blank.
pub proof fn lemma_covers_after_blank(
    input: Seq<char>,
    from: int,
    next: int,
    token: StartView,
    rest: Seq<StartView>,
    stop: int,
)
    requires
        0 <= from < next <= first_start(rest, stop) <= stop <= input.len(),
        token is Space || token is Newline,
        is_blank_text(input.subrange(from, next)),
        is_blank_text(input.subrange(next, first_start(rest, stop))),
        visible(covered(input, rest, stop)) == visible(
            input.subrange(first_start(rest, stop), stop),
        ),
    ensures
        visible(covered(input, seq![token] + rest, stop)) == visible(input.subrange(from, stop)),
{
    let first = first_start(rest, stop);
    lemma_covered_first(input, token, rest, stop);
    lemma_blank_extend(input, from, next, first);
    lemma_visible_blank(input.subrange(from, first));
    lemma_visible_split(input, from, first, stop);
    let head = convert_node(input, token, first);
    assert(token_text(head, inner_text(head)) =~= Seq::<char>::empty());
    assert(Seq::<char>::empty() + covered(input, rest, stop) =~= covered(input, rest, stop));
    assert(Seq::<char>::empty() + visible(input.subrange(first, stop)) =~= visible(
        input.subrange(first, stop),
    ));
}

/// A token with a text of its own before tokens that cover the input behind
/// it.
pub proof fn lemma_covers_after(
    input: Seq<char>,
    from: int,
    token: StartView,
    rest: Seq<StartView>,
    stop: int,
)
    requires
        0 <= from <= first_start(rest, stop) <= stop <= input.len(),
        ({
            let head = convert_node(input, token, first_start(rest, stop));
            visible(token_text(head, inner_text(head))) == visible(
                input.subrange(from, first_start(rest, stop)),
            )
        }),
        visible(covered(input, rest, stop)) == visible(
            input.subrange(first_start(rest, stop), stop),
        ),
    ensures
        visible(covered(input, seq![token] + rest, stop)) == visible(input.subrange(from, stop)),
{
    let first = first_start(rest, stop);
    let head = convert_node(input, token, first);
    lemma_covered_first(input, token, rest, stop);
    lemma_visible_concat(token_text(head, inner_text(head)), covered(input, rest, stop));
    lemma_visible_split(input, from, first, stop);
}

/// The text of a group with its text is the input from its opening symbol
/// to its closing symbol, up to whitespace.
pub proof fn lemma_group_covers(
    input: Seq<char>,
    from: int,
    group: StartView,
    inner: Parsed,
    end: int,
)
    requires
        0 <= from <= input.len() <= usize::MAX,
        group matches StartView::Group { opening, content, closing, config } && opening == from
            && content == inner.tokens && closing == inner.closing && occurs_at(
            input,
            from,
            config.opening.symbol@,
        ) && run_covers(
            input,
            from + config.opening.symbol@.len(),
            Some(config.closing.symbol@),
            Last::Complete,
            inner,
        ) && run_clean(input, from + config.opening.symbol@.len(), Last::Complete, inner),
        end == inner.end,
    ensures
        ({
            let head = convert_node(input, group, end);
            visible(token_text(head, inner_text(head))) == visible(input.subrange(from, end))
        }),
{
    let config = group->Group_config;
    let inside = from + config.opening.symbol@.len();
    let stop = or_end(inner.closing, input.len() as int);
    let head = convert_node(input, group, end);
    lemma_convert_group(input, group, end);
    assert(or_end(inner.closing, end) == stop);
    let content_text = covered(input, inner.tokens, stop);
    assert(inner_text(head) == content_text);
    let closing_text = if inner.closing is Some {
        config.closing.symbol@
    } else {
        Seq::<char>::empty()
    };
    assert(token_text(head, inner_text(head)) == config.opening.symbol@ + content_text
        + closing_text);
    lemma_visible_concat(config.opening.symbol@, content_text);
    lemma_visible_concat(config.opening.symbol@ + content_text, closing_text);
    assert(config.opening.symbol@ == input.subrange(from, inside));
    assert(closing_text =~= input.subrange(stop, end));
    assert(first_start(inner.tokens, stop) == inside);
    lemma_visible_split(input, from, inside, stop);
    lemma_visible_split(input, from, stop, end);
}

/// The text of quoted content with its text is the input from its opening
/// delimiter to its closing delimiter.
pub proof fn lemma_quoted_covers(
    syntax: Syntax,
    input: Seq<char>,
    from: int,
    config: crate::config::Quote,
    end: int,
)
    requires
        0 <= from <= input.len() <= usize::MAX,
        occurs_at(input, from, config.opening@),
        end == quoted_lexer(syntax, input, from, config).finished().cursor.offset,
    ensures
        from + config.opening@.len() <= end <= input.len(),
        ({
            let head = convert_node(input, l1::quoted_token(syntax, input, from, config), end);
            token_text(head, inner_text(head)) == input.subrange(from, end)
        }),
{
    let lexer = quoted_lexer(syntax, input, from, config);
    let inside = from + config.opening@.len();
    let token = l1::quoted_token(syntax, input, from, config);
    let head = convert_node(input, token, end);
    lemma_pieces_cover(input, inside, syntax.escape_char, Some(config.closing@));
    let stop = pieces::content_end(input, inside, syntax.escape_char, Some(config.closing@));
    let closing = lexer.finished().closing;
    assert(or_end(closing, end) == stop);
    let closing_text = if closing is Some {
        config.closing@
    } else {
        Seq::<char>::empty()
    };
    assert(quoted_text(head) == config.opening@ + input.subrange(inside, stop) + closing_text);
    assert(config.opening@ == input.subrange(from, inside));
    assert(closing_text =~= input.subrange(stop, end));
    assert(input.subrange(from, inside) + input.subrange(inside, stop) + input.subrange(
        stop,
        end,
    ) =~= input.subrange(from, end));
}

/// Where the rest starts behind what stands at `from`.
pub open spec fn behind(syntax: Syntax, input: Seq<char>, from: int, terminator: Option<Seq<char>>) -> int {
    match rule_at(syntax, input, from, terminator) {
        Rule::Newline => from + newline_len(input, from),
        Rule::Punct(index) => from + syntax.puncts[index].symbol@.len(),
        _ => from + 1,
    }
}

/// The kind of token to which what stands at `from` goes.
pub open spec fn kind_at(syntax: Syntax, input: Seq<char>, from: int, terminator: Option<Seq<char>>) -> Last {
    match rule_at(syntax, input, from, terminator) {
        Rule::Newline => Last::Newline,
        Rule::Space => Last::Space,
        Rule::Raw => Last::Raw,
        _ => Last::Complete,
    }
}

/// Rules 2 and 3: where the tokens behind a blank character cover the
/// input, so do the tokens from the character on.
pub proof fn lemma_covers_blank(
    syntax: Syntax,
    input: Seq<char>,
    from: int,
    terminator: Option<Seq<char>>,
    last: Last,
)
    requires
        0 <= from <= input.len() <= usize::MAX,
        rule_at(syntax, input, from, terminator) is Newline || rule_at(
            syntax,
            input,
            from,
            terminator,
        ) is Space,
        ({
            let next = behind(syntax, input, from, terminator);
            let kind = kind_at(syntax, input, from, terminator);
            let rest = parse_from(syntax, input, next, terminator, kind);
            run_covers(input, next, terminator, kind, rest) && run_clean(input, next, kind, rest)
        }),
    ensures
        run_covers(input, from, terminator, last, parse_from(syntax, input, from, terminator, last)),
{
    let length = input.len() as int;
    lemma_parse_run(syntax, input, from, terminator, last);
    let next = behind(syntax, input, from, terminator);
    let kind = kind_at(syntax, input, from, terminator);
    let rest = parse_from(syntax, input, next, terminator, kind);
    let stop = or_end(rest.closing, length);
    let first = first_start(rest.tokens, stop);
    assert(next <= first <= stop) by {
        if rest.tokens.len() > 0 {
            assert(next <= rest.tokens[0].start() <= stop);
        }
    }
    assert(is_blank_text(input.subrange(from, next))) by {
        assert forall|i: int| 0 <= i < next - from implies is_whitespace(
            #[trigger] input.subrange(from, next)[i],
        ) by {
            assert(input.subrange(from, next)[i] == input[from + i]);
        }
    }
    if last == kind {
        lemma_blank_extend(input, from, next, first);
    } else {
        let token = if kind is Newline {
            StartView::Newline { start: from as usize }
        } else {
            StartView::Space { start: from as usize }
        };
        lemma_covers_after_blank(input, from, next, token, rest.tokens, stop);
        assert(input.subrange(from, from) =~= Seq::<char>::empty());
    }
}

/// Rule 7: where the tokens behind a character of raw text cover the input,
/// so do the tokens from the character on.
pub proof fn lemma_covers_raw(
    syntax: Syntax,
    input: Seq<char>,
    from: int,
    terminator: Option<Seq<char>>,
    last: Last,
)
    requires
        0 <= from <= input.len() <= usize::MAX,
        rule_at(syntax, input, from, terminator) is Raw,
        ({
            let rest = parse_from(syntax, input, from + 1, terminator, Last::Raw);
            run_covers(input, from + 1, terminator, Last::Raw, rest) && run_clean(
                input,
                from + 1,
                Last::Raw,
                rest,
            )
        }),
    ensures
        run_covers(input, from, terminator, last, parse_from(syntax, input, from, terminator, last)),
{
    let length = input.len() as int;
    lemma_parse_run(syntax, input, from, terminator, last);
    let next = from + 1;
    let rest = parse_from(syntax, input, next, terminator, Last::Raw);
    let stop = or_end(rest.closing, length);
    let first = first_start(rest.tokens, stop);
    assert(next <= first <= stop) by {
        if rest.tokens.len() > 0 {
            assert(next <= rest.tokens[0].start() <= stop);
        }
    }
    if !(last is Raw) {
        let token = StartView::Raw { start: from as usize };
        let head = convert_node(input, token, first);
        assert(token_text(head, inner_text(head)) == input.subrange(from, first));
        lemma_covers_after(input, from, token, rest.tokens, stop);
        assert(input.subrange(from, from) =~= Seq::<char>::empty());
    }
}

/// Rule 6: where the tokens behind a punctuation symbol cover the input, so
/// do the tokens from the symbol on.
pub proof fn lemma_covers_punct(
    syntax: Syntax,
    input: Seq<char>,
    from: int,
    terminator: Option<Seq<char>>,
    last: Last,
)
    requires
        0 <= from <= input.len() <= usize::MAX,
        rule_at(syntax, input, from, terminator) is Punct,
        ({
            let next = behind(syntax, input, from, terminator);
            let rest = parse_from(syntax, input, next, terminator, Last::Complete);
            run_covers(input, next, terminator, Last::Complete, rest) && run_clean(
                input,
                next,
                Last::Complete,
                rest,
            )
        }),
    ensures
        run_covers(input, from, terminator, last, parse_from(syntax, input, from, terminator, last)),
{
    let length = input.len() as int;
    lemma_parse_punct(syntax, input, from, terminator, last);
    let config = syntax.puncts[rule_at(syntax, input, from, terminator)->Punct_0];
    let next = from + config.symbol@.len();
    let rest = parse_from(syntax, input, next, terminator, Last::Complete);
    let stop = or_end(rest.closing, length);
    let token = StartView::Punct { start: from as usize, config };
    let head = convert_node(input, token, next);
    assert(token_text(head, inner_text(head)) == input.subrange(from, next));
    lemma_covers_after(input, from, token, rest.tokens, stop);
    assert(input.subrange(from, from) =~= Seq::<char>::empty());
}

/// Rule 5: where the tokens behind quoted content cover the input, so do the
/// tokens from the quoted content on.
pub proof fn lemma_covers_quote(
    syntax: Syntax,
    input: Seq<char>,
    from: int,
    terminator: Option<Seq<char>>,
    last: Last,
)
    requires
        0 <= from <= input.len() <= usize::MAX,
        rule_at(syntax, input, from, terminator) is Quote,
        ({
            let config = syntax.quotes[rule_at(syntax, input, from, terminator)->Quote_0];
            let end = quoted_lexer(syntax, input, from, config).finished().cursor.offset;
            let rest = parse_from(syntax, input, end, terminator, Last::Complete);
            0 <= end <= input.len() ==> run_covers(input, end, terminator, Last::Complete, rest)
                && run_clean(input, end, Last::Complete, rest)
        }),
    ensures
        run_covers(input, from, terminator, last, parse_from(syntax, input, from, terminator, last)),
{
    let length = input.len() as int;
    lemma_parse_quote(syntax, input, from, terminator, last);
    let config = syntax.quotes[rule_at(syntax, input, from, terminator)->Quote_0];
    let end = quoted_lexer(syntax, input, from, config).finished().cursor.offset;
    lemma_quoted_covers(syntax, input, from, config, end);
    let rest = parse_from(syntax, input, end, terminator, Last::Complete);
    let stop = or_end(rest.closing, length);
    lemma_covers_after(
        input,
        from,
        l1::quoted_token(syntax, input, from, config),
        rest.tokens,
        stop,
    );
    assert(input.subrange(from, from) =~= Seq::<char>::empty());
}

/// Rule 4: where the tokens in a group and the tokens behind it cover the
/// input, so do the tokens from the group on.
pub proof fn lemma_covers_group(
    syntax: Syntax,
    input: Seq<char>,
    from: int,
    terminator: Option<Seq<char>>,
    last: Last,
)
    requires
        0 <= from <= input.len() <= usize::MAX,
        rule_at(syntax, input, from, terminator) is Group,
        ({
            let config = syntax.groups[rule_at(syntax, input, from, terminator)->Group_0];
            let inside = from + config.opening.symbol@.len();
            let inner = parse_from(
                syntax,
                input,
                inside,
                Some(config.closing.symbol@),
                Last::Complete,
            );
            let rest = parse_from(syntax, input, inner.end, terminator, Last::Complete);
            &&& run_covers(input, inside, Some(config.closing.symbol@), Last::Complete, inner)
            &&& run_clean(input, inside, Last::Complete, inner)
            &&& run_covers(input, inner.end, terminator, Last::Complete, rest)
            &&& run_clean(input, inner.end, Last::Complete, rest)
        }),
    ensures
        run_covers(input, from, terminator, last, parse_from(syntax, input, from, terminator, last)),
{
    let length = input.len() as int;
    lemma_parse_group(syntax, input, from, terminator, last);
    let config = syntax.groups[rule_at(syntax, input, from, terminator)->Group_0];
    let inside = from + config.opening.symbol@.len();
    let inner = parse_from(syntax, input, inside, Some(config.closing.symbol@), Last::Complete);
    let rest = parse_from(syntax, input, inner.end, terminator, Last::Complete);
    let stop = or_end(rest.closing, length);
    let group = StartView::Group {
        opening: from as usize,
        content: inner.tokens,
        closing: inner.closing,
        config,
    };
    lemma_group_covers(input, from, group, inner, inner.end);
    lemma_covers_after(input, from, group, rest.tokens, stop);
    assert(input.subrange(from, from) =~= Seq::<char>::empty());
}

/// The texts of the tokens from a position on, one after another, are the
/// input from where the first of them starts, up to whitespace.
pub proof fn lemma_parse_covers(
    syntax: Syntax,
    input: Seq<char>,
    from: int,
    terminator: Option<Seq<char>>,
    last: Last,
)
    requires
        0 <= from <= input.len() <= usize::MAX,
    ensures
        run_covers(input, from, terminator, last, parse_from(syntax, input, from, terminator, last)),
    decreases input.len() - from,
{
    let next = behind(syntax, input, from, terminator);
    let kind = kind_at(syntax, input, from, terminator);
    match rule_at(syntax, input, from, terminator) {
        Rule::End => {
            lemma_parse_stop(syntax, input, from, terminator, last);
            lemma_tokens_text_none(convert(input, Seq::<StartView>::empty(), from));
            assert(input.subrange(from, from) =~= Seq::<char>::empty());
        },
        Rule::Closing => {
            lemma_parse_stop(syntax, input, from, terminator, last);
            lemma_tokens_text_none(convert(input, Seq::<StartView>::empty(), from));
            assert(input.subrange(from, from) =~= Seq::<char>::empty());
        },
        Rule::Newline => {
            lemma_parse_covers(syntax, input, next, terminator, kind);
            lemma_parse_clean(syntax, input, next, terminator, kind);
            lemma_covers_blank(syntax, input, from, terminator, last);
        },
        Rule::Space => {
            lemma_parse_covers(syntax, input, next, terminator, kind);
            lemma_parse_clean(syntax, input, next, terminator, kind);
            lemma_covers_blank(syntax, input, from, terminator, last);
        },
        Rule::Raw => {
            lemma_parse_covers(syntax, input, next, terminator, kind);
            lemma_parse_clean(syntax, input, next, terminator, kind);
            lemma_covers_raw(syntax, input, from, terminator, last);
        },
        Rule::Punct(index) => {
            lemma_parse_covers(syntax, input, next, terminator, kind);
            lemma_parse_clean(syntax, input, next, terminator, kind);
            lemma_covers_punct(syntax, input, from, terminator, last);
        },
        Rule::Group(index) => {
            let config = syntax.groups[index];
            let inside = from + config.opening.symbol@.len();
            lemma_parse_covers(syntax, input, inside, Some(config.closing.symbol@), Last::Complete);
            lemma_parse_clean(syntax, input, inside, Some(config.closing.symbol@), Last::Complete);
            let inner = parse_from(
                syntax,
                input,
                inside,
                Some(config.closing.symbol@),
                Last::Complete,
            );
            lemma_parse_covers(syntax, input, inner.end, terminator, Last::Complete);
            lemma_parse_clean(syntax, input, inner.end, terminator, Last::Complete);
            lemma_covers_group(syntax, input, from, terminator, last);
        },
        Rule::Quote(index) => {
            let config = syntax.quotes[index];
            let end = quoted_lexer(syntax, input, from, config).finished().cursor.offset;
            pieces::lemma_content_end(
                input,
                from + config.opening@.len(),
                syntax.escape_char,
                Some(config.closing@),
            );
            lemma_parse_covers(syntax, input, end, terminator, Last::Complete);
            lemma_parse_clean(syntax, input, end, terminator, Last::Complete);
            lemma_covers_quote(syntax, input, from, terminator, last);
        },
    }
}

/// The texts of the tokens of an input, one after another, are the input
/// without its whitespace, up to whitespace in quoted content: the tokenizer
/// loses nothing of the input but blanks, and adds nothing.
pub proof fn lemma_tokens_cover(syntax: Syntax, input: Seq<char>)
    requires
        input.len() <= usize::MAX,
    ensures
        visible(tokens_text(parsed(syntax, input), 0, parsed(syntax, input).len() as int))
            == visible(input),
{
    lemma_parse_covers(syntax, input, 0, None, Last::Complete);
    lemma_parse_clean(syntax, input, 0, None, Last::Complete);
    assert(input.subrange(0, input.len() as int) =~= input);
}

} // verus!
