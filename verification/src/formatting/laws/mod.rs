//! What holds of every output of the formatter.
//!
//! The laws are proved in three steps: of what a printer prints that is told
//! operations with any distances; of the operations that the normalization
//! hands on; and of the operations that the driver issues for a token tree.
//!
//! - [`lines`]: no line ends with a space, and the output does not end
//!   with whitespace. It rests on [`passing`].
//! - [`leading`]: the output does not start with whitespace.
//! - [`fidelity`] and [`quotes`]: quoted content stands in the output as it
//!   stands in the input.
//! - [`content`]: the formatter changes nothing but whitespace.
//! - [`fit`]: input that fits in a line is laid out on one line. It rests on
//!   [`balance`] and [`steady`].

pub mod balance;
pub mod blanks;
pub mod content;
pub mod count;
pub mod fidelity;
pub mod fit;
pub mod generic;
pub mod leading;
pub mod lines;
pub mod passing;
pub mod quotes;
pub mod steady;

use crate::config;
use crate::decondenser::Decondenser;
use crate::formatting::{
    between_ops, blank_count, blank_size, closing_ops, empty_group_ops, format_ops,
    group_body_ops, group_content_ops, group_inner, inner_end, input_ops, left, lemma_format_ops,
    measured, node_ops, pieces_ops, punct_ops, quoted_ops, space_ops, taken_blank,
};
use crate::decondenser::Syntax;
use crate::parsing::l2::laws::{is_clean, raw_texts_clean};
use crate::parsing::l2::origin::token_from;
use crate::parsing::l2::token_tree::TreeView;
use crate::visual_size::VisualSize;
use crate::formatting::engine::normal::{
    all_emitted, emitted, final_ops, normalized_ops, waiting_ops,
};
use crate::formatting::engine::{FormatterView, Op};
use crate::parsing::quoted::l2::TokenView as QuotedView;
use vstd::prelude::*;

verus! {

/// Whether the text of every raw operation with characters satisfies
/// `holds`.
pub open spec fn raws_satisfy(ops: Seq<Op>, holds: spec_fn(Seq<char>) -> bool) -> bool {
    forall|i: int|
        0 <= i < ops.len() ==> (#[trigger] ops[i] matches Op::Raw(text) ==> text.chars.len() == 0
            || holds(text.chars))
}

/// Whether none of the operations is raw text.
pub open spec fn no_raw(ops: Seq<Op>) -> bool {
    forall|i: int| 0 <= i < ops.len() ==> !(#[trigger] ops[i] is Raw)
}

/// What waits in a formatter is no raw text.
pub proof fn lemma_waiting_no_raw(state: FormatterView)
    ensures
        no_raw(waiting_ops(state)),
        no_raw(final_ops(state)),
{
}

/// Operations that satisfy `holds`, one sequence after another, satisfy it.
pub proof fn lemma_raws_satisfy_concat(
    first: Seq<Op>,
    second: Seq<Op>,
    holds: spec_fn(Seq<char>) -> bool,
)
    requires
        raws_satisfy(first, holds),
        raws_satisfy(second, holds),
    ensures
        raws_satisfy(first + second, holds),
{
    assert forall|i: int| 0 <= i < (first + second).len() implies (#[trigger] (first
        + second)[i] matches Op::Raw(text) ==> text.chars.len() == 0 || holds(text.chars)) by {
        if i < first.len() {
            assert((first + second)[i] == first[i]);
        } else {
            assert((first + second)[i] == second[i - first.len()]);
        }
    }
}

/// Operations without raw text satisfy everything.
pub proof fn lemma_no_raw_satisfies(ops: Seq<Op>, holds: spec_fn(Seq<char>) -> bool)
    requires
        no_raw(ops),
    ensures
        raws_satisfy(ops, holds),
{
}

/// The raw texts that the normalization hands on are raw texts that the
/// formatter was given, and have characters.
pub proof fn lemma_normalized_raws(
    state: FormatterView,
    ops: Seq<Op>,
    holds: spec_fn(Seq<char>) -> bool,
)
    requires
        raws_satisfy(ops, holds),
    ensures
        forall|i: int|
            0 <= i < normalized_ops(state, ops).len() ==> (#[trigger] normalized_ops(
                state,
                ops,
            )[i] matches Op::Raw(text) ==> text.chars.len() > 0 && holds(text.chars)),
{
    lemma_all_emitted_raws(state, ops, holds);
    lemma_waiting_no_raw(state.apply_all(ops));
    let first = all_emitted(state, ops);
    let second = final_ops(state.apply_all(ops));
    assert forall|i: int| 0 <= i < (first + second).len() implies (#[trigger] (first
        + second)[i] matches Op::Raw(text) ==> text.chars.len() > 0 && holds(text.chars)) by {
        if i < first.len() {
            assert((first + second)[i] == first[i]);
        } else {
            assert((first + second)[i] == second[i - first.len()]);
        }
    }
}

/// The raw texts among the operations that the measuring part gets are raw
/// texts that the formatter was given, and have characters.
pub proof fn lemma_all_emitted_raws(
    state: FormatterView,
    ops: Seq<Op>,
    holds: spec_fn(Seq<char>) -> bool,
)
    requires
        raws_satisfy(ops, holds),
    ensures
        forall|i: int|
            0 <= i < all_emitted(state, ops).len() ==> (#[trigger] all_emitted(
                state,
                ops,
            )[i] matches Op::Raw(text) ==> text.chars.len() > 0 && holds(text.chars)),
    decreases ops.len(),
{
    if ops.len() > 0 {
        assert forall|i: int| 0 <= i < ops.drop_last().len() implies (
        #[trigger] ops.drop_last()[i] matches Op::Raw(text) ==> text.chars.len() == 0 || holds(
            text.chars,
        )) by {
            assert(ops.drop_last()[i] == ops[i]);
        }
        lemma_all_emitted_raws(state, ops.drop_last(), holds);
        let middle = state.apply_all(ops.drop_last());
        let first = all_emitted(state, ops.drop_last());
        let second = emitted(middle, ops.last());
        lemma_waiting_no_raw(middle);
        assert(ops.last() == ops[ops.len() - 1]);
        assert forall|i: int| 0 <= i < (first + second).len() implies (#[trigger] (first
            + second)[i] matches Op::Raw(text) ==> text.chars.len() > 0 && holds(text.chars)) by {
            if i < first.len() {
                assert((first + second)[i] == first[i]);
            } else {
                let k = i - first.len();
                assert((first + second)[i] == second[k]);
                if k < waiting_ops(middle).len() {
                    assert(second[k] == waiting_ops(middle)[k]);
                }
            }
        }
    }
}

/// Whether the text has no characters or satisfies `holds`.
pub open spec fn empty_or(text: Seq<char>, holds: spec_fn(Seq<char>) -> bool) -> bool {
    text.len() == 0 || holds(text)
}

/// Whether every text of the token that the driver hands to the formatter
/// as raw text satisfies `holds`, or has no characters: the text of raw
/// text, the symbol of punctuation, the symbols of a group and the texts of
/// its content, the delimiters and the pieces of quoted content.
pub open spec fn token_satisfies(token: TreeView, holds: spec_fn(Seq<char>) -> bool) -> bool
    decreases token,
{
    match token {
        TreeView::Raw(text) => empty_or(text, holds),
        TreeView::Punct(punct) => empty_or(punct.symbol@, holds),
        TreeView::Group { content, closed, config } => {
            &&& empty_or(config.opening.symbol@, holds)
            &&& closed ==> empty_or(config.closing.symbol@, holds)
            &&& forall|i: int|
                0 <= i < content.len() ==> token_satisfies(#[trigger] content[i], holds)
        },
        TreeView::Quoted { content, closed, config } => {
            &&& empty_or(config.opening@, holds)
            &&& closed ==> empty_or(config.closing@, holds)
            &&& forall|i: int|
                0 <= i < content.len() ==> empty_or((#[trigger] content[i]).source(), holds)
        },
        _ => true,
    }
}

/// Whether every text of the tokens that the driver hands to the formatter
/// as raw text satisfies `holds`, or has no characters.
pub open spec fn tokens_satisfy(tokens: Seq<TreeView>, holds: spec_fn(Seq<char>) -> bool) -> bool {
    forall|i: int| 0 <= i < tokens.len() ==> token_satisfies(#[trigger] tokens[i], holds)
}

/// The raw text of the operations for a punctuation symbol is the symbol.
pub proof fn lemma_punct_ops_satisfy<V: VisualSize>(
    config: &Decondenser<V>,
    leading: usize,
    punct: config::Punct,
    trailing: usize,
    holds: spec_fn(Seq<char>) -> bool,
)
    requires
        empty_or(punct.symbol@, holds),
    ensures
        raws_satisfy(punct_ops(config, leading, punct, trailing), holds),
{
    let first = space_ops(leading, punct.leading_space);
    let second = seq![Op::Raw(measured(config, punct.symbol@))];
    let third = space_ops(trailing, punct.trailing_space);
    lemma_no_raw_satisfies(first, holds);
    lemma_no_raw_satisfies(third, holds);
    lemma_raws_satisfy_concat(first, second, holds);
    lemma_raws_satisfy_concat(first + second, third, holds);
}

/// The raw texts of the operations for the pieces of quoted content are the
/// texts of the pieces.
pub proof fn lemma_pieces_ops_satisfy<V: VisualSize>(
    config: &Decondenser<V>,
    pieces: Seq<QuotedView>,
    holds: spec_fn(Seq<char>) -> bool,
)
    requires
        forall|i: int| 0 <= i < pieces.len() ==> empty_or((#[trigger] pieces[i]).source(), holds),
    ensures
        raws_satisfy(pieces_ops(config, pieces), holds),
    decreases pieces.len(),
{
    if pieces.len() > 0 {
        assert forall|i: int| 0 <= i < pieces.drop_last().len() implies empty_or(
            (#[trigger] pieces.drop_last()[i]).source(),
            holds,
        ) by {
            assert(pieces.drop_last()[i] == pieces[i]);
        }
        lemma_pieces_ops_satisfy(config, pieces.drop_last(), holds);
        assert(pieces.last() == pieces[pieces.len() - 1]);
        lemma_raws_satisfy_concat(
            pieces_ops(config, pieces.drop_last()),
            seq![Op::Raw(measured(config, pieces.last().source()))],
            holds,
        );
    }
}

/// The raw texts of the operations for quoted content are its delimiters and
/// the texts of its pieces.
pub proof fn lemma_quoted_ops_satisfy<V: VisualSize>(
    config: &Decondenser<V>,
    token: TreeView,
    holds: spec_fn(Seq<char>) -> bool,
)
    requires
        token is Quoted,
        token_satisfies(token, holds),
    ensures
        raws_satisfy(
            quoted_ops(config, token->Quoted_content, token->Quoted_closed, token->Quoted_config),
            holds,
        ),
{
    let content = token->Quoted_content;
    let quote = token->Quoted_config;
    let first = seq![Op::Raw(measured(config, quote.opening@))];
    let second = pieces_ops(config, content);
    let third = if token->Quoted_closed {
        seq![Op::Raw(measured(config, quote.closing@))]
    } else {
        Seq::<Op>::empty()
    };
    lemma_pieces_ops_satisfy(config, content, holds);
    lemma_raws_satisfy_concat(first, second, holds);
    lemma_raws_satisfy_concat(first + second, third, holds);
}

/// The raw texts of the operations for a group are its symbols and the raw
/// texts of the operations for its content.
pub proof fn lemma_group_content_ops_satisfy<V: VisualSize>(
    config: &Decondenser<V>,
    leading: usize,
    content: Seq<TreeView>,
    closed: bool,
    group: config::Group,
    trailing: usize,
    inner: Seq<Op>,
    holds: spec_fn(Seq<char>) -> bool,
)
    requires
        empty_or(group.opening.symbol@, holds),
        closed ==> empty_or(group.closing.symbol@, holds),
        raws_satisfy(inner, holds),
    ensures
        raws_satisfy(
            group_content_ops(config, leading, content, closed, group, trailing, inner),
            holds,
        ),
{
    let begin = seq![Op::Begin(group.break_style.0)];
    let end = seq![Op::End];
    if inner_end(content) <= 0 {
        let first = space_ops(leading, group.opening.leading_space);
        let second = seq![Op::Raw(measured(config, group.opening.symbol@))];
        let third = if closed {
            seq![Op::Raw(measured(config, group.closing.symbol@))] + space_ops(
                trailing,
                group.closing.trailing_space,
            )
        } else {
            Seq::<Op>::empty()
        };
        lemma_no_raw_satisfies(first, holds);
        lemma_raws_satisfy_concat(first, second, holds);
        if closed {
            lemma_no_raw_satisfies(space_ops(trailing, group.closing.trailing_space), holds);
            lemma_raws_satisfy_concat(
                seq![Op::Raw(measured(config, group.closing.symbol@))],
                space_ops(trailing, group.closing.trailing_space),
                holds,
            );
        }
        lemma_raws_satisfy_concat(first + second, third, holds);
        let body = empty_group_ops(config, leading, closed, group, trailing);
        lemma_raws_satisfy_concat(begin, body, holds);
        lemma_raws_satisfy_concat(begin + body, end, holds);
    } else {
        let opening = punct_ops(
            config,
            leading,
            group.opening,
            crate::formatting::blank_size_at(config, content, 0, inner_end(content)),
        );
        let closing = closing_ops(config, content, closed, group, trailing);
        lemma_punct_ops_satisfy(
            config,
            leading,
            group.opening,
            crate::formatting::blank_size_at(config, content, 0, inner_end(content)),
            holds,
        );
        if closed {
            lemma_punct_ops_satisfy(
                config,
                blank_size(
                    config,
                    content,
                    inner_end(content),
                    crate::formatting::trailing_blank_count(content, content.len() as int),
                ),
                group.closing,
                trailing,
                holds,
            );
        }
        lemma_raws_satisfy_concat(opening, seq![Op::Indent(1isize)], holds);
        lemma_raws_satisfy_concat(opening + seq![Op::Indent(1isize)], inner, holds);
        lemma_raws_satisfy_concat(
            opening + seq![Op::Indent(1isize)] + inner,
            seq![Op::Indent(-1isize)],
            holds,
        );
        lemma_raws_satisfy_concat(
            opening + seq![Op::Indent(1isize)] + inner + seq![Op::Indent(-1isize)],
            closing,
            holds,
        );
        let body = group_body_ops(config, leading, content, closed, group, trailing, inner);
        lemma_raws_satisfy_concat(begin, body, holds);
        lemma_raws_satisfy_concat(begin + body, end, holds);
    }
}

/// The raw texts of the operations for tokens are texts of the tokens.
pub proof fn lemma_format_ops_satisfy<V: VisualSize>(
    config: &Decondenser<V>,
    tokens: Seq<TreeView>,
    from: int,
    end: int,
    holds: spec_fn(Seq<char>) -> bool,
)
    requires
        tokens_satisfy(tokens, holds),
    ensures
        raws_satisfy(format_ops(config, tokens, from, end), holds),
    decreases tokens, left(from, end),
{
    lemma_format_ops(config, tokens, from, end);
    let blank = blank_count(tokens, from, end);
    let at = from + blank;
    if from < 0 || from >= end || end > tokens.len() || at >= end {
    } else {
        let token = tokens[at];
        let inner = group_inner(config, token);
        let next = at + 1 + taken_blank(tokens, at, end);
        lemma_format_ops_satisfy(config, tokens, next, end, holds);
        let leading = blank_size(config, tokens, at - blank, blank);
        let trailing = blank_size(config, tokens, at + 1, taken_blank(tokens, at, end));
        assert(token_satisfies(token, holds));
        match token {
            TreeView::Punct(punct) => {
                lemma_punct_ops_satisfy(config, leading, punct, trailing, holds);
            },
            TreeView::Group { content, closed, config: group } => {
                assert(tokens_satisfy(content, holds));
                lemma_format_ops_satisfy(
                    config,
                    content,
                    blank_count(content, 0, inner_end(content)) as int,
                    inner_end(content),
                    holds,
                );
                lemma_group_content_ops_satisfy(
                    config,
                    leading,
                    content,
                    closed,
                    group,
                    trailing,
                    inner,
                    holds,
                );
            },
            TreeView::Raw(text) => {
                let between = between_ops(
                    blank > 0,
                    crate::formatting::blank_has_newline(tokens, at - blank, blank),
                );
                lemma_no_raw_satisfies(between, holds);
                lemma_raws_satisfy_concat(between, seq![Op::Raw(measured(config, text))], holds);
            },
            TreeView::Quoted { content, closed, config: quote } => {
                let between = between_ops(
                    blank > 0,
                    crate::formatting::blank_has_newline(tokens, at - blank, blank),
                );
                lemma_no_raw_satisfies(between, holds);
                lemma_quoted_ops_satisfy(config, token, holds);
                lemma_raws_satisfy_concat(
                    between,
                    quoted_ops(config, content, closed, quote),
                    holds,
                );
            },
            _ => {},
        }
        lemma_raws_satisfy_concat(
            node_ops(config, tokens, blank, at, end, inner),
            format_ops(config, tokens, next, end),
            holds,
        );
    }
}

/// The raw texts of the operations for the whole input are texts of its
/// tokens.
pub proof fn lemma_input_ops_satisfy<V: VisualSize>(
    config: &Decondenser<V>,
    tokens: Seq<TreeView>,
    holds: spec_fn(Seq<char>) -> bool,
)
    requires
        tokens_satisfy(tokens, holds),
    ensures
        raws_satisfy(input_ops(config, tokens), holds),
{
    let begin = seq![Op::Begin(crate::config::BreakStyleEnum::Consistent)];
    let inner = format_ops(
        config,
        tokens,
        blank_count(tokens, 0, tokens.len() as int) as int,
        tokens.len() as int,
    );
    lemma_format_ops_satisfy(
        config,
        tokens,
        blank_count(tokens, 0, tokens.len() as int) as int,
        tokens.len() as int,
        holds,
    );
    lemma_raws_satisfy_concat(begin, inner, holds);
    lemma_raws_satisfy_concat(begin + inner, seq![Op::End], holds);
}

/// Whether every symbol of the token that the driver hands to the formatter
/// as raw text satisfies `holds`, or has no characters: the symbol of
/// punctuation, the symbols of a group and of the tokens in it, the
/// delimiters and the pieces of quoted content.
pub open spec fn token_symbols_satisfy(token: TreeView, holds: spec_fn(Seq<char>) -> bool) -> bool
    decreases token,
{
    match token {
        TreeView::Punct(punct) => empty_or(punct.symbol@, holds),
        TreeView::Group { content, closed, config } => {
            &&& empty_or(config.opening.symbol@, holds)
            &&& closed ==> empty_or(config.closing.symbol@, holds)
            &&& forall|i: int|
                0 <= i < content.len() ==> token_symbols_satisfy(#[trigger] content[i], holds)
        },
        TreeView::Quoted { content, closed, config } => {
            &&& empty_or(config.opening@, holds)
            &&& closed ==> empty_or(config.closing@, holds)
            &&& forall|i: int|
                0 <= i < content.len() ==> empty_or((#[trigger] content[i]).source(), holds)
        },
        _ => true,
    }
}

/// Whether every symbol of the tokens that the driver hands to the
/// formatter as raw text satisfies `holds`, or has no characters.
pub open spec fn symbols_satisfy(tokens: Seq<TreeView>, holds: spec_fn(Seq<char>) -> bool) -> bool {
    forall|i: int| 0 <= i < tokens.len() ==> token_symbols_satisfy(#[trigger] tokens[i], holds)
}

/// Where clean text satisfies `holds`, a token with clean raw texts whose
/// symbols satisfy `holds` satisfies it with all its texts.
pub proof fn lemma_token_satisfies(token: TreeView, holds: spec_fn(Seq<char>) -> bool)
    requires
        raw_texts_clean(token),
        token_symbols_satisfy(token, holds),
        forall|text: Seq<char>| is_clean(text) ==> #[trigger] holds(text),
    ensures
        token_satisfies(token, holds),
    decreases token,
{
    match token {
        TreeView::Group { content, closed, config } => {
            assert forall|i: int| 0 <= i < content.len() implies token_satisfies(
                #[trigger] content[i],
                holds,
            ) by {
                lemma_token_satisfies(content[i], holds);
            }
        },
        _ => {},
    }
}

/// Where clean text satisfies `holds`, tokens with clean raw texts whose
/// symbols satisfy `holds` satisfy it with all their texts.
pub proof fn lemma_tokens_satisfy(tokens: Seq<TreeView>, holds: spec_fn(Seq<char>) -> bool)
    requires
        forall|i: int| 0 <= i < tokens.len() ==> raw_texts_clean(#[trigger] tokens[i]),
        symbols_satisfy(tokens, holds),
        forall|text: Seq<char>| is_clean(text) ==> #[trigger] holds(text),
    ensures
        tokens_satisfy(tokens, holds),
{
    assert forall|i: int| 0 <= i < tokens.len() implies token_satisfies(
        #[trigger] tokens[i],
        holds,
    ) by {
        lemma_token_satisfies(tokens[i], holds);
    }
}

/// Whether every symbol of the configuration satisfies `holds`, or has no
/// characters: the symbols of the punctuation, the opening and closing
/// symbols of the groups, and the delimiters of the quotes.
pub open spec fn syntax_satisfies(syntax: Syntax, holds: spec_fn(Seq<char>) -> bool) -> bool {
    &&& forall|i: int|
        0 <= i < syntax.puncts.len() ==> empty_or((#[trigger] syntax.puncts[i]).symbol@, holds)
    &&& forall|i: int|
        0 <= i < syntax.groups.len() ==> empty_or(
            (#[trigger] syntax.groups[i]).opening.symbol@,
            holds,
        ) && empty_or(syntax.groups[i].closing.symbol@, holds)
    &&& forall|i: int|
        0 <= i < syntax.quotes.len() ==> empty_or((#[trigger] syntax.quotes[i]).opening@, holds)
            && empty_or(syntax.quotes[i].closing@, holds)
}

/// Whether every piece of the quoted content of the token, and of the
/// tokens in it, satisfies `holds`, or has no characters.
pub open spec fn quoted_satisfies(token: TreeView, holds: spec_fn(Seq<char>) -> bool) -> bool
    decreases token,
{
    match token {
        TreeView::Group { content, .. } => forall|i: int|
            0 <= i < content.len() ==> quoted_satisfies(#[trigger] content[i], holds),
        TreeView::Quoted { content, .. } => forall|i: int|
            0 <= i < content.len() ==> empty_or((#[trigger] content[i]).source(), holds),
        _ => true,
    }
}

/// Whether every piece of the quoted content among the tokens satisfies
/// `holds`, or has no characters.
pub open spec fn all_quoted_satisfy(tokens: Seq<TreeView>, holds: spec_fn(Seq<char>) -> bool) -> bool {
    forall|i: int| 0 <= i < tokens.len() ==> quoted_satisfies(#[trigger] tokens[i], holds)
}

/// The symbols of a token of the configuration satisfy what the symbols of
/// the configuration satisfy.
pub proof fn lemma_token_symbols_satisfy(
    syntax: Syntax,
    token: TreeView,
    holds: spec_fn(Seq<char>) -> bool,
)
    requires
        token_from(syntax, token),
        syntax_satisfies(syntax, holds),
        quoted_satisfies(token, holds),
    ensures
        token_symbols_satisfy(token, holds),
    decreases token,
{
    match token {
        TreeView::Punct(punct) => {
            let i = choose|i: int| 0 <= i < syntax.puncts.len() && #[trigger] syntax.puncts[i]
                == punct;
            assert(empty_or(syntax.puncts[i].symbol@, holds));
        },
        TreeView::Group { content, closed, config } => {
            let i = choose|i: int| 0 <= i < syntax.groups.len() && #[trigger] syntax.groups[i]
                == config;
            assert(empty_or(syntax.groups[i].opening.symbol@, holds));
            assert forall|k: int| 0 <= k < content.len() implies token_symbols_satisfy(
                #[trigger] content[k],
                holds,
            ) by {
                lemma_token_symbols_satisfy(syntax, content[k], holds);
            }
        },
        TreeView::Quoted { content, closed, config } => {
            let i = choose|i: int| 0 <= i < syntax.quotes.len() && #[trigger] syntax.quotes[i]
                == config;
            assert(empty_or(syntax.quotes[i].opening@, holds));
        },
        _ => {},
    }
}

/// Without quotes in the configuration no token is quoted content.
pub proof fn lemma_no_quotes(syntax: Syntax, token: TreeView, holds: spec_fn(Seq<char>) -> bool)
    requires
        token_from(syntax, token),
        syntax.quotes.len() == 0,
    ensures
        quoted_satisfies(token, holds),
    decreases token,
{
    match token {
        TreeView::Group { content, .. } => {
            assert forall|k: int| 0 <= k < content.len() implies quoted_satisfies(
                #[trigger] content[k],
                holds,
            ) by {
                lemma_no_quotes(syntax, content[k], holds);
            }
        },
        _ => {},
    }
}

} // verus!
