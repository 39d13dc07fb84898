//! The general-purpose configuration meets the conditions of the laws on
//! the configuration.

use crate::chars::{is_blank_text, is_whitespace, spaces};
use crate::decondenser::{is_bracket, is_quote, is_separator, Decondenser};
use crate::formatting::laws::fit::syntax_one_line;
use crate::formatting::laws::leading::syntax_leads;
use crate::formatting::laws::lines::{syntax_ends_with_text, syntax_firm};
use crate::formatting::laws::blanks::one_line;
use crate::visual_size::VisualSize;
use vstd::prelude::*;

verus! {

/// Whether the configuration has the groups, the punctuation and the quotes
/// of the general-purpose configuration.
pub open spec fn is_generic<V: VisualSize>(config: &Decondenser<V>) -> bool {
    &&& config.groups@.len() == 4
    &&& is_bracket(config.groups@[0], "("@, ")"@, 0)
    &&& is_bracket(config.groups@[1], "["@, "]"@, 0)
    &&& is_bracket(config.groups@[2], "{"@, "}"@, 1)
    &&& is_bracket(config.groups@[3], "<<"@, ">>"@, 0)
    &&& config.puncts@.len() == 2
    &&& is_separator(config.puncts@[0], ","@)
    &&& is_separator(config.puncts@[1], ";"@)
    &&& config.quotes@.len() == 4
    &&& is_quote(config.quotes@[0], "\"\"\""@, "\"\"\""@)
    &&& is_quote(config.quotes@[1], "\""@, "\""@)
    &&& is_quote(config.quotes@[2], "'''"@, "'''"@)
    &&& is_quote(config.quotes@[3], "'"@, "'"@)
}

/// The symbols of the general-purpose configuration hold no whitespace, and
/// the space before its punctuation and its groups cannot break: they lead,
/// are firm, end with text and hold no line break.
pub proof fn lemma_generic_syntax<V: VisualSize>(config: &Decondenser<V>)
    requires
        is_generic(config),
    ensures
        syntax_leads(config.syntax()),
        syntax_firm(config.syntax()),
        syntax_ends_with_text(config.syntax()),
        syntax_one_line(config.syntax()),
{
    reveal_strlit("(");
    reveal_strlit(")");
    reveal_strlit("[");
    reveal_strlit("]");
    reveal_strlit("{");
    reveal_strlit("}");
    reveal_strlit("<<");
    reveal_strlit(">>");
    reveal_strlit(",");
    reveal_strlit(";");
    reveal_strlit("\"\"\"");
    reveal_strlit("\"");
    reveal_strlit("'''");
    reveal_strlit("'");
    let syntax = config.syntax();
    assert forall|i: int| 0 <= i < syntax.groups.len() implies {
        let group = #[trigger] syntax.groups[i];
        &&& group.opening.symbol@.len() > 0
        &&& group.closing.symbol@.len() > 0
        &&& forall|k: int|
            0 <= k < group.opening.symbol@.len() ==> !is_whitespace(
                #[trigger] group.opening.symbol@[k],
            )
        &&& forall|k: int|
            0 <= k < group.closing.symbol@.len() ==> !is_whitespace(
                #[trigger] group.closing.symbol@[k],
            )
        &&& !group.opening.leading_space.breakable
    } by {
        if i == 0 {
        } else if i == 1 {
        } else if i == 2 {
        } else {
        }
    }
    assert forall|i: int| 0 <= i < syntax.puncts.len() implies {
        let punct = #[trigger] syntax.puncts[i];
        &&& punct.symbol@.len() > 0
        &&& forall|k: int|
            0 <= k < punct.symbol@.len() ==> !is_whitespace(#[trigger] punct.symbol@[k])
        &&& !punct.leading_space.breakable
    } by {
        if i == 0 {
        } else {
        }
    }
    assert forall|i: int| 0 <= i < syntax.quotes.len() implies {
        let quote = #[trigger] syntax.quotes[i];
        &&& quote.opening@.len() > 0
        &&& quote.closing@.len() > 0
        &&& forall|k: int|
            0 <= k < quote.opening@.len() ==> !is_whitespace(#[trigger] quote.opening@[k])
        &&& forall|k: int|
            0 <= k < quote.closing@.len() ==> !is_whitespace(#[trigger] quote.closing@[k])
    } by {
        if i == 0 {
        } else if i == 1 {
        } else if i == 2 {
        } else {
        }
    }
    assert(is_whitespace(' ') && is_whitespace('\n'));
    assert forall|text: Seq<char>|
        text.len() > 0 && (forall|k: int| 0 <= k < text.len() ==> !is_whitespace(
            #[trigger] text[k],
        )) implies #[trigger] plain(text) by {
        assert(!is_whitespace(text[0]));
        assert(!is_whitespace(text.last()));
    }
    assert forall|i: int| 0 <= i < syntax.groups.len() implies plain(
        (#[trigger] syntax.groups[i]).opening.symbol@,
    ) && plain(syntax.groups[i].closing.symbol@) by {}
    assert forall|i: int| 0 <= i < syntax.puncts.len() implies plain(
        (#[trigger] syntax.puncts[i]).symbol@,
    ) by {}
    assert forall|i: int| 0 <= i < syntax.quotes.len() implies plain(
        (#[trigger] syntax.quotes[i]).opening@,
    ) && plain(syntax.quotes[i].closing@) by {}
}

/// Whether the text meets what the laws ask of a symbol.
pub open spec fn plain(text: Seq<char>) -> bool {
    &&& crate::formatting::laws::leading::leads(text)
    &&& crate::formatting::laws::lines::firm(text)
    &&& crate::formatting::laws::lines::ends_with_text(text)
    &&& one_line(text)
}

/// An indent of spaces is whitespace and holds no line break.
pub proof fn lemma_spaces_indent(count: nat)
    ensures
        is_blank_text(spaces(count)),
        one_line(spaces(count)),
{
    assert(is_whitespace(' '));
}

} // verus!
