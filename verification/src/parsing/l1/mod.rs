//! The first level of the tokenizer: it finds where the tokens start.
//!
//! At each position the first of these rules that applies decides:
//!
//! 1. the closing symbol of the enclosing group ends the group;
//! 2. a line break, which is `\n` or `\r\n`, goes to a `Newline` token;
//! 3. any other whitespace goes to a `Space` token;
//! 4. the opening symbol of a group starts a group;
//! 5. the opening sequence of a quote starts quoted content;
//! 6. a punctuation symbol is a `Punct` token;
//! 7. any other character goes to a `Raw` token.
//!
//! Among the groups, among the quotes and among the punctuation the first
//! in the order of the configuration counts, not the longest. A symbol
//! without characters is never found. Adjacent characters of a rule 2, 3 or
//! 7 go to one token.

pub mod token_tree;

use crate::chars::{char_is_whitespace, is_whitespace, occurs_at};
use crate::config;
use crate::cursor::{Cursor, CursorView};
use crate::decondenser::{Decondenser, Syntax};
use crate::parsing::l1::token_tree::{tree_views, lemma_group_view, Group, Punct, Quoted, TokenTree, TreeView};
use crate::parsing::quoted::l1::{
    closes_at, lemma_content_end, pieces, Lexer as QuotedLexer, LexerView,
};
use crate::visual_size::VisualSize;
use vstd::prelude::*;

verus! {

/// The kind of the last token, where the next character may go to it.
#[derive(Clone, Copy, Debug, PartialEq, Eq, Structural)]
pub enum Last {
    /// There is no token, or a token that is complete.
    Complete,
    /// A `Space` token.
    Space,
    /// A `Newline` token.
    Newline,
    /// A `Raw` token.
    Raw,
}

/// The tokens of a run of the input.
pub struct Parsed {
    /// The tokens.
    pub tokens: Seq<TreeView>,
    /// The position behind the run.
    pub end: int,
    /// The offset of the closing symbol that ended the run, if one did.
    pub closing: Option<usize>,
}

impl Parsed {
    /// The run with `token` before its tokens.
    pub open spec fn after(self, token: TreeView) -> Parsed {
        Parsed { tokens: seq![token] + self.tokens, ..self }
    }
}

/// The number of characters of the line break at `at`: 1 for `\n`, 2 for
/// `\r\n`, 0 where no line break stands.
pub open spec fn newline_len(input: Seq<char>, at: int) -> int {
    if 0 <= at < input.len() && input[at] == '\n' {
        1
    } else if 0 <= at && at + 1 < input.len() && input[at] == '\r' && input[at + 1] == '\n' {
        2
    } else {
        0
    }
}

/// The opening symbols of the groups.
pub open spec fn group_openings(syntax: Syntax) -> Seq<Seq<char>> {
    Seq::new(syntax.groups.len(), |i: int| syntax.groups[i].opening.symbol@)
}

/// The opening sequences of the quotes.
pub open spec fn quote_openings(syntax: Syntax) -> Seq<Seq<char>> {
    Seq::new(syntax.quotes.len(), |i: int| syntax.quotes[i].opening@)
}

/// The symbols of the punctuation.
pub open spec fn punct_symbols(syntax: Syntax) -> Seq<Seq<char>> {
    Seq::new(syntax.puncts.len(), |i: int| syntax.puncts[i].symbol@)
}

/// The first of the symbols from `from` on that has characters and stands
/// in `input` at `at`.
pub open spec fn first_match(symbols: Seq<Seq<char>>, input: Seq<char>, at: int, from: int) -> Option<
    int,
>
    decreases symbols.len() - from,
{
    if from < 0 || from >= symbols.len() {
        None
    } else if symbols[from].len() > 0 && occurs_at(input, at, symbols[from]) {
        Some(from)
    } else {
        first_match(symbols, input, at, from + 1)
    }
}

/// The first of the symbols that has characters and stands in `input` at
/// `at`.
pub open spec fn found(symbols: Seq<Seq<char>>, input: Seq<char>, at: int) -> Option<int> {
    match first_match(symbols, input, at, 0) {
        Some(index) => if 0 <= index < symbols.len() && symbols[index].len() > 0 && occurs_at(
            input,
            at,
            symbols[index],
        ) {
            Some(index)
        } else {
            None
        },
        None => None,
    }
}

/// What `first_match` finds is one of the symbols, has characters and stands
/// at the position.
pub proof fn lemma_first_match(symbols: Seq<Seq<char>>, input: Seq<char>, at: int, from: int)
    requires
        0 <= from,
    ensures
        first_match(symbols, input, at, from) matches Some(index) ==> from <= index
            < symbols.len() && symbols[index].len() > 0 && occurs_at(input, at, symbols[index]),
        from == 0 ==> found(symbols, input, at) == first_match(symbols, input, at, 0),
    decreases symbols.len() - from,
{
    if from < symbols.len() && !(symbols[from].len() > 0 && occurs_at(input, at, symbols[from])) {
        lemma_first_match(symbols, input, at, from + 1);
    }
}

/// What stands at a position of the input.
pub enum Rule {
    /// The end of the input.
    End,
    /// The closing symbol of the enclosing group.
    Closing,
    /// A line break.
    Newline,
    /// Whitespace other than a line break.
    Space,
    /// The opening symbol of the group with this index.
    Group(int),
    /// The opening sequence of the quote with this index.
    Quote(int),
    /// The symbol of the punctuation with this index.
    Punct(int),
    /// A character of raw text.
    Raw,
}

/// The rule that applies at `from`: the first in the order of the variants
/// of [`Rule`].
pub open spec fn rule_at(syntax: Syntax, input: Seq<char>, from: int, terminator: Option<Seq<char>>) -> Rule {
    if from < 0 || from >= input.len() {
        Rule::End
    } else if closes_at(input, from, terminator) {
        Rule::Closing
    } else if newline_len(input, from) > 0 {
        Rule::Newline
    } else if is_whitespace(input[from]) {
        Rule::Space
    } else if found(group_openings(syntax), input, from) is Some {
        Rule::Group(found(group_openings(syntax), input, from)->0)
    } else if found(quote_openings(syntax), input, from) is Some {
        Rule::Quote(found(quote_openings(syntax), input, from)->0)
    } else if found(punct_symbols(syntax), input, from) is Some {
        Rule::Punct(found(punct_symbols(syntax), input, from)->0)
    } else {
        Rule::Raw
    }
}

/// The state of the lexer of the quoted content behind the opening sequence
/// of `config`, which stands at `from`.
pub open spec fn quoted_lexer(syntax: Syntax, input: Seq<char>, from: int, config: config::Quote) -> LexerView {
    LexerView {
        cursor: CursorView { input, offset: from + config.opening@.len() },
        escape_char: syntax.escape_char,
        terminator: Some(config.closing@),
        closing: None,
    }
}

/// The token of the quoted content whose opening sequence stands at `from`.
pub open spec fn quoted_token(syntax: Syntax, input: Seq<char>, from: int, config: config::Quote) -> TreeView {
    let lexer = quoted_lexer(syntax, input, from, config);
    TreeView::Quoted {
        opening: from as usize,
        content: pieces(input, lexer.cursor.offset, lexer.escape_char, lexer.terminator),
        closing: lexer.finished().closing,
        config,
    }
}

/// The tokens from `from` on, up to the closing symbol `terminator` or the
/// end of the input. `last` is the kind of the token before `from`: a
/// character that goes to that token makes no new one.
#[verifier::opaque]
pub open spec fn parse_from(
    syntax: Syntax,
    input: Seq<char>,
    from: int,
    terminator: Option<Seq<char>>,
    last: Last,
) -> Parsed
    decreases input.len() - from,
{
    match rule_at(syntax, input, from, terminator) {
        Rule::End => Parsed { tokens: Seq::empty(), end: from, closing: None },
        Rule::Closing => Parsed {
            tokens: Seq::empty(),
            end: from + terminator->0.len(),
            closing: Some(from as usize),
        },
        Rule::Newline => {
            let rest = parse_from(
                syntax,
                input,
                from + newline_len(input, from),
                terminator,
                Last::Newline,
            );
            if last is Newline {
                rest
            } else {
                rest.after(TreeView::Newline { start: from as usize })
            }
        },
        Rule::Space => {
            let rest = parse_from(syntax, input, from + 1, terminator, Last::Space);
            if last is Space {
                rest
            } else {
                rest.after(TreeView::Space { start: from as usize })
            }
        },
        Rule::Group(index) => {
            let config = syntax.groups[index];
            let inner = parse_from(
                syntax,
                input,
                from + config.opening.symbol@.len(),
                Some(config.closing.symbol@),
                Last::Complete,
            );
            let group = TreeView::Group {
                opening: from as usize,
                content: inner.tokens,
                closing: inner.closing,
                config,
            };
            if from < inner.end <= input.len() {
                parse_from(syntax, input, inner.end, terminator, Last::Complete).after(group)
            } else {
                Parsed { tokens: seq![group], end: inner.end, closing: None }
            }
        },
        Rule::Quote(index) => {
            let config = syntax.quotes[index];
            let end = quoted_lexer(syntax, input, from, config).finished().cursor.offset;
            let quoted = quoted_token(syntax, input, from, config);
            if from < end <= input.len() {
                parse_from(syntax, input, end, terminator, Last::Complete).after(quoted)
            } else {
                Parsed { tokens: seq![quoted], end, closing: None }
            }
        },
        Rule::Punct(index) => {
            let config = syntax.puncts[index];
            parse_from(
                syntax,
                input,
                from + config.symbol@.len(),
                terminator,
                Last::Complete,
            ).after(TreeView::Punct { start: from as usize, config })
        },
        Rule::Raw => {
            let rest = parse_from(syntax, input, from + 1, terminator, Last::Raw);
            if last is Raw {
                rest
            } else {
                rest.after(TreeView::Raw { start: from as usize })
            }
        },
    }
}

/// Rules 1 and the end of the input: the run of tokens ends.
pub proof fn lemma_parse_stop(
    syntax: Syntax,
    input: Seq<char>,
    from: int,
    terminator: Option<Seq<char>>,
    last: Last,
)
    ensures
        rule_at(syntax, input, from, terminator) is End ==> parse_from(
            syntax,
            input,
            from,
            terminator,
            last,
        ) == (Parsed { tokens: Seq::empty(), end: from, closing: None }),
        rule_at(syntax, input, from, terminator) is Closing ==> parse_from(
            syntax,
            input,
            from,
            terminator,
            last,
        ) == (Parsed {
            tokens: Seq::empty(),
            end: from + terminator->0.len(),
            closing: Some(from as usize),
        }),
{
    reveal(parse_from);
}

/// Rules 2, 3 and 7: the character goes to the token before it where that
/// is of the same kind, and to a new token where it is not.
pub proof fn lemma_parse_run(
    syntax: Syntax,
    input: Seq<char>,
    from: int,
    terminator: Option<Seq<char>>,
    last: Last,
)
    ensures
        rule_at(syntax, input, from, terminator) is Newline ==> parse_from(
            syntax,
            input,
            from,
            terminator,
            last,
        ) == ({
            let rest = parse_from(
                syntax,
                input,
                from + newline_len(input, from),
                terminator,
                Last::Newline,
            );
            if last is Newline {
                rest
            } else {
                rest.after(TreeView::Newline { start: from as usize })
            }
        }),
        rule_at(syntax, input, from, terminator) is Space ==> parse_from(
            syntax,
            input,
            from,
            terminator,
            last,
        ) == ({
            let rest = parse_from(syntax, input, from + 1, terminator, Last::Space);
            if last is Space {
                rest
            } else {
                rest.after(TreeView::Space { start: from as usize })
            }
        }),
        rule_at(syntax, input, from, terminator) is Raw ==> parse_from(
            syntax,
            input,
            from,
            terminator,
            last,
        ) == ({
            let rest = parse_from(syntax, input, from + 1, terminator, Last::Raw);
            if last is Raw {
                rest
            } else {
                rest.after(TreeView::Raw { start: from as usize })
            }
        }),
{
    reveal(parse_from);
}

/// Rule 4: a group holds the tokens up to its closing symbol.
pub proof fn lemma_parse_group(
    syntax: Syntax,
    input: Seq<char>,
    from: int,
    terminator: Option<Seq<char>>,
    last: Last,
)
    requires
        rule_at(syntax, input, from, terminator) is Group,
    ensures
        ({
            let config = syntax.groups[rule_at(syntax, input, from, terminator)->Group_0];
            let inner = parse_from(
                syntax,
                input,
                from + config.opening.symbol@.len(),
                Some(config.closing.symbol@),
                Last::Complete,
            );
            let group = TreeView::Group {
                opening: from as usize,
                content: inner.tokens,
                closing: inner.closing,
                config,
            };
            parse_from(syntax, input, from, terminator, last) == if from < inner.end
                <= input.len() {
                parse_from(syntax, input, inner.end, terminator, Last::Complete).after(group)
            } else {
                Parsed { tokens: seq![group], end: inner.end, closing: None }
            }
        }),
{
    reveal(parse_from);
}

/// Rule 5: quoted content holds the pieces up to its closing sequence.
pub proof fn lemma_parse_quote(
    syntax: Syntax,
    input: Seq<char>,
    from: int,
    terminator: Option<Seq<char>>,
    last: Last,
)
    requires
        rule_at(syntax, input, from, terminator) is Quote,
    ensures
        ({
            let config = syntax.quotes[rule_at(syntax, input, from, terminator)->Quote_0];
            let end = quoted_lexer(syntax, input, from, config).finished().cursor.offset;
            let quoted = quoted_token(syntax, input, from, config);
            parse_from(syntax, input, from, terminator, last) == if from < end <= input.len() {
                parse_from(syntax, input, end, terminator, Last::Complete).after(quoted)
            } else {
                Parsed { tokens: seq![quoted], end, closing: None }
            }
        }),
{
    reveal(parse_from);
}

/// Rule 6: a punctuation symbol is a token of its own.
pub proof fn lemma_parse_punct(
    syntax: Syntax,
    input: Seq<char>,
    from: int,
    terminator: Option<Seq<char>>,
    last: Last,
)
    requires
        rule_at(syntax, input, from, terminator) is Punct,
    ensures
        ({
            let config = syntax.puncts[rule_at(syntax, input, from, terminator)->Punct_0];
            parse_from(syntax, input, from, terminator, last) == parse_from(
                syntax,
                input,
                from + config.symbol@.len(),
                terminator,
                Last::Complete,
            ).after(TreeView::Punct { start: from as usize, config })
        }),
{
    reveal(parse_from);
}

/// The tokens of the whole input.
pub open spec fn parsed(syntax: Syntax, input: Seq<char>) -> Seq<TreeView> {
    parse_from(syntax, input, 0, None, Last::Complete).tokens
}

/// Finds where the tokens of `input` start.
pub fn parse<'a, V: VisualSize>(config: &'a Decondenser<V>, input: &'a [char]) -> (tokens: Vec<
    TokenTree<'a>,
>)
    ensures
        tree_views(tokens@) == parsed(config.syntax(), input@),
{
    let mut lexer = Lexer { config, cursor: Cursor::new(input) };
    let (tokens, closing) = lexer.parse(None);
    tokens
}

/// The tokenizer at work: the configuration and the position in the input.
pub struct Lexer<'a, V: VisualSize> {
    config: &'a Decondenser<V>,
    cursor: Cursor<'a>,
}

/// The view of an optional closing symbol.
pub open spec fn terminator_view(terminator: Option<&[char]>) -> Option<Seq<char>> {
    match terminator {
        Some(symbol) => Some(symbol@),
        None => None,
    }
}

impl<'a, V: VisualSize> Lexer<'a, V> {
    /// The configuration.
    pub closed spec fn syntax(&self) -> Syntax {
        self.config.syntax()
    }

    /// The position in the input.
    pub closed spec fn cursor(&self) -> CursorView {
        self.cursor@
    }

    /// Reads tokens up to the closing symbol `terminator`, which is passed,
    /// or to the end of the input. Returns the tokens, and the offset of the
    /// closing symbol where it was found.
    fn parse(&mut self, terminator: Option<&'a [char]>) -> (result: (
        Vec<TokenTree<'a>>,
        Option<usize>,
    ))
        ensures
            final(self).config == old(self).config,
            final(self).cursor().input == old(self).cursor().input,
            old(self).cursor().offset <= final(self).cursor().offset,
            final(self).cursor().offset <= old(self).cursor().input.len(),
            ({
                let parsed = parse_from(
                    old(self).syntax(),
                    old(self).cursor().input,
                    old(self).cursor().offset,
                    terminator_view(terminator),
                    Last::Complete,
                );
                &&& tree_views(result.0@) == parsed.tokens
                &&& result.1 == parsed.closing
                &&& final(self).cursor().offset == parsed.end
            }),
        decreases old(self).cursor().input.len() - old(self).cursor().offset, 0int,
    {
        let mut output: Vec<TokenTree<'a>> = Vec::new();
        let mut last = Last::Complete;
        let ghost syntax = self.syntax();
        let ghost input = self.cursor().input;
        let ghost target = parse_from(
            syntax,
            input,
            self.cursor().offset,
            terminator_view(terminator),
            Last::Complete,
        );
        let _ = self.cursor.offset();
        assert(tree_views(output@) + target.tokens =~= target.tokens);
        loop
            invariant
                self.config == old(self).config,
                self.syntax() == syntax,
                self.cursor().input == input,
                input == old(self).cursor().input,
                0 <= old(self).cursor().offset <= self.cursor().offset <= input.len(),
                ({
                    let rest = parse_from(
                        syntax,
                        input,
                        self.cursor().offset,
                        terminator_view(terminator),
                        last,
                    );
                    &&& tree_views(output@) + rest.tokens == target.tokens
                    &&& rest.closing == target.closing
                    &&& rest.end == target.end
                }),
                target == parse_from(
                    syntax,
                    input,
                    old(self).cursor().offset,
                    terminator_view(terminator),
                    Last::Complete,
                ),
            decreases input.len() - self.cursor().offset,
        {
            let ghost before = tree_views(output@);
            let ghost rest = parse_from(
                syntax,
                input,
                self.cursor().offset,
                terminator_view(terminator),
                last,
            );
            proof {
                let view = terminator_view(terminator);
                lemma_parse_stop(syntax, input, self.cursor().offset, view, last);
                lemma_parse_run(syntax, input, self.cursor().offset, view, last);
                if rule_at(syntax, input, self.cursor().offset, view) is Group {
                    lemma_parse_group(syntax, input, self.cursor().offset, view, last);
                }
                if rule_at(syntax, input, self.cursor().offset, view) is Quote {
                    lemma_parse_quote(syntax, input, self.cursor().offset, view, last);
                }
                if rule_at(syntax, input, self.cursor().offset, view) is Punct {
                    lemma_parse_punct(syntax, input, self.cursor().offset, view, last);
                }
            }
            let start: usize = self.cursor.offset();
            let c = match self.cursor.peek() {
                Some(c) => c,
                None => {
                    assert(tree_views(output@) =~= target.tokens);
                    return (output, None);
                },
            };
            if let Some(symbol) = terminator {
                if let Some(closing) = self.cursor.strip_prefix(symbol) {
                    assert(tree_views(output@) =~= target.tokens);
                    return (output, Some(closing));
                }
            }
            let newline: usize = if c == '\n' {
                1
            } else if c == '\r' && self.cursor.peek_nth(1) == Some('\n') {
                2
            } else {
                0
            };
            if newline > 0 {
                if last != Last::Newline {
                    output.push(TokenTree::Newline { start });
                    assert(tree_views(output@) =~= before.push(TreeView::Newline { start }));
                }
                self.cursor.next();
                if newline == 2 {
                    self.cursor.next();
                }
                last = Last::Newline;
                proof {
                    let next = parse_from(
                        syntax,
                        input,
                        self.cursor().offset,
                        terminator_view(terminator),
                        last,
                    );
                    assert(tree_views(output@) + next.tokens =~= before + rest.tokens);
                }
                continue ;
            }
            if char_is_whitespace(c) {
                if last != Last::Space {
                    output.push(TokenTree::Space { start });
                    assert(tree_views(output@) =~= before.push(TreeView::Space { start }));
                }
                self.cursor.next();
                last = Last::Space;
                proof {
                    let next = parse_from(
                        syntax,
                        input,
                        self.cursor().offset,
                        terminator_view(terminator),
                        last,
                    );
                    assert(tree_views(output@) + next.tokens =~= before + rest.tokens);
                }
                continue ;
            }
            if let Some(group) = self.find_group() {
                let token = self.parse_group(start, group);
                output.push(token);
                last = Last::Complete;
                proof {
                    let next = parse_from(
                        syntax,
                        input,
                        self.cursor().offset,
                        terminator_view(terminator),
                        last,
                    );
                    assert(tree_views(output@) =~= before.push(token@));
                    assert(tree_views(output@) + next.tokens =~= before + rest.tokens);
                }
                continue ;
            }
            if let Some(quote) = self.find_quote() {
                let token = self.parse_quoted(start, quote);
                output.push(token);
                last = Last::Complete;
                proof {
                    let next = parse_from(
                        syntax,
                        input,
                        self.cursor().offset,
                        terminator_view(terminator),
                        last,
                    );
                    assert(tree_views(output@) =~= before.push(token@));
                    assert(tree_views(output@) + next.tokens =~= before + rest.tokens);
                }
                continue ;
            }
            if let Some(punct) = self.find_punct() {
                let token = TokenTree::Punct(Punct { start, config: punct });
                output.push(token);
                last = Last::Complete;
                proof {
                    let next = parse_from(
                        syntax,
                        input,
                        self.cursor().offset,
                        terminator_view(terminator),
                        last,
                    );
                    assert(tree_views(output@) =~= before.push(token@));
                    assert(tree_views(output@) + next.tokens =~= before + rest.tokens);
                }
                continue ;
            }
            if last != Last::Raw {
                output.push(TokenTree::Raw { start });
                assert(tree_views(output@) =~= before.push(TreeView::Raw { start }));
            }
            self.cursor.next();
            last = Last::Raw;
            proof {
                let next = parse_from(
                    syntax,
                    input,
                    self.cursor().offset,
                    terminator_view(terminator),
                    last,
                );
                assert(tree_views(output@) + next.tokens =~= before + rest.tokens);
            }
        }
    }

    /// Passes the opening symbol of the first group whose opening symbol
    /// stands at the cursor, and returns the group.
    fn find_group(&mut self) -> (group: Option<&'a config::Group>)
        ensures
            final(self).config == old(self).config,
            final(self).cursor().input == old(self).cursor().input,
            match found(
                group_openings(old(self).syntax()),
                old(self).cursor().input,
                old(self).cursor().offset,
            ) {
                Some(index) => group == Some(&old(self).syntax().groups[index])
                    && final(self).cursor().offset == old(self).cursor().offset + old(
                    self,
                ).syntax().groups[index].opening.symbol@.len(),
                None => group is None && final(self).cursor() == old(self).cursor(),
            },
    {
        let config = self.config;
        let ghost symbols = group_openings(self.syntax());
        let ghost input = self.cursor().input;
        let ghost at = self.cursor().offset;
        let mut i: usize = 0;
        proof {
            lemma_first_match(symbols, input, at, 0);
        }
        while i < config.groups.len()
            invariant
                i <= config.groups@.len(),
                config == self.config,
                self.config == old(self).config,
                self.cursor() == old(self).cursor(),
                symbols == group_openings(self.syntax()),
                input == self.cursor().input,
                at == self.cursor().offset,
                first_match(symbols, input, at, i as int) == first_match(symbols, input, at, 0),
                found(symbols, input, at) == first_match(symbols, input, at, 0),
            decreases config.groups@.len() - i,
        {
            let group = &config.groups[i];
            if !group.opening.symbol.is_empty() {
                if self.cursor.strip_prefix(group.opening.symbol.as_chars()).is_some() {
                    return Some(group);
                }
            }
            i += 1;
        }
        None
    }

    /// Passes the opening sequence of the first quote whose opening sequence
    /// stands at the cursor, and returns the quote.
    fn find_quote(&mut self) -> (quote: Option<&'a config::Quote>)
        ensures
            final(self).config == old(self).config,
            final(self).cursor().input == old(self).cursor().input,
            match found(
                quote_openings(old(self).syntax()),
                old(self).cursor().input,
                old(self).cursor().offset,
            ) {
                Some(index) => quote == Some(&old(self).syntax().quotes[index])
                    && final(self).cursor().offset == old(self).cursor().offset + old(
                    self,
                ).syntax().quotes[index].opening@.len(),
                None => quote is None && final(self).cursor() == old(self).cursor(),
            },
    {
        let config = self.config;
        let ghost symbols = quote_openings(self.syntax());
        let ghost input = self.cursor().input;
        let ghost at = self.cursor().offset;
        let mut i: usize = 0;
        proof {
            lemma_first_match(symbols, input, at, 0);
        }
        while i < config.quotes.len()
            invariant
                i <= config.quotes@.len(),
                config == self.config,
                self.config == old(self).config,
                self.cursor() == old(self).cursor(),
                symbols == quote_openings(self.syntax()),
                input == self.cursor().input,
                at == self.cursor().offset,
                first_match(symbols, input, at, i as int) == first_match(symbols, input, at, 0),
                found(symbols, input, at) == first_match(symbols, input, at, 0),
            decreases config.quotes@.len() - i,
        {
            let quote = &config.quotes[i];
            if !quote.opening.is_empty() {
                if self.cursor.strip_prefix(quote.opening.as_chars()).is_some() {
                    return Some(quote);
                }
            }
            i += 1;
        }
        None
    }

    /// Passes the first punctuation symbol that stands at the cursor, and
    /// returns the punctuation.
    fn find_punct(&mut self) -> (punct: Option<&'a config::Punct>)
        ensures
            final(self).config == old(self).config,
            final(self).cursor().input == old(self).cursor().input,
            match found(
                punct_symbols(old(self).syntax()),
                old(self).cursor().input,
                old(self).cursor().offset,
            ) {
                Some(index) => punct == Some(&old(self).syntax().puncts[index])
                    && final(self).cursor().offset == old(self).cursor().offset + old(
                    self,
                ).syntax().puncts[index].symbol@.len(),
                None => punct is None && final(self).cursor() == old(self).cursor(),
            },
    {
        let config = self.config;
        let ghost symbols = punct_symbols(self.syntax());
        let ghost input = self.cursor().input;
        let ghost at = self.cursor().offset;
        let mut i: usize = 0;
        proof {
            lemma_first_match(symbols, input, at, 0);
        }
        while i < config.puncts.len()
            invariant
                i <= config.puncts@.len(),
                config == self.config,
                self.config == old(self).config,
                self.cursor() == old(self).cursor(),
                symbols == punct_symbols(self.syntax()),
                input == self.cursor().input,
                at == self.cursor().offset,
                first_match(symbols, input, at, i as int) == first_match(symbols, input, at, 0),
                found(symbols, input, at) == first_match(symbols, input, at, 0),
            decreases config.puncts@.len() - i,
        {
            let punct = &config.puncts[i];
            if !punct.symbol.is_empty() {
                if self.cursor.strip_prefix(punct.symbol.as_chars()).is_some() {
                    return Some(punct);
                }
            }
            i += 1;
        }
        None
    }

    /// Reads the group whose opening symbol, at `opening`, was passed just
    /// now.
    fn parse_group(&mut self, opening: usize, config: &'a config::Group) -> (token: TokenTree<'a>)
        requires
            opening < old(self).cursor().offset,
        ensures
            final(self).config == old(self).config,
            final(self).cursor().input == old(self).cursor().input,
            old(self).cursor().offset <= final(self).cursor().offset,
            final(self).cursor().offset <= old(self).cursor().input.len(),
            ({
                let inner = parse_from(
                    old(self).syntax(),
                    old(self).cursor().input,
                    old(self).cursor().offset,
                    Some(config.closing.symbol@),
                    Last::Complete,
                );
                &&& token@ == (TreeView::Group {
                    opening,
                    content: inner.tokens,
                    closing: inner.closing,
                    config: *config,
                })
                &&& final(self).cursor().offset == inner.end
            }),
        decreases old(self).cursor().input.len() - old(self).cursor().offset, 1int,
    {
        let (content, closing) = self.parse(Some(config.closing.symbol.as_chars()));
        let group = Group { opening, content, closing, config };
        proof {
            lemma_group_view(group);
        }
        TokenTree::Group(group)
    }

    /// Reads the quoted content whose opening sequence, at `opening`, was
    /// passed just now.
    fn parse_quoted(&mut self, opening: usize, config: &'a config::Quote) -> (token: TokenTree<'a>)
        ensures
            final(self).config == old(self).config,
            final(self).cursor().input == old(self).cursor().input,
            old(self).cursor().offset <= final(self).cursor().offset,
            final(self).cursor().offset <= old(self).cursor().input.len(),
            ({
                let lexed = (LexerView {
                    cursor: old(self).cursor(),
                    escape_char: old(self).syntax().escape_char,
                    terminator: Some(config.closing@),
                    closing: None,
                });
                &&& token@ == (TreeView::Quoted {
                    opening,
                    content: pieces(
                        lexed.cursor.input,
                        lexed.cursor.offset,
                        lexed.escape_char,
                        lexed.terminator,
                    ),
                    closing: lexed.finished().closing,
                    config: *config,
                })
                &&& final(self).cursor() == lexed.finished().cursor
            }),
    {
        let _ = self.cursor.offset();
        proof {
            lemma_content_end(
                self.cursor@.input,
                self.cursor@.offset,
                self.config.escape_char,
                Some(config.closing@),
            );
        }
        let mut lexer = QuotedLexer::new(self.cursor).with_escape_char(
            self.config.escape_char,
        ).with_terminator(config.closing.as_chars());
        let content = lexer.collect();
        let finish = lexer.finish();
        self.cursor = finish.cursor;
        TokenTree::Quoted(Quoted { opening, content, closing: finish.terminator, config })
    }
}

} // verus!
