//! The first level of the lexer of quoted content: pieces that carry the
//! offset at which they start.

use crate::chars::{char_from_u32, hex_digit, hex_value, occurs_at, scalar_char};
use crate::cursor::{Cursor, CursorView};
use vstd::prelude::*;

verus! {

/// What an escape sequence stands for.
#[derive(Clone, Copy, Debug, PartialEq, Eq, Structural)]
pub enum Unescaped {
    /// The sequence is not in the grammar.
    Invalid,
    /// The sequence stands for this character.
    Char(char),
    /// The sequence stands for nothing: an escaped line break.
    Ignore,
}

impl Unescaped {
    /// The character, or `Invalid` where there is none.
    pub fn char_or_invalid(c: Option<char>) -> (unescaped: Unescaped)
        ensures
            unescaped == char_or_invalid(c),
    {
        match c {
            Some(c) => Unescaped::Char(c),
            None => Unescaped::Invalid,
        }
    }
}

/// The character, or `Invalid` where there is none.
pub open spec fn char_or_invalid(c: Option<char>) -> Unescaped {
    match c {
        Some(c) => Unescaped::Char(c),
        None => Unescaped::Invalid,
    }
}

/// An escape sequence.
#[derive(Clone, Copy, Debug, PartialEq, Eq, Structural)]
pub struct Escape {
    /// The offset of the escape character that starts the sequence.
    pub start: usize,
    /// What the sequence stands for.
    pub unescaped: Unescaped,
}

/// A piece of quoted content.
#[derive(Clone, Copy, Debug, PartialEq, Eq, Structural)]
pub enum Token {
    /// Raw text that starts at this offset.
    Raw(usize),
    /// An escape sequence.
    Escape(Escape),
}

impl Token {
    /// The offset at which the piece starts.
    pub open spec fn spec_start(self) -> usize {
        match self {
            Token::Raw(start) => start,
            Token::Escape(escape) => escape.start,
        }
    }

    /// The offset at which the piece starts.
    #[verifier::when_used_as_spec(spec_start)]
    pub fn start(self) -> (start: usize)
        ensures
            start == self.spec_start(),
    {
        match self {
            Token::Raw(start) => start,
            Token::Escape(escape) => escape.start,
        }
    }

    /// The escape sequence at `start` that is not in the grammar.
    pub fn invalid_escape(start: usize) -> (token: Token)
        ensures
            token == Token::Escape(Escape { start, unescaped: Unescaped::Invalid }),
    {
        Token::Escape(Escape { start, unescaped: Unescaped::Invalid })
    }
}

/// What the character after the escape character stands for, where it alone
/// decides.
pub open spec fn simple_escape(c: char) -> Option<Unescaped> {
    if c == 'n' {
        Some(Unescaped::Char('\n'))
    } else if c == 't' {
        Some(Unescaped::Char('\t'))
    } else if c == 'r' {
        Some(Unescaped::Char('\r'))
    } else if c == '\\' {
        Some(Unescaped::Char('\\'))
    } else if c == '"' {
        Some(Unescaped::Char('"'))
    } else if c == '\'' {
        Some(Unescaped::Char('\''))
    } else if c == '#' {
        Some(Unescaped::Char('#'))
    } else if c == '$' {
        Some(Unescaped::Char('$'))
    } else if c == '0' {
        Some(Unescaped::Char('\0'))
    } else if c == 'a' {
        Some(Unescaped::Char('\x07'))
    } else if c == 'b' {
        Some(Unescaped::Char('\x08'))
    } else if c == 'v' {
        Some(Unescaped::Char('\x0B'))
    } else if c == 'f' {
        Some(Unescaped::Char('\x0C'))
    } else if c == 'e' {
        Some(Unescaped::Char('\x1B'))
    } else if c == 's' {
        Some(Unescaped::Char(' '))
    } else if c == '\n' {
        Some(Unescaped::Ignore)
    } else {
        None
    }
}

/// The end of the run of hexadecimal digits that starts at `from` and has at
/// most `limit` digits.
pub open spec fn hex_run_end(input: Seq<char>, from: int, limit: nat) -> int
    decreases limit,
{
    if limit == 0 || from < 0 || from >= input.len() || hex_value(input[from]) is None {
        from
    } else {
        hex_run_end(input, from + 1, (limit - 1) as nat)
    }
}

/// The number that the hexadecimal digits from `from` up to `to` write.
pub open spec fn hex_run_value(input: Seq<char>, from: int, to: int) -> nat
    decreases to - from,
{
    if to <= from || to > input.len() || from < 0 {
        0
    } else {
        hex_run_value(input, from, to - 1) * 16 + match hex_value(input[to - 1]) {
            Some(digit) => digit as nat,
            None => 0,
        }
    }
}

/// The character with the code point that the digits from `from` up to `to`
/// write, if there is one.
pub open spec fn hex_run_char(input: Seq<char>, from: int, to: int) -> Unescaped {
    if hex_run_value(input, from, to) <= u32::MAX {
        char_or_invalid(scalar_char(hex_run_value(input, from, to) as u32))
    } else {
        Unescaped::Invalid
    }
}

/// What the escape sequence stands for whose escape character stands just
/// before `after`, and where the sequence ends.
///
/// After the escape character may stand: one of the characters of
/// [`simple_escape`]; `x` and one or two hexadecimal digits, for the
/// character with that code; `u` or `U` and one to eight hexadecimal digits,
/// which may stand in braces, for the character with that code point. Any
/// other sequence is invalid, and ends behind the character after the escape
/// character, or where the digits or the closing brace are missing.
pub open spec fn escape_after(input: Seq<char>, after: int) -> (Unescaped, int) {
    if after < 0 || after >= input.len() {
        (Unescaped::Invalid, after)
    } else {
        let c = input[after];
        if simple_escape(c) is Some {
            (simple_escape(c)->0, after + 1)
        } else if c == 'x' {
            let end = hex_run_end(input, after + 1, 2);
            if end == after + 1 {
                (Unescaped::Invalid, end)
            } else {
                (hex_run_char(input, after + 1, end), end)
            }
        } else if c == 'u' || c == 'U' {
            let braced = after + 1 < input.len() && input[after + 1] == '{';
            let digits = if braced {
                after + 2
            } else {
                after + 1
            };
            let end = hex_run_end(input, digits, 8);
            if end == digits {
                (Unescaped::Invalid, end)
            } else if !braced {
                (hex_run_char(input, digits, end), end)
            } else if end < input.len() && input[end] == '}' {
                (hex_run_char(input, digits, end), end + 1)
            } else {
                (Unescaped::Invalid, end)
            }
        } else {
            (Unescaped::Invalid, after + 1)
        }
    }
}

/// Whether the closing sequence stands at `at`.
pub open spec fn closes_at(input: Seq<char>, at: int, terminator: Option<Seq<char>>) -> bool {
    terminator matches Some(closing) && occurs_at(input, at, closing)
}

/// The end of the raw text that holds the characters before `from`: the
/// first position at or behind `from` at which the input ends, or the escape
/// character stands, or the closing sequence.
pub open spec fn raw_end(
    input: Seq<char>,
    from: int,
    escape_char: char,
    terminator: Option<Seq<char>>,
) -> int
    decreases input.len() - from,
{
    if from < 0 || from >= input.len() {
        input.len() as int
    } else if input[from] == escape_char || closes_at(input, from, terminator) {
        from
    } else {
        raw_end(input, from + 1, escape_char, terminator)
    }
}

/// The piece that starts at `from` and the position behind it; `None` where
/// the input ends or the closing sequence stands.
pub open spec fn piece_at(
    input: Seq<char>,
    from: int,
    escape_char: char,
    terminator: Option<Seq<char>>,
) -> Option<(Token, int)> {
    if from < 0 || from >= input.len() || closes_at(input, from, terminator) {
        None
    } else if input[from] == escape_char {
        let (unescaped, end) = escape_after(input, from + 1);
        Some((Token::Escape(Escape { start: from as usize, unescaped }), end))
    } else {
        Some((Token::Raw(from as usize), raw_end(input, from + 1, escape_char, terminator)))
    }
}

/// The pieces of the quoted content that starts at `from`, up to the closing
/// sequence or the end of the input.
pub open spec fn pieces(
    input: Seq<char>,
    from: int,
    escape_char: char,
    terminator: Option<Seq<char>>,
) -> Seq<Token>
    decreases input.len() - from,
{
    match piece_at(input, from, escape_char, terminator) {
        None => Seq::empty(),
        Some((token, next)) => if from < next <= input.len() {
            seq![token] + pieces(input, next, escape_char, terminator)
        } else {
            seq![token]
        },
    }
}

/// Where the quoted content that starts at `from` ends: at the closing
/// sequence, or at the end of the input.
pub open spec fn content_end(
    input: Seq<char>,
    from: int,
    escape_char: char,
    terminator: Option<Seq<char>>,
) -> int
    decreases input.len() - from,
{
    match piece_at(input, from, escape_char, terminator) {
        None => from,
        Some((token, next)) => if from < next <= input.len() {
            content_end(input, next, escape_char, terminator)
        } else {
            from
        },
    }
}

/// A run of hexadecimal digits ends at or behind its start, within the
/// input, and has no more digits than its limit.
pub proof fn lemma_hex_run_end(input: Seq<char>, from: int, limit: nat)
    requires
        0 <= from <= input.len(),
    ensures
        from <= hex_run_end(input, from, limit) <= input.len(),
        hex_run_end(input, from, limit) <= from + limit,
        forall|i: int| from <= i < hex_run_end(input, from, limit) ==> hex_value(input[i]) is Some,
    decreases limit,
{
    if limit == 0 || from >= input.len() || hex_value(input[from]) is None {
    } else {
        lemma_hex_run_end(input, from + 1, (limit - 1) as nat);
    }
}

/// An escape sequence ends behind its escape character, within the input.
pub proof fn lemma_escape_end(input: Seq<char>, after: int)
    requires
        0 <= after <= input.len(),
    ensures
        after <= escape_after(input, after).1 <= input.len(),
{
    if after < input.len() {
        lemma_hex_run_end(input, after + 1, 2);
        if after + 2 <= input.len() {
            lemma_hex_run_end(input, after + 2, 8);
        }
        lemma_hex_run_end(input, after + 1, 8);
    }
}

/// Raw text ends at or behind the position from which it is followed, within
/// the input, at a place where it cannot go on.
pub proof fn lemma_raw_end(
    input: Seq<char>,
    from: int,
    escape_char: char,
    terminator: Option<Seq<char>>,
)
    requires
        0 <= from <= input.len(),
    ensures
        from <= raw_end(input, from, escape_char, terminator) <= input.len(),
        forall|i: int|
            from <= i < raw_end(input, from, escape_char, terminator) ==> input[i] != escape_char
                && !closes_at(input, i, terminator),
        ({
            let end = raw_end(input, from, escape_char, terminator);
            end < input.len() ==> input[end] == escape_char || closes_at(input, end, terminator)
        }),
    decreases input.len() - from,
{
    if from < input.len() && !(input[from] == escape_char || closes_at(input, from, terminator)) {
        lemma_raw_end(input, from + 1, escape_char, terminator);
    }
}

/// A piece ends behind its start, within the input.
pub proof fn lemma_piece_end(
    input: Seq<char>,
    from: int,
    escape_char: char,
    terminator: Option<Seq<char>>,
)
    requires
        piece_at(input, from, escape_char, terminator) is Some,
    ensures
        ({
            let (token, next) = piece_at(input, from, escape_char, terminator)->0;
            from < next <= input.len()
        }),
{
    lemma_escape_end(input, from + 1);
    lemma_raw_end(input, from + 1, escape_char, terminator);
}

/// Quoted content ends at or behind its start, within the input; where it is
/// closed, the closing sequence ends within the input too.
pub proof fn lemma_content_end(
    input: Seq<char>,
    from: int,
    escape_char: char,
    terminator: Option<Seq<char>>,
)
    requires
        0 <= from <= input.len(),
    ensures
        from <= content_end(input, from, escape_char, terminator) <= input.len(),
    decreases input.len() - from,
{
    match piece_at(input, from, escape_char, terminator) {
        None => {},
        Some((token, next)) => {
            lemma_piece_end(input, from, escape_char, terminator);
            lemma_content_end(input, next, escape_char, terminator);
        },
    }
}

/// The state of a lexer of quoted content.
pub struct LexerView {
    /// The position in the input.
    pub cursor: CursorView,
    /// The character that starts an escape sequence.
    pub escape_char: char,
    /// The sequence that closes the content, if one does.
    pub terminator: Option<Seq<char>>,
    /// The offset of the closing sequence, once it was passed.
    pub closing: Option<usize>,
}

impl LexerView {
    /// The piece at the cursor and the position behind it. There is none
    /// once the closing sequence was passed.
    pub open spec fn piece(self) -> Option<(Token, int)> {
        if self.closing is Some {
            None
        } else {
            piece_at(self.cursor.input, self.cursor.offset, self.escape_char, self.terminator)
        }
    }

    /// The state after all pieces: behind the closing sequence where the
    /// content is closed, at the end of the input where it is not.
    pub open spec fn finished(self) -> LexerView {
        let end = content_end(
            self.cursor.input,
            self.cursor.offset,
            self.escape_char,
            self.terminator,
        );
        if closes_at(self.cursor.input, end, self.terminator) {
            LexerView {
                cursor: CursorView { input: self.cursor.input, offset: end + self.terminator->0.len() },
                closing: Some(end as usize),
                ..self
            }
        } else {
            LexerView { cursor: CursorView { input: self.cursor.input, offset: end }, ..self }
        }
    }

    /// The state after `next`: behind the piece at the cursor, or behind the
    /// closing sequence where it stands at the cursor.
    pub open spec fn advance(self) -> LexerView {
        match self.piece() {
            Some((token, next)) => LexerView {
                cursor: CursorView { input: self.cursor.input, offset: next },
                ..self
            },
            None => if self.closing is None && closes_at(
                self.cursor.input,
                self.cursor.offset,
                self.terminator,
            ) {
                LexerView {
                    cursor: self.cursor.strip_prefix(self.terminator->0),
                    closing: Some(self.cursor.offset as usize),
                    ..self
                }
            } else {
                self
            },
        }
    }
}

/// The lexer of quoted content. It gives out the pieces of the content one
/// by one.
pub struct Lexer<'i> {
    cursor: Cursor<'i>,
    escape_char: char,
    terminator: Option<&'i [char]>,
    state: State,
}

enum State {
    Normal,
    End(usize),
}

/// What is left of a lexer that has done its work.
pub struct LexingFinish<'i> {
    /// Offset of the terminating sequence, if one was configured via
    /// [`Lexer::with_terminator()`] and found.
    pub terminator: Option<usize>,
    /// The cursor in the state right after the last token was parsed.
    pub cursor: Cursor<'i>,
}

impl<'i> View for Lexer<'i> {
    type V = LexerView;

    closed spec fn view(&self) -> LexerView {
        LexerView {
            cursor: self.cursor@,
            escape_char: self.escape_char,
            terminator: match self.terminator {
                Some(terminator) => Some(terminator@),
                None => None,
            },
            closing: match self.state {
                State::Normal => None,
                State::End(offset) => Some(offset),
            },
        }
    }
}

impl<'i> Lexer<'i> {
    /// A lexer of the content that starts at `cursor`, with `\` as the
    /// escape character and without a closing sequence.
    pub fn new(cursor: Cursor<'i>) -> (lexer: Lexer<'i>)
        ensures
            lexer@ == (LexerView {
                cursor: cursor@,
                escape_char: '\\',
                terminator: None,
                closing: None,
            }),
    {
        Lexer { cursor, escape_char: '\\', terminator: None, state: State::Normal }
    }

    /// Sets the character that starts an escape sequence.
    pub fn with_escape_char(self, escape_char: char) -> (lexer: Lexer<'i>)
        ensures
            lexer@ == (LexerView { escape_char, ..self@ }),
    {
        Lexer {
            cursor: self.cursor,
            escape_char,
            terminator: self.terminator,
            state: self.state,
        }
    }

    /// Sets the sequence that closes the content.
    pub fn with_terminator(self, terminator: &'i [char]) -> (lexer: Lexer<'i>)
        ensures
            lexer@ == (LexerView { terminator: Some(terminator@), ..self@ }),
    {
        Lexer {
            cursor: self.cursor,
            escape_char: self.escape_char,
            terminator: Some(terminator),
            state: self.state,
        }
    }

    /// The next piece of the content; `None` at the closing sequence, which
    /// is passed, and at the end of the input.
    pub fn next(&mut self) -> (token: Option<Token>)
        ensures
            token == match old(self)@.piece() {
                Some((token, next)) => Some(token),
                None => None,
            },
            final(self)@ == old(self)@.advance(),
    {
        if let State::End(_) = self.state {
            return None;
        }
        if let Some(terminator) = self.terminator {
            if let Some(offset) = self.cursor.strip_prefix(terminator) {
                self.state = State::End(offset);
                return None;
            }
        }
        let start: usize = self.cursor.offset();
        match self.cursor.next() {
            None => None,
            Some(c) => {
                if c == self.escape_char {
                    Some(self.escape(start))
                } else {
                    self.raw();
                    Some(Token::Raw(start))
                }
            },
        }
    }

    /// Passes raw text up to the escape character, the closing sequence or
    /// the end of the input.
    fn raw(&mut self)
        requires
            old(self).state is Normal,
        ensures
            final(self)@ == (LexerView {
                cursor: CursorView {
                    input: old(self)@.cursor.input,
                    offset: raw_end(
                        old(self)@.cursor.input,
                        old(self)@.cursor.offset,
                        old(self)@.escape_char,
                        old(self)@.terminator,
                    ),
                },
                ..old(self)@
            }),
    {
        let ghost input = self.cursor@.input;
        let _ = self.cursor.offset();
        loop
            invariant
                self.state is Normal,
                old(self).state is Normal,
                self.escape_char == old(self).escape_char,
                self.terminator == old(self).terminator,
                self.cursor@.input == input,
                input == old(self).cursor@.input,
                0 <= self.cursor@.offset <= input.len(),
                raw_end(input, self.cursor@.offset, self.escape_char, self@.terminator)
                    == raw_end(
                    input,
                    old(self).cursor@.offset as int,
                    self.escape_char,
                    self@.terminator,
                ),
            decreases input.len() - self.cursor@.offset,
        {
            let _ = self.cursor.offset();
            let closes = match self.terminator {
                Some(terminator) => self.cursor.starts_with(terminator),
                None => false,
            };
            if closes {
                return ;
            }
            match self.cursor.peek() {
                None => {
                    return ;
                },
                Some(c) => {
                    if c == self.escape_char {
                        return ;
                    }
                    self.cursor.next();
                },
            }
        }
    }

    /// Reads the escape sequence whose escape character, at `start`, was
    /// passed just now.
    fn escape(&mut self, start: usize) -> (token: Token)
        requires
            old(self).state is Normal,
            start + 1 == old(self)@.cursor.offset,
        ensures
            token == Token::Escape(
                Escape {
                    start,
                    unescaped: escape_after(
                        old(self)@.cursor.input,
                        old(self)@.cursor.offset,
                    ).0,
                },
            ),
            final(self)@ == (LexerView {
                cursor: CursorView {
                    input: old(self)@.cursor.input,
                    offset: escape_after(
                        old(self)@.cursor.input,
                        old(self)@.cursor.offset,
                    ).1,
                },
                ..old(self)@
            }),
    {
        let _ = self.cursor.offset();
        let c = match self.cursor.next() {
            Some(c) => c,
            None => {
                return Token::invalid_escape(start);
            },
        };
        let unescaped = if c == 'n' {
            Unescaped::Char('\n')
        } else if c == 't' {
            Unescaped::Char('\t')
        } else if c == 'r' {
            Unescaped::Char('\r')
        } else if c == '\\' {
            Unescaped::Char('\\')
        } else if c == '"' {
            Unescaped::Char('"')
        } else if c == '\'' {
            Unescaped::Char('\'')
        } else if c == '#' {
            Unescaped::Char('#')
        } else if c == '$' {
            Unescaped::Char('$')
        } else if c == '0' {
            Unescaped::Char('\0')
        } else if c == 'a' {
            Unescaped::Char('\x07')
        } else if c == 'b' {
            Unescaped::Char('\x08')
        } else if c == 'v' {
            Unescaped::Char('\x0B')
        } else if c == 'f' {
            Unescaped::Char('\x0C')
        } else if c == 'e' {
            Unescaped::Char('\x1B')
        } else if c == 's' {
            Unescaped::Char(' ')
        } else if c == '\n' {
            Unescaped::Ignore
        } else if c == 'x' {
            match self.hex_run(2) {
                Some(value) => Unescaped::char_or_invalid(char_from_u32(value)),
                None => Unescaped::Invalid,
            }
        } else if c == 'u' || c == 'U' {
            self.unicode_code_point()
        } else {
            Unescaped::Invalid
        };
        Token::Escape(Escape { start, unescaped })
    }

    /// Passes at most `limit` hexadecimal digits, eight at most, and returns
    /// the number that they write; `None` where no digit stands at the
    /// cursor.
    fn hex_run(&mut self, limit: usize) -> (value: Option<u32>)
        requires
            limit <= 8,
        ensures
            final(self).state == old(self).state,
            final(self).escape_char == old(self).escape_char,
            final(self).terminator == old(self).terminator,
            final(self)@.cursor.input == old(self)@.cursor.input,
            final(self)@.cursor.offset == hex_run_end(
                old(self)@.cursor.input,
                old(self)@.cursor.offset,
                limit as nat,
            ),
            value is None <==> final(self)@.cursor.offset == old(self)@.cursor.offset,
            value matches Some(number) ==> number == hex_run_value(
                old(self)@.cursor.input,
                old(self)@.cursor.offset,
                final(self)@.cursor.offset,
            ),
    {
        let ghost input = self.cursor@.input;
        let ghost from = self.cursor@.offset;
        let mut value: u64 = 0;
        let mut count: usize = 0;
        let _ = self.cursor.offset();
        while count < limit
            invariant
                count <= limit <= 8,
                self.state == old(self).state,
                self.escape_char == old(self).escape_char,
                self.terminator == old(self).terminator,
                self.cursor@.input == input,
                from == old(self)@.cursor.offset,
                input == old(self)@.cursor.input,
                self.cursor@.offset == from + count,
                from + count <= input.len(),
                hex_run_end(input, from + count, (limit - count) as nat) == hex_run_end(
                    input,
                    from,
                    limit as nat,
                ),
                value == hex_run_value(input, from, from + count),
                value < pow16(count as nat),
                0 <= from,
            ensures
                count <= limit,
                self.state == old(self).state,
                self.escape_char == old(self).escape_char,
                self.terminator == old(self).terminator,
                self.cursor@.input == input,
                self.cursor@.offset == from + count,
                from + count == hex_run_end(input, from, limit as nat),
                value == hex_run_value(input, from, from + count),
                value < pow16(count as nat),
            decreases limit - count,
        {
            let digit = match self.cursor.peek() {
                Some(c) => hex_digit(c),
                None => None,
            };
            match digit {
                None => {
                    break ;
                },
                Some(digit) => {
                    proof {
                        lemma_pow16(count as nat);
                        lemma_pow16(8);
                    }
                    self.cursor.next();
                    assert(hex_run_value(input, from, from + count + 1) == hex_run_value(
                        input,
                        from,
                        from + count,
                    ) * 16 + digit);
                    value = value * 16 + digit as u64;
                    count += 1;
                },
            }
        }
        proof {
            lemma_pow16(count as nat);
            lemma_pow16(8);
        }
        if count == 0 {
            None
        } else {
            Some(value as u32)
        }
    }

    /// Reads the digits of a code point, which may stand in braces.
    fn unicode_code_point(&mut self) -> (unescaped: Unescaped)
        requires
            old(self)@.cursor.offset >= 1,
            ({
                let c = old(self)@.cursor.input[old(self)@.cursor.offset - 1];
                c == 'u' || c == 'U'
            }),
        ensures
            final(self).state == old(self).state,
            final(self).escape_char == old(self).escape_char,
            final(self).terminator == old(self).terminator,
            final(self)@.cursor.input == old(self)@.cursor.input,
            (unescaped, final(self)@.cursor.offset) == escape_after(
                old(self)@.cursor.input,
                old(self)@.cursor.offset - 1,
            ),
    {
        let _ = self.cursor.offset();
        let braced = match self.cursor.peek() {
            Some(c) => c == '{',
            None => false,
        };
        if braced {
            self.cursor.next();
        }
        let _ = self.cursor.offset();
        proof {
            lemma_hex_run_end(self.cursor@.input, self.cursor@.offset, 8);
        }
        let value = match self.hex_run(8) {
            Some(value) => value,
            None => {
                return Unescaped::Invalid;
            },
        };
        if braced {
            match self.cursor.peek() {
                Some('}') => {
                    self.cursor.next();
                },
                _ => {
                    return Unescaped::Invalid;
                },
            }
        }
        Unescaped::char_or_invalid(char_from_u32(value))
    }

    /// All pieces of the content, up to the closing sequence, which is
    /// passed, or the end of the input.
    pub fn collect(&mut self) -> (content: Vec<Token>)
        requires
            old(self)@.closing is None,
        ensures
            content@ == pieces(
                old(self)@.cursor.input,
                old(self)@.cursor.offset,
                old(self)@.escape_char,
                old(self)@.terminator,
            ),
            final(self)@ == old(self)@.finished(),
    {
        let mut content: Vec<Token> = Vec::new();
        let ghost input = self@.cursor.input;
        let ghost from = self@.cursor.offset;
        let ghost escape_char = self@.escape_char;
        let ghost terminator = self@.terminator;
        let _ = self.cursor.offset();
        loop
            invariant
                self@.closing is None,
                self@.cursor.input == input,
                self@.escape_char == escape_char,
                self@.terminator == terminator,
                old(self)@ == (LexerView { cursor: CursorView { input, offset: from }, ..self@ }),
                0 <= self@.cursor.offset <= input.len(),
                content@ + pieces(input, self@.cursor.offset, escape_char, terminator) == pieces(
                    input,
                    from,
                    escape_char,
                    terminator,
                ),
                content_end(input, self@.cursor.offset, escape_char, terminator) == content_end(
                    input,
                    from,
                    escape_char,
                    terminator,
                ),
            decreases input.len() - self@.cursor.offset,
        {
            let ghost before = self@;
            proof {
                if before.piece() is Some {
                    lemma_piece_end(input, before.cursor.offset, escape_char, terminator);
                }
            }
            match self.next() {
                Some(token) => {
                    content.push(token);
                    assert(content@ + pieces(input, self@.cursor.offset, escape_char, terminator)
                        =~= pieces(input, from, escape_char, terminator));
                },
                None => {
                    assert(content@ =~= pieces(input, from, escape_char, terminator));
                    return content;
                },
            }
        }
    }

    /// The offset of the closing sequence, if it was found, and the cursor.
    pub fn finish(self) -> (finish: LexingFinish<'i>)
        ensures
            finish.terminator == self@.closing,
            finish.cursor@ == self@.cursor,
    {
        LexingFinish {
            terminator: match self.state {
                State::End(end) => Some(end),
                State::Normal => None,
            },
            cursor: self.cursor,
        }
    }
}

/// Sixteen to the power of `exponent`.
pub open spec fn pow16(exponent: nat) -> nat
    decreases exponent,
{
    if exponent == 0 {
        1
    } else {
        16 * pow16((exponent - 1) as nat)
    }
}

/// The powers of sixteen up to the eighth.
pub proof fn lemma_pow16(exponent: nat)
    ensures
        exponent <= 8 ==> pow16(exponent) <= 0x1_0000_0000,
        pow16(exponent + 1) == 16 * pow16(exponent),
        pow16(exponent) >= 1,
    decreases exponent,
{
    reveal_with_fuel(pow16, 10);
    if exponent > 0 {
        lemma_pow16((exponent - 1) as nat);
    }
}

} // verus!
