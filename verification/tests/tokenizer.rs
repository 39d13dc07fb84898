use decondenser::cursor::Cursor;
use decondenser::parsing::l1;
use decondenser::parsing::l2;
use decondenser::parsing::l2::token_tree::TokenTree;
use decondenser::parsing::quoted;
use decondenser::parsing::quoted::l1::{Escape, Lexer, Token, Unescaped};
use decondenser::Decondenser;

fn chars(text: &str) -> Vec<char> {
    text.chars().collect()
}

fn describe(tokens: &[TokenTree<'_>]) -> String {
    let mut out = String::new();
    for token in tokens {
        match token {
            TokenTree::Space(text) => out.push_str(&format!("space({text:?}) ")),
            TokenTree::Newline(count) => out.push_str(&format!("newline({count}) ")),
            TokenTree::Raw(text) => out.push_str(&format!("raw({text:?}) ")),
            TokenTree::Punct(punct) => out.push_str(&format!("punct({:?}) ", punct.symbol.as_str())),
            TokenTree::Group(group) => {
                out.push_str(&format!("group({:?} ", group.config.opening.symbol.as_str()));
                out.push_str(&describe(&group.content));
                out.push_str(if group.closed { "closed) " } else { "open) " });
            }
            TokenTree::Quoted(quoted) => {
                out.push_str(&format!("quoted({:?} ", quoted.config.opening.as_str()));
                for piece in &quoted.content {
                    out.push_str(&format!("{:?} ", piece.source()));
                }
                out.push_str(if quoted.closed { "closed) " } else { "open) " });
            }
        }
    }
    out
}

#[test]
fn cursor_passes_characters_and_prefixes() {
    let input = chars("aé→bc");
    let needle = chars("→b");
    let mut cursor = Cursor::new(&input);
    assert_eq!(cursor.offset(), 0);
    assert_eq!(cursor.peek(), Some('a'));
    assert_eq!(cursor.peek_nth(1), Some('é'));
    assert_eq!(cursor.peek_nth(5), None);
    assert_eq!(cursor.next(), Some('a'));
    assert_eq!(cursor.strip_prefix(&needle), None);
    assert_eq!(cursor.offset(), 1);
    assert!(!cursor.starts_with(&needle));
    assert_eq!(cursor.next(), Some('é'));
    assert!(cursor.starts_with(&needle));
    assert_eq!(cursor.strip_prefix(&needle), Some(2));
    assert_eq!(cursor.offset(), 4);
    assert_eq!(cursor.strip_prefix(&[]), Some(4));
    assert_eq!(cursor.next(), Some('c'));
    assert_eq!(cursor.next(), None);
    assert_eq!(cursor.peek(), None);
    assert_eq!(cursor.offset(), 5);
    assert_eq!(cursor.input(), &input[..]);
}

#[test]
fn cursor_finds_a_character() {
    let input = chars("ab,cd,e");
    let mut cursor = Cursor::new(&input);
    assert_eq!(cursor.find(','), Some(2));
    assert_eq!(cursor.offset(), 3);
    assert_eq!(cursor.find(','), Some(5));
    assert_eq!(cursor.find(','), None);
    assert_eq!(cursor.offset(), 7);
}

#[test]
fn quoted_lexer_tells_raw_text_from_escapes() {
    let input = chars("ab\\n\\qcd'rest");
    let closing = chars("'");
    let mut lexer = Lexer::new(Cursor::new(&input)).with_terminator(&closing);
    assert_eq!(lexer.next(), Some(Token::Raw(0)));
    assert_eq!(
        lexer.next(),
        Some(Token::Escape(Escape { start: 2, unescaped: Unescaped::Char('\n') }))
    );
    assert_eq!(
        lexer.next(),
        Some(Token::Escape(Escape { start: 4, unescaped: Unescaped::Invalid }))
    );
    assert_eq!(lexer.next(), Some(Token::Raw(6)));
    assert_eq!(lexer.next(), None);
    assert_eq!(lexer.next(), None);
    let finish = lexer.finish();
    assert_eq!(finish.terminator, Some(8));
    assert_eq!(finish.cursor.offset(), 9);
    assert_eq!(Token::Raw(6).start(), 6);
    assert_eq!(Token::invalid_escape(4).start(), 4);
}

#[test]
fn quoted_lexer_takes_another_escape_character() {
    let input = chars("a^nb\\n");
    let mut lexer = Lexer::new(Cursor::new(&input)).with_escape_char('^');
    let content = lexer.collect();
    assert_eq!(
        content,
        [
            Token::Raw(0),
            Token::Escape(Escape { start: 1, unescaped: Unescaped::Char('\n') }),
            Token::Raw(3),
        ]
    );
    let finish = lexer.finish();
    assert_eq!(finish.terminator, None);
    assert_eq!(finish.cursor.offset(), 6);
}

#[test]
fn unescape_splits_text_into_pieces() {
    let input = chars("a\\tb\\");
    let pieces = quoted::l2::unescape(&input);
    let sources: Vec<&str> = pieces.iter().map(|piece| piece.source()).collect();
    assert_eq!(sources, ["a", "\\t", "b", "\\"]);
}

#[test]
fn first_level_tokens_carry_their_offsets() {
    let config = Decondenser::generic();
    let input = chars("ab ( c,\n\n'd' ) e");
    let tokens = l1::parse(&config, &input);
    let starts: Vec<usize> = tokens.iter().map(|token| token.start()).collect();
    assert_eq!(starts, [0, 2, 3, 14, 15]);
    let l1::token_tree::TokenTree::Group(group) = &tokens[2] else {
        panic!("the third token is the group");
    };
    assert_eq!(group.opening, 3);
    assert_eq!(group.closing, Some(13));
    let inner: Vec<usize> = group.content.iter().map(|token| token.start()).collect();
    assert_eq!(inner, [4, 5, 6, 7, 9, 12]);
    let l1::token_tree::TokenTree::Quoted(quoted) = &group.content[4] else {
        panic!("the fifth token of the group is the quoted content");
    };
    assert_eq!(quoted.opening, 9);
    assert_eq!(quoted.closing, Some(11));
    assert_eq!(quoted.content, [Token::Raw(10)]);
}

#[test]
fn second_level_tokens_carry_their_text() {
    let config = Decondenser::generic();
    let input = chars("ab ( c,\r\n\n'd\\'' ) [e; \"f");
    let tokens = l2::parse(&config, &input);
    assert_eq!(
        describe(&tokens),
        "raw(\"ab\") space(\" \") group(\"(\" space(\" \") raw(\"c\") punct(\",\") newline(2) \
         quoted(\"'\" \"d\" \"\\\\'\" closed) space(\" \") closed) space(\" \") \
         group(\"[\" raw(\"e\") punct(\";\") space(\" \") quoted(\"\\\"\" \"f\" open) open) "
    );
}

#[test]
fn a_lone_carriage_return_is_a_space() {
    let config = Decondenser::generic();
    let input = chars("a\rb\r\nc");
    let tokens = l2::parse(&config, &input);
    assert_eq!(
        describe(&tokens),
        "raw(\"a\") space(\"\\r\") raw(\"b\") newline(1) raw(\"c\") "
    );
}

#[test]
fn the_closing_symbol_goes_before_everything_else() {
    let config = Decondenser::empty().groups(vec![decondenser::Group::new(
        decondenser::Punct::new("<"),
        decondenser::Punct::new(" >"),
    )]);
    let input = chars("<a > b");
    let tokens = l2::parse(&config, &input);
    assert_eq!(describe(&tokens), "group(\"<\" raw(\"a\") closed) space(\" \") raw(\"b\") ");
}

#[test]
fn symbols_without_characters_are_never_found() {
    let config = Decondenser::generic()
        .groups(vec![decondenser::Group::new(decondenser::Punct::new(""), decondenser::Punct::new(")"))])
        .puncts(vec![decondenser::Punct::new("")])
        .quotes(vec![decondenser::Quote::new("", "'")]);
    assert_eq!(config.format("a ) b ' c"), "a ) b ' c");
}
