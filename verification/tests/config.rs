use decondenser::{
    BreakStyle, CharCount, Decondenser, Group, Punct, Quote, Space, Str, UnicodeWidth, VisualSize,
};

#[test]
fn default_visual_size_skips_carriage_returns() {
    assert_eq!(CharCount.visual_size("a\r\nb"), 3);
    assert_eq!(CharCount.visual_size(""), 0);
    assert_eq!(CharCount.visual_size("ＡＢ"), 2);
}

#[test]
fn unicode_width_counts_wide_characters_twice() {
    assert_eq!(UnicodeWidth.visual_size("Ｈｅｌｌｏ"), 10);
    assert_eq!(UnicodeWidth.visual_size("abc"), 3);
}

#[test]
fn space_defaults() {
    let space = Space::new();
    assert_eq!(space.size, (0, 1));
    assert!(!space.breakable);
    let fixed = Space::new().size(2usize).breakable(true);
    assert_eq!(fixed.size, (2, 2));
    assert!(fixed.breakable);
    let range = Space::new().size(1usize..=3usize);
    assert_eq!(range.size, (1, 3));
    assert!(!Space::new().breakable(true).breakable(false).breakable);
}

#[test]
fn str_holds_its_text() {
    assert_eq!(Str::new("abc").as_str(), "abc");
    assert_eq!(Str::new(String::from("déf")).as_str(), "déf");
    assert_eq!(Str::new("déf").as_chars(), ['d', 'é', 'f']);
    assert_eq!(Str::n_spaces(3).as_str(), "   ");
    assert_eq!(Str::n_spaces(0).as_str(), "");
    assert!(Str::new("").is_empty());
    assert!(!Str::new(" ").is_empty());
}

#[test]
fn punct_defaults() {
    let punct = Punct::new(",");
    assert_eq!(punct.symbol.as_str(), ",");
    assert_eq!(punct.leading_space.size, (0, 1));
    assert_eq!(punct.trailing_space.size, (0, 1));
    let punct = punct.leading_space(2usize).trailing_space(Space::new().breakable(true));
    assert_eq!(punct.leading_space.size, (2, 2));
    assert!(!punct.leading_space.breakable);
    assert_eq!(punct.trailing_space.size, (0, 1));
    assert!(punct.trailing_space.breakable);
    let punct = Punct::new(":").trailing_space(1usize..=2usize);
    assert_eq!(punct.trailing_space.size, (1, 2));
}

#[test]
fn group_defaults() {
    let group = Group::new(Punct::new("("), Punct::new(")"));
    assert_eq!(group.opening.symbol.as_str(), "(");
    assert_eq!(group.closing.symbol.as_str(), ")");
    assert_eq!(group.break_style.0, BreakStyle::consistent().0);
    let group = group.break_style(BreakStyle::compact());
    assert_eq!(group.break_style.0, BreakStyle::compact().0);
    assert_ne!(BreakStyle::compact().0, BreakStyle::consistent().0);
}

#[test]
fn quote_holds_its_delimiters() {
    let quote = Quote::new("<<", String::from(">>"));
    assert_eq!(quote.opening.as_str(), "<<");
    assert_eq!(quote.closing.as_str(), ">>");
}

#[test]
fn empty_configuration() {
    let config = Decondenser::empty();
    assert_eq!(config.indent.as_str(), "    ");
    assert_eq!(config.max_line_size, 80);
    assert_eq!(config.no_break_size, None);
    assert_eq!(config.effective_no_break_size(), 40);
    assert_eq!(config.escape_char, '\\');
    assert!(config.groups.is_empty());
    assert!(config.puncts.is_empty());
    assert!(config.quotes.is_empty());
    assert_eq!(config.format("f(a,b)"), "f(a,b)");
}

#[test]
fn generic_configuration() {
    let config = Decondenser::generic();
    assert_eq!(config.indent.as_str(), "    ");
    assert_eq!(config.max_line_size, 80);
    assert_eq!(config.no_break_size, None);
    let groups: Vec<_> = config
        .groups
        .iter()
        .map(|group| (group.opening.symbol.as_str(), group.closing.symbol.as_str()))
        .collect();
    assert_eq!(groups, [("(", ")"), ("[", "]"), ("{", "}"), ("<<", ">>")]);
    assert_eq!(config.groups[2].opening.trailing_space.size, (1, 1));
    assert!(config.groups[2].opening.trailing_space.breakable);
    assert_eq!(config.groups[0].closing.leading_space.size, (0, 0));
    let puncts: Vec<_> = config.puncts.iter().map(|punct| punct.symbol.as_str()).collect();
    assert_eq!(puncts, [",", ";"]);
    assert_eq!(config.puncts[0].trailing_space.size, (1, 1));
    assert!(config.puncts[0].trailing_space.breakable);
    let quotes: Vec<_> = config
        .quotes
        .iter()
        .map(|quote| (quote.opening.as_str(), quote.closing.as_str()))
        .collect();
    assert_eq!(quotes, [("\"\"\"", "\"\"\""), ("\"", "\""), ("'''", "'''"), ("'", "'")]);
}

#[test]
fn setters_change_one_setting() {
    let config = Decondenser::generic().max_line_size(100);
    assert_eq!(config.max_line_size, 100);
    assert_eq!(config.effective_no_break_size(), 50);
    let config = config.no_break_size(7);
    assert_eq!(config.no_break_size, Some(7));
    assert_eq!(config.effective_no_break_size(), 7);
    let config = config.indent("\t");
    assert_eq!(config.indent.as_str(), "\t");
    let config = config.indent(2usize);
    assert_eq!(config.indent.as_str(), "  ");
    let config = config.indent(String::from("ab"));
    assert_eq!(config.indent.as_str(), "ab");
    assert_eq!(config.groups.len(), 4);
    let config = config.groups(Vec::new()).puncts(vec![Punct::new(":")]).quotes(Vec::new());
    assert_eq!(config.groups.len(), 0);
    assert_eq!(config.puncts.len(), 1);
    assert_eq!(config.quotes.len(), 0);
    assert_eq!(config.max_line_size, 100);
}
