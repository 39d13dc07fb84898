use decondenser::{
    BreakStyle, Decondenser, FnVisualSize, Group, Punct, Quote, Space, UnicodeWidth,
};

fn generic() -> Decondenser {
    Decondenser::generic().max_line_size(80).no_break_size(40).indent(4usize)
}

#[test]
fn short_call_fits() {
    assert_eq!(generic().format("foo(a, b, c)"), "foo(a, b, c)");
}

#[test]
fn long_call_breaks_consistently() {
    let input = "foo(aaaaaaaaa, bbbbbbbbb, ccccccccc, ddddddddd, eeeeeeeee, fffffffff, ggggggggg, h)";
    let expected = "foo(\n    aaaaaaaaa,\n    bbbbbbbbb,\n    ccccccccc,\n    ddddddddd,\n    eeeeeeeee,\n    fffffffff,\n    ggggggggg,\n    h\n)";
    assert_eq!(generic().format(input), expected);
}

#[test]
fn call_of_exactly_the_line_size_fits() {
    let input = "foo(aaaaaaaaa, bbbbbbbbb, ccccccccc, ddddddddd, eeeeeeeee, fffffffff, ggggggggg)";
    assert_eq!(input.chars().count(), 80);
    assert_eq!(generic().format(input), input);
    let expected = "foo(\n    aaaaaaaaa,\n    bbbbbbbbb,\n    ccccccccc,\n    ddddddddd,\n    eeeeeeeee,\n    fffffffff,\n    ggggggggg\n)";
    assert_eq!(generic().max_line_size(79).format(input), expected);
}

#[test]
fn nested_calls_fit() {
    assert_eq!(generic().format("a(b(c,d),e(f,g))"), "a(b(c, d), e(f, g))");
}

#[test]
fn quoted_content_is_opaque() {
    let input = "f(\"a, b, c, d, e, f, g, h, i, j, k, l, m, n, o, p, q, r, s, t\")";
    assert_eq!(generic().format(input), input);
    let narrow = generic().max_line_size(20).no_break_size(10);
    assert_eq!(
        narrow.format(input),
        "f(\n    \"a, b, c, d, e, f, g, h, i, j, k, l, m, n, o, p, q, r, s, t\"\n)"
    );
}

#[test]
fn unclosed_group_gets_no_closing_symbol() {
    assert_eq!(generic().format("foo(a, b, c"), "foo(a, b, c");
    let narrow = generic().max_line_size(8).no_break_size(4);
    assert_eq!(narrow.format("foo(a, b, c"), "foo(\n    a,\n    b,\n    c");
}

#[test]
fn empty_input_gives_empty_output() {
    assert_eq!(generic().format(""), "");
    assert_eq!(generic().format(" \n\t \r\n "), "");
}

#[test]
fn blanks_at_the_ends_are_dropped() {
    assert_eq!(generic().format("  \n foo bar \n\n"), "foo bar");
}

#[test]
fn blanks_between_words_become_one_space() {
    assert_eq!(generic().format("a   b\t\tc"), "a b c");
    assert_eq!(generic().format("a\n\n\nb"), "a b");
    assert_eq!(generic().format("a \r\n b"), "a b");
}

#[test]
fn line_breaks_of_the_input_are_kept_where_the_line_overflows() {
    let narrow = Decondenser::empty().max_line_size(10).no_break_size(5);
    assert_eq!(narrow.format("aaaa bbbb\ncccc dddd\neeee"), "aaaa bbbb\ncccc dddd\neeee");
    assert_eq!(narrow.format("aa bb\ncc"), "aa bb cc");
}

#[test]
fn empty_groups_hold_nothing() {
    assert_eq!(generic().format("foo( )"), "foo()");
    assert_eq!(generic().format("foo(\n\n)  bar"), "foo() bar");
    assert_eq!(generic().format("{ }"), "{}");
    assert_eq!(generic().format("()"), "()");
    assert_eq!(generic().format("("), "(");
}

#[test]
fn braces_are_padded_with_a_space() {
    assert_eq!(generic().format("{a,b}"), "{ a, b }");
    assert_eq!(generic().format("{   a   }"), "{ a }");
}

#[test]
fn blanks_next_to_brackets_are_dropped() {
    assert_eq!(generic().format("foo( a , b )"), "foo(a , b)");
    assert_eq!(generic().format("foo  (a)"), "foo (a)");
    assert_eq!(generic().format("foo(a)  bar"), "foo(a) bar");
    assert_eq!(generic().format("foo(a)bar"), "foo(a)bar");
}

#[test]
fn nested_groups_are_indented_level_by_level() {
    let narrow = generic().max_line_size(12).no_break_size(6);
    let input = "a(b(cccc, dddd), e)";
    let expected = "a(\n    b(\n        cccc,\n        dddd\n    ),\n    e\n)";
    assert_eq!(narrow.format(input), expected);
}

#[test]
fn inner_group_that_fits_stays_on_its_line() {
    let narrow = generic().max_line_size(16).no_break_size(8);
    let input = "a(b(c, d), e(f, g))";
    let expected = "a(\n    b(c, d),\n    e(f, g)\n)";
    assert_eq!(narrow.format(input), expected);
}

#[test]
fn semicolons_separate_like_commas() {
    assert_eq!(generic().format("a;b;c"), "a; b; c");
}

#[test]
fn custom_indent_is_used_for_broken_lines() {
    let narrow = generic().max_line_size(6).no_break_size(3).indent("--");
    assert_eq!(narrow.format("f(aaaa, bbbb)"), "f(\n--aaaa,\n--bbbb\n)");
    let narrow = generic().max_line_size(6).no_break_size(3).indent(1usize);
    assert_eq!(narrow.format("f(aaaa, bbbb)"), "f(\n aaaa,\n bbbb\n)");
}

#[test]
fn compact_groups_fill_the_lines() {
    let group = Group::new(
        Punct::new("(").trailing_space(Space::new().size(0usize).breakable(true)),
        Punct::new(")").leading_space(Space::new().size(0usize).breakable(true)),
    )
    .break_style(BreakStyle::compact());
    let comma = Punct::new(",").trailing_space(Space::new().size(1usize).breakable(true));
    let compact = Decondenser::empty()
        .groups(vec![group])
        .puncts(vec![comma])
        .max_line_size(12)
        .no_break_size(6);
    assert_eq!(compact.format("f(aaa, bbb, ccc, ddd)"), "f(aaa, bbb,\n    ccc, ddd\n)");
    assert_eq!(compact.format("f(aaa, bbb)"), "f(aaa, bbb)");
}

#[test]
fn groups_are_found_in_the_order_of_the_configuration() {
    let angle = |open: &str, close: &str| Group::new(Punct::new(open), Punct::new(close));
    let single_first = Decondenser::empty().groups(vec![angle("<", ">"), angle("<<", ">>")]);
    assert_eq!(single_first.format("<<a>>"), "<<a>>");
    let double_first = Decondenser::empty().groups(vec![angle("<<", ">>"), angle("<", ">")]);
    assert_eq!(double_first.format("<<a>>"), "<<a>>");
    assert_eq!(double_first.format("<< a >>"), "<< a >>");
}

#[test]
fn the_space_of_a_punct_follows_the_input_within_its_bounds() {
    let arrow = Punct::new("=>").leading_space(1usize..=2usize).trailing_space(0usize..=1usize);
    let config = Decondenser::empty().puncts(vec![arrow]);
    assert_eq!(config.format("a=>b"), "a =>b");
    assert_eq!(config.format("a    =>    b"), "a  => b");
    assert_eq!(config.format("a =>b"), "a =>b");
}

#[test]
fn escapes_do_not_close_quoted_content() {
    let input = "f(\"a\\\", b\", c)";
    assert_eq!(generic().format(input), "f(\"a\\\", b\", c)");
    assert_eq!(generic().format("'it''s'"), "'it''s'");
}

#[test]
fn triple_quotes_go_before_single_quotes() {
    let input = "f(\"\"\"a \"b\" c\"\"\",d)";
    assert_eq!(generic().format(input), "f(\"\"\"a \"b\" c\"\"\", d)");
}

#[test]
fn unclosed_quoted_content_reaches_the_end() {
    assert_eq!(generic().format("f(\"a, (b"), "f(\"a, (b");
}

#[test]
fn custom_quotes_keep_their_content() {
    let config = Decondenser::generic().quotes(vec![Quote::new("/*", "*/")]);
    assert_eq!(config.format("f(a,/* b,  c */d)"), "f(a, /* b,  c */d)");
}

#[test]
fn no_break_size_grants_deep_lines_their_room() {
    let config = generic().max_line_size(10).no_break_size(10);
    let input = "a(b(c(dd, ee)))";
    let expected = "a(\n    b(\n        c(dd, ee)\n    )\n)";
    assert_eq!(config.format(input), expected);
    let config = generic().max_line_size(10).no_break_size(4);
    let expected = "a(\n    b(\n        c(\n            dd,\n            ee\n        )\n    )\n)";
    assert_eq!(config.format(input), expected);
}

#[test]
fn formatting_twice_changes_nothing() {
    let inputs = [
        "foo(a, b, c)",
        "foo(aaaaaaaaa, bbbbbbbbb, ccccccccc, ddddddddd, eeeeeeeee, fffffffff, ggggggggg, h)",
        "a(b(c,d),e(f,g))",
        "{ a: [1, 2, 3], b: \"x, y\", c: { d: (e; f) } }",
        "foo(a, b, c",
        "  lorem ipsum\ndolor   sit amet  ",
    ];
    for max_line_size in [10usize, 20, 80] {
        let config = generic().max_line_size(max_line_size).no_break_size(max_line_size / 2);
        for input in inputs {
            let once = config.format(input);
            assert_eq!(config.format(&once), once, "{input:?} at {max_line_size}");
        }
    }
}

#[test]
fn input_that_fits_stays_on_one_line() {
    for input in ["foo(a, b, c)", "a(\n  b,\n  [c;\n d]\n)", "{x}  <<y>>\n\n'z'", "a\nb\nc"] {
        let output = generic().format(input);
        assert!(!output.contains('\n'), "{output:?}");
    }
    assert_eq!(generic().format("a(\n  b,\n  [c;\n d]\n)"), "a(b, [c; d])");
    assert_eq!(generic().format("a\nb\nc"), "a b c");
}

#[test]
fn every_line_is_granted_the_no_break_size() {
    let config = generic().max_line_size(10).no_break_size(20);
    assert_eq!(config.format("aaaaa(bbbbb, ccccc)"), "aaaaa(bbbbb, ccccc)");
    assert_eq!(
        config.format("aaaaa(bbbbb, ccccc, d)"),
        "aaaaa(\n    bbbbb,\n    ccccc,\n    d\n)"
    );
}

#[test]
fn words_on_one_line_are_not_parted() {
    let config = generic().max_line_size(10).no_break_size(5);
    assert_eq!(config.format("aa bb cc dd ee ff"), "aa bb cc dd ee ff");
    assert_eq!(config.format("aa bb cc\ndd ee ff"), "aa bb cc\ndd ee ff");
}

#[test]
fn a_breakable_space_before_the_first_symbol_can_break() {
    let equals = Punct::new("=").leading_space(Space::new().breakable(true));
    let config = Decondenser::empty().puncts(vec![equals]).max_line_size(5);
    assert_eq!(config.format("=aaaaaaaaaa bbbb"), "\n=aaaaaaaaaa bbbb");
    assert_eq!(config.format("=a"), "=a");
}

#[test]
fn quoted_content_may_end_with_a_space_before_its_closing_delimiter() {
    let config = generic().max_line_size(12).no_break_size(4);
    assert_eq!(
        config.format("f(\"aaaa \", \"bbbb \")"),
        "f(\n    \"aaaa \",\n    \"bbbb \"\n)"
    );
    assert_eq!(generic().format("f(\"a \", \" b \" )"), "f(\"a \", \" b \")");
    for input in ["f(\"a \", \" b \"  , 'c\n d ' )", "[ ' ' ; \" \" ]", "{\"\"\" x \"\"\"}"] {
        for line in config.format(input).split('\n') {
            assert!(!line.ends_with(' '), "{input:?} {line:?}");
        }
    }
}

#[test]
fn the_output_ends_with_the_last_text_of_the_input() {
    for input in ["f(a, b)  \n", "a ;\n\n", "x \"y \"\n ", "(a, (b \n", "a 'b c", "\n \t"] {
        let output = generic().format(input);
        let last = input.trim_end().chars().last();
        assert_eq!(output.chars().last(), last, "{input:?}");
    }
    assert_eq!(generic().format("a 'b \n"), "a 'b \n");
}

#[test]
fn formatting_twice_can_change_the_tokens() {
    let group = Group::new(Punct::new("<"), Punct::new(">").leading_space(0usize));
    let arrow = Punct::new("=>").trailing_space(1usize);
    let config = Decondenser::empty().groups(vec![group]).puncts(vec![arrow]);
    assert_eq!(config.format("<a= >b"), "<a=>b");
    assert_eq!(config.format("<a=>b"), "<a=> b");
}

#[test]
fn quoted_content_can_end_a_line_with_a_space() {
    assert_eq!(generic().format("\"a \nb\""), "\"a \nb\"");
    assert_eq!(generic().format("'a\n"), "'a\n");
}

#[test]
fn no_line_of_the_output_ends_with_a_space() {
    let input = "foo(aaaaaaaaa , bbbbbbbbb , { c , d } , [ e ; f ] )   ";
    for max_line_size in [4usize, 10, 20, 80] {
        let output = generic().max_line_size(max_line_size).no_break_size(2).format(input);
        assert!(!output.is_empty());
        assert!(!output.starts_with(char::is_whitespace), "{output:?}");
        assert!(!output.ends_with(char::is_whitespace), "{output:?}");
        for line in output.lines() {
            assert!(!line.ends_with(' '), "{output:?}");
        }
    }
}

#[test]
fn only_whitespace_changes() {
    let input = "foo ( a,b , { c:d } ,\"e ,f\" , [ g;h ] ) i";
    let visible = |text: &str| text.chars().filter(|c| !c.is_whitespace()).collect::<String>();
    for max_line_size in [4usize, 10, 20, 80] {
        let output = generic().max_line_size(max_line_size).no_break_size(2).format(input);
        assert_eq!(visible(&output), visible(input));
        assert!(output.contains("\"e ,f\""));
    }
}

#[test]
fn decondense_is_format() {
    let input = "f(a,b)";
    assert_eq!(generic().decondense(input), generic().format(input));
}

#[test]
fn wide_characters_count_twice_with_unicode_width() {
    let input = "f(ＡＡ, ＢＢ)";
    let narrow = generic().max_line_size(10).no_break_size(5);
    assert_eq!(narrow.format(input), "f(ＡＡ, ＢＢ)");
    let wide = generic().max_line_size(10).no_break_size(5).visual_size(UnicodeWidth);
    assert_eq!(wide.format(input), "f(\n    ＡＡ,\n    ＢＢ\n)");
}

#[test]
fn a_visual_size_of_the_caller_decides_what_fits() {
    let input = "f(éé, üü)";
    let config = generic().max_line_size(10).no_break_size(5);
    assert_eq!(config.format(input), input);
    let bytes = FnVisualSize::new(|text: &str| text.len());
    assert_eq!(config.visual_size(bytes).format(input), "f(\n    éé,\n    üü\n)");
    let width = FnVisualSize::new(unicode_width::UnicodeWidthStr::width);
    let config = generic().max_line_size(10).no_break_size(5).visual_size(width);
    assert_eq!(config.format("f(ＡＡ, ＢＢ)"), "f(\n    ＡＡ,\n    ＢＢ\n)");
}
