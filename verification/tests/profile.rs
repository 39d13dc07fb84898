use decondenser::order::text_precedes;
use decondenser::{
    BreakStyle, Config, ConfigError, Fmt, GroupConfig, IndentConfig, Lang, NamedLang, PunctConfig,
    QuoteConfig, SpaceConfig,
};

fn no_fmt() -> Fmt {
    Fmt { indent: None, max_line_size: None, no_break_size: None }
}

fn no_lang() -> Lang {
    Lang { groups: None, quotes: None, puncts: None, fmt: no_fmt() }
}

fn document(fmt: Fmt, langs: Vec<NamedLang>) -> Config {
    let mut config = Config::new(fmt);
    for named in langs {
        config = config.insert(named.name, named.lang);
    }
    config
}

fn punct(symbol: &str) -> PunctConfig {
    PunctConfig { symbol: symbol.to_owned(), leading_space: None, trailing_space: None }
}

fn lisp() -> NamedLang {
    NamedLang {
        name: "lisp".to_owned(),
        lang: Lang {
            groups: Some(vec![GroupConfig {
                opening: PunctConfig {
                    symbol: "(".to_owned(),
                    leading_space: None,
                    trailing_space: Some(SpaceConfig { size: Some(0), breakable: Some(true) }),
                },
                closing: PunctConfig {
                    symbol: ")".to_owned(),
                    leading_space: Some(SpaceConfig { size: Some(0), breakable: None }),
                    trailing_space: None,
                },
                break_style: Some(BreakStyle::compact()),
            }]),
            quotes: Some(vec![QuoteConfig { opening: "|".to_owned(), closing: "|".to_owned() }]),
            puncts: None,
            fmt: Fmt { indent: Some(IndentConfig::NSpaces(1)), max_line_size: None, no_break_size: Some(2) },
        },
    }
}

#[test]
fn space_settings_become_a_space() {
    let space = SpaceConfig { size: None, breakable: None }.into_core();
    assert_eq!(space.size, (0, 1));
    assert!(!space.breakable);
    let space = SpaceConfig { size: Some(3), breakable: Some(true) }.into_core();
    assert_eq!(space.size, (3, 3));
    assert!(space.breakable);
}

#[test]
fn punct_settings_become_a_punct() {
    let core = PunctConfig {
        symbol: "=>".to_owned(),
        leading_space: Some(SpaceConfig { size: Some(1), breakable: None }),
        trailing_space: None,
    }
    .into_core();
    assert_eq!(core.symbol.as_str(), "=>");
    assert_eq!(core.leading_space.size, (1, 1));
    assert!(!core.leading_space.breakable);
    assert_eq!(core.trailing_space.size, (0, 1));
}

#[test]
fn group_settings_become_a_group() {
    let core = GroupConfig { opening: punct("<"), closing: punct(">"), break_style: None }.into_core();
    assert_eq!(core.opening.symbol.as_str(), "<");
    assert_eq!(core.closing.symbol.as_str(), ">");
    assert_eq!(core.break_style.0, BreakStyle::consistent().0);
    let core = GroupConfig {
        opening: punct("<"),
        closing: punct(">"),
        break_style: Some(BreakStyle::compact()),
    }
    .into_core();
    assert_eq!(core.break_style.0, BreakStyle::compact().0);
}

#[test]
fn quote_settings_become_a_quote() {
    let core = QuoteConfig { opening: "<!--".to_owned(), closing: "-->".to_owned() }.into_core();
    assert_eq!(core.opening.as_str(), "<!--");
    assert_eq!(core.closing.as_str(), "-->");
}

#[test]
fn a_profile_of_the_document_is_merged_into_the_empty_configuration() {
    let fmt = Fmt {
        indent: Some(IndentConfig::Text("\t".to_owned())),
        max_line_size: Some(6),
        no_break_size: Some(5),
    };
    let config = document(fmt, vec![
        NamedLang { name: "other".to_owned(), lang: no_lang() },
        lisp(),
    ]);
    let Ok(decondenser) = config.into_decondenser("lisp") else {
        panic!("the profile is in the document");
    };
    assert_eq!(decondenser.indent.as_str(), " ");
    assert_eq!(decondenser.max_line_size, 6);
    assert_eq!(decondenser.no_break_size, Some(2));
    assert_eq!(decondenser.groups.len(), 1);
    assert_eq!(decondenser.puncts.len(), 0);
    assert_eq!(decondenser.quotes.len(), 1);
    assert_eq!(decondenser.format("(aaa bbb,(ccc |d (|))"), "(\n aaa bbb,(\n  ccc |d (|))");
}

#[test]
fn the_builtin_language_is_the_generic_configuration() {
    let fmt = Fmt {
        indent: Some(IndentConfig::Text("\t".to_owned())),
        max_line_size: Some(4),
        no_break_size: None,
    };
    let config = document(fmt, vec![lisp()]);
    let Ok(decondenser) = config.into_decondenser("generic") else {
        panic!("the language is built in");
    };
    assert_eq!(decondenser.indent.as_str(), "\t");
    assert_eq!(decondenser.max_line_size, 4);
    assert_eq!(decondenser.no_break_size, None);
    assert_eq!(decondenser.groups.len(), 4);
    assert_eq!(decondenser.format("f(aa,bb)"), "f(\n\taa,\n\tbb\n)");
}

#[test]
fn a_profile_named_like_the_builtin_language_goes_first() {
    let mut named = lisp();
    named.name = "generic".to_owned();
    let config = document(no_fmt(), vec![named]);
    let Ok(decondenser) = config.into_decondenser("generic") else {
        panic!("the profile is in the document");
    };
    assert_eq!(decondenser.groups.len(), 1);
    assert_eq!(decondenser.max_line_size, 80);
}

#[test]
fn an_unknown_language_is_not_recognized() {
    let config = document(no_fmt(), vec![lisp()]);
    match config.into_decondenser("rust") {
        Err(ConfigError::UnrecognizedLanguage { name, available }) => {
            assert_eq!(name, "rust");
            assert_eq!(available, ["generic", "lisp"]);
        }
        Ok(_) => panic!("the language is unknown"),
    }
}

#[test]
fn the_available_languages_are_in_order_and_each_once() {
    let named = |name: &str| NamedLang { name: name.to_owned(), lang: no_lang() };
    let config = document(
        no_fmt(),
        vec![named("zig"), named("generic"), named("Ada"), named("go"), named("zig"), named("g")],
    );
    assert_eq!(config.names(), ["Ada", "g", "generic", "go", "zig"]);
    match config.into_decondenser("x") {
        Err(ConfigError::UnrecognizedLanguage { name, available }) => {
            assert_eq!(name, "x");
            assert_eq!(available, ["Ada", "g", "generic", "go", "zig"]);
        }
        Ok(_) => panic!("the language is unknown"),
    }
    let zig = vec!["zig".to_owned()];
    assert_eq!(Config::available_languages(zig), ["generic", "zig"]);
    assert_eq!(Config::available_languages(Vec::new()), ["generic"]);
    let names = vec!["b".to_owned(), "a".to_owned(), "b".to_owned(), "é".to_owned(), "ab".to_owned()];
    assert_eq!(Config::available_languages(names), ["a", "ab", "b", "generic", "é"]);
}

#[test]
fn a_profile_put_under_a_name_again_takes_the_place_of_the_first() {
    let second = Lang {
        fmt: Fmt { indent: None, max_line_size: Some(7), no_break_size: None },
        ..no_lang()
    };
    let config = document(no_fmt(), vec![lisp()]).insert("lisp".to_owned(), second);
    assert_eq!(config.names(), ["lisp"]);
    assert_eq!(config.find_lang("lisp"), Some(0));
    assert_eq!(config.find_lang("generic"), None);
    let Ok(decondenser) = config.into_decondenser("lisp") else {
        panic!("the profile is in the document");
    };
    assert_eq!(decondenser.max_line_size, 7);
    assert_eq!(decondenser.groups.len(), 0);
}

#[test]
fn texts_are_ordered_like_strings() {
    let texts = ["", "a", "ab", "b", "B", "é", "z", "generic", "ge", "\u{10000}", "\u{ffff}"];
    for first in texts {
        for second in texts {
            assert_eq!(text_precedes(first, second), first < second, "{first:?} {second:?}");
        }
    }
}
