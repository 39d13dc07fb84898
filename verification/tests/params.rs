use decondenser::params::uint_to_core;
use decondenser::{DecondenserParams, IndentConfig, Preset, PunctConfig, QuoteConfig};

fn no_params() -> DecondenserParams {
    DecondenserParams {
        extends: None,
        indent: None,
        max_line_size: None,
        no_break_size: None,
        groups: None,
        quotes: None,
        puncts: None,
    }
}

#[test]
fn no_settings_give_the_generic_configuration() {
    let decondenser = no_params().into_decondenser();
    assert_eq!(decondenser.max_line_size, 80);
    assert_eq!(decondenser.no_break_size, None);
    assert_eq!(decondenser.indent.as_str(), "    ");
    assert_eq!(decondenser.groups.len(), 4);
    assert_eq!(decondenser.puncts.len(), 2);
    assert_eq!(decondenser.quotes.len(), 4);
    assert_eq!(decondenser.format("f( a,b )"), "f(a, b)");
}

#[test]
fn the_empty_preset_has_no_syntax() {
    let decondenser = DecondenserParams { extends: Some(Preset::Empty), ..no_params() }
        .into_decondenser();
    assert_eq!(decondenser.groups.len(), 0);
    assert_eq!(decondenser.puncts.len(), 0);
    assert_eq!(decondenser.quotes.len(), 0);
    assert_eq!(decondenser.format("f( a,b )"), "f( a,b )");
}

#[test]
fn settings_replace_those_of_the_preset() {
    let decondenser = DecondenserParams {
        extends: Some(Preset::Generic),
        indent: Some(IndentConfig::Text("\t".to_owned())),
        max_line_size: Some(12),
        no_break_size: Some(3),
        groups: None,
        quotes: Some(vec![QuoteConfig { opening: "|".to_owned(), closing: "|".to_owned() }]),
        puncts: Some(vec![PunctConfig {
            symbol: ":".to_owned(),
            leading_space: None,
            trailing_space: None,
        }]),
    }
    .into_decondenser();
    assert_eq!(decondenser.max_line_size, 12);
    assert_eq!(decondenser.no_break_size, Some(3));
    assert_eq!(decondenser.indent.as_str(), "\t");
    assert_eq!(decondenser.groups.len(), 4);
    assert_eq!(decondenser.puncts.len(), 1);
    assert_eq!(decondenser.puncts[0].symbol.as_str(), ":");
    assert_eq!(decondenser.quotes.len(), 1);
    assert_eq!(decondenser.quotes[0].opening.as_str(), "|");
    assert_eq!(decondenser.format("(|a, b| : c)"), "(|a, b| : c)");
}

#[test]
fn sizes_keep_their_value() {
    assert_eq!(uint_to_core(0), 0);
    assert_eq!(uint_to_core(80), 80);
    assert_eq!(uint_to_core(u32::MAX), 4_294_967_295);
}
