//! Configuration as a document holds it: every setting may be there or not,
//! and the groups, quotes and punctuation belong to named language
//! profiles. The settings of a document are merged into a [`Decondenser`].

use crate::chars::spaces;
use crate::config::{BreakStyle, BreakStyleEnum, Group, Punct, Quote};
use crate::decondenser::{is_bracket, is_quote, is_separator, Decondenser};
use crate::order::{
    holds_also, increasing, insert_name, lemma_insert_increasing, precedes, rank, string_views,
    text_precedes,
};
use crate::space::Space;
use vstd::prelude::*;

verus! {

/// The rule for a space, as a document holds it.
#[derive(Clone, Copy, Debug)]
pub struct SpaceConfig {
    /// The fixed size of the space. Without it the size follows the input
    /// between 0 and 1.
    pub size: Option<usize>,
    /// Whether the space may turn into a line break. Without it the space
    /// may not.
    pub breakable: Option<bool>,
}

impl SpaceConfig {
    /// The space that the settings stand for.
    pub open spec fn spec_into_core(self) -> Space {
        Space {
            size: match self.size {
                Some(size) => (size, size),
                None => (0usize, 1usize),
            },
            breakable: match self.breakable {
                Some(breakable) => breakable,
                None => false,
            },
        }
    }

    /// The space that the settings stand for.
    pub fn into_core(self) -> (space: Space)
        ensures
            space == self.spec_into_core(),
    {
        let mut space = Space::new();
        if let Some(size) = self.size {
            space = space.size(size);
        }
        if let Some(breakable) = self.breakable {
            space = space.breakable(breakable);
        }
        space
    }
}

/// The space that optional settings stand for: the default space without
/// settings.
pub open spec fn space_or_default(space: Option<SpaceConfig>) -> Space {
    match space {
        Some(space) => space.spec_into_core(),
        None => Space { size: (0usize, 1usize), breakable: false },
    }
}

/// A punctuation symbol, as a document holds it.
pub struct PunctConfig {
    /// The punctuation sequence.
    pub symbol: String,
    /// The rule for the blank before the symbol, if it is not the default.
    pub leading_space: Option<SpaceConfig>,
    /// The rule for the blank after the symbol, if it is not the default.
    pub trailing_space: Option<SpaceConfig>,
}

impl PunctConfig {
    /// Whether `punct` is the punctuation that the settings stand for.
    pub open spec fn describes(&self, punct: Punct) -> bool {
        &&& punct.symbol@ == self.symbol@
        &&& punct.leading_space == space_or_default(self.leading_space)
        &&& punct.trailing_space == space_or_default(self.trailing_space)
    }

    /// The punctuation that the settings stand for.
    pub fn into_core(self) -> (punct: Punct)
        ensures
            self.describes(punct),
    {
        let mut punct = Punct::new(self.symbol);
        if let Some(leading_space) = self.leading_space {
            punct = punct.leading_space(leading_space.into_core());
        }
        if let Some(trailing_space) = self.trailing_space {
            punct = punct.trailing_space(trailing_space.into_core());
        }
        punct
    }
}

/// A group, as a document holds it.
pub struct GroupConfig {
    /// The sequence that opens the group.
    pub opening: PunctConfig,
    /// The sequence that closes the group.
    pub closing: PunctConfig,
    /// How the group is broken, if not consistently.
    pub break_style: Option<BreakStyle>,
}

impl GroupConfig {
    /// Whether `group` is the group that the settings stand for.
    pub open spec fn describes(&self, group: Group) -> bool {
        &&& self.opening.describes(group.opening)
        &&& self.closing.describes(group.closing)
        &&& group.break_style.0 == match self.break_style {
            Some(break_style) => break_style.0,
            None => BreakStyleEnum::Consistent,
        }
    }

    /// The group that the settings stand for.
    pub fn into_core(self) -> (group: Group)
        ensures
            self.describes(group),
    {
        let mut group = Group::new(self.opening.into_core(), self.closing.into_core());
        if let Some(break_style) = self.break_style {
            group = group.break_style(break_style);
        }
        group
    }
}

/// A quote, as a document holds it.
pub struct QuoteConfig {
    /// The sequence that opens the quoted content.
    pub opening: String,
    /// The sequence that closes the quoted content.
    pub closing: String,
}

impl QuoteConfig {
    /// Whether `quote` is the quote that the settings stand for.
    pub open spec fn describes(&self, quote: Quote) -> bool {
        is_quote(quote, self.opening@, self.closing@)
    }

    /// The quote that the settings stand for.
    pub fn into_core(self) -> (quote: Quote)
        ensures
            self.describes(quote),
    {
        Quote::new(self.opening, self.closing)
    }
}

/// The indent, as a document holds it.
pub enum IndentConfig {
    /// This many spaces.
    NSpaces(usize),
    /// This text.
    Text(String),
}

impl IndentConfig {
    /// The text of one level of indentation.
    pub open spec fn text(&self) -> Seq<char> {
        match self {
            IndentConfig::NSpaces(count) => spaces(*count as nat),
            IndentConfig::Text(text) => text@,
        }
    }
}

/// The settings of the layout.
pub struct Layout {
    /// The text of one level of indentation.
    pub indent: Seq<char>,
    /// Best-effort max size of a line to fit into.
    pub max_line_size: usize,
    /// Lines shorter than this are not broken, if it is set.
    pub no_break_size: Option<usize>,
}

impl Layout {
    /// The settings of the layout of the empty configuration: an indent of
    /// 4 spaces and lines of 80.
    pub open spec fn initial() -> Layout {
        Layout { indent: spaces(4), max_line_size: 80, no_break_size: None }
    }

    /// The settings of the layout of `decondenser`.
    pub open spec fn of(decondenser: Decondenser) -> Layout {
        Layout {
            indent: decondenser.indent@,
            max_line_size: decondenser.max_line_size,
            no_break_size: decondenser.no_break_size,
        }
    }
}

/// The settings of the layout, each of which may be there or not.
pub struct Fmt {
    /// The indent.
    pub indent: Option<IndentConfig>,
    /// Best-effort max size of a line to fit into.
    pub max_line_size: Option<usize>,
    /// Lines shorter than this are not broken.
    pub no_break_size: Option<usize>,
}

impl Fmt {
    /// `base` with the settings that are there put in place of its own.
    pub open spec fn merged(&self, base: Layout) -> Layout {
        Layout {
            indent: match self.indent {
                Some(indent) => indent.text(),
                None => base.indent,
            },
            max_line_size: match self.max_line_size {
                Some(size) => size,
                None => base.max_line_size,
            },
            no_break_size: match self.no_break_size {
                Some(size) => Some(size),
                None => base.no_break_size,
            },
        }
    }

    /// Puts the settings that are there in place of those of
    /// `decondenser`.
    pub fn merge_into(self, decondenser: Decondenser) -> (merged: Decondenser)
        ensures
            Layout::of(merged) == self.merged(Layout::of(decondenser)),
            merged.groups == decondenser.groups,
            merged.puncts == decondenser.puncts,
            merged.quotes == decondenser.quotes,
            merged.escape_char == decondenser.escape_char,
    {
        let mut merged = decondenser;
        if let Some(indent) = self.indent {
            merged = match indent {
                IndentConfig::NSpaces(count) => merged.indent(count),
                IndentConfig::Text(text) => merged.indent(text),
            };
        }
        if let Some(max_line_size) = self.max_line_size {
            merged = merged.max_line_size(max_line_size);
        }
        if let Some(no_break_size) = self.no_break_size {
            merged = merged.no_break_size(no_break_size);
        }
        merged
    }
}

/// Whether the groups are those that the settings stand for, in their
/// order.
pub open spec fn groups_described(settings: Seq<GroupConfig>, groups: Seq<Group>) -> bool {
    &&& groups.len() == settings.len()
    &&& forall|i: int| 0 <= i < settings.len() ==> (#[trigger] settings[i]).describes(groups[i])
}

/// Whether the punctuation is that which the settings stand for, in their
/// order.
pub open spec fn puncts_described(settings: Seq<PunctConfig>, puncts: Seq<Punct>) -> bool {
    &&& puncts.len() == settings.len()
    &&& forall|i: int| 0 <= i < settings.len() ==> (#[trigger] settings[i]).describes(puncts[i])
}

/// Whether the quotes are those that the settings stand for, in their
/// order.
pub open spec fn quotes_described(settings: Seq<QuoteConfig>, quotes: Seq<Quote>) -> bool {
    &&& quotes.len() == settings.len()
    &&& forall|i: int| 0 <= i < settings.len() ==> (#[trigger] settings[i]).describes(quotes[i])
}

/// The groups that the settings stand for.
pub fn groups_into_core(settings: Vec<GroupConfig>) -> (groups: Vec<Group>)
    ensures
        groups_described(settings@, groups@),
{
    let mut groups: Vec<Group> = Vec::new();
    for setting in iter: settings.into_iter()
        invariant
            iter.seq() == settings@,
            groups@.len() == iter.index(),
            forall|i: int|
                0 <= i < iter.index() ==> (#[trigger] settings@[i]).describes(groups@[i]),
    {
        groups.push(setting.into_core());
    }
    groups
}

/// The punctuation that the settings stand for.
pub fn puncts_into_core(settings: Vec<PunctConfig>) -> (puncts: Vec<Punct>)
    ensures
        puncts_described(settings@, puncts@),
{
    let mut puncts: Vec<Punct> = Vec::new();
    for setting in iter: settings.into_iter()
        invariant
            iter.seq() == settings@,
            puncts@.len() == iter.index(),
            forall|i: int|
                0 <= i < iter.index() ==> (#[trigger] settings@[i]).describes(puncts@[i]),
    {
        puncts.push(setting.into_core());
    }
    puncts
}

/// The quotes that the settings stand for.
pub fn quotes_into_core(settings: Vec<QuoteConfig>) -> (quotes: Vec<Quote>)
    ensures
        quotes_described(settings@, quotes@),
{
    let mut quotes: Vec<Quote> = Vec::new();
    for setting in iter: settings.into_iter()
        invariant
            iter.seq() == settings@,
            quotes@.len() == iter.index(),
            forall|i: int|
                0 <= i < iter.index() ==> (#[trigger] settings@[i]).describes(quotes@[i]),
    {
        quotes.push(setting.into_core());
    }
    quotes
}

/// A language profile: what the tokenizer looks for in a language, and
/// settings of the layout for that language.
pub struct Lang {
    /// The groups, if the language has its own.
    pub groups: Option<Vec<GroupConfig>>,
    /// The quotes, if the language has its own.
    pub quotes: Option<Vec<QuoteConfig>>,
    /// The punctuation, if the language has its own.
    pub puncts: Option<Vec<PunctConfig>>,
    /// The settings of the layout for this language.
    pub fmt: Fmt,
}

impl Lang {
    /// Whether the groups, punctuation and quotes of `after` are those of
    /// the language where it has its own, and those of `before` where it
    /// has none.
    pub open spec fn replaces_syntax(&self, before: Decondenser, after: Decondenser) -> bool {
        &&& match self.groups {
            Some(groups) => groups_described(groups@, after.groups@),
            None => after.groups == before.groups,
        }
        &&& match self.puncts {
            Some(puncts) => puncts_described(puncts@, after.puncts@),
            None => after.puncts == before.puncts,
        }
        &&& match self.quotes {
            Some(quotes) => quotes_described(quotes@, after.quotes@),
            None => after.quotes == before.quotes,
        }
        &&& after.escape_char == before.escape_char
    }

    /// Puts the settings of the language that are there in place of those
    /// of `decondenser`.
    pub fn merge_into(self, decondenser: Decondenser) -> (merged: Decondenser)
        ensures
            Layout::of(merged) == self.fmt.merged(Layout::of(decondenser)),
            self.replaces_syntax(decondenser, merged),
    {
        let mut merged = decondenser;
        if let Some(groups) = self.groups {
            merged = merged.groups(groups_into_core(groups));
        }
        if let Some(quotes) = self.quotes {
            merged = merged.quotes(quotes_into_core(quotes));
        }
        if let Some(puncts) = self.puncts {
            merged = merged.puncts(puncts_into_core(puncts));
        }
        self.fmt.merge_into(merged)
    }
}

/// A language profile with its name.
pub struct NamedLang {
    /// The name of the language.
    pub name: String,
    /// The profile.
    pub lang: Lang,
}

/// The settings of a document: the language profiles by their names, and
/// settings of the layout for all languages.
///
/// The profiles are kept in the order of their names, and no name is there
/// twice.
pub struct Config {
    lang: Vec<NamedLang>,
    fmt: Fmt,
}

/// Why a document gives no configuration.
pub enum ConfigError {
    /// The language is neither in the document nor built in. `available`
    /// are the languages of the document and the built-in one, in the order
    /// of their names, each once.
    UnrecognizedLanguage { name: String, available: Vec<String> },
}

/// The position of the first profile from `from` on with the given name.
pub open spec fn position_of_lang(langs: Seq<NamedLang>, name: Seq<char>, from: int) -> Option<int>
    decreases langs.len() - from,
{
    if from < 0 || from >= langs.len() {
        None
    } else if langs[from].name@ == name {
        Some(from)
    } else {
        position_of_lang(langs, name, from + 1)
    }
}

/// The names of the profiles, in their order.
pub open spec fn lang_names(langs: Seq<NamedLang>) -> Seq<Seq<char>> {
    Seq::new(langs.len(), |i: int| langs[i].name@)
}

/// The profiles with `named` among them: in place of the profile of that
/// name where there is one, and else where its name belongs in the order of
/// the names.
pub open spec fn with_lang(langs: Seq<NamedLang>, named: NamedLang) -> Seq<NamedLang> {
    let at = rank(lang_names(langs), named.name@, 0);
    if at < langs.len() && langs[at].name@ == named.name@ {
        langs.update(at, named)
    } else {
        langs.insert(at, named)
    }
}

/// Whether `available` are the names of the profiles and the built-in
/// language, in the order of texts, each once.
pub open spec fn lists_languages(names: Seq<Seq<char>>, available: Seq<Seq<char>>) -> bool {
    &&& increasing(available)
    &&& holds_also(names, Config::builtin(), available)
}

/// Whether the configuration has no groups, punctuation and quotes, and `\`
/// as the escape character.
pub open spec fn has_empty_syntax(decondenser: Decondenser) -> bool {
    &&& decondenser.groups@.len() == 0
    &&& decondenser.puncts@.len() == 0
    &&& decondenser.quotes@.len() == 0
    &&& decondenser.escape_char == '\\'
}

/// Whether the configuration has the groups, punctuation and quotes of the
/// general-purpose one.
pub open spec fn has_generic_syntax(decondenser: Decondenser) -> bool {
    &&& decondenser.escape_char == '\\'
    &&& decondenser.groups@.len() == 4
    &&& is_bracket(decondenser.groups@[0], "("@, ")"@, 0)
    &&& is_bracket(decondenser.groups@[1], "["@, "]"@, 0)
    &&& is_bracket(decondenser.groups@[2], "{"@, "}"@, 1)
    &&& is_bracket(decondenser.groups@[3], "<<"@, ">>"@, 0)
    &&& decondenser.puncts@.len() == 2
    &&& is_separator(decondenser.puncts@[0], ","@)
    &&& is_separator(decondenser.puncts@[1], ";"@)
    &&& decondenser.quotes@.len() == 4
    &&& is_quote(decondenser.quotes@[0], "\"\"\""@, "\"\"\""@)
    &&& is_quote(decondenser.quotes@[1], "\""@, "\""@)
    &&& is_quote(decondenser.quotes@[2], "'''"@, "'''"@)
    &&& is_quote(decondenser.quotes@[3], "'"@, "'"@)
}

impl Config {
    #[verifier::type_invariant]
    spec fn in_order(&self) -> bool {
        increasing(lang_names(self.lang@))
    }

    /// The name of the built-in language.
    pub open spec fn builtin() -> Seq<char> {
        "generic"@
    }

    /// The language profiles, in the order of their names.
    pub closed spec fn langs(&self) -> Seq<NamedLang> {
        self.lang@
    }

    /// The settings of the layout for all languages.
    pub closed spec fn settings(&self) -> Fmt {
        self.fmt
    }

    /// A document without language profiles, with the given settings of the
    /// layout for all languages.
    pub fn new(fmt: Fmt) -> (config: Config)
        ensures
            config.langs().len() == 0,
            config.settings() == fmt,
    {
        Config { lang: Vec::new(), fmt }
    }

    /// The document with the profile `lang` under `name`: in place of the
    /// profile of that name where the document has one.
    pub fn insert(self, name: String, lang: Lang) -> (config: Config)
        ensures
            config.langs() == with_lang(self.langs(), NamedLang { name, lang }),
            config.settings() == self.settings(),
    {
        proof {
            use_type_invariant(&self);
        }
        let Config { lang: mut langs, fmt } = self;
        let ghost names = lang_names(langs@);
        let mut at: usize = 0;
        while at < langs.len() && text_precedes(langs[at].name.as_str(), name.as_str())
            invariant
                at <= langs@.len(),
                names == lang_names(langs@),
                rank(names, name@, 0) == rank(names, name@, at as int),
                forall|i: int| 0 <= i < at ==> precedes(#[trigger] names[i], name@),
            decreases langs@.len() - at,
        {
            at += 1;
        }
        let named = NamedLang { name, lang };
        if at < langs.len() && langs[at].name == named.name {
            langs.set(at, named);
            proof {
                assert(lang_names(langs@) =~= names);
            }
        } else {
            langs.insert(at, named);
            proof {
                assert(lang_names(langs@) =~= names.insert(at as int, named.name@));
                lemma_insert_increasing(names, named.name@, at as int);
            }
        }
        Config { lang: langs, fmt }
    }

    /// The names of the profiles: they are in the order of texts, each
    /// once.
    pub fn names(&self) -> (names: Vec<String>)
        ensures
            string_views(names@) == lang_names(self.langs()),
            increasing(lang_names(self.langs())),
    {
        proof {
            use_type_invariant(self);
        }
        let mut names: Vec<String> = Vec::new();
        let mut i: usize = 0;
        while i < self.lang.len()
            invariant
                i <= self.lang@.len(),
                names@.len() == i,
                forall|k: int| 0 <= k < i ==> (#[trigger] names@[k])@ == self.lang@[k].name@,
            decreases self.lang@.len() - i,
        {
            names.push(self.lang[i].name.clone());
            i += 1;
        }
        proof {
            assert(string_views(names@) =~= lang_names(self.lang@));
        }
        names
    }

    /// The position of the profile with the name `lang`, if the document
    /// has one.
    pub fn find_lang(&self, lang: &str) -> (found: Option<usize>)
        ensures
            match found {
                Some(index) => index < self.langs().len() && position_of_lang(
                    self.langs(),
                    lang@,
                    0,
                ) == Some(index as int),
                None => position_of_lang(self.langs(), lang@, 0) is None,
            },
    {
        let wanted = lang.to_owned();
        let mut found: Option<usize> = None;
        let mut i: usize = self.lang.len();
        while i > 0
            invariant
                i <= self.lang@.len(),
                wanted@ == lang@,
                match found {
                    Some(index) => i <= index < self.lang@.len() && position_of_lang(
                        self.lang@,
                        lang@,
                        i as int,
                    ) == Some(index as int),
                    None => position_of_lang(self.lang@, lang@, i as int) is None,
                },
            decreases i,
        {
            i -= 1;
            if self.lang[i].name == wanted {
                found = Some(i);
            }
        }
        found
    }

    /// The configuration for the language `lang`.
    ///
    /// Where the document has a profile of that name, its settings are
    /// merged into the empty configuration, over the settings for all
    /// languages. Where it has none and the language is the built-in
    /// `generic`, the settings for all languages are merged into the
    /// general-purpose configuration. Any other language is not recognized:
    /// the error lists the languages of the document and the built-in one,
    /// in the order of their names, each once.
    pub fn into_decondenser(self, lang: &str) -> (result: Result<Decondenser, ConfigError>)
        ensures
            match position_of_lang(self.langs(), lang@, 0) {
                Some(index) => result matches Ok(decondenser) && {
                    let profile = self.langs()[index].lang;
                    &&& Layout::of(decondenser) == profile.fmt.merged(
                        self.settings().merged(Layout::initial()),
                    )
                    &&& exists|empty: Decondenser| #[trigger]
                        has_empty_syntax(empty) && profile.replaces_syntax(empty, decondenser)
                },
                None => if lang@ == Config::builtin() {
                    result matches Ok(decondenser) && Layout::of(decondenser)
                        == self.settings().merged(Layout::initial()) && has_generic_syntax(
                        decondenser,
                    )
                } else {
                    result matches Err(ConfigError::UnrecognizedLanguage { name, available })
                        && name@ == lang@ && lists_languages(
                        lang_names(self.langs()),
                        string_views(available@),
                    )
                },
            },
    {
        let found = self.find_lang(lang);
        let names = self.names();
        let Config { lang: langs, fmt } = self;
        match found {
            Some(index) => {
                let mut langs = langs;
                let named = langs.remove(index);
                let decondenser = Decondenser::empty();
                let ghost empty = decondenser;
                let decondenser = fmt.merge_into(decondenser);
                let decondenser = named.lang.merge_into(decondenser);
                proof {
                    assert(has_empty_syntax(empty) && named.lang.replaces_syntax(
                        empty,
                        decondenser,
                    ));
                }
                Ok(decondenser)
            },
            None => Config::fallback_to_builtin_lang(fmt, names, lang.to_owned()),
        }
    }

    /// The configuration of the built-in language `lang` with the settings
    /// for all languages merged into it, if there is such a language.
    /// `names` are the names of the languages of the document, in any
    /// order: the error lists them and the built-in one in the order of
    /// their names, each once.
    pub fn fallback_to_builtin_lang(fmt: Fmt, names: Vec<String>, lang: String) -> (result: Result<
        Decondenser,
        ConfigError,
    >)
        ensures
            if lang@ == Config::builtin() {
                result matches Ok(decondenser) && Layout::of(decondenser) == fmt.merged(
                    Layout::initial(),
                ) && has_generic_syntax(decondenser)
            } else {
                result matches Err(ConfigError::UnrecognizedLanguage { name, available })
                    && name@ == lang@ && lists_languages(
                    string_views(names@),
                    string_views(available@),
                )
            },
    {
        let builtin = "generic".to_owned();
        if lang == builtin {
            Ok(fmt.merge_into(Decondenser::generic()))
        } else {
            let available = Config::available_languages(names);
            Err(ConfigError::UnrecognizedLanguage { name: lang, available })
        }
    }

    /// The given names and the name of the built-in language, in the order
    /// of texts, each once.
    pub fn available_languages(names: Vec<String>) -> (available: Vec<String>)
        ensures
            lists_languages(string_views(names@), string_views(available@)),
    {
        let ghost given = string_views(names@);
        let mut available: Vec<String> = Vec::new();
        available.push("generic".to_owned());
        proof {
            assert(string_views(available@)[0] == Config::builtin());
        }
        let mut i: usize = 0;
        proof {
            assert(string_views(available@).contains(Config::builtin()));
        }
        while i < names.len()
            invariant
                i <= names@.len(),
                given == string_views(names@),
                increasing(string_views(available@)),
                holds_also(given.take(i as int), Config::builtin(), string_views(available@)),
            decreases names@.len() - i,
        {
            let ghost before = string_views(available@);
            let ghost count = i as int;
            let name = names[i].clone();
            let ghost text = name@;
            insert_name(&mut available, name);
            proof {
                let after = string_views(available@);
                let fewer = given.take(count);
                let more = given.take(count + 1);
                assert(text == given[count]);
                assert(more =~= fewer.push(text));
                assert forall|other: Seq<char>| #[trigger]
                    after.contains(other) <==> more.contains(other) || other
                        == Config::builtin() by {
                    assert(after.contains(other) <==> before.contains(other) || other == text);
                    assert(before.contains(other) <==> fewer.contains(other) || other
                        == Config::builtin());
                    if fewer.contains(other) {
                        let k = choose|k: int| 0 <= k < fewer.len() && fewer[k] == other;
                        assert(more[k] == other);
                    }
                    if other == text {
                        assert(more[count] == other);
                    }
                    if more.contains(other) {
                        let k = choose|k: int| 0 <= k < more.len() && more[k] == other;
                        if k < count {
                            assert(fewer[k] == other);
                        }
                    }
                }
            }
            i += 1;
        }
        proof {
            assert(given.take(names@.len() as int) =~= given);
        }
        available
    }
}

} // verus!
