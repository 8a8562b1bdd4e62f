use localize::build;
use localize::BuildError;
use localize::KeyGroup;
use localize::LocalizationTable;
use localize::TranslationEntry;

fn entry(locale: &str, text: &str) -> TranslationEntry {
    TranslationEntry { locale: String::from(locale), text: String::from(text) }
}

fn group(key: &str, entries: Vec<TranslationEntry>) -> KeyGroup {
    KeyGroup { key: String::from(key), entries }
}

/// The authored input shared by most tests: a fallback group, a greeting in
/// English and Spanish, and an apple in English and French.
fn test_groups() -> Vec<KeyGroup> {
    vec![
        group("_", vec![entry("en", "<Unknown Translation>"), entry("es", "<No Savo>")]),
        group("greeting", vec![entry("en", "Hello"), entry("es", "Hola")]),
        group("apple", vec![entry("en", "Apple"), entry("fr", "Pomme")]),
    ]
}

fn test_table() -> LocalizationTable {
    match build(&test_groups()) {
        Ok(t) => t,
        Err(_) => panic!("the test input has no duplicate locale"),
    }
}

/// Make sure the localized strings returned by the function are correct
#[test]
fn test_table_localize() {
    let table = test_table();
    assert_eq!(table.localize("greeting", "en"), "Hello");
    assert_eq!(table.localize("greeting", "es"), "Hola");
    assert_eq!(table.localize("apple", "en"), "Apple");
    assert_eq!(table.localize("apple", "fr"), "Pomme");
}

/// Make sure the fallback strings returned by the function are correct
#[test]
fn test_table_localize_missing() {
    let table = test_table();
    assert_eq!(table.localize("apple", "es"), "<No Savo>");
    assert_eq!(table.localize("farewell", "en"), "<Unknown Translation>");
}

/// Make sure handles bound once to each locale keep answering for it
#[test]
fn test_const_locale() {
    let table = test_table();
    let en = table.get_locale("en");
    let es = table.get_locale("es");
    let fr = table.get_locale("fr");
    assert_eq!(en.localize("greeting"), "Hello");
    assert_eq!(en.localize("apple"), "Apple");
    assert_eq!(es.localize("greeting"), "Hola");
    assert_eq!(fr.localize("apple"), "Pomme");
}

/// Make sure the `get_locale` function works
#[test]
fn test_get_locale() {
    let table = test_table();
    let en = table.get_locale("en");
    assert_eq!(en.locale(), "en");
    assert_eq!(en.localize("greeting"), "Hello");
    assert_eq!(en.localize("apple"), "Apple");

    let fr = table.get_locale("fr");
    assert_eq!(fr.locale(), "fr");
    assert_eq!(fr.localize("apple"), "Pomme");

    let es = table.get_locale("es");
    assert_eq!(es.locale(), "es");
    assert_eq!(es.localize("greeting"), "Hola");
}

/// A locale repeated within one key's group fails the whole build with
/// `DuplicateLocale`, naming the offending key and locale.
#[test]
fn test_build_duplicate_locale() {
    let groups = vec![
        group("greeting", vec![entry("en", "Hello"), entry("es", "Hola"), entry("en", "Hi")]),
    ];
    match build(&groups) {
        Ok(_) => panic!("a repeated locale must fail the build"),
        Err(BuildError::DuplicateLocale { key, locale }) => {
            assert_eq!(key, "greeting");
            assert_eq!(locale, "en");
        },
    }
}

/// The first repeated locale in authored order is the one reported.
#[test]
fn test_build_duplicate_locale_first_reported() {
    let groups = vec![
        group("a", vec![entry("en", "x"), entry("fr", "y")]),
        group("b", vec![entry("de", "x"), entry("de", "y"), entry("it", "z"), entry("it", "w")]),
        group("c", vec![entry("es", "x"), entry("es", "y")]),
    ];
    match build(&groups) {
        Ok(_) => panic!("a repeated locale must fail the build"),
        Err(BuildError::DuplicateLocale { key, locale }) => {
            assert_eq!(key, "b");
            assert_eq!(locale, "de");
        },
    }
}

/// Building twice from the same authored input yields identical key
/// ordering, locale ordering, and cell contents.
#[test]
fn test_build_idempotent() {
    let t1 = test_table();
    let t2 = test_table();
    assert_eq!(t1.translation_keys, t2.translation_keys);
    assert_eq!(t1.locales, t2.locales);
    assert_eq!(t1.translations, t2.translations);
}

/// Both axes come out lexicographically sorted and duplicate-free.
#[test]
fn test_build_sorted_axes() {
    let table = test_table();
    assert_eq!(table.translation_keys, vec!["_", "apple", "greeting"]);
    assert_eq!(table.locales, vec!["en", "es", "fr"]);
}

/// A cell that neither the explicit nor the fallback input covers holds the
/// sentinel string: a missing translation is a value, not an error.
#[test]
fn test_sentinel_cell() {
    let table = test_table();
    assert_eq!(table.localize("greeting", "fr"), "<NO TRANSLATION>");
    let no_fallback = vec![group("greeting", vec![entry("en", "Hello")])];
    let table = build(&no_fallback).ok().unwrap();
    assert_eq!(table.localize("greeting", "xx"), "Hello");
    assert_eq!(table.translations, vec![vec!["Hello"]]);
}

/// An unknown key or locale does not fail the lookup: it degrades to
/// position 0 of the respective axis.
#[test]
fn test_unknown_degrades_to_first() {
    let table = test_table();
    assert_eq!(table.localize("greeting", "zz"), "Hello");
    assert_eq!(table.localize("nope", "es"), "<No Savo>");
    assert_eq!(table.localize("nope", "zz"), "<Unknown Translation>");
    let zz = table.get_locale("zz");
    assert_eq!(zz.locale(), "en");
    assert_eq!(zz.localize("greeting"), "Hello");
    assert_eq!(zz.localize("nope"), "<Unknown Translation>");
}

/// A later group authored under the same key replaces the earlier one
/// wholesale.
#[test]
fn test_last_group_wins() {
    let groups = vec![
        group("greeting", vec![entry("en", "Hello"), entry("es", "Hola")]),
        group("greeting", vec![entry("en", "Howdy")]),
        group("_", vec![entry("es", "<No Savo>")]),
    ];
    let table = build(&groups).ok().unwrap();
    assert_eq!(table.localize("greeting", "en"), "Howdy");
    assert_eq!(table.localize("greeting", "es"), "<No Savo>");
}

/// Building from empty input yields the empty table.
#[test]
fn test_build_empty() {
    let table = build(&Vec::new()).ok().unwrap();
    assert!(table.translation_keys.is_empty());
    assert!(table.locales.is_empty());
    assert!(table.translations.is_empty());
}

/// The full concrete scenario: explicit hits, a fallback hit, an absent key
/// degrading to the first column, and a locale-bound handle.
#[test]
fn test_scenario() {
    let groups = vec![
        group("_", vec![entry("en", "<Unknown>"), entry("es", "<No Savo>")]),
        group("greeting", vec![entry("en", "Hello"), entry("es", "Hola")]),
        group("apple", vec![entry("en", "Apple"), entry("fr", "Pomme")]),
    ];
    let table = build(&groups).ok().unwrap();
    assert_eq!(table.localize("greeting", "en"), "Hello");
    assert_eq!(table.localize("apple", "es"), "<No Savo>");
    assert_eq!(table.localize("farewell", "en"), "<Unknown>");
    assert_eq!(table.get_locale("fr").localize("apple"), "Pomme");
}
