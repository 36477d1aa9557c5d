use card_ratings::collections::Collection;
use card_ratings::init_db::{card_values_query, CardDetail};
use card_ratings::sqltext::{decimal_string, escape_quotes};

#[test]
fn escape_doubles_single_quotes() {
    assert_eq!(escape_quotes("o'neill"), "o''neill");
    assert_eq!(escape_quotes("''"), "''''");
    assert_eq!(escape_quotes("plain"), "plain");
    assert_eq!(escape_quotes(""), "");
}

#[test]
fn decimal_renders_positions() {
    assert_eq!(decimal_string(0), "0");
    assert_eq!(decimal_string(7), "7");
    assert_eq!(decimal_string(10), "10");
    assert_eq!(decimal_string(907), "907");
}

#[test]
fn legacy_card_values() {
    let cards = vec![
        CardDetail {
            set: "MH2".to_string(),
            name: "X".to_string(),
            collector_number: "1".to_string(),
        },
        CardDetail {
            set: "MH2".to_string(),
            name: "Y'z".to_string(),
            collector_number: "2'a".to_string(),
        },
    ];
    assert_eq!(
        card_values_query("draft_otj", &cards),
        "('draft_otj', 'MH2', '1'),('draft_otj', 'MH2', '2''a')"
    );
}

#[test]
fn collection_key_names_either_kind() {
    let set = Collection::SetCode("MH2".to_string());
    let draft = Collection::Draft("draft_otj".to_string(), "set%3Aotp".to_string());
    assert_eq!(set.key(), "MH2");
    assert_eq!(draft.key(), "draft_otj");
}
