use card_ratings::db::init_db::{
    collections_to_register, generate_ratings_query, insert_ratings_sql, misses_format,
    SchemaCards,
};
use card_ratings::db::store::{
    increment_rating_sql, make_set_order_by_expr, set_order_rank, CatalogEntry, RatingStore,
    RatingsValue,
};
use card_ratings::util::{CardDetail, Collection, CollectionsJson, Format};

fn entry(cid: &str, set: &str, card: &str, format: &str) -> CatalogEntry {
    CatalogEntry {
        collection_id: cid.to_string(),
        set_code: set.to_string(),
        card_code: card.to_string(),
        format_id: format.to_string(),
        rated_1: 0,
        rated_2: 0,
        rated_3: 0,
        rated_4: 0,
        rated_5: 0,
    }
}

fn formats(titles: &[&str]) -> Vec<Format> {
    titles.iter().map(|t| Format { title: t.to_string() }).collect()
}

fn cards(list: &[(&str, &str)]) -> Vec<CardDetail> {
    list.iter()
        .map(|(s, n)| CardDetail { set: s.to_string(), collector_number: n.to_string() })
        .collect()
}

#[test]
fn to_sql_column_names_the_five_buckets() {
    assert_eq!(RatingsValue::Rated1.to_sql_column(), "rated_1");
    assert_eq!(RatingsValue::Rated2.to_sql_column(), "rated_2");
    assert_eq!(RatingsValue::Rated3.to_sql_column(), "rated_3");
    assert_eq!(RatingsValue::Rated4.to_sql_column(), "rated_4");
    assert_eq!(RatingsValue::Rated5.to_sql_column(), "rated_5");
}

#[test]
fn increment_hits_exactly_the_matching_row() {
    let mut store = RatingStore {
        rows: vec![
            entry("c", "S", "1", "modern"),
            entry("c", "S", "1", "draft"),
            entry("c", "S", "2", "modern"),
        ],
    };
    let n = store.increment_rating(
        &RatingsValue::Rated2,
        &"c".to_string(),
        &"1".to_string(),
        &"S".to_string(),
        &"draft".to_string(),
    );
    assert_eq!(n, 1);
    assert_eq!(store.rows[1].rated_2, 1);
    assert_eq!(store.rows[0].rated_2, 0);
    assert_eq!(store.rows[2].rated_2, 0);
}

#[test]
fn increment_unknown_tuple_affects_nothing() {
    let mut store = RatingStore { rows: vec![entry("c", "S", "1", "modern")] };
    let n = store.increment_rating(
        &RatingsValue::Rated1,
        &"c".to_string(),
        &"1".to_string(),
        &"S".to_string(),
        &"draft".to_string(),
    );
    assert_eq!(n, 0);
    assert_eq!(store.rows[0].rated_1, 0);
}

#[test]
fn two_increments_with_different_ratings_both_land() {
    let mut store = RatingStore { rows: vec![entry("c", "S", "1", "modern")] };
    let first = store.increment_rating(
        &RatingsValue::Rated1,
        &"c".to_string(),
        &"1".to_string(),
        &"S".to_string(),
        &"modern".to_string(),
    );
    let second = store.increment_rating(
        &RatingsValue::Rated5,
        &"c".to_string(),
        &"1".to_string(),
        &"S".to_string(),
        &"modern".to_string(),
    );
    assert_eq!((first, second), (1, 1));
    assert_eq!(store.rows[0].rated_1, 1);
    assert_eq!(store.rows[0].rated_5, 1);
}

#[test]
fn insert_is_idempotent() {
    let mut store = RatingStore::new();
    let fs = formats(&["modern", "draft"]);
    let cs = cards(&[("NEO", "77")]);
    store.insert_catalog_entries(&"neo".to_string(), &fs, &cs);
    assert_eq!(store.rows.len(), 2);
    store.insert_catalog_entries(&"neo".to_string(), &fs, &cs);
    assert_eq!(store.rows.len(), 2);
}

#[test]
fn insert_keeps_existing_counters() {
    let mut store = RatingStore { rows: vec![entry("neo", "NEO", "77", "modern")] };
    store.rows[0].rated_3 = 9;
    let fs = formats(&["modern", "draft"]);
    let cs = cards(&[("NEO", "77")]);
    store.insert_catalog_entries(&"neo".to_string(), &fs, &cs);
    assert_eq!(store.rows.len(), 2);
    assert_eq!(store.rows[0].rated_3, 9);
    assert_eq!(store.rows[1].rated_3, 0);
}

#[test]
fn set_order_rank_positions_and_fallback() {
    let order = vec!["NEO".to_string(), "SNC".to_string()];
    assert_eq!(set_order_rank(&order, &"NEO".to_string()), 0);
    assert_eq!(set_order_rank(&order, &"SNC".to_string()), 1);
    assert_eq!(set_order_rank(&order, &"BRO".to_string()), 2);
}

#[test]
fn get_ratings_orders_by_set_order() {
    // Rows arrive in no particular order; NEO-tagged rows come first, then
    // SNC, and the unlisted BRO set sorts after both.
    let store = RatingStore {
        rows: vec![
            entry("c", "SNC", "9", "modern"),
            entry("c", "BRO", "3", "modern"),
            entry("c", "NEO", "1", "modern"),
            entry("d", "NEO", "2", "modern"),
        ],
    };
    let order = vec!["NEO".to_string(), "SNC".to_string()];
    let rows = store.get_ratings(&"c".to_string(), &order);
    let sets: Vec<&str> = rows.iter().map(|r| r.set_code.as_str()).collect();
    assert_eq!(sets, vec!["NEO", "SNC", "BRO"]);
    assert_eq!(rows[0].card_code, "1");
}

#[test]
fn get_ratings_filters_other_collections() {
    let store = RatingStore {
        rows: vec![entry("c", "NEO", "1", "modern"), entry("d", "NEO", "2", "modern")],
    };
    let order = vec!["NEO".to_string()];
    let rows = store.get_ratings(&"c".to_string(), &order);
    assert_eq!(rows.len(), 1);
    assert_eq!(rows[0].card_code, "1");
}

#[test]
fn set_order_expr_empty_for_empty_order() {
    assert_eq!(make_set_order_by_expr(&Vec::new()), "");
}

#[test]
fn set_order_expr_lists_positions() {
    let order = vec!["a".to_string(), "b".to_string()];
    assert_eq!(
        make_set_order_by_expr(&order),
        "( case set_code  when 'a' then 0  when 'b' then 1  end),"
    );
}

#[test]
fn set_order_expr_escapes_quotes() {
    let order = vec!["o'n".to_string()];
    assert_eq!(make_set_order_by_expr(&order), "( case set_code  when 'o''n' then 0  end),");
}

#[test]
fn increment_sql_names_the_rating_column() {
    assert_eq!(
        increment_rating_sql(&RatingsValue::Rated4),
        "UPDATE ratings\n    SET rated_4 = rated_4 + 1\n    WHERE collection_id = $2 AND card_code = $3 AND set_code = $4 AND format_id = $5"
    );
}

#[test]
fn ratings_query_spans_formats_and_cards() {
    let fs = formats(&["modern", "draft"]);
    let item = ("neo".to_string(), cards(&[("NEO", "1"), ("NEO", "2")]));
    assert_eq!(
        generate_ratings_query(&fs, &item),
        "('neo', 'NEO', '1', 'modern'),('neo', 'NEO', '2', 'modern'),('neo', 'NEO', '1', 'draft'),('neo', 'NEO', '2', 'draft')"
    );
}

#[test]
fn ratings_query_escapes_quotes() {
    let fs = formats(&["modern"]);
    let item = ("o'n".to_string(), cards(&[("N'E", "1'*")]));
    assert_eq!(generate_ratings_query(&fs, &item), "('o''n', 'N''E', '1''*', 'modern')");
}

#[test]
fn insert_sql_wraps_the_values() {
    let fs = formats(&["modern"]);
    let item = ("neo".to_string(), cards(&[("NEO", "1")]));
    assert_eq!(
        insert_ratings_sql(&fs, &item),
        "INSERT INTO ratings(collection_id, set_code, card_code, format_id)\nVALUES ('neo', 'NEO', '1', 'modern') ON CONFLICT DO NOTHING"
    );
}

fn one_collection(id: &str, excluded: &[&str], releasing: bool) -> (String, Collection) {
    (
        id.to_string(),
        Collection {
            title: id.to_string(),
            scryfall_query: String::new(),
            set_order: vec![],
            excluded_formats: excluded.iter().map(|s| s.to_string()).collect(),
            releasing,
        },
    )
}

#[test]
fn misses_format_spots_the_gap() {
    let fs = formats(&["modern", "draft"]);
    let known = vec![SchemaCards {
        collection_id: "mh2".to_string(),
        format_id: "modern".to_string(),
    }];
    assert!(misses_format(&"mh2".to_string(), &fs, &known));
    let full = vec![
        SchemaCards { collection_id: "mh2".to_string(), format_id: "modern".to_string() },
        SchemaCards { collection_id: "mh2".to_string(), format_id: "draft".to_string() },
    ];
    assert!(!misses_format(&"mh2".to_string(), &fs, &full));
}

#[test]
fn collections_to_register_takes_releasing_and_incomplete() {
    let catalog = CollectionsJson {
        latest: "neo".to_string(),
        formats: formats(&["modern", "draft"]),
        entries: vec![
            one_collection("done", &[], false),
            one_collection("fresh", &[], true),
            one_collection("gappy", &[], false),
            one_collection("narrow", &["draft"], false),
        ],
    };
    let known = vec![
        SchemaCards { collection_id: "done".to_string(), format_id: "modern".to_string() },
        SchemaCards { collection_id: "done".to_string(), format_id: "draft".to_string() },
        SchemaCards { collection_id: "gappy".to_string(), format_id: "modern".to_string() },
        SchemaCards { collection_id: "narrow".to_string(), format_id: "modern".to_string() },
    ];
    let ids = collections_to_register(&catalog, &known);
    // "done" is complete and settled; "fresh" is releasing; "gappy" lacks a
    // format; "narrow" excludes the format it lacks.
    assert_eq!(ids, vec!["fresh".to_string(), "gappy".to_string()]);
}

#[test]
fn interleaved_backfills_share_one_row_set() {
    // Two callers race on the same unknown tuple: both miss, both insert,
    // both retry. One row per format appears and both ratings land.
    let mut store = RatingStore::new();
    let fs = formats(&["modern", "draft"]);
    let cs = cards(&[("NEO", "77")]);
    let cid = "neo".to_string();
    let card = "77".to_string();
    let set = "NEO".to_string();
    let fid = "modern".to_string();

    let miss_a = store.increment_rating(&RatingsValue::Rated2, &cid, &card, &set, &fid);
    let miss_b = store.increment_rating(&RatingsValue::Rated5, &cid, &card, &set, &fid);
    assert_eq!((miss_a, miss_b), (0, 0));

    store.insert_catalog_entries(&cid, &fs, &cs);
    store.insert_catalog_entries(&cid, &fs, &cs);

    let retry_a = store.increment_rating(&RatingsValue::Rated2, &cid, &card, &set, &fid);
    let retry_b = store.increment_rating(&RatingsValue::Rated5, &cid, &card, &set, &fid);
    assert_eq!((retry_a, retry_b), (1, 1));

    assert_eq!(store.rows.len(), 2);
    let row = store
        .rows
        .iter()
        .find(|r| r.format_id == "modern")
        .expect("the tuple's row exists");
    assert_eq!(row.rated_2 + row.rated_5, 2);
    assert_eq!(row.rated_2, 1);
    assert_eq!(row.rated_5, 1);
}
