use card_ratings::db::store::{CatalogEntry, RatingStore, RatingsValue};
use card_ratings::gate::RateLimitGate;
use card_ratings::server::{
    card_code_under_1000ish, fingerprint, parse_rating, parse_schemas, submit_rating,
    RejectReason, SubmitOutcome,
};
use card_ratings::util::{Collection, CollectionsJson, Format};

fn fmt(title: &str) -> Format {
    Format { title: title.to_string() }
}

fn catalog_one(
    id: &str,
    sets: &[&str],
    formats: &[&str],
    excluded: &[&str],
    releasing: bool,
) -> CollectionsJson {
    let collection = Collection {
        title: id.to_string(),
        scryfall_query: String::new(),
        set_order: sets.iter().map(|s| s.to_string()).collect(),
        excluded_formats: excluded.iter().map(|s| s.to_string()).collect(),
        releasing,
    };
    CollectionsJson {
        latest: id.to_string(),
        formats: formats.iter().map(|t| fmt(t)).collect(),
        entries: vec![(id.to_string(), collection)],
    }
}

fn entry(cid: &str, set: &str, card: &str, format: &str) -> CatalogEntry {
    CatalogEntry {
        collection_id: cid.to_string(),
        set_code: set.to_string(),
        card_code: card.to_string(),
        format_id: format.to_string(),
        rated_1: 0,
        rated_2: 0,
        rated_3: 0,
        rated_4: 0,
        rated_5: 0,
    }
}

fn submit(
    gate: &mut RateLimitGate,
    store: &mut RatingStore,
    catalog: &CollectionsJson,
    cid: &str,
    fid: &str,
    set: &str,
    card: &str,
    rating: &str,
) -> SubmitOutcome {
    submit_rating(
        gate,
        store,
        catalog,
        &"203.0.113.7".to_string(),
        &cid.to_string(),
        &fid.to_string(),
        &set.to_string(),
        &card.to_string(),
        &rating.to_string(),
    )
}

#[test]
fn parse_rating_accepts_the_five_levels() {
    assert_eq!(parse_rating(&"1".to_string()).unwrap(), RatingsValue::Rated1);
    assert_eq!(parse_rating(&"2".to_string()).unwrap(), RatingsValue::Rated2);
    assert_eq!(parse_rating(&"3".to_string()).unwrap(), RatingsValue::Rated3);
    assert_eq!(parse_rating(&"4".to_string()).unwrap(), RatingsValue::Rated4);
    assert_eq!(parse_rating(&"5".to_string()).unwrap(), RatingsValue::Rated5);
}

#[test]
fn parse_rating_rejects_everything_else() {
    for bad in ["0", "6", "", "10", "x", "44", " 4"] {
        assert_eq!(parse_rating(&bad.to_string()).unwrap_err(), RejectReason::InvalidRating);
    }
}

#[test]
fn card_code_plausibility() {
    assert!(card_code_under_1000ish("123"));
    assert!(card_code_under_1000ish("999"));
    assert!(card_code_under_1000ish("0"));
    assert!(!card_code_under_1000ish("1000"));
    assert!(!card_code_under_1000ish("99999"));
    assert!(card_code_under_1000ish("A-123"));
    assert!(card_code_under_1000ish("57*"));
    assert!(!card_code_under_1000ish("A-1234"));
    assert!(!card_code_under_1000ish("abc"));
    assert!(!card_code_under_1000ish(""));
}

#[test]
fn fingerprint_concatenates_identity_and_tuple() {
    let fp = fingerprint("1.2.3.4", "mh2", "MH2", "123", "modern");
    assert_eq!(fp, "1.2.3.4mh2MH2123modern");
}

#[test]
fn submit_invalid_rating_rejected_before_any_write() {
    let catalog = catalog_one("mh2", &["MH2"], &["modern"], &[], true);
    let mut gate = RateLimitGate::new(8);
    let mut store = RatingStore::new();
    let out = submit(&mut gate, &mut store, &catalog, "mh2", "modern", "MH2", "123", "9");
    assert_eq!(out, SubmitOutcome::Rejected(RejectReason::InvalidRating));
    assert_eq!(store.rows.len(), 0);
}

#[test]
fn submit_throttled_when_ceiling_reached() {
    // One known format: the ceiling is one admitted attempt per fingerprint.
    let catalog = catalog_one("mh2", &["MH2"], &["modern"], &[], false);
    let mut gate = RateLimitGate::new(8);
    let mut store = RatingStore::new();
    store.rows.push(entry("mh2", "MH2", "123", "modern"));
    let first = submit(&mut gate, &mut store, &catalog, "mh2", "modern", "MH2", "123", "4");
    assert_eq!(first, SubmitOutcome::Accepted);
    let second = submit(&mut gate, &mut store, &catalog, "mh2", "modern", "MH2", "123", "2");
    assert_eq!(second, SubmitOutcome::Rejected(RejectReason::TooManyRequests));
    assert_eq!(store.rows[0].rated_4, 1);
    assert_eq!(store.rows[0].rated_2, 0);
}

#[test]
fn submit_unknown_format_rejected_without_write() {
    let catalog = catalog_one("mh2", &["MH2"], &["modern"], &[], true);
    let mut gate = RateLimitGate::new(8);
    let mut store = RatingStore::new();
    let out = submit(&mut gate, &mut store, &catalog, "mh2", "vintage", "MH2", "123", "4");
    assert_eq!(out, SubmitOutcome::Rejected(RejectReason::UnknownFormat));
    assert_eq!(store.rows.len(), 0);
}

#[test]
fn submit_unknown_collection_rejected() {
    let catalog = catalog_one("mh2", &["MH2"], &["modern"], &[], true);
    let mut gate = RateLimitGate::new(8);
    let mut store = RatingStore::new();
    let out = submit(&mut gate, &mut store, &catalog, "neo", "modern", "MH2", "123", "4");
    assert_eq!(out, SubmitOutcome::Rejected(RejectReason::UnknownCollection));
    assert_eq!(store.rows.len(), 0);
}

#[test]
fn submit_set_outside_collection_rejected() {
    let catalog = catalog_one("mh2", &["MH2"], &["modern"], &[], true);
    let mut gate = RateLimitGate::new(8);
    let mut store = RatingStore::new();
    let out = submit(&mut gate, &mut store, &catalog, "mh2", "modern", "NEO", "123", "4");
    assert_eq!(out, SubmitOutcome::Rejected(RejectReason::SetNotInCollection));
    assert_eq!(store.rows.len(), 0);
}

#[test]
fn submit_implausible_code_is_silent_noop() {
    // A releasing collection, set NEO, card code 99999: reported as
    // success, but no catalog row appears.
    let catalog = catalog_one("neo", &["NEO"], &["modern"], &[], true);
    let mut gate = RateLimitGate::new(8);
    let mut store = RatingStore::new();
    let out = submit(&mut gate, &mut store, &catalog, "neo", "modern", "NEO", "99999", "4");
    assert_eq!(out, SubmitOutcome::Accepted);
    assert_eq!(store.rows.len(), 0);
}

#[test]
fn submit_non_releasing_collection_is_silent_noop() {
    let catalog = catalog_one("mh2", &["MH2"], &["modern"], &[], false);
    let mut gate = RateLimitGate::new(8);
    let mut store = RatingStore::new();
    let out = submit(&mut gate, &mut store, &catalog, "mh2", "modern", "MH2", "123", "4");
    assert_eq!(out, SubmitOutcome::Accepted);
    assert_eq!(store.rows.len(), 0);
}

#[test]
fn submit_backfills_releasing_collection() {
    let catalog = catalog_one("neo", &["NEO"], &["modern", "draft"], &[], true);
    let mut gate = RateLimitGate::new(8);
    let mut store = RatingStore::new();
    let out = submit(&mut gate, &mut store, &catalog, "neo", "modern", "NEO", "77", "5");
    assert_eq!(out, SubmitOutcome::Accepted);
    // One row per non-excluded format, and the submitted rating landed.
    assert_eq!(store.rows.len(), 2);
    assert_eq!(store.rows[0].format_id, "modern");
    assert_eq!(store.rows[0].rated_5, 1);
    assert_eq!(store.rows[1].format_id, "draft");
    assert_eq!(store.rows[1].rated_5, 0);
}

#[test]
fn submit_backfill_skips_excluded_formats() {
    let catalog = catalog_one("neo", &["NEO"], &["modern", "draft"], &["draft"], true);
    let mut gate = RateLimitGate::new(8);
    let mut store = RatingStore::new();
    let out = submit(&mut gate, &mut store, &catalog, "neo", "modern", "NEO", "77", "3");
    assert_eq!(out, SubmitOutcome::Accepted);
    assert_eq!(store.rows.len(), 1);
    assert_eq!(store.rows[0].format_id, "modern");
    assert_eq!(store.rows[0].rated_3, 1);
}

#[test]
fn submit_end_to_end_fresh_known_tuple() {
    // A fresh known tuple is accepted, and the read path then reports it
    // with one four-star rating under its format.
    let catalog = catalog_one("mh2", &["MH2"], &["modern"], &[], false);
    let mut gate = RateLimitGate::new(8);
    let mut store = RatingStore::new();
    store.rows.push(entry("mh2", "MH2", "123", "modern"));
    let out = submit(&mut gate, &mut store, &catalog, "mh2", "modern", "MH2", "123", "4");
    assert_eq!(out, SubmitOutcome::Accepted);
    let set_order = vec!["MH2".to_string()];
    let rows = store.get_ratings(&"mh2".to_string(), &set_order);
    let grouped = parse_schemas(rows);
    let hit = grouped
        .iter()
        .find(|g| g.set_code == "MH2" && g.card_code == "123")
        .expect("the rated card is listed");
    let modern = hit
        .rating_by_format
        .iter()
        .find(|r| r.format_id == "modern")
        .expect("the rated format is listed");
    assert_eq!(modern.rated_4, 1);
    assert_eq!(modern.rated_1 + modern.rated_2 + modern.rated_3 + modern.rated_5, 0);
}

#[test]
fn parse_schemas_groups_adjacent_rows() {
    let rows = vec![
        CatalogEntry {
            rated_1: 7,
            ..entry("c", "MH2", "1", "modern")
        },
        entry("c", "MH2", "1", "draft"),
        entry("c", "MH2", "2", "modern"),
    ];
    let store = RatingStore { rows };
    let listed = store.get_ratings(&"c".to_string(), &vec!["MH2".to_string()]);
    let grouped = parse_schemas(listed);
    assert_eq!(grouped.len(), 2);
    assert_eq!(grouped[0].card_code, "1");
    assert_eq!(grouped[0].rating_by_format.len(), 2);
    assert_eq!(grouped[0].rating_by_format[0].format_id, "modern");
    assert_eq!(grouped[0].rating_by_format[0].rated_1, 7);
    assert_eq!(grouped[1].card_code, "2");
    assert_eq!(grouped[1].rating_by_format.len(), 1);
}
