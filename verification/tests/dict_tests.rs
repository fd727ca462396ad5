use ace::deinflect::{Deinflector, ReasonInfo};
use ace::dict::{
    lookup, DictDb, DictError, YomichanEntryV1, YomichanFrequencyEntry,
};

fn record(expression: &str, reading: &str, meanings: &[&str]) -> YomichanEntryV1 {
    YomichanEntryV1 {
        expression: expression.to_string(),
        reading: reading.to_string(),
        definition_tags: String::new(),
        rule_identifiers: String::new(),
        popularity: 0,
        meanings: meanings.iter().map(|s| s.to_string()).collect(),
        sequence: 0,
        term_tags: String::new(),
    }
}

fn freq(word: &str, value: i64) -> YomichanFrequencyEntry {
    YomichanFrequencyEntry {
        expression: word.to_string(),
        tag: "freq".to_string(),
        frequency: value,
    }
}

#[test]
fn import_is_idempotent() {
    let mut db = DictDb::new();
    let banks = vec![Some(vec![record("食べる", "たべる", &["to eat", "to live on"])])];
    db.load_yomichan_dict(&banks, "JMdict").unwrap();
    db.update_dict("JMdict", 0, false, true).unwrap();
    let before = db.lookup_word("食べる", false, false).len();
    assert_eq!(before, 2);
    // importing the same title again writes nothing
    db.load_yomichan_dict(&banks, "JMdict").unwrap();
    let after = db.lookup_word("食べる", false, false).len();
    assert_eq!(after, before);
    assert_eq!(db.get_all_dicts().len(), 1);
}

#[test]
fn failed_import_leaves_no_rows() {
    let mut db = DictDb::new();
    let banks = vec![
        Some(vec![record("食べる", "たべる", &["to eat"])]),
        None, // a term bank that failed to parse
    ];
    let res = db.load_yomichan_dict(&banks, "JMdict");
    assert_eq!(res, Err(DictError::DataFormat));
    assert!(db.get_all_dicts().is_empty());
    assert!(db.lookup_word("食べる", false, false).is_empty());
}

#[test]
fn update_dict_unknown_title_is_not_found() {
    let mut db = DictDb::new();
    assert_eq!(db.update_dict("missing", 1, false, true), Err(DictError::NotFound));
}

#[test]
fn rename_dict_moves_title() {
    let mut db = DictDb::new();
    db.load_yomichan_dict(&vec![], "old name").unwrap();
    db.rename_dict("old name", "new name").unwrap();
    let dicts = db.get_all_dicts();
    assert_eq!(dicts.len(), 1);
    assert_eq!(dicts[0].title, "new name");
    assert_eq!(db.rename_dict("old name", "other"), Err(DictError::NotFound));
}

#[test]
fn rename_dict_to_existing_title_is_storage_error() {
    let mut db = DictDb::new();
    db.load_yomichan_dict(&vec![], "first").unwrap();
    db.load_yomichan_dict(&vec![], "second").unwrap();
    assert_eq!(db.rename_dict("second", "first"), Err(DictError::Storage));
}

#[test]
fn imported_dictionaries_start_disabled() {
    let mut db = DictDb::new();
    let banks = vec![Some(vec![record("語", "ご", &["word"])])];
    db.load_yomichan_dict(&banks, "JMdict").unwrap();
    let dicts = db.get_all_dicts();
    assert_eq!(dicts.len(), 1);
    assert_eq!(dicts[0].priority, 0);
    assert!(!dicts[0].fallback);
    assert!(!dicts[0].enabled);
    // entries of a disabled dictionary are invisible to lookup
    assert!(db.lookup_word("語", false, false).is_empty());
}

#[test]
fn running_average_merge_halves_sum() {
    let mut db = DictDb::new();
    db.update_frequency(&vec![Some(vec![freq("test", 100)])], true, false).unwrap();
    assert_eq!(db.get_frequency("test"), Some(100));
    db.update_frequency(&vec![Some(vec![freq("test", 50)])], true, false).unwrap();
    assert_eq!(db.get_frequency("test"), Some(75));
}

#[test]
fn replace_merge_overwrites() {
    let mut db = DictDb::new();
    db.update_frequency(&vec![Some(vec![freq("test", 100)])], false, false).unwrap();
    db.update_frequency(&vec![Some(vec![freq("test", 50)])], false, false).unwrap();
    assert_eq!(db.get_frequency("test"), Some(50));
}

#[test]
fn corpus_mode_ranks_by_position() {
    let mut db = DictDb::new();
    let banks = vec![
        Some(vec![freq("first", 9999), freq("second", 9999)]),
        Some(vec![freq("third", 9999)]),
    ];
    db.update_frequency(&banks, false, true).unwrap();
    assert_eq!(db.get_frequency("first"), Some(1));
    assert_eq!(db.get_frequency("second"), Some(2));
    assert_eq!(db.get_frequency("third"), Some(3));
}

#[test]
fn failed_frequency_import_writes_nothing() {
    let mut db = DictDb::new();
    let banks = vec![Some(vec![freq("test", 100)]), None];
    assert_eq!(db.update_frequency(&banks, false, false), Err(DictError::DataFormat));
    assert_eq!(db.get_frequency("test"), None);
}

#[test]
fn fallback_tier_only_when_primary_empty() {
    let mut db = DictDb::new();
    db.load_yomichan_dict(
        &vec![Some(vec![record("both", "both", &["primary meaning"])])],
        "primary dict",
    )
    .unwrap();
    db.load_yomichan_dict(
        &vec![Some(vec![
            record("both", "both", &["fallback meaning"]),
            record("only fallback", "only fallback", &["reserve meaning"]),
        ])],
        "fallback dict",
    )
    .unwrap();
    db.update_dict("primary dict", 0, false, true).unwrap();
    db.update_dict("fallback dict", 0, true, true).unwrap();

    // a word present in the primary tier never shows fallback entries
    let hits = db.lookup_word("both", false, false);
    assert_eq!(hits.len(), 1);
    assert_eq!(hits[0].meaning, "primary meaning");

    // a word with only a fallback match returns exactly the fallback rows
    let hits = db.lookup_word("only fallback", false, false);
    assert_eq!(hits.len(), 1);
    assert_eq!(hits[0].meaning, "reserve meaning");
}

#[test]
fn lookup_orders_by_priority_then_frequency_nulls_last() {
    let mut db = DictDb::new();
    db.load_yomichan_dict(
        &vec![Some(vec![record("語", "ご", &["low priority"])])],
        "low",
    )
    .unwrap();
    db.load_yomichan_dict(
        &vec![Some(vec![
            record("頻出", "ひんしゅつ", &["frequent"]),
            record("希", "まれ", &["rare"]),
            record("未知", "みち", &["unranked"]),
            record("語", "ご", &["high priority"]),
        ])],
        "high",
    )
    .unwrap();
    db.update_dict("low", 1, false, true).unwrap();
    db.update_dict("high", 5, false, true).unwrap();
    db.update_frequency(
        &vec![Some(vec![freq("頻出", 10), freq("希", 500), freq("語", 1)])],
        false,
        false,
    )
    .unwrap();

    // higher dictionary priority wins
    let hits = db.lookup_word("語", true, false);
    assert_eq!(hits.len(), 2);
    assert_eq!(hits[0].meaning, "high priority");
    assert_eq!(hits[1].meaning, "low priority");

    // within a priority, known frequencies ascend and unknown come last;
    // the reading column is used for an all-kana word in Japanese
    let mut db2 = DictDb::new();
    db2.load_yomichan_dict(
        &vec![Some(vec![
            record("希語", "おなじ", &["rare"]),
            record("頻語", "おなじ", &["frequent"]),
            record("無語", "おなじ", &["unranked"]),
        ])],
        "readings",
    )
    .unwrap();
    db2.update_dict("readings", 0, false, true).unwrap();
    db2.update_frequency(
        &vec![Some(vec![freq("希語", 500), freq("頻語", 10)])],
        false,
        false,
    )
    .unwrap();
    let hits = db2.lookup_word("おなじ", true, true);
    assert_eq!(hits.len(), 3);
    assert_eq!(hits[0].meaning, "frequent");
    assert_eq!(hits[1].meaning, "rare");
    assert_eq!(hits[2].meaning, "unranked");
}

#[test]
fn lookup_word_resolves_inflected_form_through_deinflection() {
    let mut db = DictDb::new();
    db.load_yomichan_dict(
        &vec![Some(vec![record("食べる", "たべる", &["to eat"])])],
        "JMdict",
    )
    .unwrap();
    db.update_dict("JMdict", 0, false, true).unwrap();
    let deinflector = Deinflector::new(vec![(
        "negative".to_string(),
        vec![ReasonInfo {
            kana_in: "ない".to_string(),
            kana_out: "る".to_string(),
            rules_in: vec!["v1".to_string()],
            rules_out: vec!["v1".to_string()],
        }],
    )]);
    let hits = lookup(&db, &deinflector, "食べない".to_string(), true, false);
    assert!(hits.iter().any(|e| e.expression == "食べる" && e.meaning == "to eat"));
}

#[test]
fn non_inflecting_lookup_uses_raw_word() {
    let mut db = DictDb::new();
    db.load_yomichan_dict(
        &vec![Some(vec![record("俄罗斯", "éluósi", &["Russia"])])],
        "cedict",
    )
    .unwrap();
    db.update_dict("cedict", 0, false, true).unwrap();
    let deinflector = Deinflector::new(vec![]);
    let hits = lookup(&db, &deinflector, "俄罗斯".to_string(), false, false);
    assert_eq!(hits.len(), 1);
    assert_eq!(hits[0].meaning, "Russia");
}
