use ace::dict::{all_kana, DbDictEntry};
use ace::pinyin::{format_pinyin_annotation, format_word_pinyin, tone_numbers};
use ace::text::{join_meanings, parse_words_file, trim_number};

fn entry(meaning: &str) -> DbDictEntry {
    DbDictEntry {
        id: 1,
        expression: "語".to_string(),
        reading: "ご".to_string(),
        meaning: meaning.to_string(),
        dict_id: 1,
    }
}

#[test]
fn all_kana_accepts_pure_kana() {
    assert!(all_kana("たべる"));
    assert!(all_kana("タベル"));
    assert!(all_kana(""));
}

#[test]
fn all_kana_rejects_other_scripts() {
    assert!(!all_kana("食べる"));
    assert!(!all_kana("taberu"));
}

#[test]
fn parse_words_file_splits_words_and_sentences() {
    let parsed = parse_words_file("食べる 昨日りんごを食べた\n走る\n");
    assert_eq!(parsed.len(), 2);
    assert_eq!(parsed[0].0, "食べる");
    assert_eq!(parsed[0].1, "昨日りんごを食べた");
    assert_eq!(parsed[1].0, "走る");
    assert_eq!(parsed[1].1, "");
}

#[test]
fn parse_words_file_handles_crlf_and_no_final_newline() {
    let parsed = parse_words_file("one first sentence\r\ntwo second one");
    assert_eq!(parsed.len(), 2);
    assert_eq!(parsed[0].0, "one");
    assert_eq!(parsed[0].1, "first sentence");
    assert_eq!(parsed[1].0, "two");
    assert_eq!(parsed[1].1, "second one");
}

#[test]
fn parse_words_file_empty_text_has_no_entries() {
    assert!(parse_words_file("").is_empty());
}

#[test]
fn trim_number_drops_leading_item_number() {
    assert_eq!(trim_number("1. 这是例句".to_string()), "这是例句");
    assert_eq!(trim_number("1 这是例句".to_string()), "这是例句");
    assert_eq!(trim_number("一、这是例句".to_string()), "这是例句");
    assert_eq!(trim_number("（一）这是例句".to_string()), "这是例句");
}

#[test]
fn join_meanings_replaces_newlines_and_separates_entries() {
    let defs = vec![entry("first line\nsecond line"), entry("other meaning")];
    assert_eq!(
        join_meanings(&defs),
        "first line<br>second line<br><br>other meaning"
    );
}

#[test]
fn tone_numbers_moves_tones_to_digits() {
    let syllables = vec!["é".to_string(), "luó".to_string(), "si".to_string()];
    assert_eq!(
        tone_numbers(&syllables),
        vec!["e2".to_string(), "luo2".to_string(), "si5".to_string()]
    );
}

#[test]
fn tone_numbers_uses_first_marked_vowel() {
    let syllables = vec!["hǎo".to_string(), "ma".to_string()];
    assert_eq!(
        tone_numbers(&syllables),
        vec!["hao3".to_string(), "ma5".to_string()]
    );
}

#[test]
fn format_word_pinyin_reads_from_pinyin_data() {
    // readings come from the pinyin crate's static data
    assert_eq!(format_word_pinyin("拼音"), "拼音[pin1 yin1]");
}

#[test]
fn format_word_pinyin_appends_neutral_tone_digit() {
    // 吗 carries the neutral tone, written as tone five
    assert_eq!(format_word_pinyin("好吗"), "好吗[hao3 ma5]");
}

#[test]
fn format_pinyin_annotation_joins_ready_syllables() {
    let syllables = vec!["e2".to_string(), "luo2".to_string(), "si5".to_string()];
    assert_eq!(format_pinyin_annotation("俄罗斯", &syllables), "俄罗斯[e2 luo2 si5]");
}

#[test]
fn it_works() {
    // tone-marked pinyin read out of a bracketed definition annotation,
    // converted by the library into tone-number form
    let re = regex::Regex::new(r"\w\s\[(.*)\]").unwrap();
    let caps = re.captures("俄罗斯 [éluósi]").unwrap();
    let annotation = caps.get(0).unwrap().as_str().to_string();
    let syllables: Vec<String> = pinyin_parser::PinyinParser::strict(&annotation)
        .into_iter()
        .collect();
    assert_eq!(
        tone_numbers(&syllables),
        vec!["e2".to_string(), "luo2".to_string(), "si5".to_string()]
    );
}
