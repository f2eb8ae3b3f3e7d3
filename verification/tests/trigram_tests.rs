use peekaboo::trigrams::{build_english_trigram_table, score_trigram_log_prob};

#[test]
fn test_trigram_table_builds() {
    let table = build_english_trigram_table().expect("embedded corpus must load");
    assert_eq!(table.entries.len(), 17576);
    for &e in table.entries.iter() {
        assert!(-200_000 <= e && e <= 0);
    }
    // THE is the most common English trigram: its entry must beat the
    // floor by a wide margin.
    let the = table.entries[(19 * 676 + 7 * 26 + 4) as usize];
    let floor = table.entries[(16 * 676 + 25 * 26 + 16) as usize]; // QZQ, surely unseen
    assert!(the > floor + 10_000);
}

#[test]
fn test_trigram_scoring_is_case_insensitive() {
    assert_eq!(score_trigram_log_prob("the and for"), score_trigram_log_prob("THE AND FOR"));
}

#[test]
fn test_trigram_scoring_ignores_non_letters() {
    assert_eq!(score_trigram_log_prob("T-H-E"), score_trigram_log_prob("THE"));
}

#[test]
fn test_trigram_short_inputs_are_sentinel() {
    assert_eq!(score_trigram_log_prob(""), i64::MIN);
    assert_eq!(score_trigram_log_prob("AB"), i64::MIN);
    assert!(score_trigram_log_prob("ABC") > i64::MIN);
}

#[test]
fn test_trigram_prefers_english() {
    let english = "THE QUICK BROWN FOX JUMPS OVER THE LAZY DOG AND THEN RESTS";
    let garbled = "QQJ XKW ZPVQX QXJ ZGWQP JXKQ QQJ WZXQ QJX ZQW QQJX KWQZP";
    assert!(score_trigram_log_prob(english) > score_trigram_log_prob(garbled));
}
