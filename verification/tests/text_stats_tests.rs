use peekaboo::text_stats::calculate_basic_stats;

#[test]
fn test_stats_calculation() {
    let text = "Four score and seven years ago our fathers brought forth on this continent, a new nation.";
    let stats = calculate_basic_stats(text).unwrap();

    assert_eq!(stats.char_count_alpha, 72);
    assert_eq!(stats.char_count_upper, 1);
    assert_eq!(stats.char_count_lower, 71);
    assert_eq!(stats.word_count, 16);
    assert_eq!(stats.min_word_length, 1);
    assert_eq!(stats.max_word_length, 10);
    // The average word length is 74 / 16.
    assert_eq!(stats.word_length_sum, 74);
    assert_eq!(stats.char_count_punctuation, 2);
    assert_eq!(stats.char_count_whitespace, 15);
    assert_eq!(stats.char_count_numeric, 0);
    assert_eq!(stats.char_count_other, 0);
    assert_eq!(stats.char_count_total, 89);
}

#[test]
fn test_stats_empty() {
    assert!(calculate_basic_stats("").is_none());
}

#[test]
fn test_stats_no_words() {
    let text = " \t \n ";
    let stats = calculate_basic_stats(text).unwrap();
    assert_eq!(stats.word_count, 0);
    assert_eq!(stats.min_word_length, 0);
    assert_eq!(stats.max_word_length, 0);
    assert_eq!(stats.word_length_sum, 0);
    assert_eq!(stats.char_count_alpha, 0);
}

#[test]
fn test_stats_no_alpha() {
    let text = "123 456 !@.";
    let stats = calculate_basic_stats(text).unwrap();
    assert_eq!(stats.word_count, 3);
    assert_eq!(stats.min_word_length, 3);
    assert_eq!(stats.max_word_length, 3);
    assert_eq!(stats.word_length_sum, 9);
    assert_eq!(stats.char_count_alpha, 0);
    assert_eq!(stats.char_count_upper, 0);
    assert_eq!(stats.char_count_lower, 0);
    assert_eq!(stats.char_count_numeric, 6);
    assert_eq!(stats.char_count_punctuation, 3);
}

#[test]
fn test_stats_from_user_example() {
    let text = "Four score and seven years ago our fathers brought forth on this continent a new nation conceived in liberty and dedicated to the proposition that all men are created equal Now we are engaged in a great civil war testing whether that nation or any nation so conceived and so dedicated can long endure We are met on a great battlefield of that war We have come to dedicate a portion of that field as a final resting place for those who here gave their lives that that nation might live It is altogether fitting and proper that we should do this But in a larger sense we cannot dedicate we cannot consecrate we cannot hallow this ground The brave men living and dead who struggled here have consecrated it far above our poor power to add or detract The world will little note nor long remember what we say here but it can never forget what they did here It is for us the living rather to be dedicated here to the unfinished work which they who fought here have thus far so nobly advanced It is rather for us to be here dedicated to the great task remaining before us that from these honored dead we take increased devotion to that cause for which they gave the last full measure of devotion that we here highly resolve that these dead shall not have died in vain that this nation under God shall have a new birth of freedom and that government of the people by the people for the people shall not perish from the earth";
    let stats = calculate_basic_stats(text).unwrap();

    let expected_alpha_len = 1149;
    let expected_word_count = 268;
    let expected_min_word_len = 1;

    assert_eq!(stats.char_count_alpha, expected_alpha_len);
    assert_eq!(stats.word_count, expected_word_count);
    assert_eq!(stats.min_word_length, expected_min_word_len);
    assert_eq!(stats.max_word_length, 11);

    // The average word length is word_length_sum / word_count = 1149 / 268.
    assert_eq!(stats.word_length_sum, 1149, "Average word length mismatch");

    assert_eq!(stats.char_count_upper, 11);
    assert_eq!(stats.char_count_lower, 1149 - 11);
}
