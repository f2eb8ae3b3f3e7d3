use peekaboo::caesar::{
    run_caesar_decryption, run_caesar_identification, CaesarDecoder, CaesarIdentifier,
};
use peekaboo::cipher_utils::{shift_char, shift_char_string};
use peekaboo::config::Config;
use peekaboo::decoder::Decoder;
use peekaboo::identifier::Identifier;

#[test]
fn test_run_caesar_decryption_logic() {
    let plaintext = "The quick brown fox jumps over the lazy dog.";
    let shift = 10;
    let ciphertext: String = plaintext.chars().map(|c| shift_char(c, shift)).collect();

    let results = run_caesar_decryption(&ciphertext);
    assert!(!results.is_empty());
    let best_result = &results[0];
    assert_eq!(best_result.cipher_name, "Caesar");
    assert_eq!(best_result.key, shift.to_string());
    assert_eq!(best_result.plaintext, plaintext);
    if results.len() > 1 {
        assert!(best_result.score <= results[1].score);
    }
}

#[test]
fn test_run_caesar_dec_no_alpha() {
    let ciphertext = "123 !@#";
    let results = run_caesar_decryption(ciphertext);
    assert_eq!(results.len(), 1);
    assert_eq!(results[0].plaintext, ciphertext);
    assert_eq!(results[0].key, "0");
}

#[test]
fn test_caesar_typical_text() {
    let plaintext = "This is a fairly standard sentence for testing purposes";
    let shift = 8;
    let ciphertext = shift_char_string(plaintext, shift);
    let results = run_caesar_decryption(&ciphertext);
    assert!(!results.is_empty());
    let best_result = &results[0];
    assert_eq!(best_result.cipher_name, "Caesar");
    assert_eq!(best_result.key, shift.to_string());
    assert_eq!(best_result.plaintext, plaintext);
    println!("Caesar typical text score: {}", best_result.score);
    assert!(best_result.score < 500_000);
}

#[test]
fn test_caesar_short_text() {
    let plaintext = "Short";
    let shift = 15;
    let ciphertext = shift_char_string(plaintext, shift);
    let results = run_caesar_decryption(&ciphertext);
    assert!(!results.is_empty());
    let best_result = &results[0];
    assert_eq!(best_result.cipher_name, "Caesar");
    assert_eq!(best_result.key, shift.to_string());
    assert_eq!(best_result.plaintext, plaintext);
    println!("Caesar short text score: {}", best_result.score);
}

#[test]
fn test_run_caesar_identification_logic() {
    let plaintext = "This is a secret message.";
    let shift = 3;
    let ciphertext: String = plaintext.chars().map(|c| shift_char(c, shift)).collect();

    let result = run_caesar_identification(&ciphertext).unwrap();

    assert_eq!(result.cipher_name, "Caesar");
    assert_eq!(result.parameters, Some("Potential Shift: 3".to_string()));
}

#[test]
fn test_run_caesar_id_no_alpha() {
    let ciphertext = "123 !@#";
    assert!(run_caesar_identification(ciphertext).is_none());
}

#[test]
fn test_caesar_identify_typical_text() {
    let plaintext = "This is a fairly standard sentence for testing purposes";
    let shift = 8;
    let ciphertext = shift_char_string(plaintext, shift);
    let result = run_caesar_identification(&ciphertext).unwrap();
    assert_eq!(result.cipher_name, "Caesar");
    assert_eq!(result.parameters, Some(format!("Potential Shift: {}", shift)));
    println!("Caesar typical text ID score: {}", result.confidence_score);
    assert!(result.confidence_score < 500_000);
}

#[test]
fn test_caesar_identify_short_text() {
    let plaintext = "Short";
    let shift = 15;
    let ciphertext = shift_char_string(plaintext, shift);
    if let Some(result) = run_caesar_identification(&ciphertext) {
        println!("Caesar short text ID result: {:?}", result);
        assert_eq!(result.cipher_name, "Caesar");
        assert_eq!(result.parameters, Some(format!("Potential Shift: {}", shift)));
    } else {
        println!("Caesar short text identification returned None (as expected for very short).");
    }
}

#[test]
fn test_caesar_module_structs() {
    let config = Config::default();
    let identifier = CaesarIdentifier::new(&config);
    let decoder = CaesarDecoder::new(&config);
    let plaintext = "Test message for module structure.";
    let shift = 5;
    let ciphertext: String = plaintext.chars().map(|c| shift_char(c, shift)).collect();

    let id_result = identifier.identify(&ciphertext).expect("Identification failed");
    assert_eq!(id_result.cipher_name, "Caesar");

    let dec_results = decoder.decrypt(&ciphertext);
    assert!(!dec_results.is_empty(), "Decryption produced no results");
    assert_eq!(dec_results[0].plaintext, plaintext);

    assert_eq!(decoder.name(), "Caesar");
}

#[test]
fn test_caesar_full_cycle() {
    let config = Config::default();
    let identifier = CaesarIdentifier::new(&config);
    let decoder = CaesarDecoder::new(&config);
    let plaintext = "This is a secret message.";
    let shift = 3i8;
    let ciphertext: String = shift_char_string(plaintext, shift);

    let id_result_opt = identifier.identify(&ciphertext);
    assert!(id_result_opt.is_some());
    let id_result = id_result_opt.unwrap();
    assert_eq!(id_result.cipher_name, "Caesar");

    assert!(id_result.parameters.unwrap_or_default().contains(&shift.to_string()));

    let dec_results = decoder.decrypt(&ciphertext);
    assert!(!dec_results.is_empty());
    let best_result = &dec_results[0];
    assert_eq!(best_result.cipher_name, "Caesar");
    assert_eq!(best_result.key, shift.to_string());
    assert_eq!(best_result.plaintext, plaintext);
}

#[test]
fn test_caesar_no_alpha() {
    let config = Config::default();
    let identifier = CaesarIdentifier::new(&config);
    let decoder = CaesarDecoder::new(&config);
    let ciphertext = "123 !@#";

    assert!(identifier.identify(ciphertext).is_none());

    let results = decoder.decrypt(ciphertext);
    assert_eq!(results.len(), 1);
    assert_eq!(results[0].plaintext, ciphertext);
    assert_eq!(results[0].key, "0");
}

#[test]
fn test_caesar_short_text_integration() {
    let config = Config::default();
    let identifier = CaesarIdentifier::new(&config);
    let decoder = CaesarDecoder::new(&config);
    let plaintext = "Short";
    let shift = 15i8;
    let ciphertext = shift_char_string(plaintext, shift);

    if let Some(id_result) = identifier.identify(&ciphertext) {
        assert_eq!(id_result.cipher_name, "Caesar");
        assert!(id_result.parameters.unwrap_or_default().contains(&shift.to_string()));
    }

    let dec_results = decoder.decrypt(&ciphertext);
    assert!(!dec_results.is_empty());
    let best_result = &dec_results[0];
    assert_eq!(best_result.cipher_name, "Caesar");
    assert_eq!(best_result.key, shift.to_string());
    assert_eq!(best_result.plaintext, plaintext);
}

#[test]
fn test_caesar_typical_text_integration() {
    let config = Config::default();
    let identifier = CaesarIdentifier::new(&config);
    let decoder = CaesarDecoder::new(&config);
    let plaintext = "This is a fairly standard sentence for testing purposes";
    let shift = 8i8;
    let ciphertext = shift_char_string(plaintext, shift);

    let id_result = identifier.identify(&ciphertext).unwrap();
    assert_eq!(id_result.cipher_name, "Caesar");
    assert_eq!(id_result.parameters, Some(format!("Potential Shift: {}", shift)));
    assert!(id_result.confidence_score < 500_000);

    let results = decoder.decrypt(&ciphertext);
    assert!(!results.is_empty());
    let best_result = &results[0];
    assert_eq!(best_result.cipher_name, "Caesar");
    assert_eq!(best_result.key, shift.to_string());
    assert_eq!(best_result.plaintext, plaintext);
    assert!(best_result.score < 500_000);
}

#[test]
fn test_caesar_hardcoded() {
    let config = Config::default();
    let decoder = CaesarDecoder::new(&config);
    let plaintext = "The quick brown dog jumps over the lazy fox";

    let ciphertext1 = "Wkh txlfn eurzq grj mxpsv ryhu wkh odcb ira";
    let shift1 = 3;
    let results1 = decoder.decrypt(ciphertext1);
    assert!(!results1.is_empty());
    assert_eq!(results1[0].key, shift1.to_string());
    assert_eq!(results1[0].plaintext, plaintext, "Shift 3 failed");

    let ciphertext2 = "Dro aesmu lbygx nyq tewzc yfob dro vkji pyh";
    let shift2 = 10;
    let results2 = decoder.decrypt(ciphertext2);
    assert!(!results2.is_empty());
    assert_eq!(results2[0].key, shift2.to_string());
    assert_eq!(results2[0].plaintext, plaintext, "Shift 10 failed");

    let ciphertext3 = "Ocz lpdxf wmjri yjb ephkn jqzm ocz gvut ajs";
    let shift3_pos = 21;
    let results3 = decoder.decrypt(ciphertext3);
    assert!(!results3.is_empty());
    assert_eq!(results3[0].key, shift3_pos.to_string());
    assert_eq!(results3[0].plaintext, plaintext, "Shift -5 failed");
}

#[test]
fn test_caesar_results_cover_all_shifts() {
    let results = run_caesar_decryption("Some ordinary sentence to analyse.");
    assert_eq!(results.len(), 26);
    let mut keys: Vec<String> = results.iter().map(|a| a.key.clone()).collect();
    keys.sort();
    keys.dedup();
    assert_eq!(keys.len(), 26);
    for w in results.windows(2) {
        assert!(w[0].score <= w[1].score);
    }
}

#[test]
fn test_caesar_empty_input_sentinel() {
    // A fully non-alphabetic text, the empty one included, still
    // yields the single zero-shift sentinel row.
    let results = run_caesar_decryption("");
    assert_eq!(results.len(), 1);
    assert_eq!(results[0].key, "0");
    assert_eq!(results[0].plaintext, "");
    assert_eq!(results[0].score, i64::MAX);
}
