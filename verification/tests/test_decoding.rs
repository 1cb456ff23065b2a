use morse::morse::{decode, MorseDecoder, MorseTranslater, SymbolMap};

#[test]
fn test_decode_sos() {
    let translater = MorseTranslater::default();
    let ciphertext = String::from("... --- ...");
    let plaintext = translater.decode(&ciphertext).unwrap();
    assert_eq!(plaintext, "sos")
}

#[test]
fn test_decode_three_words() {
    let translater = MorseTranslater::default();
    let ciphertext = String::from("- . ... - / ... --- -- . / .-- --- .-. -.. ...");
    let plaintext = translater.decode(&ciphertext).unwrap();
    assert_eq!(plaintext, "test some words")
}

#[test]
fn test_decode_empty_gives_empty() {
    let translater = MorseTranslater::default();
    let ciphertext = String::new();
    let plaintext = translater.decode(&ciphertext).unwrap();
    assert!(plaintext.is_empty())
}

#[test]
fn test_decode_invalid_morse_seq_gives_err() {
    let translater = MorseTranslater::default();
    let ciphertext = String::from(".......... ---");
    let res = translater.decode(&ciphertext);
    let error = res.expect_err("expected error");
    assert_eq!(error, "invalid morse sequence [..........] at position (word 1, char 1)")
}

#[test]
fn test_decode_invalid_morse_symbol_gives_err() {
    let translater = MorseTranslater::default();
    let cihpertext = String::from(".a. --- ...");
    let res = translater.decode(&cihpertext);
    let error = res.expect_err("expected error");
    assert_eq!(error, "parsing error: invalid symbol 'a' at position (word 1, char 1)")
}

#[test]
fn test_decoding_test_decode_sos() {
    let map = SymbolMap::default();
    let ciphertext = String::from("... --- ...");
    let plaintext = decode(&ciphertext, &map).unwrap();
    assert_eq!(plaintext, "sos")
}

#[test]
fn test_decoding_test_decode_three_words() {
    let map = SymbolMap::default();
    let ciphertext = String::from("- . ... - / ... --- -- . / .-- --- .-. -.. ...");
    let plaintext = decode(&ciphertext, &map).unwrap();
    assert_eq!(plaintext, "test some words")
}

#[test]
fn test_decoding_test_decode_empty_gives_empty() {
    let map = SymbolMap::default();
    let ciphertext = String::new();
    let plaintext = decode(&ciphertext, &map).unwrap();
    assert!(plaintext.is_empty())
}

#[test]
fn test_decode_whitespace_only_gives_empty() {
    let map = SymbolMap::default();
    assert_eq!(decode("   ", &map).unwrap(), "");
    assert_eq!(decode(" / ", &map).unwrap(), "");
}

#[test]
fn test_decode_tab_separators() {
    let map = SymbolMap::default();
    assert_eq!(decode("...\t---", &map).unwrap(), "so");
    assert_eq!(decode("  ... --- ...  ", &map).unwrap(), "sos");
}

#[test]
fn test_decode_canonical_parenthesis() {
    let map = SymbolMap::default();
    assert_eq!(decode("-.--.-", &map).unwrap(), "(");
}

#[test]
fn test_decode_error_in_second_word() {
    let map = SymbolMap::default();
    let res = decode(".- / .......... .-", &map).unwrap_err();
    assert_eq!(res, "invalid morse sequence [..........] at position (word 2, char 1)");
    let res = decode(".- / .- .x.", &map).unwrap_err();
    assert_eq!(res, "parsing error: invalid symbol 'x' at position (word 2, char 2)");
}

#[test]
fn test_decode_parse_error_wins_over_lookup_error() {
    let map = SymbolMap::default();
    let res = decode(".......... x", &map).unwrap_err();
    assert_eq!(res, "parsing error: invalid symbol 'x' at position (word 1, char 2)");
}

#[test]
fn test_decode_encode_roundtrip() {
    let map = SymbolMap::default();
    let inputs = ["hello world", "sos", "a b c", "73 de n0call"];
    for p in inputs {
        let c = morse::morse::encode(p, &map).unwrap();
        assert_eq!(decode(&c, &map).unwrap(), p);
    }
}

#[test]
fn test_decode_encode_roundtrip_folds_case() {
    let map = SymbolMap::default();
    let c = morse::morse::encode("Hello World", &map).unwrap();
    assert_eq!(decode(&c, &map).unwrap(), "hello world");
}
