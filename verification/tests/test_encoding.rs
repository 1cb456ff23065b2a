use morse::morse::{encode, MorseEncoder, MorseTranslater, SymbolMap};

#[test]
fn test_encode_sos() {
    let translater = MorseTranslater::default();
    let plaintext = String::from("sos");
    let ciphertext = translater.encode(&plaintext).unwrap();
    assert_eq!(ciphertext, "... --- ...")
}

#[test]
fn test_encode_three_words() {
    let translater = MorseTranslater::default();
    let plaintext = String::from("test some words");
    let ciphertext = translater.encode(&plaintext).unwrap();
    assert_eq!(ciphertext, "- . ... - / ... --- -- . / .-- --- .-. -.. ...")
}

#[test]
fn test_encode_empty() {
    let translater = MorseTranslater::default();
    let plaintext = String::new();
    let ciphertext = translater.encode(&plaintext).unwrap();
    assert!(ciphertext.is_empty())
}

#[test]
fn test_invalid_char_gives_err() {
    let translater = MorseTranslater::default();
    let plaintext = String::from("test s^mething");
    let res = translater.encode(&plaintext).unwrap_err();
    assert_eq!(res, "invalid character '^' at position (word 2, char 2)")
}

#[test]
fn test_encoding_test_encode_sos() {
    let map = SymbolMap::default();
    let plaintext = String::from("sos");
    let ciphertext = encode(&plaintext, &map).unwrap();
    assert_eq!(ciphertext, "... --- ...")
}

#[test]
fn test_encoding_test_encode_three_words() {
    let map = SymbolMap::default();
    let plaintext = String::from("test some words");
    let ciphertext = encode(&plaintext, &map).unwrap();
    assert_eq!(ciphertext, "- . ... - / ... --- -- . / .-- --- .-. -.. ...")
}

#[test]
fn test_encoding_test_encode_empty() {
    let map = SymbolMap::default();
    let plaintext = String::new();
    let ciphertext = encode(&plaintext, &map).unwrap();
    assert!(ciphertext.is_empty())
}

#[test]
fn test_encoding_test_invalid_char_gives_err() {
    let map = SymbolMap::default();
    let plaintext = String::from("test s^mething");
    let res = encode(&plaintext, &map).unwrap_err();
    assert_eq!(res, "invalid character '^' at position (word 2, char 2)")
}

#[test]
fn test_encode_folds_case() {
    let map = SymbolMap::default();
    assert_eq!(encode("SOS", &map).unwrap(), "... --- ...");
    assert_eq!(encode("Test Some Words", &map).unwrap(), "- . ... - / ... --- -- . / .-- --- .-. -.. ...");
}

#[test]
fn test_encode_folds_accented_case() {
    let map = SymbolMap::default();
    assert_eq!(encode("Über", &map).unwrap(), "..-- -... . .-.");
    assert_eq!(encode("ñ", &map).unwrap(), "--.--");
}

#[test]
fn test_encode_collapses_whitespace() {
    let map = SymbolMap::default();
    assert_eq!(encode("a  b", &map).unwrap(), ".- / -...");
    assert_eq!(encode("  a \t b  ", &map).unwrap(), ".- / -...");
    assert_eq!(encode("   ", &map).unwrap(), "");
}

#[test]
fn test_encode_digits_and_punctuation() {
    let map = SymbolMap::default();
    assert_eq!(encode("73", &map).unwrap(), "--... ...--");
    assert_eq!(encode("a.b", &map).unwrap(), ".- .-.-.- -...");
}

#[test]
fn test_encode_parenthesis_aliasing() {
    let map = SymbolMap::default();
    assert_eq!(encode("(", &map).unwrap(), "-.--.-");
    assert_eq!(encode(")", &map).unwrap(), "-.--.-");
}

#[test]
fn test_encode_error_positions_are_one_based() {
    let map = SymbolMap::default();
    let res = encode("^", &map).unwrap_err();
    assert_eq!(res, "invalid character '^' at position (word 1, char 1)");
    let res = encode("ok ok x~", &map).unwrap_err();
    assert_eq!(res, "invalid character '~' at position (word 3, char 2)");
}

#[test]
fn test_encode_error_position_two_digit_word() {
    let map = SymbolMap::default();
    let res = encode("e e e e e e e e e e ^", &map).unwrap_err();
    assert_eq!(res, "invalid character '^' at position (word 11, char 1)");
}

#[test]
fn test_encode_reports_first_error_only() {
    let map = SymbolMap::default();
    let res = encode("a^ b# c%", &map).unwrap_err();
    assert_eq!(res, "invalid character '^' at position (word 1, char 2)");
}
