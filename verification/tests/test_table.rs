use morse::morse::{build_symbol_table, decode, encode, SymbolMap, SymbolMapBuilder};
use morse::types::Char;
use morse::types::Sym::{Dash, Dot};

#[test]
fn test_builder_rejects_duplicate_plain_char() {
    let b = SymbolMapBuilder::new();
    let b = b.with('a', Char::new(vec![Dot, Dash])).unwrap();
    let res = b.with('a', Char::new(vec![Dash])).unwrap_err();
    assert_eq!(res, "duplicate error: failed to add (a, -) as it's a duplicate entry");
}

#[test]
fn test_builder_rejects_duplicate_code() {
    let b = SymbolMapBuilder::new();
    let b = b.with('a', Char::new(vec![Dot, Dash])).unwrap();
    let res = b.with('b', Char::new(vec![Dot, Dash])).unwrap_err();
    assert_eq!(res, "duplicate error: failed to add (b, .-) as it's a duplicate entry");
}

#[test]
fn test_builder_rejects_exact_duplicate_pair() {
    let b = SymbolMapBuilder::new();
    let b = b.with('a', Char::new(vec![Dot, Dash])).unwrap();
    let res = b.with('a', Char::new(vec![Dot, Dash])).unwrap_err();
    assert_eq!(res, "duplicate error: failed to add (a, .-) as it's a duplicate entry");
}

#[test]
fn test_builder_alias_shares_code_but_not_plain() {
    let b = SymbolMapBuilder::new();
    let b = b.with('(', Char::new(vec![Dash, Dot, Dash, Dash, Dot, Dash])).unwrap();
    let b = b.with_alias(')', Char::new(vec![Dash, Dot, Dash, Dash, Dot, Dash])).unwrap();
    let res = b.with_alias(')', Char::new(vec![Dot])).unwrap_err();
    assert_eq!(res, "duplicate error: failed to add (), .) as it's a duplicate entry");
}

#[test]
fn test_default_table_builds_through_the_builder() {
    let map = SymbolMapBuilder::new()
        .with('a', Char::new(vec![Dot, Dash])).unwrap()
        .with('b', Char::new(vec![Dash, Dot, Dot, Dot])).unwrap()
        .with('c', Char::new(vec![Dash, Dot, Dash, Dot])).unwrap()
        .with('d', Char::new(vec![Dash, Dot, Dot])).unwrap()
        .with('e', Char::new(vec![Dot])).unwrap()
        .with('f', Char::new(vec![Dot, Dot, Dash, Dot])).unwrap()
        .with('g', Char::new(vec![Dash, Dash, Dot])).unwrap()
        .with('h', Char::new(vec![Dot, Dot, Dot, Dot])).unwrap()
        .with('i', Char::new(vec![Dot, Dot])).unwrap()
        .with('j', Char::new(vec![Dot, Dash, Dash, Dash])).unwrap()
        .with('k', Char::new(vec![Dash, Dot, Dash])).unwrap()
        .with('l', Char::new(vec![Dot, Dash, Dot, Dot])).unwrap()
        .with('m', Char::new(vec![Dash, Dash])).unwrap()
        .with('n', Char::new(vec![Dash, Dot])).unwrap()
        .with('o', Char::new(vec![Dash, Dash, Dash])).unwrap()
        .with('p', Char::new(vec![Dot, Dash, Dash, Dot])).unwrap()
        .with('q', Char::new(vec![Dash, Dash, Dot, Dash])).unwrap()
        .with('r', Char::new(vec![Dot, Dash, Dot])).unwrap()
        .with('s', Char::new(vec![Dot, Dot, Dot])).unwrap()
        .with('t', Char::new(vec![Dash])).unwrap()
        .with('u', Char::new(vec![Dot, Dot, Dash])).unwrap()
        .with('v', Char::new(vec![Dot, Dot, Dot, Dash])).unwrap()
        .with('w', Char::new(vec![Dot, Dash, Dash])).unwrap()
        .with('x', Char::new(vec![Dash, Dot, Dot, Dash])).unwrap()
        .with('y', Char::new(vec![Dash, Dot, Dash, Dash])).unwrap()
        .with('z', Char::new(vec![Dash, Dash, Dot, Dot])).unwrap()
        .with('ü', Char::new(vec![Dot, Dot, Dash, Dash])).unwrap()
        .with('ä', Char::new(vec![Dot, Dash, Dot, Dash])).unwrap()
        .with('ö', Char::new(vec![Dash, Dash, Dash, Dot])).unwrap()
        .with('1', Char::new(vec![Dot, Dash, Dash, Dash, Dash])).unwrap()
        .with('2', Char::new(vec![Dot, Dot, Dash, Dash, Dash])).unwrap()
        .with('3', Char::new(vec![Dot, Dot, Dot, Dash, Dash])).unwrap()
        .with('4', Char::new(vec![Dot, Dot, Dot, Dot, Dash])).unwrap()
        .with('5', Char::new(vec![Dot, Dot, Dot, Dot, Dot])).unwrap()
        .with('6', Char::new(vec![Dash, Dot, Dot, Dot, Dot])).unwrap()
        .with('7', Char::new(vec![Dash, Dash, Dot, Dot, Dot])).unwrap()
        .with('8', Char::new(vec![Dash, Dash, Dash, Dot, Dot])).unwrap()
        .with('9', Char::new(vec![Dash, Dash, Dash, Dash, Dot])).unwrap()
        .with('0', Char::new(vec![Dash, Dash, Dash, Dash, Dash])).unwrap()
        .with('é', Char::new(vec![Dot, Dot, Dash, Dot, Dot])).unwrap()
        .with('è', Char::new(vec![Dot, Dash, Dot, Dot, Dash])).unwrap()
        .with('à', Char::new(vec![Dot, Dash, Dash, Dot, Dash])).unwrap()
        .with('+', Char::new(vec![Dot, Dash, Dot, Dash, Dot])).unwrap()
        .with('=', Char::new(vec![Dash, Dot, Dot, Dot, Dash])).unwrap()
        .with('/', Char::new(vec![Dash, Dot, Dot, Dash, Dot])).unwrap()
        .with('ñ', Char::new(vec![Dash, Dash, Dot, Dash, Dash])).unwrap()
        .with('?', Char::new(vec![Dot, Dot, Dash, Dash, Dot, Dot])).unwrap()
        .with('_', Char::new(vec![Dot, Dot, Dash, Dash, Dot, Dash])).unwrap()
        .with('"', Char::new(vec![Dot, Dash, Dot, Dot, Dash, Dot])).unwrap()
        .with('.', Char::new(vec![Dot, Dash, Dot, Dash, Dot, Dash])).unwrap()
        .with('@', Char::new(vec![Dot, Dash, Dash, Dot, Dash, Dot])).unwrap()
        .with('\'', Char::new(vec![Dot, Dash, Dash, Dash, Dash, Dot])).unwrap()
        .with('-', Char::new(vec![Dash, Dot, Dot, Dot, Dot, Dash])).unwrap()
        .with(';', Char::new(vec![Dash, Dot, Dash, Dot, Dash, Dot])).unwrap()
        .with('!', Char::new(vec![Dash, Dot, Dash, Dot, Dash, Dash])).unwrap()
        .with('(', Char::new(vec![Dash, Dot, Dash, Dash, Dot, Dash])).unwrap()
        .with_alias(')', Char::new(vec![Dash, Dot, Dash, Dash, Dot, Dash])).unwrap()
        .with(',', Char::new(vec![Dash, Dash, Dot, Dot, Dash, Dash])).unwrap()
        .with(':', Char::new(vec![Dash, Dash, Dash, Dot, Dot, Dot])).unwrap()
        .build();
    assert_eq!(encode("sos", &map).unwrap(), "... --- ...");
    assert_eq!(decode("... --- ...", &map).unwrap(), "sos");
    assert_eq!(encode(")", &map).unwrap(), "-.--.-");
    assert_eq!(decode("-.--.-", &map).unwrap(), "(");
}

#[test]
fn test_build_symbol_table_accepts_distinct_pairs() {
    let map = build_symbol_table(vec![
        ('e', Char::new(vec![Dot])),
        ('t', Char::new(vec![Dash])),
    ])
    .unwrap();
    assert_eq!(encode("tee", &map).unwrap(), "- . .");
    assert_eq!(decode("- . .", &map).unwrap(), "tee");
}

#[test]
fn test_build_symbol_table_rejects_first_duplicate() {
    let res = build_symbol_table(vec![
        ('e', Char::new(vec![Dot])),
        ('t', Char::new(vec![Dash])),
        ('x', Char::new(vec![Dash])),
        ('e', Char::new(vec![Dot, Dot])),
    ])
    .unwrap_err();
    assert_eq!(res, "duplicate error: failed to add (x, -) as it's a duplicate entry");
}

#[test]
fn test_get_morse_known_and_unknown() {
    let map = SymbolMap::default();
    let code = map.get_morse('s').unwrap();
    assert_eq!(morse::types::string_of_char(&code), "...");
    let err = map.get_morse('~').unwrap_err();
    assert_eq!(err, "~ is not a valid symbol");
}

#[test]
fn test_get_plain_known_and_unknown() {
    let map = SymbolMap::default();
    assert_eq!(map.get_plain(Char::new(vec![Dot])).unwrap(), 'e');
    let err = map.get_plain(Char::new(vec![Dot, Dot, Dot, Dot, Dot, Dot])).unwrap_err();
    assert_eq!(err, "...... is not a valid morse sequence");
}

#[test]
fn test_symbol_map_new_uses_every_pair_both_ways() {
    let map = SymbolMap::new(vec![
        ('x', Char::new(vec![Dot])),
        ('y', Char::new(vec![Dash])),
    ]);
    assert_eq!(encode("xy yx", &map).unwrap(), ". - / - .");
    assert_eq!(decode(". - / - .", &map).unwrap(), "xy yx");
    let err = encode("z", &map).unwrap_err();
    assert_eq!(err, "invalid character 'z' at position (word 1, char 1)");
}

#[test]
fn test_symbol_map_new_first_pair_wins() {
    let map = SymbolMap::new(vec![
        ('x', Char::new(vec![Dot])),
        ('y', Char::new(vec![Dot])),
    ]);
    assert_eq!(encode("y", &map).unwrap(), ".");
    assert_eq!(decode(".", &map).unwrap(), "x");
}
