use morse::parse::parse;
use morse::types::Sym::{Dash, Dot};
use morse::types::{string_of_char, string_of_sen, string_of_word, Char, Pos, Sen, Word};

#[test]
fn test_parse_simple_sentence() {
    let sen = parse("... --- / -").unwrap();
    assert_eq!(string_of_sen(&sen), "... --- / -");
}

#[test]
fn test_parse_collapses_runs_and_trims() {
    let sen = parse("  ...   --- \t ...  ").unwrap();
    assert_eq!(string_of_sen(&sen), "... --- ...");
}

#[test]
fn test_parse_whitespace_only_gives_one_empty_word() {
    let sen = parse("   ").unwrap();
    assert_eq!(sen.iter().len(), 1);
    assert_eq!(sen.iter()[0].iter().len(), 0);
}

#[test]
fn test_parse_lone_slash_gives_two_empty_words() {
    let sen = parse(" / ").unwrap();
    assert_eq!(sen.iter().len(), 2);
    assert_eq!(sen.iter()[0].iter().len(), 0);
    assert_eq!(sen.iter()[1].iter().len(), 0);
}

#[test]
fn test_parse_rejects_stray_character() {
    let err = parse(".a. --- ...").unwrap_err();
    assert_eq!(err, "parsing error: invalid symbol 'a' at position (word 1, char 1)");
    let err = parse("... / .-x").unwrap_err();
    assert_eq!(err, "parsing error: invalid symbol 'x' at position (word 2, char 1)");
}

#[test]
fn test_parse_does_not_check_the_table() {
    let sen = parse("..........").unwrap();
    assert_eq!(string_of_sen(&sen), "..........");
}

#[test]
fn test_render_then_parse_gives_sentence_back() {
    let sen = Sen::new(vec![
        Word::new(vec![Char::new(vec![Dash]), Char::new(vec![Dot])]),
        Word::new(vec![Char::new(vec![Dot, Dot, Dot])]),
    ]);
    let rendered = string_of_sen(&sen);
    assert_eq!(rendered, "- . / ...");
    let reparsed = parse(&rendered).unwrap();
    assert_eq!(string_of_sen(&reparsed), rendered);
}

#[test]
fn test_render_then_parse_with_empty_words() {
    let sen = Sen::new(vec![
        Word::new(vec![]),
        Word::new(vec![Char::new(vec![Dot])]),
        Word::new(vec![]),
    ]);
    let rendered = string_of_sen(&sen);
    assert_eq!(rendered, " / . / ");
    let reparsed = parse(&rendered).unwrap();
    assert_eq!(reparsed.iter().len(), 3);
    assert_eq!(string_of_sen(&reparsed), rendered);
}

#[test]
fn test_rendering_of_layers() {
    let c = Char::new(vec![Dot, Dash, Dot]);
    assert_eq!(string_of_char(&c), ".-.");
    let w = Word::new(vec![Char::new(vec![Dot]), Char::new(vec![Dash])]);
    assert_eq!(string_of_word(&w), ". -");
    let empty = Sen::new(vec![]);
    assert_eq!(string_of_sen(&empty), "");
}

#[test]
fn test_char_equality_is_by_symbols() {
    assert_eq!(Char::new(vec![Dot, Dash]), Char::new(vec![Dot, Dash]));
    assert_ne!(Char::new(vec![Dot, Dash]), Char::new(vec![Dash, Dot]));
    assert_ne!(Char::new(vec![Dot]), Char::new(vec![Dot, Dot]));
}

#[test]
fn test_pos_renders_one_based() {
    assert_eq!(Pos(0, 0).render(), "(word 1, char 1)");
    assert_eq!(Pos(9, 41).render(), "(word 10, char 42)");
    assert_eq!(Pos(122, 0).render(), "(word 123, char 1)");
}
