use pfind::lexer::Lexer;

#[test]
fn lexer_sentence() {
    let mut lexer = Lexer::new("The quick brown fox jumps over the lazy dog.");
    let tokens = lexer.tokens();
    assert_eq!(
        tokens,
        ["the", "quick", "brown", "fox", "jumps", "over", "the", "lazy", "dog"]
    );
}

#[test]
fn lexer_sentence_syms() {
    let mut lexer = Lexer::new("The / quick -+ +brown **fox jumps over the lazy dog.");
    let tokens = lexer.tokens();
    assert_eq!(
        tokens,
        ["the", "quick", "brown", "fox", "jumps", "over", "the", "lazy", "dog"]
    );
}

#[test]
fn lexer_unicode() {
    let mut lexer = Lexer::new("The quick dogé jumps ovêrre le lazy fròge.");
    let tokens = lexer.tokens();
    assert_eq!(
        tokens,
        ["the", "quick", "dogé", "jumps", "ovêrre", "le", "lazy", "fròge"]
    );
}

#[test]
fn empty() {
    let mut lexer = Lexer::new("");
    let tokens = lexer.tokens();
    assert_eq!(tokens, Vec::<&str>::new());
}

#[test]
fn one() {
    let mut lexer = Lexer::new("The");
    let tokens = lexer.tokens();
    assert_eq!(tokens, ["the"]);
}

#[test]
fn lexer_case_folds_accents() {
    let mut lexer = Lexer::new("café RÉSUMÉ");
    let tokens = lexer.tokens();
    assert_eq!(tokens, ["café", "résumé"]);
}

#[test]
fn lexer_tokens_nonempty_and_alphanumeric() {
    let mut lexer = Lexer::new("a+b - c7é ...!  ");
    let tokens = lexer.tokens();
    assert_eq!(tokens, ["a", "b", "c7é"]);
    for t in tokens.iter() {
        assert!(!t.is_empty());
        assert!(t.chars().all(|c| c.is_alphanumeric()));
    }
}

#[test]
fn lexer_no_alphanumeric_input() {
    let mut lexer = Lexer::new("+-*/ .,;:!?  \t\n");
    let tokens = lexer.tokens();
    assert_eq!(tokens, Vec::<&str>::new());
}

#[test]
fn lexer_next_token_stream() {
    let mut lexer = Lexer::new("One two");
    assert_eq!(lexer.next_token(), Some("one".to_string()));
    assert_eq!(lexer.next_token(), Some("two".to_string()));
    assert_eq!(lexer.next_token(), None);
    assert_eq!(lexer.next_token(), None);
}
