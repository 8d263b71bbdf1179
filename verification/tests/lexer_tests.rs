use calculator::lexer::{Lexer, Token};

#[test]
fn single_character_tokens() {
    let mut lexer = Lexer::new("+-*/ @");
    assert_eq!(lexer.next_token(), Token::PLUS);
    assert_eq!(lexer.next_token(), Token::MINUS);
    assert_eq!(lexer.next_token(), Token::TIMES);
    assert_eq!(lexer.next_token(), Token::DIVIDE);
    assert_eq!(lexer.next_token(), Token::SPACE);
    assert_eq!(lexer.next_token(), Token::UNKNOWN);
    assert_eq!(lexer.next_token(), Token::EOF);
}

#[test]
fn whitespace_kinds_each_give_one_token() {
    let mut lexer = Lexer::new(" \t\n");
    assert_eq!(lexer.next_token(), Token::SPACE);
    assert_eq!(lexer.next_token(), Token::SPACE);
    assert_eq!(lexer.next_token(), Token::SPACE);
    assert_eq!(lexer.next_token(), Token::EOF);
}

#[test]
fn number_run_is_greedy_with_one_dot() {
    let mut lexer = Lexer::new("12.5+7");
    assert_eq!(
        lexer.next_token(),
        Token::NUMBER(vec!['1', '2', '.', '5'])
    );
    assert_eq!(lexer.next_token(), Token::PLUS);
    assert_eq!(lexer.next_token(), Token::NUMBER(vec!['7']));
    assert_eq!(lexer.next_token(), Token::EOF);
}

#[test]
fn second_dot_ends_the_run() {
    let mut lexer = Lexer::new("1.2.3");
    assert_eq!(lexer.next_token(), Token::NUMBER(vec!['1', '.', '2']));
    assert_eq!(lexer.next_token(), Token::NUMBER(vec!['.', '3']));
    assert_eq!(lexer.next_token(), Token::EOF);
}

#[test]
fn lone_dot_is_not_a_number() {
    let mut lexer = Lexer::new(".");
    assert_eq!(lexer.next_token(), Token::UNKNOWN);
    assert_eq!(lexer.next_token(), Token::EOF);
}

#[test]
fn end_of_stream_is_idempotent() {
    let mut lexer = Lexer::new("7");
    assert_eq!(lexer.next_token(), Token::NUMBER(vec!['7']));
    assert_eq!(lexer.next_token(), Token::EOF);
    assert_eq!(lexer.next_token(), Token::EOF);
    assert_eq!(lexer.next_token(), Token::EOF);

    let mut empty = Lexer::new("");
    assert_eq!(empty.next_token(), Token::EOF);
    assert_eq!(empty.next_token(), Token::EOF);
}

#[test]
fn precedence_tiers() {
    assert_eq!(Token::PLUS.get_precedence(), Some(0));
    assert_eq!(Token::MINUS.get_precedence(), Some(0));
    assert_eq!(Token::TIMES.get_precedence(), Some(1));
    assert_eq!(Token::DIVIDE.get_precedence(), Some(1));
    assert_eq!(Token::NUMBER(vec!['1']).get_precedence(), None);
    assert_eq!(Token::SPACE.get_precedence(), None);
    assert_eq!(Token::EOF.get_precedence(), None);
    assert_eq!(Token::UNKNOWN.get_precedence(), None);
}
