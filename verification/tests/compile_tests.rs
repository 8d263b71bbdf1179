use calculator::parser::node::Node;
use calculator::parser::{ParseError, Parser};

/// Reduces a tree to its numeric value: a literal parses as a 64-bit float,
/// an operation applies IEEE float arithmetic to its evaluated operands.
fn eval_f64(n: &Node) -> f64 {
    match n {
        Node::Number(text) => text.iter().collect::<String>().parse::<f64>().unwrap(),
        Node::Add(l, r) => eval_f64(l) + eval_f64(r),
        Node::Subtract(l, r) => eval_f64(l) - eval_f64(r),
        Node::Multiply(l, r) => eval_f64(l) * eval_f64(r),
        Node::Divide(l, r) => eval_f64(l) / eval_f64(r),
    }
}

fn compile(input: &str) -> Result<Box<Node>, ParseError> {
    let mut parser = Parser::new(input);
    parser.get_expression_tree()
}

fn num(text: &str) -> Box<Node> {
    Box::new(Node::Number(text.chars().collect()))
}

#[test]
fn single_number() {
    let tree = compile("42").unwrap();
    assert_eq!(*tree, Node::Number(vec!['4', '2']));
    assert_eq!(eval_f64(&tree), 42.0);
}

#[test]
fn precedence_multiplication_binds_tighter() {
    let tree = compile("2+3*4").unwrap();
    let expected = Node::Add(num("2"), Box::new(Node::Multiply(num("3"), num("4"))));
    assert_eq!(*tree, expected);
    assert_eq!(eval_f64(&tree), 14.0);
}

#[test]
fn equal_precedence_groups_left() {
    let tree = compile("8-3-2").unwrap();
    let expected = Node::Subtract(Box::new(Node::Subtract(num("8"), num("3"))), num("2"));
    assert_eq!(*tree, expected);
    assert_eq!(eval_f64(&tree), 3.0);
}

#[test]
fn mixed_expression_left_associative() {
    let tree = compile("2+3*4-6/2").unwrap();
    assert_eq!(eval_f64(&tree), 11.0);

    let tree = compile("100/10/5").unwrap();
    assert_eq!(eval_f64(&tree), 2.0);

    let tree = compile("1.5*4+0.5").unwrap();
    assert_eq!(eval_f64(&tree), 6.5);
}

#[test]
fn whitespace_is_insignificant() {
    let bare = compile("1+2").unwrap();
    let spaced = compile(" 1 + 2 ").unwrap();
    assert_eq!(bare, spaced);
    assert_eq!(eval_f64(&bare), eval_f64(&spaced));
    assert_eq!(eval_f64(&bare), 3.0);

    let tabbed = compile("\t1\n+ 2\n").unwrap();
    assert_eq!(bare, tabbed);
}

#[test]
fn division_by_zero_follows_float_semantics() {
    let tree = compile("5/0").unwrap();
    assert_eq!(eval_f64(&tree), f64::INFINITY);

    let tree = compile("0/0").unwrap();
    let value = eval_f64(&tree);
    assert!(value.is_nan());
    assert!(value != value);
}

#[test]
fn invalid_character_is_rejected() {
    assert_eq!(compile("1+@"), Err(ParseError::InvalidTokenError));
    assert_eq!(compile("#"), Err(ParseError::InvalidTokenError));
}

#[test]
fn lone_dot_is_rejected() {
    assert_eq!(compile("1+."), Err(ParseError::InvalidTokenError));
}

#[test]
fn leading_operator_is_incomplete() {
    assert_eq!(compile("+1"), Err(ParseError::IncompleteOperandError));
    assert_eq!(compile("1+"), Err(ParseError::IncompleteOperandError));
    assert_eq!(compile("*"), Err(ParseError::IncompleteOperandError));
    assert_eq!(compile("1++2"), Err(ParseError::IncompleteOperandError));
}

#[test]
fn adjacent_numbers_are_incomplete() {
    assert_eq!(compile("1 2"), Err(ParseError::IncompleteOperandError));
}

#[test]
fn empty_input_is_its_own_error() {
    assert_eq!(compile(""), Err(ParseError::EmptyInputError));
    assert_eq!(compile("   "), Err(ParseError::EmptyInputError));
}

#[test]
fn reevaluation_is_stable() {
    let tree = compile("2+3*4").unwrap();
    let first = eval_f64(&tree);
    let second = eval_f64(&tree);
    let third = eval_f64(&tree);
    assert_eq!(first, second);
    assert_eq!(second, third);
    assert_eq!(first, 14.0);
}
