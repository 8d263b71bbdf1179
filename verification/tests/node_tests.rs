use calculator::lexer::Token;
use calculator::parser::node::Node;

/// Reduces a tree to its numeric value: a literal parses as a 64-bit float,
/// an operation applies IEEE float arithmetic to its evaluated operands.
fn eval_f64(n: &Node) -> f64 {
    match n {
        Node::Number(text) => text.iter().collect::<String>().parse::<f64>().unwrap(),
        Node::Add(l, r) => eval_f64(l) + eval_f64(r),
        Node::Subtract(l, r) => eval_f64(l) - eval_f64(r),
        Node::Multiply(l, r) => eval_f64(l) * eval_f64(r),
        Node::Divide(l, r) => eval_f64(l) / eval_f64(r),
    }
}

fn num(text: &str) -> Box<Node> {
    Box::new(Node::Number(text.chars().collect()))
}

#[test]
fn new_num_node() {
    let num_tok = Node::Number(vec!['0', '.', '0']);
    let _actual = Node::new_num(Token::NUMBER(vec!['0', '.', '0'])).unwrap();

    matches!(num_tok, _actual);
}

#[test]
fn new_add_node() {
    let add_tok = Node::Add(num("0.0"), num("0.0"));
    let _actual = Node::new_operator(&Token::PLUS, num("0.0"), num("0.0")).unwrap();

    matches!(add_tok, _actual);
}

#[test]
fn new_sub_node() {
    let sub_tok = Node::Subtract(num("0.0"), num("0.0"));
    let _actual = Node::new_operator(&Token::MINUS, num("0.0"), num("0.0")).unwrap();
    matches!(sub_tok, _actual);
}

#[test]
fn new_mult_node() {
    let tok = Node::Multiply(num("0.0"), num("0.0"));
    let _actual = Node::new_operator(&Token::TIMES, num("0.0"), num("0.0")).unwrap();

    matches!(tok, _actual);
}

#[test]
fn new_div_node() {
    let tok = Node::Divide(num("0.0"), num("0.0"));
    let _actual = Node::new_operator(&Token::DIVIDE, num("0.0"), num("0.0")).unwrap();
    matches!(tok, _actual);
}

#[test]
fn eval_num() {
    if let Some(node) = Node::new_num(Token::NUMBER(vec!['7', '2', '7'])) {
        assert_eq!(727.0, eval_f64(&node));
    }
}

#[test]
fn new_num_rejects_operators() {
    assert!(Node::new_num(Token::PLUS).is_none());
    assert!(Node::new_num(Token::EOF).is_none());
    assert!(Node::new_operator(&Token::NUMBER(vec!['1']), num("1"), num("2")).is_none());
    assert!(Node::new_operator(&Token::SPACE, num("1"), num("2")).is_none());
}
