//! The expression tree: a closed set of node kinds, one per operator, plus
//! the number leaf. Each node owns its operands outright, so a tree is
//! strictly hierarchical.

use vstd::prelude::*;
use crate::lexer::{Token, TokenV, is_op_token};

verus! {

/// A node of the expression tree: a number literal (the characters of the
/// literal) or a binary operation owning its two operands.
#[derive(Debug, PartialEq)]
pub enum Node {
    Number(Vec<char>),
    Add(Box<Node>, Box<Node>),
    Subtract(Box<Node>, Box<Node>),
    Multiply(Box<Node>, Box<Node>),
    Divide(Box<Node>, Box<Node>),
}

/// The mathematical image of a [`Node`]: the same tree with each number
/// literal as a `Seq<char>`.
pub enum Ast {
    Num(Seq<char>),
    Add(Box<Ast>, Box<Ast>),
    Subtract(Box<Ast>, Box<Ast>),
    Multiply(Box<Ast>, Box<Ast>),
    Divide(Box<Ast>, Box<Ast>),
}

/// The image of a tree node.
pub open spec fn node_view(n: Node) -> Ast
    decreases n,
{
    match n {
        Node::Number(v) => Ast::Num(v@),
        Node::Add(l, r) => Ast::Add(Box::new(node_view(*l)), Box::new(node_view(*r))),
        Node::Subtract(l, r) => Ast::Subtract(Box::new(node_view(*l)), Box::new(node_view(*r))),
        Node::Multiply(l, r) => Ast::Multiply(Box::new(node_view(*l)), Box::new(node_view(*r))),
        Node::Divide(l, r) => Ast::Divide(Box::new(node_view(*l)), Box::new(node_view(*r))),
    }
}

impl View for Node {
    type V = Ast;

    open spec fn view(&self) -> Ast {
        node_view(*self)
    }
}

/// The tree that an operator token builds from two operands.
pub open spec fn mk_binop(t: TokenV, l: Ast, r: Ast) -> Ast
    recommends
        is_op_token(t),
{
    match t {
        TokenV::Plus => Ast::Add(Box::new(l), Box::new(r)),
        TokenV::Minus => Ast::Subtract(Box::new(l), Box::new(r)),
        TokenV::Times => Ast::Multiply(Box::new(l), Box::new(r)),
        TokenV::Divide => Ast::Divide(Box::new(l), Box::new(r)),
        _ => Ast::Num(Seq::empty()),
    }
}

/// The token sequence a tree reads back as, in infix order.
pub open spec fn infix_tokens(t: Ast) -> Seq<TokenV>
    decreases t,
{
    match t {
        Ast::Num(v) => seq![TokenV::Number(v)],
        Ast::Add(l, r) => infix_tokens(*l) + seq![TokenV::Plus] + infix_tokens(*r),
        Ast::Subtract(l, r) => infix_tokens(*l) + seq![TokenV::Minus] + infix_tokens(*r),
        Ast::Multiply(l, r) => infix_tokens(*l) + seq![TokenV::Times] + infix_tokens(*r),
        Ast::Divide(l, r) => infix_tokens(*l) + seq![TokenV::Divide] + infix_tokens(*r),
    }
}

/// A term of the grammar: number leaves joined by `*` and `/` only, grouped
/// from the left.
pub open spec fn is_term_shape(t: Ast) -> bool
    decreases t,
{
    match t {
        Ast::Num(_) => true,
        Ast::Multiply(l, r) => is_term_shape(*l) && *r is Num,
        Ast::Divide(l, r) => is_term_shape(*l) && *r is Num,
        _ => false,
    }
}

/// An expression of the grammar: terms joined by `+` and `-`, grouped from
/// the left. A tree of this shape respects precedence and groups operators of
/// equal precedence left-associatively.
pub open spec fn is_expr_shape(t: Ast) -> bool
    decreases t,
{
    match t {
        Ast::Add(l, r) => is_expr_shape(*l) && is_term_shape(*r),
        Ast::Subtract(l, r) => is_expr_shape(*l) && is_term_shape(*r),
        _ => is_term_shape(t),
    }
}

/// Every tree reads back as at least one token.
proof fn lemma_yield_nonempty(t: Ast)
    ensures
        infix_tokens(t).len() >= 1,
    decreases t,
{
    match t {
        Ast::Num(_) => {},
        Ast::Add(l, r) | Ast::Subtract(l, r) | Ast::Multiply(l, r) | Ast::Divide(l, r) => {
            lemma_yield_nonempty(*l);
            lemma_yield_nonempty(*r);
        },
    }
}

/// A term's read-back holds no additive operator: `*` and `/` never group
/// across a `+` or `-`.
proof fn lemma_term_yield_no_low(t: Ast)
    requires
        is_term_shape(t),
    ensures
        forall|i: int|
            0 <= i < infix_tokens(t).len() ==> !((#[trigger] infix_tokens(t)[i]) is Plus) && !(
            infix_tokens(t)[i] is Minus),
    decreases t,
{
    match t {
        Ast::Multiply(l, r) | Ast::Divide(l, r) => {
            lemma_term_yield_no_low(*l);
            let yl = infix_tokens(*l);
            let y = infix_tokens(t);
            assert(infix_tokens(*r) == seq![TokenV::Number((*r)->Num_0)]);
            assert(y.len() == yl.len() + 2);
            assert(forall|i: int| 0 <= i < yl.len() ==> y[i] == yl[i]);
            assert(!(y[yl.len() as int] is Plus) && !(y[yl.len() as int] is Minus));
            assert(y[y.len() - 1] == TokenV::Number((*r)->Num_0));
        },
        _ => {},
    }
}

/// Two terms that read back as the same tokens are the same tree.
proof fn lemma_term_yield_unique(a: Ast, b: Ast)
    requires
        is_term_shape(a),
        is_term_shape(b),
        infix_tokens(a) == infix_tokens(b),
    ensures
        a == b,
    decreases a,
{
    let y = infix_tokens(a);
    if a is Num && b is Num {
        assert(y[0] == TokenV::Number(a->Num_0));
        assert(y[0] == TokenV::Number(b->Num_0));
    } else if a is Num {
        // A non-leaf term reads back as at least three tokens.
        let rb = if b is Multiply {
            b->Multiply_1
        } else {
            b->Divide_1
        };
        lemma_yield_nonempty(*rb);
        assert(y.len() == 1);
        assert(false);
    } else if b is Num {
        let ra = if a is Multiply {
            a->Multiply_1
        } else {
            a->Divide_1
        };
        lemma_yield_nonempty(*ra);
        assert(false);
    } else {
        let (l1, r1) = if a is Multiply {
            (a->Multiply_0, a->Multiply_1)
        } else {
            (a->Divide_0, a->Divide_1)
        };
        let (l2, r2) = if b is Multiply {
            (b->Multiply_0, b->Multiply_1)
        } else {
            (b->Divide_0, b->Divide_1)
        };
        // The operand on the right is a bare number, so the root operator
        // stands second to last, and everything before it reads back the
        // left operand.
        assert(infix_tokens(*r1).len() == 1 && infix_tokens(*r2).len() == 1);
        assert(infix_tokens(*l1).len() == y.len() - 2);
        assert(infix_tokens(*l2).len() == y.len() - 2);
        assert(infix_tokens(*l1) =~= y.subrange(0, y.len() - 2));
        assert(infix_tokens(*l2) =~= y.subrange(0, y.len() - 2));
        assert(y[y.len() - 2] == if a is Multiply {
            TokenV::Times
        } else {
            TokenV::Divide
        });
        assert(y[y.len() - 2] == if b is Multiply {
            TokenV::Times
        } else {
            TokenV::Divide
        });
        assert(y.last() == TokenV::Number((*r1)->Num_0));
        assert(y.last() == TokenV::Number((*r2)->Num_0));
        lemma_term_yield_unique(*l1, *l2);
    }
}

/// Two grammar-shaped trees that read back as the same tokens are the same
/// tree: together with [`is_expr_shape`], the read-back pins the tree, so a
/// compiled tree whose read-back is the input is the one left-associative,
/// precedence-respecting tree for it.
pub proof fn lemma_yield_unique(a: Ast, b: Ast)
    requires
        is_expr_shape(a),
        is_expr_shape(b),
        infix_tokens(a) == infix_tokens(b),
    ensures
        a == b,
    decreases a,
{
    let y = infix_tokens(a);
    let a_add = a is Add || a is Subtract;
    let b_add = b is Add || b is Subtract;
    if !a_add && !b_add {
        lemma_term_yield_unique(a, b);
    } else if a_add && !b_add {
        let la = if a is Add {
            a->Add_0
        } else {
            a->Subtract_0
        };
        let k = infix_tokens(*la).len() as int;
        assert(y[k] is Plus || y[k] is Minus);
        lemma_term_yield_no_low(b);
        assert(false);
    } else if !a_add && b_add {
        let lb = if b is Add {
            b->Add_0
        } else {
            b->Subtract_0
        };
        let k = infix_tokens(*lb).len() as int;
        assert(y[k] is Plus || y[k] is Minus);
        lemma_term_yield_no_low(a);
        assert(false);
    } else {
        let (l1, r1) = if a is Add {
            (a->Add_0, a->Add_1)
        } else {
            (a->Subtract_0, a->Subtract_1)
        };
        let (l2, r2) = if b is Add {
            (b->Add_0, b->Add_1)
        } else {
            (b->Subtract_0, b->Subtract_1)
        };
        let k1 = infix_tokens(*l1).len() as int;
        let k2 = infix_tokens(*l2).len() as int;
        // The root operator is the last additive token of the read-back:
        // nothing to its right came from an additive node.
        lemma_term_yield_no_low(*r1);
        lemma_term_yield_no_low(*r2);
        assert(y[k1] is Plus || y[k1] is Minus);
        assert(y[k2] is Plus || y[k2] is Minus);
        assert(forall|i: int|
            k1 < i < y.len() ==> y[i] == infix_tokens(*r1)[i - k1 - 1]);
        assert(forall|i: int|
            k2 < i < y.len() ==> y[i] == infix_tokens(*r2)[i - k2 - 1]);
        assert(k1 == k2);
        assert(infix_tokens(*l1) =~= y.subrange(0, k1));
        assert(infix_tokens(*l2) =~= y.subrange(0, k1));
        assert(infix_tokens(*r1) =~= y.subrange(k1 + 1, y.len() as int));
        assert(infix_tokens(*r2) =~= y.subrange(k1 + 1, y.len() as int));
        lemma_yield_unique(*l1, *l2);
        lemma_term_yield_unique(*r1, *r2);
    }
}

impl Node {
    /// Wraps a number token's literal in a leaf node; any other token gives
    /// `None`.
    pub fn new_num(token: Token) -> (r: Option<Box<Self>>)
        ensures
            match r {
                Some(n) => token@ matches TokenV::Number(v) && n@ == Ast::Num(v),
                None => !(token@ is Number),
            },
    {
        match token {
            Token::NUMBER(n) => Some(Box::new(Node::Number(n))),
            _ => None,
        }
    }

    /// Joins two subtrees under an operator token; any other token gives
    /// `None`.
    pub fn new_operator(token: &Token, left: Box<Node>, right: Box<Node>) -> (r: Option<
        Box<Self>,
    >)
        ensures
            match r {
                Some(n) => is_op_token(token@) && n@ == mk_binop(token@, left@, right@),
                None => !is_op_token(token@),
            },
    {
        match token {
            Token::PLUS => Some(Box::new(Node::Add(left, right))),
            Token::MINUS => Some(Box::new(Node::Subtract(left, right))),
            Token::TIMES => Some(Box::new(Node::Multiply(left, right))),
            Token::DIVIDE => Some(Box::new(Node::Divide(left, right))),
            _ => None,
        }
    }
}

} // verus!
