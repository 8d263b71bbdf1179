//! The tree builder: turns an expression string into a single expression
//! tree by precedence-based reduction over an output stack of finished
//! subtrees and a stack of pending operator tokens.

pub mod node;

use vstd::prelude::*;
use crate::lexer::{
    Lexer, Token, TokenV, is_op_token, op_prec, sig_tokens, token_at, pos_after,
    lemma_pos_after_advances,
};
use crate::parser::node::{
    Node, Ast, mk_binop, infix_tokens, is_expr_shape, is_term_shape, lemma_yield_unique,
};

verus! {

/// Why compilation stopped: an unrecognized or malformed token, an operator
/// that was short of operands (or leftover operands with no operator to join
/// them), or input with no tokens at all.
#[derive(Debug, Clone, Copy, PartialEq, Eq, Structural)]
pub enum ParseError {
    InvalidTokenError,
    IncompleteOperandError,
    EmptyInputError,
}

/// One reduction: the given operator combines the two topmost trees of the
/// output stack, the one pushed last as its right operand.
pub open spec fn reduce_once(out: Seq<Ast>, op: TokenV) -> Seq<Ast>
    recommends
        out.len() >= 2,
        is_op_token(op),
{
    out.drop_last().drop_last().push(mk_binop(op, out[out.len() - 2], out.last()))
}

/// Pops every stacked operator of precedence at least `p`, reducing the
/// output stack once per operator, and stops at a weaker operator or an
/// empty stack. A reduction that finds fewer than two operands fails.
pub open spec fn drain_ge(out: Seq<Ast>, ops: Seq<TokenV>, p: u8) -> Result<
    (Seq<Ast>, Seq<TokenV>),
    ParseError,
>
    decreases ops.len(),
{
    if ops.len() == 0 {
        Ok((out, ops))
    } else if op_prec(ops.last()) >= p {
        if out.len() < 2 {
            Err(ParseError::IncompleteOperandError)
        } else {
            drain_ge(reduce_once(out, ops.last()), ops.drop_last(), p)
        }
    } else {
        Ok((out, ops))
    }
}

/// What remains once the input is exhausted: every pending operator reduces,
/// and exactly one tree must be left — none at all means the input held no
/// operands, several mean operands that no operator joined.
pub open spec fn finish(out: Seq<Ast>, ops: Seq<TokenV>) -> Result<Ast, ParseError> {
    match drain_ge(out, ops, 0) {
        Err(e) => Err(e),
        Ok((out2, ops2)) => if out2.len() == 0 {
            Err(ParseError::EmptyInputError)
        } else if out2.len() == 1 {
            Ok(out2[0])
        } else {
            Err(ParseError::IncompleteOperandError)
        },
    }
}

/// The reduction algorithm over a token sequence. A number pushes a leaf; an
/// operator first reduces every stacked operator of precedence at least its
/// own — equal precedence reduces too, which makes the grouping
/// left-associative — and then goes on the stack; an unrecognized token
/// fails at once.
pub open spec fn parse_seq(ts: Seq<TokenV>, out: Seq<Ast>, ops: Seq<TokenV>) -> Result<
    Ast,
    ParseError,
>
    decreases ts.len(),
{
    if ts.len() == 0 {
        finish(out, ops)
    } else {
        let t = ts.first();
        match t {
            TokenV::Number(v) => parse_seq(ts.drop_first(), out.push(Ast::Num(v)), ops),
            TokenV::Plus | TokenV::Minus | TokenV::Times | TokenV::Divide => {
                match drain_ge(out, ops, op_prec(t)) {
                    Err(e) => Err(e),
                    Ok((out2, ops2)) => parse_seq(ts.drop_first(), out2, ops2.push(t)),
                }
            },
            TokenV::Unknown => Err(ParseError::InvalidTokenError),
            TokenV::Space | TokenV::Eof => parse_seq(ts.drop_first(), out, ops),
        }
    }
}

/// What compiling an expression string yields: the algorithm run over its
/// significant tokens, starting from empty stacks.
pub open spec fn spec_compile(s: Seq<char>) -> Result<Ast, ParseError> {
    parse_seq(sig_tokens(s, 0), Seq::empty(), Seq::empty())
}

/// The image of a compilation result.
pub open spec fn result_view(r: Result<Box<Node>, ParseError>) -> Result<Ast, ParseError> {
    match r {
        Ok(n) => Ok(n@),
        Err(e) => Err(e),
    }
}

/// The images of the trees on the output stack.
pub open spec fn nodes_view(q: Seq<Box<Node>>) -> Seq<Ast> {
    q.map_values(|n: Box<Node>| n@)
}

/// The images of the tokens on the operator stack.
pub open spec fn ops_view(q: Seq<Token>) -> Seq<TokenV> {
    q.map_values(|t: Token| t@)
}

/// Builds the expression tree for one input string.
pub struct Parser<'a> {
    lexer: Lexer<'a>,
}

impl<'a> Parser<'a> {
    /// The characters the parser reads.
    pub closed spec fn text(&self) -> Seq<char> {
        self.lexer.text()
    }

    /// How far the parser has read.
    pub closed spec fn at(&self) -> int {
        self.lexer.at()
    }

    /// The reading position never leaves the input.
    pub closed spec fn wf(&self) -> bool {
        self.lexer.wf()
    }

    pub fn new(input: &'a str) -> (r: Self)
        ensures
            r.wf(),
            r.text() == input@,
            r.at() == 0,
    {
        Self { lexer: Lexer::new(input) }
    }

    /// Compiles the whole remaining input into a single expression tree, or
    /// reports the error the algorithm stops on.
    pub fn get_expression_tree(&mut self) -> (r: Result<Box<Node>, ParseError>)
        requires
            old(self).wf(),
        ensures
            final(self).wf(),
            final(self).text() == old(self).text(),
            result_view(r) == parse_seq(
                sig_tokens(old(self).text(), old(self).at()),
                Seq::empty(),
                Seq::empty(),
            ),
            old(self).at() == 0 ==> result_view(r) == spec_compile(old(self).text()),
    {
        let ghost s = self.text();
        let ghost goal = parse_seq(sig_tokens(s, self.at()), Seq::<Ast>::empty(), Seq::<
            TokenV,
        >::empty());
        let mut output_queue: Vec<Box<Node>> = Vec::new();
        let mut op_stack: Vec<Token> = Vec::new();
        proof {
            assert(nodes_view(output_queue@) =~= Seq::<Ast>::empty());
            assert(ops_view(op_stack@) =~= Seq::<TokenV>::empty());
        }
        loop
            invariant
                self.wf(),
                self.text() == s,
                s == old(self).text(),
                goal == parse_seq(sig_tokens(s, old(self).at()), Seq::<Ast>::empty(), Seq::<
                    TokenV,
                >::empty()),
                forall|i: int| 0 <= i < op_stack@.len() ==> is_op_token(#[trigger] op_stack@[i]@),
                parse_seq(sig_tokens(s, self.at()), nodes_view(output_queue@), ops_view(op_stack@))
                    == goal,
            ensures
                self.wf(),
                self.text() == s,
                forall|i: int| 0 <= i < op_stack@.len() ==> is_op_token(#[trigger] op_stack@[i]@),
                finish(nodes_view(output_queue@), ops_view(op_stack@)) == goal,
            decreases s.len() - self.at(),
        {
            let ghost at0 = self.at();
            let ghost out0 = nodes_view(output_queue@);
            let ghost ops0 = ops_view(op_stack@);
            let token = self.lexer.next_token();
            proof {
                if at0 < s.len() {
                    lemma_pos_after_advances(s, at0);
                }
            }
            match token {
                Token::EOF => {
                    proof {
                        assert(token_at(s, at0) is Eof);
                        assert(at0 >= s.len());
                        assert(sig_tokens(s, at0) =~= Seq::<TokenV>::empty());
                    }
                    break;
                },
                Token::SPACE => {
                    proof {
                        assert(sig_tokens(s, at0) == sig_tokens(s, pos_after(s, at0)));
                    }
                    continue;
                },
                Token::NUMBER(_) => {
                    proof {
                        assert(sig_tokens(s, at0) == seq![token@] + sig_tokens(s, self.at()));
                        assert((seq![token@] + sig_tokens(s, self.at())).first() == token@);
                        assert((seq![token@] + sig_tokens(s, self.at())).drop_first()
                            =~= sig_tokens(s, self.at()));
                    }
                    let ghost v = token@->Number_0;
                    let node = Node::new_num(token);
                    if let Some(node) = node {
                        output_queue.push(node);
                        proof {
                            assert(nodes_view(output_queue@) =~= out0.push(Ast::Num(v)));
                        }
                    }
                },
                Token::UNKNOWN => {
                    proof {
                        assert(sig_tokens(s, at0) == seq![token@] + sig_tokens(s, self.at()));
                        assert((seq![token@] + sig_tokens(s, self.at())).first() == token@);
                    }
                    return Err(ParseError::InvalidTokenError);
                },
                _ => {
                    // One of the four operator tokens.
                    proof {
                        assert(is_op_token(token@));
                        assert(sig_tokens(s, at0) == seq![token@] + sig_tokens(s, self.at()));
                        assert((seq![token@] + sig_tokens(s, self.at())).first() == token@);
                        assert((seq![token@] + sig_tokens(s, self.at())).drop_first()
                            =~= sig_tokens(s, self.at()));
                    }
                    let ghost p = op_prec(token@);
                    let ghost rest = sig_tokens(s, self.at());
                    let ghost drained = drain_ge(out0, ops0, p);
                    let ghost at1 = self.at();
                    if op_stack.len() == 0 {
                        op_stack.push(token);
                        proof {
                            assert(drained == Ok::<_, ParseError>((out0, ops0)));
                            assert(ops_view(op_stack@) =~= ops0.push(token@));
                        }
                        continue;
                    }
                    loop
                        invariant
                            self.wf(),
                            self.text() == s,
                            s == old(self).text(),
                            goal == parse_seq(sig_tokens(s, old(self).at()), Seq::<
                                Ast,
                            >::empty(), Seq::<TokenV>::empty()),
                            self.at() == at1,
                            is_op_token(token@),
                            p == op_prec(token@),
                            rest == sig_tokens(s, at1),
                            goal == parse_seq(seq![token@] + rest, out0, ops0),
                            forall|i: int|
                                0 <= i < op_stack@.len() ==> is_op_token(
                                    #[trigger] op_stack@[i]@,
                                ),
                            drained == drain_ge(out0, ops0, p),
                            drain_ge(nodes_view(output_queue@), ops_view(op_stack@), p)
                                == drained,
                        ensures
                            self.wf(),
                            self.text() == s,
                            self.at() == at1,
                            forall|i: int|
                                0 <= i < op_stack@.len() ==> is_op_token(
                                    #[trigger] op_stack@[i]@,
                                ),
                            drained == Ok::<_, ParseError>(
                                (nodes_view(output_queue@), ops_view(op_stack@)),
                            ),
                        decreases op_stack@.len(),
                    {
                        if op_stack.len() == 0 {
                            break;
                        }
                        let top_prec = op_stack[op_stack.len() - 1].get_precedence().unwrap();
                        let cur_prec = token.get_precedence().unwrap();
                        if top_prec < cur_prec {
                            proof {
                                assert(op_prec(ops_view(op_stack@).last()) < p);
                            }
                            break;
                        }
                        let ghost out_e = nodes_view(output_queue@);
                        let ghost ops_e = ops_view(op_stack@);
                        let op = op_stack.pop().unwrap();
                        let right = match output_queue.pop() {
                            Some(n) => n,
                            None => {
                                proof {
                                    assert(drained == Err::<(Seq<Ast>, Seq<TokenV>), _>(
                                        ParseError::IncompleteOperandError,
                                    ));
                                    assert((seq![token@] + rest).first() == token@);
                                    assert((seq![token@] + rest).drop_first() =~= rest);
                                }
                                return Err(ParseError::IncompleteOperandError);
                            },
                        };
                        let left = match output_queue.pop() {
                            Some(n) => n,
                            None => {
                                proof {
                                    assert(out_e.len() == 1);
                                    assert(drained == Err::<(Seq<Ast>, Seq<TokenV>), _>(
                                        ParseError::IncompleteOperandError,
                                    ));
                                    assert((seq![token@] + rest).first() == token@);
                                    assert((seq![token@] + rest).drop_first() =~= rest);
                                }
                                return Err(ParseError::IncompleteOperandError);
                            },
                        };
                        let node = Node::new_operator(&op, left, right);
                        if let Some(node) = node {
                            output_queue.push(node);
                            proof {
                                assert(op@ == ops_e.last());
                                assert(ops_view(op_stack@) =~= ops_e.drop_last());
                                assert(nodes_view(output_queue@) =~= reduce_once(out_e, ops_e.last()));
                            }
                        }
                    }
                    let ghost ops_b = ops_view(op_stack@);
                    op_stack.push(token);
                    proof {
                        assert(ops_view(op_stack@) =~= ops_b.push(token@));
                    }
                },
            }
        }
        while op_stack.len() > 0
            invariant
                self.wf(),
                self.text() == s,
                s == old(self).text(),
                goal == parse_seq(sig_tokens(s, old(self).at()), Seq::<Ast>::empty(), Seq::<
                    TokenV,
                >::empty()),
                forall|i: int| 0 <= i < op_stack@.len() ==> is_op_token(#[trigger] op_stack@[i]@),
                finish(nodes_view(output_queue@), ops_view(op_stack@)) == goal,
            decreases op_stack@.len(),
        {
            let ghost out_e = nodes_view(output_queue@);
            let ghost ops_e = ops_view(op_stack@);
            let token = op_stack.pop().unwrap();
            let right = output_queue.pop();
            let left = output_queue.pop();
            if left.is_none() || right.is_none() {
                proof {
                    assert(out_e.len() < 2);
                    assert(drain_ge(out_e, ops_e, 0) == Err::<(Seq<Ast>, Seq<TokenV>), _>(
                        ParseError::IncompleteOperandError,
                    ));
                }
                return Err(ParseError::IncompleteOperandError);
            }
            let node = Node::new_operator(&token, left.unwrap(), right.unwrap());
            if let Some(node) = node {
                output_queue.push(node);
                proof {
                    assert(token@ == ops_e.last());
                    assert(ops_view(op_stack@) =~= ops_e.drop_last());
                    assert(nodes_view(output_queue@) =~= reduce_once(out_e, ops_e.last()));
                }
            }
        }
        proof {
            assert(ops_view(op_stack@) =~= Seq::<TokenV>::empty());
        }
        if output_queue.len() == 0 {
            return Err(ParseError::EmptyInputError);
        }
        if output_queue.len() > 1 {
            return Err(ParseError::IncompleteOperandError);
        }
        let ghost out_f = nodes_view(output_queue@);
        let root = output_queue.pop().unwrap();
        proof {
            assert(out_f.len() == 1);
            assert(out_f[0] == root@);
            assert(drain_ge(out_f, Seq::<TokenV>::empty(), 0) == Ok::<_, ParseError>(
                (out_f, Seq::<TokenV>::empty()),
            ));
        }
        Ok(root)
    }
}

/// A well-formed continuation: operator and number tokens strictly
/// alternating, an operator first, a number last; empty counts.
pub open spec fn wf_chain(ts: Seq<TokenV>) -> bool {
    &&& ts.len() % 2 == 0
    &&& forall|i: int| 0 <= i < ts.len() && i % 2 == 0 ==> is_op_token(#[trigger] ts[i])
    &&& forall|i: int| 0 <= i < ts.len() && i % 2 == 1 ==> (#[trigger] ts[i]) is Number
}

/// A well-formed token sequence: numbers and operators strictly alternating,
/// with a number first and a number last.
pub open spec fn wf_tokens(ts: Seq<TokenV>) -> bool {
    ts.len() >= 1 && ts[0] is Number && wf_chain(ts.drop_first())
}

/// The stack states the algorithm reaches after consuming a number from
/// well-formed input: pending operators strictly increase in precedence, so
/// at most one per tier stands on the stack, the additive one below, with a
/// finished operand above each and a bare number on top.
spec fn stacks_wf(out: Seq<Ast>, ops: Seq<TokenV>) -> bool {
    if ops.len() == 0 {
        out.len() == 1 && out[0] is Num
    } else if ops.len() == 1 && op_prec(ops[0]) == 0 {
        is_op_token(ops[0]) && out.len() == 2 && is_expr_shape(out[0]) && out[1] is Num
    } else if ops.len() == 1 {
        is_op_token(ops[0]) && out.len() == 2 && is_term_shape(out[0]) && out[1] is Num
    } else {
        ops.len() == 2 && is_op_token(ops[0]) && is_op_token(ops[1]) && op_prec(ops[0]) == 0
            && op_prec(ops[1]) == 1 && out.len() == 3 && is_expr_shape(out[0]) && is_term_shape(
            out[1],
        ) && out[2] is Num
    }
}

/// The tokens the two stacks stand for, read back in input order.
spec fn stack_tokens(out: Seq<Ast>, ops: Seq<TokenV>) -> Seq<TokenV> {
    if ops.len() == 0 && out.len() == 1 {
        infix_tokens(out[0])
    } else if ops.len() == 1 && out.len() == 2 {
        infix_tokens(out[0]) + seq![ops[0]] + infix_tokens(out[1])
    } else if ops.len() == 2 && out.len() == 3 {
        infix_tokens(out[0]) + seq![ops[0]] + infix_tokens(out[1]) + seq![ops[1]] + infix_tokens(
            out[2],
        )
    } else {
        Seq::empty()
    }
}

/// Reading back an operator node: its operands' tokens around the operator.
proof fn lemma_infix_mk_binop(o: TokenV, l: Ast, r: Ast)
    requires
        is_op_token(o),
    ensures
        infix_tokens(mk_binop(o, l, r)) == infix_tokens(l) + seq![o] + infix_tokens(r),
        is_expr_shape(l) && is_term_shape(r) && op_prec(o) == 0 ==> is_expr_shape(
            mk_binop(o, l, r),
        ),
        is_term_shape(l) && r is Num && op_prec(o) == 1 ==> is_term_shape(mk_binop(o, l, r)),
{
}

/// On a well-formed continuation the algorithm always succeeds, and the tree
/// it builds reads back as exactly the stacks' tokens followed by the
/// consumed ones, grouped left-associatively with `*` and `/` binding
/// tighter than `+` and `-`.
proof fn lemma_parse_chain(ts: Seq<TokenV>, out: Seq<Ast>, ops: Seq<TokenV>)
    requires
        wf_chain(ts),
        stacks_wf(out, ops),
    ensures
        parse_seq(ts, out, ops) matches Ok(t) && is_expr_shape(t) && infix_tokens(t)
            == stack_tokens(out, ops) + ts,
    decreases ts.len(),
{
    if ts.len() == 0 {
        if ops.len() == 0 {
            assert(stack_tokens(out, ops) + ts =~= infix_tokens(out[0]));
        } else if ops.len() == 1 {
            let m = mk_binop(ops[0], out[0], out[1]);
            lemma_infix_mk_binop(ops[0], out[0], out[1]);
            assert(reduce_once(out, ops[0]) =~= seq![m]);
            assert(ops.drop_last() =~= Seq::<TokenV>::empty());
            assert(drain_ge(out, ops, 0) == drain_ge(seq![m], Seq::<TokenV>::empty(), 0));
            assert(drain_ge(seq![m], Seq::<TokenV>::empty(), 0) == Ok::<_, ParseError>(
                (seq![m], Seq::<TokenV>::empty()),
            ));
            assert(stack_tokens(out, ops) + ts =~= infix_tokens(m));
        } else {
            let m1 = mk_binop(ops[1], out[1], out[2]);
            let m2 = mk_binop(ops[0], out[0], m1);
            lemma_infix_mk_binop(ops[1], out[1], out[2]);
            lemma_infix_mk_binop(ops[0], out[0], m1);
            assert(ops.last() == ops[1] && out.last() == out[2]);
            assert(reduce_once(out, ops[1]) =~= seq![out[0], m1]);
            assert(ops.drop_last() =~= seq![ops[0]]);
            assert(seq![out[0], m1].drop_last().drop_last() =~= Seq::<Ast>::empty());
            assert(reduce_once(seq![out[0], m1], ops[0]) =~= seq![m2]);
            assert(seq![ops[0]].drop_last() =~= Seq::<TokenV>::empty());
            assert(drain_ge(out, ops, 0) == drain_ge(seq![out[0], m1], seq![ops[0]], 0));
            assert(drain_ge(seq![out[0], m1], seq![ops[0]], 0) == drain_ge(seq![m2], Seq::<
                TokenV,
            >::empty(), 0));
            assert(drain_ge(seq![m2], Seq::<TokenV>::empty(), 0) == Ok::<_, ParseError>(
                (seq![m2], Seq::<TokenV>::empty()),
            ));
            assert(stack_tokens(out, ops) + ts =~= infix_tokens(m2));
        }
    } else {
        let o = ts[0];
        let n = ts[1];
        let v = n->Number_0;
        let rest = ts.subrange(2, ts.len() as int);
        assert(is_op_token(o));
        assert(n is Number);
        assert(wf_chain(rest)) by {
            assert forall|i: int| 0 <= i < rest.len() implies rest[i] == ts[i + 2] by {}
        }
        let p = op_prec(o);
        assert(n == TokenV::Number(v));
        assert(ts.first() == o);
        assert(ts.drop_first().first() == n);
        assert(ts.drop_first().drop_first() =~= rest);
        assert(ts =~= seq![o, n] + rest);
        // The operator drains what binds at least as tightly, then itself and
        // the number go on. Work out the drain for each reachable stack.
        if ops.len() == 0 {
            let out2 = out.push(Ast::Num(v));
            let ops2 = ops.push(o);
            assert(drain_ge(out, ops, p) == Ok::<_, ParseError>((out, ops)));
            assert(stacks_wf(out2, ops2));
            assert(stack_tokens(out2, ops2) =~= stack_tokens(out, ops) + seq![o, n]);
            assert(parse_seq(ts, out, ops) == parse_seq(ts.drop_first(), out, ops.push(
                o,
            )));
            assert(parse_seq(ts.drop_first(), out, ops.push(o)) == parse_seq(
                rest,
                out2,
                ops2,
            ));
            lemma_parse_chain(rest, out2, ops2);
            assert(stack_tokens(out, ops) + ts =~= stack_tokens(out2, ops2) + rest);
        } else if ops.len() == 1 && p == 1 && op_prec(ops[0]) == 0 {
            // A multiplicative operator leaves a pending additive one alone.
            let out2 = out.push(Ast::Num(v));
            let ops2 = ops.push(o);
            assert(ops.last() == ops[0]);
            assert(drain_ge(out, ops, p) == Ok::<_, ParseError>((out, ops)));
            assert(stacks_wf(out2, ops2));
            assert(stack_tokens(out2, ops2) =~= stack_tokens(out, ops) + seq![o, n]);
            assert(parse_seq(ts, out, ops) == parse_seq(ts.drop_first(), out, ops.push(
                o,
            )));
            assert(parse_seq(ts.drop_first(), out, ops.push(o)) == parse_seq(
                rest,
                out2,
                ops2,
            ));
            lemma_parse_chain(rest, out2, ops2);
            assert(stack_tokens(out, ops) + ts =~= stack_tokens(out2, ops2) + rest);
        } else if ops.len() == 1 {
            // The pending operator binds at least as tightly: it reduces, and
            // the stack empties.
            let m = mk_binop(ops[0], out[0], out[1]);
            lemma_infix_mk_binop(ops[0], out[0], out[1]);
            assert(ops.last() == ops[0] && out.last() == out[1]);
            assert(op_prec(ops[0]) >= p);
            assert(reduce_once(out, ops[0]) =~= seq![m]);
            assert(ops.drop_last() =~= Seq::<TokenV>::empty());
            assert(drain_ge(out, ops, p) == drain_ge(seq![m], Seq::<TokenV>::empty(), p));
            assert(drain_ge(seq![m], Seq::<TokenV>::empty(), p) == Ok::<_, ParseError>(
                (seq![m], Seq::<TokenV>::empty()),
            ));
            let out2 = seq![m].push(Ast::Num(v));
            let ops2 = Seq::<TokenV>::empty().push(o);
            assert(is_expr_shape(m));
            assert(stacks_wf(out2, ops2));
            assert(stack_tokens(out2, ops2) =~= stack_tokens(out, ops) + seq![o, n]);
            assert(parse_seq(ts, out, ops) == parse_seq(ts.drop_first(), seq![m], Seq::<TokenV>::empty().push(
                o,
            )));
            assert(parse_seq(ts.drop_first(), seq![m], Seq::<TokenV>::empty().push(o)) == parse_seq(
                rest,
                out2,
                ops2,
            ));
            lemma_parse_chain(rest, out2, ops2);
            assert(stack_tokens(out, ops) + ts =~= stack_tokens(out2, ops2) + rest);
        } else if p == 1 {
            // Two pending operators; the incoming one reduces only the
            // multiplicative top and stops at the additive one below.
            let m = mk_binop(ops[1], out[1], out[2]);
            lemma_infix_mk_binop(ops[1], out[1], out[2]);
            assert(ops.last() == ops[1] && out.last() == out[2]);
            assert(reduce_once(out, ops[1]) =~= seq![out[0], m]);
            assert(ops.drop_last() =~= seq![ops[0]]);
            assert(seq![ops[0]].last() == ops[0] && op_prec(ops[0]) < p);
            assert(drain_ge(out, ops, p) == drain_ge(seq![out[0], m], seq![ops[0]], p));
            assert(drain_ge(seq![out[0], m], seq![ops[0]], p) == Ok::<_, ParseError>(
                (seq![out[0], m], seq![ops[0]]),
            ));
            let out2 = seq![out[0], m].push(Ast::Num(v));
            let ops2 = seq![ops[0]].push(o);
            assert(stacks_wf(out2, ops2));
            assert(stack_tokens(out2, ops2) =~= stack_tokens(out, ops) + seq![o, n]);
            assert(parse_seq(ts, out, ops) == parse_seq(ts.drop_first(), seq![out[0], m], seq![ops[0]].push(
                o,
            )));
            assert(parse_seq(ts.drop_first(), seq![out[0], m], seq![ops[0]].push(o)) == parse_seq(
                rest,
                out2,
                ops2,
            ));
            lemma_parse_chain(rest, out2, ops2);
            assert(stack_tokens(out, ops) + ts =~= stack_tokens(out2, ops2) + rest);
        } else {
            // Two pending operators and an additive incoming one: both
            // reduce, the multiplicative top first.
            let m1 = mk_binop(ops[1], out[1], out[2]);
            let m2 = mk_binop(ops[0], out[0], m1);
            lemma_infix_mk_binop(ops[1], out[1], out[2]);
            lemma_infix_mk_binop(ops[0], out[0], m1);
            assert(ops.last() == ops[1] && out.last() == out[2]);
            assert(reduce_once(out, ops[1]) =~= seq![out[0], m1]);
            assert(ops.drop_last() =~= seq![ops[0]]);
            assert(drain_ge(out, ops, p) == drain_ge(seq![out[0], m1], seq![ops[0]], p));
            assert(seq![ops[0]].last() == ops[0] && op_prec(ops[0]) >= p);
            assert(seq![out[0], m1].drop_last().drop_last() =~= Seq::<Ast>::empty());
            assert(reduce_once(seq![out[0], m1], ops[0]) =~= seq![m2]);
            assert(seq![ops[0]].drop_last() =~= Seq::<TokenV>::empty());
            assert(drain_ge(seq![out[0], m1], seq![ops[0]], p) == drain_ge(seq![m2], Seq::<
                TokenV,
            >::empty(), p));
            assert(drain_ge(seq![m2], Seq::<TokenV>::empty(), p) == Ok::<_, ParseError>(
                (seq![m2], Seq::<TokenV>::empty()),
            ));
            let out2 = seq![m2].push(Ast::Num(v));
            let ops2 = Seq::<TokenV>::empty().push(o);
            assert(is_expr_shape(m2));
            assert(stacks_wf(out2, ops2));
            assert(stack_tokens(out2, ops2) =~= stack_tokens(out, ops) + seq![o, n]);
            assert(parse_seq(ts, out, ops) == parse_seq(ts.drop_first(), seq![m2], Seq::<TokenV>::empty().push(
                o,
            )));
            assert(parse_seq(ts.drop_first(), seq![m2], Seq::<TokenV>::empty().push(o)) == parse_seq(
                rest,
                out2,
                ops2,
            ));
            lemma_parse_chain(rest, out2, ops2);
            assert(stack_tokens(out, ops) + ts =~= stack_tokens(out2, ops2) + rest);
        }
    }
}


/// Every well-formed input compiles: when the significant tokens alternate
/// number, operator, and so on, ending with a number, compilation succeeds,
/// the tree reads back as exactly those tokens, and its shape groups the
/// operators left-associatively with `*` and `/` binding tighter than `+`
/// and `-`.
pub proof fn lemma_compile_wf(s: Seq<char>)
    requires
        wf_tokens(sig_tokens(s, 0)),
    ensures
        spec_compile(s) matches Ok(t) && is_expr_shape(t) && infix_tokens(t) == sig_tokens(s, 0),
{
    let ts = sig_tokens(s, 0);
    let v = ts[0]->Number_0;
    let out1 = Seq::<Ast>::empty().push(Ast::Num(v));
    assert(ts.first() == ts[0] && ts[0] == TokenV::Number(v));
    assert(parse_seq(ts, Seq::<Ast>::empty(), Seq::<TokenV>::empty()) == parse_seq(
        ts.drop_first(),
        out1,
        Seq::<TokenV>::empty(),
    ));
    assert(stacks_wf(out1, Seq::<TokenV>::empty()));
    lemma_parse_chain(ts.drop_first(), out1, Seq::<TokenV>::empty());
    assert(stack_tokens(out1, Seq::<TokenV>::empty()) == infix_tokens(Ast::Num(v)));
    assert(infix_tokens(Ast::Num(v)) + ts.drop_first() =~= ts);
}

/// The compiled tree is the expected one: for well-formed input, any tree
/// of the grammar's shape that reads back as the input's tokens — the
/// left-associative, precedence-respecting grouping of them — is exactly
/// what compilation returns.
pub proof fn lemma_compile_expected(s: Seq<char>, t0: Ast)
    requires
        wf_tokens(sig_tokens(s, 0)),
        is_expr_shape(t0),
        infix_tokens(t0) == sig_tokens(s, 0),
    ensures
        spec_compile(s) == Ok::<Ast, ParseError>(t0),
{
    lemma_compile_wf(s);
    if let Ok(t) = spec_compile(s) {
        lemma_yield_unique(t, t0);
    }
}

/// Whitespace invariance: two inputs whose significant tokens agree compile
/// to the same outcome — the same tree, or the same error.
pub proof fn lemma_whitespace_invariance(s1: Seq<char>, s2: Seq<char>)
    requires
        sig_tokens(s1, 0) == sig_tokens(s2, 0),
    ensures
        spec_compile(s1) == spec_compile(s2),
{
}

/// A drain can only fail for want of operands, and it keeps at least one
/// finished tree when it had one.
proof fn lemma_drain_keeps_tree(out: Seq<Ast>, ops: Seq<TokenV>, p: u8)
    ensures
        drain_ge(out, ops, p) matches Err(e) ==> e == ParseError::IncompleteOperandError,
        drain_ge(out, ops, p) matches Ok(r) ==> (out.len() >= 1 ==> r.0.len() >= 1),
    decreases ops.len(),
{
    if ops.len() > 0 && op_prec(ops.last()) >= p && out.len() >= 2 {
        lemma_drain_keeps_tree(reduce_once(out, ops.last()), ops.drop_last(), p);
    }
}

/// Once a significant token has been seen, or a tree or operator is already
/// pending, the algorithm can no longer report empty input.
proof fn lemma_parse_not_empty(ts: Seq<TokenV>, out: Seq<Ast>, ops: Seq<TokenV>)
    requires
        forall|i: int|
            0 <= i < ts.len() ==> !((#[trigger] ts[i]) is Space) && !(ts[i] is Eof),
        ts.len() > 0 || out.len() > 0 || ops.len() > 0,
    ensures
        parse_seq(ts, out, ops) != Err::<Ast, ParseError>(ParseError::EmptyInputError),
    decreases ts.len(),
{
    if ts.len() == 0 {
        lemma_drain_keeps_tree(out, ops, 0);
        if out.len() == 0 {
            assert(op_prec(ops.last()) >= 0);
            assert(drain_ge(out, ops, 0) == Err::<(Seq<Ast>, Seq<TokenV>), _>(
                ParseError::IncompleteOperandError,
            ));
        }
    } else {
        let t = ts.first();
        let rest = ts.drop_first();
        assert(forall|i: int|
            0 <= i < rest.len() ==> !((#[trigger] rest[i]) is Space) && !(rest[i] is Eof)) by {
            assert(forall|i: int| 0 <= i < rest.len() ==> rest[i] == ts[i + 1]);
        }
        match t {
            TokenV::Number(v) => {
                lemma_parse_not_empty(rest, out.push(Ast::Num(v)), ops);
            },
            TokenV::Plus | TokenV::Minus | TokenV::Times | TokenV::Divide => {
                lemma_drain_keeps_tree(out, ops, op_prec(t));
                if let Ok((out2, ops2)) = drain_ge(out, ops, op_prec(t)) {
                    lemma_parse_not_empty(rest, out2, ops2.push(t));
                }
            },
            _ => {},
        }
    }
}

/// Significant tokens are never whitespace or end markers.
proof fn lemma_sig_tokens_significant(s: Seq<char>, pos: int)
    ensures
        forall|i: int|
            0 <= i < sig_tokens(s, pos).len() ==> !((#[trigger] sig_tokens(s, pos)[i]) is Space)
                && !(sig_tokens(s, pos)[i] is Eof),
    decreases s.len() - pos,
{
    if 0 <= pos < s.len() {
        lemma_pos_after_advances(s, pos);
        lemma_sig_tokens_significant(s, pos_after(s, pos));
        let t = token_at(s, pos);
        let rest = sig_tokens(s, pos_after(s, pos));
        if !(t is Space) {
            assert(sig_tokens(s, pos) == seq![t] + rest);
            assert(forall|i: int|
                1 <= i < sig_tokens(s, pos).len() ==> sig_tokens(s, pos)[i] == rest[i - 1]);
        }
    }
}

/// The empty-input error comes exactly on input without one significant
/// token; any input that holds a token fails, if at all, some other way.
pub proof fn lemma_empty_input(s: Seq<char>)
    ensures
        (spec_compile(s) == Err::<Ast, ParseError>(ParseError::EmptyInputError)) <==> sig_tokens(
            s,
            0,
        ).len() == 0,
{
    if sig_tokens(s, 0).len() == 0 {
        assert(sig_tokens(s, 0) =~= Seq::<TokenV>::empty());
    } else {
        lemma_sig_tokens_significant(s, 0);
        lemma_parse_not_empty(sig_tokens(s, 0), Seq::<Ast>::empty(), Seq::<TokenV>::empty());
    }
}

} // verus!
