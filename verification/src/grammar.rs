//! Arithmetic expressions as they are written, and the proof that the
//! parser reads them by the usual rules: multiplication and division before
//! addition and subtraction, operators of one rank from left to right,
//! parentheses first.
use vstd::prelude::*;
use crate::token::{Kind, TokenView, plain_token};
use crate::ast::{Node, arith, eval_node};
use crate::parser::{SyntaxError, expression_rest_spec, expression_spec, factor_spec, kind_at, operate_spec};
use crate::parser::{parse_spec, print_spec, program_spec, statement_spec};
use crate::parser::{term_rest_spec, term_spec};

verus! {

/// An arithmetic expression as it is written: integer literals, the four
/// operators and parentheses.
pub ghost enum Arith {
    /// An integer literal.
    Lit(i32),
    /// An expression in parentheses.
    Paren(Box<Arith>),
    /// Two expressions with an operator between them.
    Bin(Kind, Box<Arith>, Box<Arith>),
}

/// Whether `e` is a factor: a literal, or a sum in parentheses.
pub open spec fn is_factor(e: Arith) -> bool
    decreases e, 0nat,
{
    match e {
        Arith::Lit(_) => true,
        Arith::Paren(inner) => is_sum(*inner),
        Arith::Bin(_, _, _) => false,
    }
}

/// Whether `e` is a product: a factor, or a product and a factor with `*`
/// or `/` between them.
pub open spec fn is_product(e: Arith) -> bool
    decreases e, 1nat,
{
    match e {
        Arith::Bin(op, l, r) => (op == Kind::Multi || op == Kind::Divi) && is_product(*l)
            && is_factor(*r),
        _ => is_factor(e),
    }
}

/// Whether `e` is a sum: a product, or a sum and a product with `+` or `-`
/// between them. The sums are the arithmetic expressions of the language,
/// each with the one way in which the usual rules read it.
pub open spec fn is_sum(e: Arith) -> bool
    decreases e, 2nat,
{
    match e {
        Arith::Bin(op, l, r) => if op == Kind::Plus || op == Kind::Minus {
            is_sum(*l) && is_product(*r)
        } else {
            is_product(e)
        },
        _ => is_product(e),
    }
}

/// The token of an integer literal.
pub open spec fn int_token(v: i32) -> TokenView {
    TokenView { text: Seq::empty(), chr: ' ', kind: Kind::Int, val: v }
}

/// The tokens that write `e`, from left to right.
pub open spec fn tokens_of(e: Arith) -> Seq<TokenView>
    decreases e,
{
    match e {
        Arith::Lit(v) => seq![int_token(v)],
        Arith::Paren(inner) => seq![plain_token(Kind::Lparen)] + tokens_of(*inner)
            + seq![plain_token(Kind::Rparen)],
        Arith::Bin(op, l, r) => tokens_of(*l) + seq![plain_token(op)] + tokens_of(*r),
    }
}

/// The value of `e` by the usual rules, in 32-bit arithmetic with unsigned
/// division; none where a division is by zero.
pub open spec fn value_of(e: Arith) -> Option<i32>
    decreases e,
{
    match e {
        Arith::Lit(v) => Some(v),
        Arith::Paren(inner) => value_of(*inner),
        Arith::Bin(op, l, r) => match (value_of(*l), value_of(*r)) {
            (Some(a), Some(b)) => arith(op, a, b),
            _ => None,
        },
    }
}

/// The tree of `e`: parentheses leave no node.
pub open spec fn tree_of(e: Arith) -> Node
    decreases e,
{
    match e {
        Arith::Lit(v) => Node::Int(v),
        Arith::Paren(inner) => tree_of(*inner),
        Arith::Bin(op, l, r) => Node::BinaryOp(op, Box::new(tree_of(*l)), Box::new(tree_of(*r))),
    }
}

/// Whether the tokens of `ts` from index `p` on are those of `toks`, by
/// kind and value.
pub open spec fn spells(ts: Seq<TokenView>, p: int, toks: Seq<TokenView>) -> bool {
    &&& 0 <= p
    &&& p + toks.len() <= ts.len()
    &&& forall|i: int|
        0 <= i < toks.len() ==> ts[p + i].kind == (#[trigger] toks[i]).kind && ts[p + i].val
            == toks[i].val
}

/// Tokens that spell two sequences one behind the other spell each of them
/// in its place.
pub proof fn lemma_spells_concat(ts: Seq<TokenView>, p: int, a: Seq<TokenView>, b: Seq<TokenView>)
    requires
        spells(ts, p, a + b),
    ensures
        spells(ts, p, a),
        spells(ts, p + a.len(), b),
{
    assert forall|i: int| 0 <= i < a.len() implies ts[p + i].kind == (#[trigger] a[i]).kind
        && ts[p + i].val == a[i].val by {
        assert((a + b)[i] == a[i]);
    }
    assert forall|i: int| 0 <= i < b.len() implies ts[p + a.len() + i].kind == (#[trigger] b[i]).kind
        && ts[p + a.len() + i].val == b[i].val by {
        assert((a + b)[a.len() + i] == b[i]);
    }
}

/// An expression is written with at least one token.
pub proof fn lemma_tokens_nonempty(e: Arith)
    ensures
        tokens_of(e).len() >= 1,
    decreases e,
{
    match e {
        Arith::Lit(_) => {},
        Arith::Paren(inner) => {},
        Arith::Bin(_, l, r) => {
            lemma_tokens_nonempty(*l);
        },
    }
}

/// The tree of an expression has the value of the expression.
pub proof fn lemma_tree_value(e: Arith)
    ensures
        eval_node(tree_of(e)) == value_of(e),
    decreases e,
{
    match e {
        Arith::Lit(_) => {},
        Arith::Paren(inner) => {
            lemma_tree_value(*inner);
        },
        Arith::Bin(_, l, r) => {
            lemma_tree_value(*l);
            lemma_tree_value(*r);
        },
    }
}

/// Reduction of two operands that were pushed one after the other.
proof fn lemma_operate_pushed(op: Kind, st: Seq<Node>, a: Node, b: Node)
    ensures
        operate_spec(op, st.push(a).push(b)) == Ok::<Seq<Node>, SyntaxError>(
            st.push(Node::BinaryOp(op, Box::new(a), Box::new(b))),
        ),
{
    let full = st.push(a).push(b);
    assert(full.take(full.len() - 2) =~= st);
}

/// A factor that is not followed by `==` is parsed as a factor: its tokens
/// are consumed and its tree is pushed.
proof fn lemma_factor(e: Arith, ts: Seq<TokenView>, p: int, st: Seq<Node>)
    requires
        is_factor(e),
        spells(ts, p, tokens_of(e)),
        kind_at(ts, p + tokens_of(e).len()) != Kind::Equal,
    ensures
        factor_spec(ts, p, st) == Ok::<(int, Seq<Node>), SyntaxError>(
            (p + tokens_of(e).len(), st.push(tree_of(e))),
        ),
    decreases e, 0nat,
{
    match e {
        Arith::Lit(v) => {
            assert(tokens_of(e)[0] == int_token(v));
            assert(ts[p + 0].kind == Kind::Int && ts[p + 0].val == v);
        },
        Arith::Paren(inner) => {
            let open = seq![plain_token(Kind::Lparen)];
            let close = seq![plain_token(Kind::Rparen)];
            let mid = tokens_of(*inner);
            assert(tokens_of(e) == (open + mid) + close);
            lemma_spells_concat(ts, p, open + mid, close);
            lemma_spells_concat(ts, p, open, mid);
            assert(open[0] == plain_token(Kind::Lparen));
            assert(ts[p + 0].kind == Kind::Lparen);
            assert(close[0] == plain_token(Kind::Rparen));
            assert(ts[p + 1 + mid.len() + 0].kind == Kind::Rparen);
            lemma_tokens_nonempty(*inner);
            lemma_sum(*inner, ts, p + 1, st);
        },
        Arith::Bin(_, _, _) => {},
    }
}

/// The parser reads a product, whatever follows it but `==`, as the start
/// of a term: it goes on behind the product with the product's tree pushed.
proof fn lemma_product_prefix(e: Arith, ts: Seq<TokenView>, p: int, st: Seq<Node>)
    requires
        is_product(e),
        spells(ts, p, tokens_of(e)),
        kind_at(ts, p + tokens_of(e).len()) != Kind::Equal,
    ensures
        term_spec(ts, p, st) == term_rest_spec(ts, p + tokens_of(e).len(), st.push(tree_of(e))),
    decreases e, 1nat,
{
    lemma_tokens_nonempty(e);
    match e {
        Arith::Bin(op, l, r) => {
            let left = tokens_of(*l);
            let sign = seq![plain_token(op)];
            let right = tokens_of(*r);
            assert(tokens_of(e) == (left + sign) + right);
            lemma_spells_concat(ts, p, left + sign, right);
            lemma_spells_concat(ts, p, left, sign);
            assert(sign[0] == plain_token(op));
            assert(ts[p + left.len() + 0].kind == op);
            lemma_tokens_nonempty(*l);
            lemma_tokens_nonempty(*r);
            lemma_product_prefix(*l, ts, p, st);
            lemma_factor(*r, ts, p + left.len() + 1, st.push(tree_of(*l)));
            lemma_operate_pushed(op, st, tree_of(*l), tree_of(*r));
        },
        _ => {
            lemma_factor(e, ts, p, st);
        },
    }
}

/// A product that is followed by none of `*`, `/` and `==` is parsed as a
/// term.
proof fn lemma_product(e: Arith, ts: Seq<TokenView>, p: int, st: Seq<Node>)
    requires
        is_product(e),
        spells(ts, p, tokens_of(e)),
        kind_at(ts, p + tokens_of(e).len()) != Kind::Equal,
        kind_at(ts, p + tokens_of(e).len()) != Kind::Multi,
        kind_at(ts, p + tokens_of(e).len()) != Kind::Divi,
    ensures
        term_spec(ts, p, st) == Ok::<(int, Seq<Node>), SyntaxError>(
            (p + tokens_of(e).len(), st.push(tree_of(e))),
        ),
    decreases e, 2nat,
{
    lemma_product_prefix(e, ts, p, st);
}

/// The parser reads a sum, whatever follows it but `*`, `/` and `==`, as
/// the start of an expression: it goes on behind the sum with the sum's
/// tree pushed.
proof fn lemma_sum_prefix(e: Arith, ts: Seq<TokenView>, p: int, st: Seq<Node>)
    requires
        is_sum(e),
        spells(ts, p, tokens_of(e)),
        kind_at(ts, p + tokens_of(e).len()) != Kind::Equal,
        kind_at(ts, p + tokens_of(e).len()) != Kind::Multi,
        kind_at(ts, p + tokens_of(e).len()) != Kind::Divi,
    ensures
        expression_spec(ts, p, st) == expression_rest_spec(
            ts,
            p + tokens_of(e).len(),
            st.push(tree_of(e)),
        ),
    decreases e, 3nat,
{
    lemma_tokens_nonempty(e);
    match e {
        Arith::Bin(op, l, r) => {
            if op == Kind::Plus || op == Kind::Minus {
                let left = tokens_of(*l);
                let sign = seq![plain_token(op)];
                let right = tokens_of(*r);
                assert(tokens_of(e) == (left + sign) + right);
                lemma_spells_concat(ts, p, left + sign, right);
                lemma_spells_concat(ts, p, left, sign);
                assert(sign[0] == plain_token(op));
                assert(ts[p + left.len() + 0].kind == op);
                lemma_tokens_nonempty(*l);
                lemma_tokens_nonempty(*r);
                lemma_sum_prefix(*l, ts, p, st);
                lemma_product(*r, ts, p + left.len() + 1, st.push(tree_of(*l)));
                lemma_operate_pushed(op, st, tree_of(*l), tree_of(*r));
            } else {
                lemma_product(e, ts, p, st);
            }
        },
        _ => {
            lemma_product(e, ts, p, st);
        },
    }
}

/// A sum that no operator follows is parsed as an expression.
proof fn lemma_sum(e: Arith, ts: Seq<TokenView>, p: int, st: Seq<Node>)
    requires
        is_sum(e),
        spells(ts, p, tokens_of(e)),
        !follows_on(kind_at(ts, p + tokens_of(e).len())),
    ensures
        expression_spec(ts, p, st) == Ok::<(int, Seq<Node>), SyntaxError>(
            (p + tokens_of(e).len(), st.push(tree_of(e))),
        ),
    decreases e, 4nat,
{
    lemma_sum_prefix(e, ts, p, st);
}

/// Whether a token of this kind behind an expression makes the parser read
/// on: the four operators and `==`.
pub open spec fn follows_on(k: Kind) -> bool {
    k == Kind::Plus || k == Kind::Minus || k == Kind::Multi || k == Kind::Divi || k == Kind::Equal
}

/// The parser reads every arithmetic expression by the usual rules. Where
/// tokens spell the expression `e` from index `p` on and no operator
/// follows them, parsing an expression at `p` consumes exactly those
/// tokens and pushes one tree, and interpreting that tree gives the value
/// that `e` has when products are computed before sums, operators of one
/// rank from left to right and parentheses first, in 32-bit arithmetic with
/// unsigned division.
pub proof fn lemma_arithmetic_is_parsed_by_precedence(
    e: Arith,
    ts: Seq<TokenView>,
    p: int,
    st: Seq<Node>,
)
    requires
        is_sum(e),
        spells(ts, p, tokens_of(e)),
        !follows_on(kind_at(ts, p + tokens_of(e).len())),
    ensures
        expression_spec(ts, p, st) == Ok::<(int, Seq<Node>), SyntaxError>(
            (p + tokens_of(e).len(), st.push(tree_of(e))),
        ),
        eval_node(tree_of(e)) == value_of(e),
{
    lemma_sum(e, ts, p, st);
    lemma_tree_value(e);
}

/// The token of the keyword `print`.
pub open spec fn print_token() -> TokenView {
    TokenView { text: seq!['p', 'r', 'i', 'n', 't'], chr: ' ', kind: Kind::Print, val: 0 }
}

/// The tokens of the program that prints `e`: `print`, `(`, the tokens of
/// `e`, `)`, `;` and the end of the input.
pub open spec fn print_program(e: Arith) -> Seq<TokenView> {
    seq![print_token(), plain_token(Kind::Lparen)] + tokens_of(e) + seq![
        plain_token(Kind::Rparen),
        plain_token(Kind::Semicolon),
        plain_token(Kind::Endlist),
    ]
}

/// A program that prints an arithmetic expression is parsed to one print
/// statement, whose direct interpretation is the value that the expression
/// has by the usual rules.
pub proof fn lemma_printed_arithmetic_has_its_value(e: Arith)
    requires
        is_sum(e),
    ensures
        parse_spec(print_program(e)) == Ok::<Seq<Node>, SyntaxError>(
            seq![Node::Print(Box::new(tree_of(e)))],
        ),
        eval_node(Node::Print(Box::new(tree_of(e)))) == value_of(e),
{
    let head = seq![print_token(), plain_token(Kind::Lparen)];
    let mid = tokens_of(e);
    let tail = seq![
        plain_token(Kind::Rparen),
        plain_token(Kind::Semicolon),
        plain_token(Kind::Endlist),
    ];
    let ts = print_program(e);
    let n = mid.len() as int;
    lemma_tokens_nonempty(e);
    assert(ts.len() == n + 5);
    assert(ts[0] == print_token());
    assert(ts[1] == plain_token(Kind::Lparen));
    assert forall|i: int| 0 <= i < n implies ts[2 + i] == #[trigger] mid[i] by {
        assert((head + mid)[2 + i] == mid[i]);
    }
    assert(ts[2 + n] == tail[0]);
    assert(ts[3 + n] == tail[1]);
    assert(ts[4 + n] == tail[2]);
    assert(spells(ts, 2, mid));
    let empty = Seq::<Node>::empty();
    lemma_arithmetic_is_parsed_by_precedence(e, ts, 2, empty);
    assert(empty.push(tree_of(e)).drop_last() =~= empty);
    assert(empty.push(tree_of(e)).last() == tree_of(e));
    assert(print_spec(ts, 1, empty) == Ok::<(Node, int, Seq<Node>), SyntaxError>(
        (Node::Print(Box::new(tree_of(e))), n + 4, empty),
    ));
    assert(statement_spec(ts, 0, empty) == print_spec(ts, 1, empty));
    assert(program_spec(ts, n + 4, empty) == Ok::<Seq<Node>, SyntaxError>(Seq::empty()));
    assert(seq![Node::Print(Box::new(tree_of(e)))] + Seq::<Node>::empty() =~= seq![
        Node::Print(Box::new(tree_of(e))),
    ]);
}

} // verus!
