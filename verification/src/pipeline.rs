//! From the text of an arithmetic expression to what the compiled program
//! prints: the steps of the compiler, one after the other.
use vstd::prelude::*;
use crate::token::{Kind, LexError, TokenView};
use crate::token::{lemma_find_word, plain_token};
use crate::tokenizer::lex;
use crate::spelling::{joined, lemma_rejoin, proper, scannable};
use crate::ast::Node;
use crate::parser::{SyntaxError, parse_spec};
use crate::grammar::{Arith, is_factor, is_product, is_sum, print_program, print_token};
use crate::grammar::{lemma_printed_arithmetic_has_its_value, tokens_of};
use crate::grammar::{tree_of, value_of};
use crate::codegen::{CodegenError, LowerState, flush_spec, initial_state, lower_list_spec};
use crate::codegen::{lower_print_spec, lower_spec, lower_stmt_spec, lower_value_spec};
use crate::ir::Output;
use crate::meaning::{Held, World, meaning, printed, run_list, run_stmt, start_world, value_in};
use crate::correct::lemma_lowered_program_means_the_same;

verus! {

/// Whether no literal of the expression is negative. A source text writes
/// no negative literal.
pub open spec fn literals_can_be_written(e: Arith) -> bool
    decreases e,
{
    match e {
        Arith::Lit(v) => v >= 0,
        Arith::Paren(inner) => literals_can_be_written(*inner),
        Arith::Bin(_, l, r) => literals_can_be_written(*l) && literals_can_be_written(*r),
    }
}

/// Whether every operator of the expression is one of the four.
pub open spec fn operators_are_arithmetic(e: Arith) -> bool
    decreases e,
{
    match e {
        Arith::Lit(_) => true,
        Arith::Paren(inner) => operators_are_arithmetic(*inner),
        Arith::Bin(op, l, r) => (op == Kind::Plus || op == Kind::Minus || op == Kind::Multi || op
            == Kind::Divi) && operators_are_arithmetic(*l) && operators_are_arithmetic(*r),
    }
}

/// A sum has only the four operators.
pub proof fn lemma_sum_is_arithmetic(e: Arith)
    requires
        is_sum(e) || is_product(e) || is_factor(e),
    ensures
        operators_are_arithmetic(e),
    decreases e,
{
    match e {
        Arith::Lit(_) => {},
        Arith::Paren(inner) => {
            assert(is_product(e) ==> is_factor(e));
            assert(is_sum(e) ==> is_product(e));
            assert(is_factor(e));
            lemma_sum_is_arithmetic(*inner);
        },
        Arith::Bin(op, l, r) => {
            assert(!is_factor(e));
            if op == Kind::Plus || op == Kind::Minus {
                assert(!is_product(e));
                assert(is_sum(*l) && is_product(*r));
            } else {
                assert(is_sum(e) ==> is_product(e));
                assert(is_product(*l) && is_factor(*r));
            }
            lemma_sum_is_arithmetic(*l);
            lemma_sum_is_arithmetic(*r);
        },
    }
}

/// The tokens of an expression that can be written are tokens as the
/// tokenizer makes them.
pub proof fn lemma_tokens_scannable(e: Arith)
    requires
        operators_are_arithmetic(e),
        literals_can_be_written(e),
    ensures
        forall|i: int|
            0 <= i < tokens_of(e).len() ==> scannable(#[trigger] tokens_of(e)[i]) && tokens_of(
                e,
            )[i].kind != Kind::Endlist,
    decreases e,
{
    match e {
        Arith::Lit(v) => {},
        Arith::Paren(inner) => {
            lemma_tokens_scannable(*inner);
            let mid = tokens_of(*inner);
            assert forall|i: int| 0 <= i < tokens_of(e).len() implies scannable(
                #[trigger] tokens_of(e)[i],
            ) && tokens_of(e)[i].kind != Kind::Endlist by {
                if 1 <= i <= mid.len() {
                    assert(tokens_of(e)[i] == mid[i - 1]);
                }
            }
        },
        Arith::Bin(op, l, r) => {
            lemma_tokens_scannable(*l);
            lemma_tokens_scannable(*r);
            let left = tokens_of(*l);
            let right = tokens_of(*r);
            assert forall|i: int| 0 <= i < tokens_of(e).len() implies scannable(
                #[trigger] tokens_of(e)[i],
            ) && tokens_of(e)[i].kind != Kind::Endlist by {
                if i < left.len() {
                    assert(tokens_of(e)[i] == left[i]);
                } else if i > left.len() {
                    assert(tokens_of(e)[i] == right[i - left.len() - 1]);
                }
            }
        },
    }
}

/// The tokens of the program that prints an expression that can be
/// written are a proper sequence of tokens.
pub proof fn lemma_print_program_proper(e: Arith)
    requires
        operators_are_arithmetic(e),
        literals_can_be_written(e),
    ensures
        proper(print_program(e)),
{
    let ts = print_program(e);
    let head = seq![print_token(), plain_token(Kind::Lparen)];
    let mid = tokens_of(e);
    let n = mid.len() as int;
    lemma_tokens_scannable(e);
    lemma_find_word(print_token().text);
    assert(ts.len() == n + 5);
    assert forall|k: int| 0 <= k < ts.len() - 1 implies scannable(#[trigger] ts[k]) && ts[k].kind
        != Kind::Endlist by {
        if k == 0 {
            assert(ts[0] == print_token());
            let text = print_token().text;
            assert(text.len() == 5);
            assert(text[0] == 'p' && text[1] == 'r' && text[2] == 'i' && text[3] == 'n' && text[4]
                == 't');
        } else if k == 1 {
            assert(ts[1] == plain_token(Kind::Lparen));
        } else if k < n + 2 {
            assert((head + mid)[k] == mid[k - 2]);
            assert(ts[k] == mid[k - 2]);
        } else if k == n + 2 {
            assert(ts[k] == plain_token(Kind::Rparen));
        } else {
            assert(ts[k] == plain_token(Kind::Semicolon));
        }
    }
    assert(ts[n + 4] == plain_token(Kind::Endlist));
}

/// The tree of an arithmetic expression has the value of the expression,
/// whatever the variables hold, and it can be lowered from any state.
pub proof fn lemma_arithmetic_tree(e: Arith, env: Map<Seq<char>, Held>, s: LowerState)
    requires
        operators_are_arithmetic(e),
    ensures
        value_in(tree_of(e), env) == value_of(e),
        lower_value_spec(s, tree_of(e)) is Ok,
    decreases e,
{
    match e {
        Arith::Lit(_) => {},
        Arith::Paren(inner) => {
            lemma_arithmetic_tree(*inner, env, s);
        },
        Arith::Bin(op, l, r) => {
            lemma_arithmetic_tree(*l, env, s);
            let sa = lower_value_spec(s, tree_of(*l)).unwrap();
            lemma_arithmetic_tree(*r, env, sa);
        },
    }
}

/// The whole way of an arithmetic expression through the compiler. The
/// text that spells the program `print(e);` token by token is split into
/// the tokens of that program; those are parsed to one print statement of
/// the tree of `e`; that statement means to print the value that `e` has
/// by the usual rules; it can be lowered, and the program that it is
/// lowered to prints exactly that value when it runs.
pub proof fn lemma_arithmetic_goes_through(e: Arith)
    requires
        is_sum(e),
        literals_can_be_written(e),
        value_of(e) is Some,
    ensures
        lex(joined(print_program(e))) == Ok::<Seq<TokenView>, LexError>(print_program(e)),
        parse_spec(print_program(e)) == Ok::<Seq<Node>, SyntaxError>(
            seq![Node::Print(Box::new(tree_of(e)))],
        ),
        meaning(seq![Node::Print(Box::new(tree_of(e)))]) == Some(
            seq![Output::Int(value_of(e).unwrap())],
        ),
        lower_spec(seq![Node::Print(Box::new(tree_of(e)))]) is Ok,
        lower_spec(seq![Node::Print(Box::new(tree_of(e)))]).unwrap().fits() ==> lower_spec(
            seq![Node::Print(Box::new(tree_of(e)))],
        ).unwrap().run() == Some(seq![Output::Int(value_of(e).unwrap())]),
{
    let program = seq![Node::Print(Box::new(tree_of(e)))];
    lemma_sum_is_arithmetic(e);
    lemma_print_program_proper(e);
    lemma_rejoin(print_program(e), Seq::empty());
    assert(Seq::<char>::empty() + joined(print_program(e)) =~= joined(print_program(e)));
    lemma_printed_arithmetic_has_its_value(e);
    lemma_arithmetic_tree(e, Map::empty(), initial_state());
    assert(tree_of(e) is Int || tree_of(e) is BinaryOp) by {
        lemma_tree_shape(e);
    }
    let out = seq![Output::Int(value_of(e).unwrap())];
    let w0 = start_world();
    assert(printed(tree_of(e), w0.env) == Some(out));
    let w1 = World { env: w0.env, out: w0.out + out, closed: false };
    assert(program[0] == Node::Print(Box::new(tree_of(e))));
    assert(run_stmt(program[0], w0) == Some(w1));
    assert(run_list(program, 1, w1) == Some(w1));
    assert(run_list(program, 0, w0) == Some(w1));
    assert(w0.out + out =~= out);
    let s0 = initial_state();
    let none = Seq::<usize>::empty();
    assert(flush_spec(s0, none) == s0);
    assert(lower_print_spec(s0, tree_of(e)) is Ok);
    let s1 = lower_print_spec(s0, tree_of(e)).unwrap();
    assert(lower_stmt_spec(s0, none, program[0]) == Ok::<(LowerState, Seq<usize>), CodegenError>(
        (s1, none),
    ));
    assert(lower_list_spec(s1, program, 1, none) is Ok);
    assert(lower_list_spec(s0, program, 0, none) is Ok);
    if lower_spec(program).unwrap().fits() {
        lemma_lowered_program_means_the_same(program);
    }
}

/// The tree of an arithmetic expression is a literal or an operation.
pub proof fn lemma_tree_shape(e: Arith)
    ensures
        tree_of(e) is Int || tree_of(e) is BinaryOp,
    decreases e,
{
    match e {
        Arith::Paren(inner) => {
            lemma_tree_shape(*inner);
        },
        _ => {},
    }
}

} // verus!
