//! The parser: turns a sequence of tokens into the statements of a program
//! by recursive descent, with an explicit stack of operands.
use vstd::prelude::*;
use crate::token::{Kind, Token, TokenView, token_views};
use crate::ast::{Assign, BinaryOp, Char, Else, Equal, Expr, Ident, If, Int, Node, Print, Str};
use crate::ast::{lemma_branch_view, lemma_else_view, nodes_of};

verus! {

/// Why a sequence of tokens is no program.
#[derive(PartialEq, Eq, Debug, Copy, Clone, Structural)]
pub enum SyntaxError {
    /// An identifier opens a statement and no `=` follows it.
    MissingAssign,
    /// A statement does not end in `;`.
    MissingSemicolon,
    /// `print` is not followed by `(`.
    MissingLparen,
    /// An opened parenthesis is not closed.
    MissingRparen,
    /// The body of a branch does not open with `{`.
    MissingLbrace,
    /// The body of a branch is not closed by `}`.
    MissingRbrace,
    /// An operand was needed and the operand stack was empty.
    StackUnderflow,
    /// The value assigned is neither a number, a character nor a string.
    UnknownValueKind,
}

/// The kind of the token at index `p`; behind the last token every token is
/// the end-of-input token.
pub open spec fn kind_at(ts: Seq<TokenView>, p: int) -> Kind {
    if 0 <= p < ts.len() {
        ts[p].kind
    } else {
        Kind::Endlist
    }
}

/// The index of the next token: one further, but never behind the end.
pub open spec fn step(ts: Seq<TokenView>, p: int) -> int {
    if p < ts.len() {
        p + 1
    } else {
        p
    }
}

/// How many tokens are left from index `p` on.
pub open spec fn left(ts: Seq<TokenView>, p: int) -> nat {
    if p < ts.len() {
        (ts.len() - p) as nat
    } else {
        0
    }
}

/// The outcome of parsing part of an expression: the index reached and the
/// operand stack, or an error.
pub type Parsed = Result<(int, Seq<Node>), SyntaxError>;

/// The outcome of parsing a statement: its tree, the index reached and the
/// operand stack, or an error.
pub type ParsedStmt = Result<(Node, int, Seq<Node>), SyntaxError>;

/// The outcome of parsing a list of statements: their trees, the index
/// reached and the operand stack, or an error.
pub type ParsedList = Result<(Seq<Node>, int, Seq<Node>), SyntaxError>;

/// Reduction by a binary operator: the two operands on top of the stack
/// give way to one operation node, the lower operand on its left.
pub open spec fn operate_spec(op: Kind, st: Seq<Node>) -> Result<Seq<Node>, SyntaxError> {
    if st.len() < 2 {
        Err(SyntaxError::StackUnderflow)
    } else {
        Ok(
            st.take(st.len() - 2).push(
                Node::BinaryOp(op, Box::new(st[st.len() - 2]), Box::new(st[st.len() - 1])),
            ),
        )
    }
}

/// The operand that a literal or identifier token stands for, if it is one.
pub open spec fn operand_of(t: TokenView) -> Option<Node> {
    match t.kind {
        Kind::Ident => Some(Node::Ident(t.text, Kind::Ident)),
        Kind::Int => Some(Node::Int(t.val)),
        Kind::Char => Some(Node::Char(t.chr)),
        Kind::Str => Some(Node::Str(t.text)),
        _ => None,
    }
}

/// A factor without a following equality test: a literal or identifier
/// pushes its operand; a parenthesis encloses an expression and must be
/// closed; any other token is passed over and pushes nothing.
pub open spec fn primary_spec(ts: Seq<TokenView>, p: int, st: Seq<Node>) -> Parsed
    decreases left(ts, p), 0int,
{
    if kind_at(ts, p) == Kind::Lparen {
        match expression_spec(ts, p + 1, st) {
            Err(e) => Err(e),
            Ok((pos2, st2)) => if kind_at(ts, pos2) != Kind::Rparen {
                Err(SyntaxError::MissingRparen)
            } else {
                Ok((step(ts, pos2), st2))
            },
        }
    } else if 0 <= p < ts.len() && operand_of(ts[p]) is Some {
        Ok((step(ts, p), st.push(operand_of(ts[p])->0)))
    } else {
        Ok((step(ts, p), st))
    }
}

/// A factor: a primary and, where `==` follows it, the expression behind
/// the `==`. The operand on top of the stack when `==` is met is the left
/// side of the test, the one on top after the expression its right side.
pub open spec fn factor_spec(ts: Seq<TokenView>, p: int, st: Seq<Node>) -> Parsed
    decreases left(ts, p), 1int,
{
    match primary_spec(ts, p, st) {
        Err(e) => Err(e),
        Ok((pos2, st2)) => if kind_at(ts, pos2) == Kind::Equal && pos2 >= p {
            if st2.len() == 0 {
                Err(SyntaxError::StackUnderflow)
            } else {
                match expression_spec(ts, pos2 + 1, st2.drop_last()) {
                    Err(e) => Err(e),
                    Ok((pos3, st3)) => if st3.len() == 0 {
                        Err(SyntaxError::StackUnderflow)
                    } else {
                        Ok(
                            (
                                pos3,
                                st3.drop_last().push(
                                    Node::Equal(Box::new(st2.last()), Box::new(st3.last())),
                                ),
                            ),
                        )
                    },
                }
            }
        } else {
            Ok((pos2, st2))
        },
    }
}

/// The rest of a term: as long as `*` or `/` follows, one more factor and
/// the reduction by that operator.
pub open spec fn term_rest_spec(ts: Seq<TokenView>, p: int, st: Seq<Node>) -> Parsed
    decreases left(ts, p), 2int,
{
    let op = kind_at(ts, p);
    if op == Kind::Multi || op == Kind::Divi {
        match factor_spec(ts, p + 1, st) {
            Err(e) => Err(e),
            Ok((pos2, st2)) => match operate_spec(op, st2) {
                Err(e) => Err(e),
                Ok(st3) => if pos2 > p {
                    term_rest_spec(ts, pos2, st3)
                } else {
                    Ok((pos2, st3))
                },
            },
        }
    } else {
        Ok((p, st))
    }
}

/// A term: factors joined by `*` and `/`, grouped from the left.
pub open spec fn term_spec(ts: Seq<TokenView>, p: int, st: Seq<Node>) -> Parsed
    decreases left(ts, p), 3int,
{
    match factor_spec(ts, p, st) {
        Err(e) => Err(e),
        Ok((pos2, st2)) => if pos2 >= p {
            term_rest_spec(ts, pos2, st2)
        } else {
            Ok((pos2, st2))
        },
    }
}

/// The rest of an expression: as long as `+` or `-` follows, one more term
/// and the reduction by that operator.
pub open spec fn expression_rest_spec(ts: Seq<TokenView>, p: int, st: Seq<Node>) -> Parsed
    decreases left(ts, p), 4int,
{
    let op = kind_at(ts, p);
    if op == Kind::Plus || op == Kind::Minus {
        match term_spec(ts, p + 1, st) {
            Err(e) => Err(e),
            Ok((pos2, st2)) => match operate_spec(op, st2) {
                Err(e) => Err(e),
                Ok(st3) => if pos2 > p {
                    expression_rest_spec(ts, pos2, st3)
                } else {
                    Ok((pos2, st3))
                },
            },
        }
    } else {
        Ok((p, st))
    }
}

/// An expression: terms joined by `+` and `-`, grouped from the left. The
/// tests of the index against its earlier value in these functions always
/// hold, since parsing never moves back (`lemma_expression_moves_on`); they
/// bound the recursion.
pub open spec fn expression_spec(ts: Seq<TokenView>, p: int, st: Seq<Node>) -> Parsed
    decreases left(ts, p), 5int,
{
    match term_spec(ts, p, st) {
        Err(e) => Err(e),
        Ok((pos2, st2)) => if pos2 >= p {
            expression_rest_spec(ts, pos2, st2)
        } else {
            Ok((pos2, st2))
        },
    }
}

/// The kind of variable that a value of this shape declares: a number for
/// an integer literal or an arithmetic operation, a character for a
/// character literal, a string for a string literal.
pub open spec fn value_kind(n: Node) -> Option<Kind> {
    match n {
        Node::Int(_) => Some(Kind::Int),
        Node::BinaryOp(_, _, _) => Some(Kind::Int),
        Node::Char(_) => Some(Kind::Char),
        Node::Str(_) => Some(Kind::Str),
        _ => None,
    }
}

/// An assignment, from the token behind its `=` on: the expression, the
/// kind that its shape declares for `name`, and the closing `;`.
pub open spec fn assign_spec(ts: Seq<TokenView>, name: Seq<char>, p: int, st: Seq<Node>) -> ParsedStmt
    decreases left(ts, p), 6int,
{
    match expression_spec(ts, p, st) {
        Err(e) => Err(e),
        Ok((pos2, st2)) => if st2.len() == 0 {
            Err(SyntaxError::StackUnderflow)
        } else if value_kind(st2.last()) is None {
            Err(SyntaxError::UnknownValueKind)
        } else if kind_at(ts, pos2) != Kind::Semicolon {
            Err(SyntaxError::MissingSemicolon)
        } else {
            Ok(
                (
                    Node::Assign(
                        Box::new(Node::Ident(name, value_kind(st2.last())->0)),
                        Box::new(st2.last()),
                    ),
                    step(ts, pos2),
                    st2.drop_last(),
                ),
            )
        },
    }
}

/// A print statement, from the token behind `print` on: `(`, the
/// expression, `)` and `;`.
pub open spec fn print_spec(ts: Seq<TokenView>, p: int, st: Seq<Node>) -> ParsedStmt
    decreases left(ts, p), 6int,
{
    if kind_at(ts, p) != Kind::Lparen {
        Err(SyntaxError::MissingLparen)
    } else {
        match expression_spec(ts, p + 1, st) {
            Err(e) => Err(e),
            Ok((pos2, st2)) => if st2.len() == 0 {
                Err(SyntaxError::StackUnderflow)
            } else if kind_at(ts, pos2) != Kind::Rparen {
                Err(SyntaxError::MissingRparen)
            } else if kind_at(ts, step(ts, pos2)) != Kind::Semicolon {
                Err(SyntaxError::MissingSemicolon)
            } else {
                Ok((Node::Print(Box::new(st2.last())), step(ts, step(ts, pos2)), st2.drop_last()))
            },
        }
    }
}

/// One statement. An identifier opens an assignment, `print` a print
/// statement, `if` a branch, `else if` a further branch and `else` the final
/// branch of a chain. Any other token is passed over and gives the empty
/// statement.
pub open spec fn statement_spec(ts: Seq<TokenView>, p: int, st: Seq<Node>) -> ParsedStmt
    decreases left(ts, p), 7int,
{
    let k = kind_at(ts, p);
    if k == Kind::Ident {
        if kind_at(ts, p + 1) != Kind::Assign {
            Err(SyntaxError::MissingAssign)
        } else {
            assign_spec(ts, ts[p].text, p + 2, st)
        }
    } else if k == Kind::Print {
        print_spec(ts, p + 1, st)
    } else if k == Kind::If {
        match branch_spec(ts, p + 1, st) {
            Err(e) => Err(e),
            Ok((cond, body, pos2, st2)) => Ok((Node::If(Box::new(cond), body), pos2, st2)),
        }
    } else if k == Kind::Else {
        if kind_at(ts, p + 1) == Kind::If {
            match branch_spec(ts, p + 2, st) {
                Err(e) => Err(e),
                Ok((cond, body, pos2, st2)) => Ok((Node::ElseIf(Box::new(cond), body), pos2, st2)),
            }
        } else {
            match block_spec(ts, p + 1, st) {
                Err(e) => Err(e),
                Ok((body, pos2, st2)) => Ok((Node::Else(body), pos2, st2)),
            }
        }
    } else {
        Ok((Node::Nope, step(ts, p), st))
    }
}

/// A condition and the block that it guards.
pub open spec fn branch_spec(ts: Seq<TokenView>, p: int, st: Seq<Node>) -> Result<
    (Node, Seq<Node>, int, Seq<Node>),
    SyntaxError,
>
    decreases left(ts, p), 10int,
{
    match expression_spec(ts, p, st) {
        Err(e) => Err(e),
        Ok((pos2, st2)) => if st2.len() == 0 {
            Err(SyntaxError::StackUnderflow)
        } else if pos2 >= p {
            match block_spec(ts, pos2, st2.drop_last()) {
                Err(e) => Err(e),
                Ok((body, pos3, st3)) => Ok((st2.last(), body, pos3, st3)),
            }
        } else {
            Err(SyntaxError::MissingLbrace)
        },
    }
}

/// A block: `{`, statements, `}`.
pub open spec fn block_spec(ts: Seq<TokenView>, p: int, st: Seq<Node>) -> ParsedList
    decreases left(ts, p), 9int,
{
    if kind_at(ts, p) != Kind::Lbrace {
        Err(SyntaxError::MissingLbrace)
    } else {
        body_spec(ts, p + 1, st)
    }
}

/// The statements of a block up to its closing `}`, which must come before
/// the end of the input.
pub open spec fn body_spec(ts: Seq<TokenView>, p: int, st: Seq<Node>) -> ParsedList
    decreases left(ts, p), 8int,
{
    let k = kind_at(ts, p);
    if k == Kind::Rbrace {
        Ok((Seq::empty(), step(ts, p), st))
    } else if k == Kind::Endlist {
        Err(SyntaxError::MissingRbrace)
    } else {
        match statement_spec(ts, p, st) {
            Err(e) => Err(e),
            Ok((node, pos2, st2)) => if pos2 <= p {
                Err(SyntaxError::MissingRbrace)
            } else {
                match body_spec(ts, pos2, st2) {
                    Err(e) => Err(e),
                    Ok((nodes, pos3, st3)) => Ok((seq![node] + nodes, pos3, st3)),
                }
            },
        }
    }
}

/// The statements of a program from index `p` on. The last token, which
/// closes the input, opens no statement.
pub open spec fn program_spec(ts: Seq<TokenView>, p: int, st: Seq<Node>) -> Result<
    Seq<Node>,
    SyntaxError,
>
    decreases left(ts, p), 11int,
{
    if 0 <= p && p + 1 < ts.len() {
        match statement_spec(ts, p, st) {
            Err(e) => Err(e),
            Ok((node, pos2, st2)) => if pos2 <= p {
                Ok(seq![node])
            } else {
                match program_spec(ts, pos2, st2) {
                    Err(e) => Err(e),
                    Ok(nodes) => Ok(seq![node] + nodes),
                }
            },
        }
    } else {
        Ok(Seq::empty())
    }
}

/// The program that a sequence of tokens spells, or the first syntax error
/// in it.
pub open spec fn parse_spec(ts: Seq<TokenView>) -> Result<Seq<Node>, SyntaxError> {
    program_spec(ts, 0, Seq::empty())
}

/// Parsing a primary never moves back, and moves past a token where one is
/// there.
pub proof fn lemma_primary_moves_on(ts: Seq<TokenView>, p: int, st: Seq<Node>)
    requires
        primary_spec(ts, p, st) is Ok,
    ensures
        step(ts, p) <= primary_spec(ts, p, st).unwrap().0,
    decreases left(ts, p), 0int,
{
    if kind_at(ts, p) == Kind::Lparen {
        lemma_expression_moves_on(ts, p + 1, st);
    }
}

/// Parsing a factor never moves back, and moves past a token where one is
/// there.
pub proof fn lemma_factor_moves_on(ts: Seq<TokenView>, p: int, st: Seq<Node>)
    requires
        factor_spec(ts, p, st) is Ok,
    ensures
        step(ts, p) <= factor_spec(ts, p, st).unwrap().0,
    decreases left(ts, p), 1int,
{
    lemma_primary_moves_on(ts, p, st);
    let (pos2, st2) = primary_spec(ts, p, st).unwrap();
    if kind_at(ts, pos2) == Kind::Equal && pos2 >= p {
        lemma_expression_moves_on(ts, pos2 + 1, st2.drop_last());
    }
}

/// Parsing the rest of a term never moves back.
pub proof fn lemma_term_rest_moves_on(ts: Seq<TokenView>, p: int, st: Seq<Node>)
    requires
        term_rest_spec(ts, p, st) is Ok,
    ensures
        p <= term_rest_spec(ts, p, st).unwrap().0,
    decreases left(ts, p), 2int,
{
    let op = kind_at(ts, p);
    if op == Kind::Multi || op == Kind::Divi {
        lemma_factor_moves_on(ts, p + 1, st);
        let (pos2, st2) = factor_spec(ts, p + 1, st).unwrap();
        let st3 = operate_spec(op, st2).unwrap();
        if pos2 > p {
            lemma_term_rest_moves_on(ts, pos2, st3);
        }
    }
}

/// Parsing a term never moves back, and moves past a token where one is
/// there.
pub proof fn lemma_term_moves_on(ts: Seq<TokenView>, p: int, st: Seq<Node>)
    requires
        term_spec(ts, p, st) is Ok,
    ensures
        step(ts, p) <= term_spec(ts, p, st).unwrap().0,
    decreases left(ts, p), 3int,
{
    lemma_factor_moves_on(ts, p, st);
    let (pos2, st2) = factor_spec(ts, p, st).unwrap();
    if pos2 >= p {
        lemma_term_rest_moves_on(ts, pos2, st2);
    }
}

/// Parsing the rest of an expression never moves back.
pub proof fn lemma_expression_rest_moves_on(ts: Seq<TokenView>, p: int, st: Seq<Node>)
    requires
        expression_rest_spec(ts, p, st) is Ok,
    ensures
        p <= expression_rest_spec(ts, p, st).unwrap().0,
    decreases left(ts, p), 4int,
{
    let op = kind_at(ts, p);
    if op == Kind::Plus || op == Kind::Minus {
        lemma_term_moves_on(ts, p + 1, st);
        let (pos2, st2) = term_spec(ts, p + 1, st).unwrap();
        let st3 = operate_spec(op, st2).unwrap();
        if pos2 > p {
            lemma_expression_rest_moves_on(ts, pos2, st3);
        }
    }
}

/// Parsing an expression never moves back, and moves past a token where
/// one is there. So the tests of the index against its earlier value in
/// the functions above always hold.
pub proof fn lemma_expression_moves_on(ts: Seq<TokenView>, p: int, st: Seq<Node>)
    requires
        expression_spec(ts, p, st) is Ok,
    ensures
        step(ts, p) <= expression_spec(ts, p, st).unwrap().0,
    decreases left(ts, p), 5int,
{
    lemma_term_moves_on(ts, p, st);
    let (pos2, st2) = term_spec(ts, p, st).unwrap();
    if pos2 >= p {
        lemma_expression_rest_moves_on(ts, pos2, st2);
    }
}

/// Parsing a statement moves past a token where one is there, and parsing
/// a block or a branch never moves back. So the tests of the index against
/// its earlier value in the functions above always hold.
pub proof fn lemma_statement_moves_on(ts: Seq<TokenView>, p: int, st: Seq<Node>)
    requires
        statement_spec(ts, p, st) is Ok,
    ensures
        step(ts, p) <= statement_spec(ts, p, st).unwrap().1,
    decreases left(ts, p), 7int,
{
    let k = kind_at(ts, p);
    if k == Kind::Ident {
        lemma_expression_moves_on(ts, p + 2, st);
    } else if k == Kind::Print {
        lemma_expression_moves_on(ts, p + 2, st);
    } else if k == Kind::If {
        lemma_branch_moves_on(ts, p + 1, st);
    } else if k == Kind::Else {
        if kind_at(ts, p + 1) == Kind::If {
            lemma_branch_moves_on(ts, p + 2, st);
        } else {
            lemma_block_moves_on(ts, p + 1, st);
        }
    }
}

/// Parsing a branch never moves back.
pub proof fn lemma_branch_moves_on(ts: Seq<TokenView>, p: int, st: Seq<Node>)
    requires
        branch_spec(ts, p, st) is Ok,
    ensures
        p <= branch_spec(ts, p, st).unwrap().2,
    decreases left(ts, p), 10int,
{
    lemma_expression_moves_on(ts, p, st);
    let (pos2, st2) = expression_spec(ts, p, st).unwrap();
    lemma_block_moves_on(ts, pos2, st2.drop_last());
}

/// Parsing a block never moves back.
pub proof fn lemma_block_moves_on(ts: Seq<TokenView>, p: int, st: Seq<Node>)
    requires
        block_spec(ts, p, st) is Ok,
    ensures
        p <= block_spec(ts, p, st).unwrap().1,
    decreases left(ts, p), 9int,
{
    lemma_body_moves_on(ts, p + 1, st);
}

/// Parsing the statements of a block never moves back.
pub proof fn lemma_body_moves_on(ts: Seq<TokenView>, p: int, st: Seq<Node>)
    requires
        body_spec(ts, p, st) is Ok,
    ensures
        p <= body_spec(ts, p, st).unwrap().1,
    decreases left(ts, p), 8int,
{
    let k = kind_at(ts, p);
    if k != Kind::Rbrace && k != Kind::Endlist {
        lemma_statement_moves_on(ts, p, st);
        let (node, pos2, st2) = statement_spec(ts, p, st).unwrap();
        lemma_body_moves_on(ts, pos2, st2);
    }
}

/// Whether a parsing step that answered `r` and left the index at `index`
/// and the operand stack as `stack` did what `expected` says.
pub open spec fn parsed_as(
    r: Result<(), SyntaxError>,
    index: usize,
    stack: Seq<Expr>,
    expected: Parsed,
) -> bool {
    match expected {
        Ok((p, st)) => r is Ok && index == p && nodes_of(stack) == st,
        Err(e) => r == Err::<(), SyntaxError>(e),
    }
}

/// The statements `done`, followed by the outcome `rest` of parsing on.
pub open spec fn list_after(done: Seq<Node>, rest: ParsedList) -> ParsedList {
    match rest {
        Ok((nodes, p, st)) => Ok((done + nodes, p, st)),
        Err(e) => Err(e),
    }
}

/// The statements `done`, followed by the outcome `rest` of parsing the
/// rest of the program.
pub open spec fn program_after(done: Seq<Node>, rest: Result<Seq<Node>, SyntaxError>) -> Result<
    Seq<Node>,
    SyntaxError,
> {
    match rest {
        Ok(nodes) => Ok(done + nodes),
        Err(e) => Err(e),
    }
}

/// The kind of the token at `index`.
fn kind_of(token_list: &Vec<Token>, index: usize) -> (k: Kind)
    ensures
        k == kind_at(token_views(token_list@), index as int),
{
    if index < token_list.len() {
        token_list[index].kind
    } else {
        Kind::Endlist
    }
}

/// Moves the index to the next token.
fn next_tkn(index: &mut usize, token_list: &Vec<Token>)
    ensures
        *final(index) == step(token_views(token_list@), *old(index) as int),
{
    if *index < token_list.len() {
        *index = *index + 1;
    }
}

/// Requires the token at the index to be of kind `tp`, and then moves on if
/// `next` is set; answers `error` where it is of another kind.
fn check_tkn(
    index: &mut usize,
    token_list: &Vec<Token>,
    tp: Kind,
    error: SyntaxError,
    next: bool,
) -> (r: Result<(), SyntaxError>)
    ensures
        kind_at(token_views(token_list@), *old(index) as int) != tp ==> r == Err::<
            (),
            SyntaxError,
        >(error),
        kind_at(token_views(token_list@), *old(index) as int) == tp ==> r is Ok && *final(index)
            == (if next {
            step(token_views(token_list@), *old(index) as int)
        } else {
            *old(index) as int
        }),
{
    if kind_of(token_list, *index) != tp {
        return Err(error);
    }
    if next {
        next_tkn(index, token_list);
    }
    Ok(())
}

/// Takes the two operands on top of the stack and pushes the operation `op`
/// on them.
fn operate(op: Kind, stack: &mut Vec<Expr>) -> (r: Result<(), SyntaxError>)
    ensures
        match operate_spec(op, nodes_of(old(stack)@)) {
            Ok(st) => r is Ok && nodes_of(final(stack)@) == st,
            Err(e) => r == Err::<(), SyntaxError>(e),
        },
{
    let d2: Expr = match stack.pop() {
        None => {
            return Err(SyntaxError::StackUnderflow);
        },
        Some(expr) => expr,
    };
    let d1: Expr = match stack.pop() {
        None => {
            return Err(SyntaxError::StackUnderflow);
        },
        Some(expr) => expr,
    };
    stack.push(Expr::BinaryOp(Box::new(BinaryOp::new(op, d1, d2))));
    proof {
        let st = nodes_of(old(stack)@);
        assert(nodes_of(stack@) =~= operate_spec(op, st).unwrap());
    }
    Ok(())
}

/// Parses a factor.
fn factor(index: &mut usize, token_list: &Vec<Token>, stack: &mut Vec<Expr>) -> (r: Result<
    (),
    SyntaxError,
>)
    requires
        *old(index) <= token_list@.len(),
    ensures
        parsed_as(
            r,
            *final(index),
            final(stack)@,
            factor_spec(token_views(token_list@), *old(index) as int, nodes_of(old(stack)@)),
        ),
        r is Ok ==> step(token_views(token_list@), *old(index) as int) <= *final(index)
            <= token_list@.len(),
    decreases left(token_views(token_list@), *old(index) as int), 1int,
{
    let ghost ts = token_views(token_list@);
    let ghost pos0 = *index as int;
    let ghost st0 = nodes_of(stack@);
    let kind: Kind = kind_of(token_list, *index);
    if kind == Kind::Lparen {
        next_tkn(index, token_list);
        match expression(index, token_list, stack) {
            Err(e) => {
                return Err(e);
            },
            Ok(()) => {},
        }
        match check_tkn(index, token_list, Kind::Rparen, SyntaxError::MissingRparen, false) {
            Err(e) => {
                return Err(e);
            },
            Ok(()) => {},
        }
    } else if kind == Kind::Ident {
        let token: &Token = &token_list[*index];
        stack.push(Expr::Ident(Box::new(Ident::new(token.text.clone(), token.kind))));
        assert(nodes_of(stack@) =~= st0.push(operand_of(ts[pos0])->0));
    } else if kind == Kind::Int {
        let token: &Token = &token_list[*index];
        stack.push(Expr::Int(Int::new(token.val)));
        assert(nodes_of(stack@) =~= st0.push(operand_of(ts[pos0])->0));
    } else if kind == Kind::Char {
        let token: &Token = &token_list[*index];
        stack.push(Expr::Char(Char::new(token.chr)));
        assert(nodes_of(stack@) =~= st0.push(operand_of(ts[pos0])->0));
    } else if kind == Kind::Str {
        let token: &Token = &token_list[*index];
        stack.push(Expr::Str(Str::new(token.text.clone())));
        assert(nodes_of(stack@) =~= st0.push(operand_of(ts[pos0])->0));
    }
    next_tkn(index, token_list);
    assert(parsed_as(Ok(()), *index, stack@, primary_spec(ts, pos0, st0)));
    if kind_of(token_list, *index) == Kind::Equal {
        let left_expr: Expr = match stack.pop() {
            None => {
                return Err(SyntaxError::StackUnderflow);
            },
            Some(expr) => expr,
        };
        let ghost st2 = nodes_of(stack@);
        assert(st2 =~= primary_spec(ts, pos0, st0).unwrap().1.drop_last());
        next_tkn(index, token_list);
        match expression(index, token_list, stack) {
            Err(e) => {
                return Err(e);
            },
            Ok(()) => {},
        }
        let ghost st3 = nodes_of(stack@);
        let right_expr: Expr = match stack.pop() {
            None => {
                return Err(SyntaxError::StackUnderflow);
            },
            Some(expr) => expr,
        };
        stack.push(Expr::Equal(Box::new(Equal::new(left_expr, right_expr))));
        assert(nodes_of(stack@) =~= st3.drop_last().push(
            Node::Equal(Box::new(left_expr@), Box::new(st3.last())),
        ));
    }
    Ok(())
}

/// Parses a term: factors joined by `*` and `/`.
fn term(index: &mut usize, token_list: &Vec<Token>, stack: &mut Vec<Expr>) -> (r: Result<
    (),
    SyntaxError,
>)
    requires
        *old(index) <= token_list@.len(),
    ensures
        parsed_as(
            r,
            *final(index),
            final(stack)@,
            term_spec(token_views(token_list@), *old(index) as int, nodes_of(old(stack)@)),
        ),
        r is Ok ==> step(token_views(token_list@), *old(index) as int) <= *final(index)
            <= token_list@.len(),
    decreases left(token_views(token_list@), *old(index) as int), 3int,
{
    let ghost ts = token_views(token_list@);
    let ghost pos0 = *index as int;
    let ghost st0 = nodes_of(stack@);
    match factor(index, token_list, stack) {
        Err(e) => {
            return Err(e);
        },
        Ok(()) => {},
    }
    while kind_of(token_list, *index) == Kind::Multi || kind_of(token_list, *index) == Kind::Divi
        invariant
            ts == token_views(token_list@),
            pos0 == *old(index),
            st0 == nodes_of(old(stack)@),
            step(ts, pos0) <= *index <= token_list@.len(),
            term_spec(ts, pos0, st0) == term_rest_spec(ts, *index as int, nodes_of(stack@)),
        decreases token_list@.len() - *index,
    {
        let op: Kind = kind_of(token_list, *index);
        next_tkn(index, token_list);
        match factor(index, token_list, stack) {
            Err(e) => {
                return Err(e);
            },
            Ok(()) => {},
        }
        match operate(op, stack) {
            Err(e) => {
                return Err(e);
            },
            Ok(()) => {},
        }
    }
    Ok(())
}

/// Parses an expression: terms joined by `+` and `-`.
fn expression(index: &mut usize, token_list: &Vec<Token>, stack: &mut Vec<Expr>) -> (r: Result<
    (),
    SyntaxError,
>)
    requires
        *old(index) <= token_list@.len(),
    ensures
        parsed_as(
            r,
            *final(index),
            final(stack)@,
            expression_spec(token_views(token_list@), *old(index) as int, nodes_of(old(stack)@)),
        ),
        r is Ok ==> step(token_views(token_list@), *old(index) as int) <= *final(index)
            <= token_list@.len(),
    decreases left(token_views(token_list@), *old(index) as int), 5int,
{
    let ghost ts = token_views(token_list@);
    let ghost pos0 = *index as int;
    let ghost st0 = nodes_of(stack@);
    match term(index, token_list, stack) {
        Err(e) => {
            return Err(e);
        },
        Ok(()) => {},
    }
    while kind_of(token_list, *index) == Kind::Plus || kind_of(token_list, *index) == Kind::Minus
        invariant
            ts == token_views(token_list@),
            pos0 == *old(index),
            st0 == nodes_of(old(stack)@),
            step(ts, pos0) <= *index <= token_list@.len(),
            expression_spec(ts, pos0, st0) == expression_rest_spec(
                ts,
                *index as int,
                nodes_of(stack@),
            ),
        decreases token_list@.len() - *index,
    {
        let op: Kind = kind_of(token_list, *index);
        next_tkn(index, token_list);
        match term(index, token_list, stack) {
            Err(e) => {
                return Err(e);
            },
            Ok(()) => {},
        }
        match operate(op, stack) {
            Err(e) => {
                return Err(e);
            },
            Ok(()) => {},
        }
    }
    Ok(())
}

/// Parses the statements of a block, with its braces.
fn block(index: &mut usize, token_list: &Vec<Token>, stack: &mut Vec<Expr>) -> (r: Result<
    Vec<Expr>,
    SyntaxError,
>)
    requires
        *old(index) <= token_list@.len(),
    ensures
        match block_spec(token_views(token_list@), *old(index) as int, nodes_of(old(stack)@)) {
            Ok((nodes, p, st)) => r is Ok && nodes_of(r.unwrap()@) == nodes && *final(index) == p
                && nodes_of(final(stack)@) == st,
            Err(e) => r == Err::<Vec<Expr>, SyntaxError>(e),
        },
        r is Ok ==> step(token_views(token_list@), *old(index) as int) <= *final(index)
            <= token_list@.len(),
    decreases left(token_views(token_list@), *old(index) as int), 9int,
{
    let ghost ts = token_views(token_list@);
    let ghost pos0 = *index as int;
    let ghost st0 = nodes_of(stack@);
    match check_tkn(index, token_list, Kind::Lbrace, SyntaxError::MissingLbrace, true) {
        Err(e) => {
            return Err(e);
        },
        Ok(()) => {},
    }
    let mut list: Vec<Expr> = Vec::new();
    assert(nodes_of(list@) =~= Seq::empty());
    proof {
        match body_spec(ts, pos0 + 1, st0) {
            Ok((nodes, p, st)) => {
                assert(Seq::<Node>::empty() + nodes =~= nodes);
            },
            Err(e) => {},
        }
    }
    while kind_of(token_list, *index) != Kind::Rbrace
        invariant
            ts == token_views(token_list@),
            pos0 == *old(index),
            st0 == nodes_of(old(stack)@),
            pos0 < *index <= token_list@.len(),
            block_spec(ts, pos0, st0) == list_after(
                nodes_of(list@),
                body_spec(ts, *index as int, nodes_of(stack@)),
            ),
        decreases token_list@.len() - *index,
    {
        if kind_of(token_list, *index) == Kind::Endlist {
            return Err(SyntaxError::MissingRbrace);
        }
        let ghost done = nodes_of(list@);
        let ghost pos1 = *index as int;
        let ghost st1 = nodes_of(stack@);
        match statement(index, token_list, stack) {
            Err(e) => {
                return Err(e);
            },
            Ok(node) => {
                list.push(node);
                proof {
                    assert(nodes_of(list@) =~= done.push(node@));
                    match body_spec(ts, *index as int, nodes_of(stack@)) {
                        Ok((nodes, p, st)) => {
                            assert(done + (seq![node@] + nodes) =~= done.push(node@) + nodes);
                        },
                        Err(e) => {},
                    }
                }
            },
        }
    }
    proof {
        assert(nodes_of(list@) + Seq::<Node>::empty() =~= nodes_of(list@));
    }
    next_tkn(index, token_list);
    Ok(list)
}

/// Parses a condition and the block that it guards.
fn branch(index: &mut usize, token_list: &Vec<Token>, stack: &mut Vec<Expr>) -> (r: Result<
    If,
    SyntaxError,
>)
    requires
        *old(index) <= token_list@.len(),
    ensures
        match branch_spec(token_views(token_list@), *old(index) as int, nodes_of(old(stack)@)) {
            Ok((cond, nodes, p, st)) => r is Ok && r.unwrap().condition@ == cond && nodes_of(
                r.unwrap().list@,
            ) == nodes && *final(index) == p && nodes_of(final(stack)@) == st,
            Err(e) => r == Err::<If, SyntaxError>(e),
        },
        r is Ok ==> step(token_views(token_list@), *old(index) as int) <= *final(index)
            <= token_list@.len(),
    decreases left(token_views(token_list@), *old(index) as int), 10int,
{
    let ghost st0 = nodes_of(stack@);
    match expression(index, token_list, stack) {
        Err(e) => {
            return Err(e);
        },
        Ok(()) => {},
    }
    let ghost st2 = nodes_of(stack@);
    let condition: Expr = match stack.pop() {
        None => {
            return Err(SyntaxError::StackUnderflow);
        },
        Some(expr) => expr,
    };
    assert(nodes_of(stack@) =~= st2.drop_last());
    match block(index, token_list, stack) {
        Err(e) => Err(e),
        Ok(list) => {
            let mut node: If = If::new(condition);
            node.list = list;
            Ok(node)
        },
    }
}

/// Parses one statement.
fn statement(index: &mut usize, token_list: &Vec<Token>, stack: &mut Vec<Expr>) -> (r: Result<
    Expr,
    SyntaxError,
>)
    requires
        *old(index) <= token_list@.len(),
    ensures
        match statement_spec(token_views(token_list@), *old(index) as int, nodes_of(old(stack)@)) {
            Ok((node, p, st)) => r is Ok && r.unwrap()@ == node && *final(index) == p
                && nodes_of(final(stack)@) == st,
            Err(e) => r == Err::<Expr, SyntaxError>(e),
        },
        r is Ok ==> step(token_views(token_list@), *old(index) as int) <= *final(index)
            <= token_list@.len(),
    decreases left(token_views(token_list@), *old(index) as int), 7int,
{
    let ghost ts = token_views(token_list@);
    let ghost pos0 = *index as int;
    let ghost st0 = nodes_of(stack@);
    let kind: Kind = kind_of(token_list, *index);
    if kind == Kind::Ident {
        let variable_name: String = token_list[*index].text.clone();
        next_tkn(index, token_list);
        match check_tkn(index, token_list, Kind::Assign, SyntaxError::MissingAssign, true) {
            Err(e) => {
                return Err(e);
            },
            Ok(()) => {},
        }
        match expression(index, token_list, stack) {
            Err(e) => {
                return Err(e);
            },
            Ok(()) => {},
        }
        let ghost st2 = nodes_of(stack@);
        let right_expr: Expr = match stack.pop() {
            None => {
                return Err(SyntaxError::StackUnderflow);
            },
            Some(expr) => expr,
        };
        assert(nodes_of(stack@) =~= st2.drop_last());
        let declared: Kind = match &right_expr {
            Expr::Int(_) => Kind::Int,
            Expr::BinaryOp(_) => Kind::Int,
            Expr::Char(_) => Kind::Char,
            Expr::Str(_) => Kind::Str,
            _ => {
                return Err(SyntaxError::UnknownValueKind);
            },
        };
        let ident: Expr = Expr::Ident(Box::new(Ident::new(variable_name, declared)));
        assert(ident@ == Node::Ident(ts[pos0].text, declared));
        let assign: Expr = Expr::Assign(Box::new(Assign::new(ident, right_expr)));
        assert(assign@ == Node::Assign(Box::new(ident@), Box::new(right_expr@)));
        match check_tkn(index, token_list, Kind::Semicolon, SyntaxError::MissingSemicolon, true) {
            Err(e) => {
                return Err(e);
            },
            Ok(()) => {},
        }
        Ok(assign)
    } else if kind == Kind::Print {
        next_tkn(index, token_list);
        match check_tkn(index, token_list, Kind::Lparen, SyntaxError::MissingLparen, true) {
            Err(e) => {
                return Err(e);
            },
            Ok(()) => {},
        }
        match expression(index, token_list, stack) {
            Err(e) => {
                return Err(e);
            },
            Ok(()) => {},
        }
        let ghost st2 = nodes_of(stack@);
        let val: Expr = match stack.pop() {
            None => {
                return Err(SyntaxError::StackUnderflow);
            },
            Some(expr) => expr,
        };
        assert(nodes_of(stack@) =~= st2.drop_last());
        let print: Expr = Expr::Print(Box::new(Print::new(val)));
        match check_tkn(index, token_list, Kind::Rparen, SyntaxError::MissingRparen, true) {
            Err(e) => {
                return Err(e);
            },
            Ok(()) => {},
        }
        match check_tkn(index, token_list, Kind::Semicolon, SyntaxError::MissingSemicolon, true) {
            Err(e) => {
                return Err(e);
            },
            Ok(()) => {},
        }
        Ok(print)
    } else if kind == Kind::If {
        next_tkn(index, token_list);
        match branch(index, token_list, stack) {
            Err(e) => Err(e),
            Ok(node) => {
                proof {
                    lemma_branch_view(node);
                }
                Ok(Expr::If(Box::new(node)))
            },
        }
    } else if kind == Kind::Else {
        next_tkn(index, token_list);
        if kind_of(token_list, *index) == Kind::If {
            next_tkn(index, token_list);
            match branch(index, token_list, stack) {
                Err(e) => Err(e),
                Ok(node) => {
                    proof {
                        lemma_branch_view(node);
                    }
                    Ok(Expr::ElseIf(Box::new(node)))
                },
            }
        } else {
            match block(index, token_list, stack) {
                Err(e) => Err(e),
                Ok(list) => {
                    let mut node: Else = Else::new();
                    node.list = list;
                    proof {
                        lemma_else_view(node);
                    }
                    Ok(Expr::Else(Box::new(node)))
                },
            }
        }
    } else {
        next_tkn(index, token_list);
        Ok(Expr::Nope)
    }
}

/// Parses a program: the statements that the tokens spell, in order. The
/// last token, which closes the input, opens no statement.
pub fn token_to_expr(token_list: &Vec<Token>) -> (r: Result<Vec<Expr>, SyntaxError>)
    ensures
        match parse_spec(token_views(token_list@)) {
            Ok(nodes) => r is Ok && nodes_of(r.unwrap()@) == nodes,
            Err(e) => r == Err::<Vec<Expr>, SyntaxError>(e),
        },
{
    let ghost ts = token_views(token_list@);
    let mut expr_list: Vec<Expr> = Vec::new();
    let mut stack: Vec<Expr> = Vec::new();
    let mut i: usize = 0;
    let n: usize = token_list.len();
    assert(nodes_of(stack@) =~= Seq::empty());
    proof {
        match program_spec(ts, 0, Seq::empty()) {
            Ok(nodes) => {
                assert(nodes_of(expr_list@) + nodes =~= nodes);
            },
            Err(e) => {},
        }
    }
    while n > 0 && i < n - 1
        invariant
            ts == token_views(token_list@),
            n == token_list@.len(),
            i <= n,
            parse_spec(ts) == program_after(
                nodes_of(expr_list@),
                program_spec(ts, i as int, nodes_of(stack@)),
            ),
        decreases n - i,
    {
        let ghost done = nodes_of(expr_list@);
        match statement(&mut i, token_list, &mut stack) {
            Err(e) => {
                return Err(e);
            },
            Ok(node) => {
                expr_list.push(node);
                proof {
                    assert(nodes_of(expr_list@) =~= done.push(node@));
                    match program_spec(ts, i as int, nodes_of(stack@)) {
                        Ok(nodes) => {
                            assert(done + (seq![node@] + nodes) =~= done.push(node@) + nodes);
                        },
                        Err(e) => {},
                    }
                }
            },
        }
    }
    proof {
        assert(nodes_of(expr_list@) + Seq::<Node>::empty() =~= nodes_of(expr_list@));
    }
    Ok(expr_list)
}

/// Parsing a primary leaves at most one operand more on the stack.
pub proof fn lemma_primary_pushes_one(ts: Seq<TokenView>, p: int, st: Seq<Node>)
    requires
        primary_spec(ts, p, st) is Ok,
    ensures
        primary_spec(ts, p, st).unwrap().1.len() <= st.len() + 1,
    decreases left(ts, p), 0int,
{
    if kind_at(ts, p) == Kind::Lparen {
        lemma_expression_pushes_one(ts, p + 1, st);
    }
}

/// Parsing a factor leaves at most one operand more on the stack.
pub proof fn lemma_factor_pushes_one(ts: Seq<TokenView>, p: int, st: Seq<Node>)
    requires
        factor_spec(ts, p, st) is Ok,
    ensures
        factor_spec(ts, p, st).unwrap().1.len() <= st.len() + 1,
    decreases left(ts, p), 1int,
{
    lemma_primary_pushes_one(ts, p, st);
    let (pos2, st2) = primary_spec(ts, p, st).unwrap();
    if kind_at(ts, pos2) == Kind::Equal && pos2 >= p {
        lemma_expression_pushes_one(ts, pos2 + 1, st2.drop_last());
    }
}

/// Parsing the rest of a term leaves no operand more on the stack.
pub proof fn lemma_term_rest_pushes_none(ts: Seq<TokenView>, p: int, st: Seq<Node>)
    requires
        term_rest_spec(ts, p, st) is Ok,
    ensures
        term_rest_spec(ts, p, st).unwrap().1.len() <= st.len(),
    decreases left(ts, p), 2int,
{
    let op = kind_at(ts, p);
    if op == Kind::Multi || op == Kind::Divi {
        lemma_factor_pushes_one(ts, p + 1, st);
        let (pos2, st2) = factor_spec(ts, p + 1, st).unwrap();
        let st3 = operate_spec(op, st2).unwrap();
        if pos2 > p {
            lemma_term_rest_pushes_none(ts, pos2, st3);
        }
    }
}

/// Parsing a term leaves at most one operand more on the stack.
pub proof fn lemma_term_pushes_one(ts: Seq<TokenView>, p: int, st: Seq<Node>)
    requires
        term_spec(ts, p, st) is Ok,
    ensures
        term_spec(ts, p, st).unwrap().1.len() <= st.len() + 1,
    decreases left(ts, p), 3int,
{
    lemma_factor_pushes_one(ts, p, st);
    let (pos2, st2) = factor_spec(ts, p, st).unwrap();
    if pos2 >= p {
        lemma_term_rest_pushes_none(ts, pos2, st2);
    }
}

/// Parsing the rest of an expression leaves no operand more on the stack.
pub proof fn lemma_expression_rest_pushes_none(ts: Seq<TokenView>, p: int, st: Seq<Node>)
    requires
        expression_rest_spec(ts, p, st) is Ok,
    ensures
        expression_rest_spec(ts, p, st).unwrap().1.len() <= st.len(),
    decreases left(ts, p), 4int,
{
    let op = kind_at(ts, p);
    if op == Kind::Plus || op == Kind::Minus {
        lemma_term_pushes_one(ts, p + 1, st);
        let (pos2, st2) = term_spec(ts, p + 1, st).unwrap();
        let st3 = operate_spec(op, st2).unwrap();
        if pos2 > p {
            lemma_expression_rest_pushes_none(ts, pos2, st3);
        }
    }
}

/// Parsing an expression leaves at most one operand more on the stack.
pub proof fn lemma_expression_pushes_one(ts: Seq<TokenView>, p: int, st: Seq<Node>)
    requires
        expression_spec(ts, p, st) is Ok,
    ensures
        expression_spec(ts, p, st).unwrap().1.len() <= st.len() + 1,
    decreases left(ts, p), 5int,
{
    lemma_term_pushes_one(ts, p, st);
    let (pos2, st2) = term_spec(ts, p, st).unwrap();
    if pos2 >= p {
        lemma_expression_rest_pushes_none(ts, pos2, st2);
    }
}

/// A statement leaves the operand stack as it found it: a statement that
/// is parsed with an empty stack leaves the stack empty.
pub proof fn lemma_statement_leaves_stack_empty(ts: Seq<TokenView>, p: int)
    requires
        statement_spec(ts, p, Seq::empty()) is Ok,
    ensures
        statement_spec(ts, p, Seq::empty()).unwrap().2 == Seq::<Node>::empty(),
    decreases left(ts, p), 7int,
{
    let st = Seq::<Node>::empty();
    let k = kind_at(ts, p);
    if k == Kind::Ident {
        lemma_expression_pushes_one(ts, p + 2, st);
        let st2 = expression_spec(ts, p + 2, st).unwrap().1;
        assert(st2.drop_last() =~= st);
    } else if k == Kind::Print {
        lemma_expression_pushes_one(ts, p + 2, st);
        let st2 = expression_spec(ts, p + 2, st).unwrap().1;
        assert(st2.drop_last() =~= st);
    } else if k == Kind::If {
        lemma_branch_leaves_stack_empty(ts, p + 1);
    } else if k == Kind::Else {
        if kind_at(ts, p + 1) == Kind::If {
            lemma_branch_leaves_stack_empty(ts, p + 2);
        } else {
            lemma_block_leaves_stack_empty(ts, p + 1);
        }
    }
}

/// A branch that is parsed with an empty stack leaves the stack empty.
pub proof fn lemma_branch_leaves_stack_empty(ts: Seq<TokenView>, p: int)
    requires
        branch_spec(ts, p, Seq::empty()) is Ok,
    ensures
        branch_spec(ts, p, Seq::empty()).unwrap().3 == Seq::<Node>::empty(),
    decreases left(ts, p), 10int,
{
    let st = Seq::<Node>::empty();
    lemma_expression_pushes_one(ts, p, st);
    let (pos2, st2) = expression_spec(ts, p, st).unwrap();
    assert(st2.drop_last() =~= st);
    lemma_block_leaves_stack_empty(ts, pos2);
}

/// A block that is parsed with an empty stack leaves the stack empty.
pub proof fn lemma_block_leaves_stack_empty(ts: Seq<TokenView>, p: int)
    requires
        block_spec(ts, p, Seq::empty()) is Ok,
    ensures
        block_spec(ts, p, Seq::empty()).unwrap().2 == Seq::<Node>::empty(),
    decreases left(ts, p), 9int,
{
    lemma_body_leaves_stack_empty(ts, p + 1);
}

/// The statements of a block that are parsed with an empty stack leave the
/// stack empty.
pub proof fn lemma_body_leaves_stack_empty(ts: Seq<TokenView>, p: int)
    requires
        body_spec(ts, p, Seq::empty()) is Ok,
    ensures
        body_spec(ts, p, Seq::empty()).unwrap().2 == Seq::<Node>::empty(),
    decreases left(ts, p), 8int,
{
    let k = kind_at(ts, p);
    if k != Kind::Rbrace && k != Kind::Endlist {
        lemma_statement_leaves_stack_empty(ts, p);
        let (node, pos2, st2) = statement_spec(ts, p, Seq::empty()).unwrap();
        lemma_body_leaves_stack_empty(ts, pos2);
    }
}

/// Whether the tokens hold the statements `nodes` one behind the other:
/// statement `k` starts at index `starts[k]`, before the last token, and is
/// parsed to `nodes[k]` up to index `starts[k + 1]`, and behind the last of
/// them at most one token is left.
pub open spec fn statements_at(ts: Seq<TokenView>, starts: Seq<int>, nodes: Seq<Node>) -> bool {
    &&& starts.len() == nodes.len() + 1
    &&& starts[0] == 0
    &&& starts[nodes.len() as int] + 1 >= ts.len()
    &&& forall|k: int|
        0 <= k < nodes.len() ==> 0 <= starts[k] && starts[k] + 1 < ts.len() && (
        #[trigger] statement_spec(ts, starts[k], Seq::empty())) is Ok && statement_spec(
            ts,
            starts[k],
            Seq::empty(),
        ).unwrap().0 == nodes[k] && statement_spec(ts, starts[k], Seq::empty()).unwrap().1
            == starts[k + 1]
}

/// The statements from statement `k` on give their nodes in order.
proof fn lemma_statements_from(ts: Seq<TokenView>, starts: Seq<int>, nodes: Seq<Node>, k: int)
    requires
        statements_at(ts, starts, nodes),
        0 <= k <= nodes.len(),
    ensures
        program_spec(ts, starts[k], Seq::empty()) == Ok::<Seq<Node>, SyntaxError>(nodes.skip(k)),
    decreases nodes.len() - k,
{
    if k < nodes.len() {
        let p = starts[k];
        let (node, q, st2) = statement_spec(ts, p, Seq::empty()).unwrap();
        lemma_statement_leaves_stack_empty(ts, p);
        lemma_statement_moves_on(ts, p, Seq::empty());
        lemma_statements_from(ts, starts, nodes, k + 1);
        assert(seq![node] + nodes.skip(k + 1) =~= nodes.skip(k));
    } else {
        assert(nodes.skip(k) =~= Seq::<Node>::empty());
        if k > 0 {
            let p = starts[k - 1];
            lemma_statement_moves_on(ts, p, Seq::empty());
        }
    }
}

/// So many statements, so many nodes, in order. Where the tokens hold `n`
/// statements one behind the other, each parsed to its node, the program
/// is parsed to exactly those `n` nodes in that order.
pub proof fn lemma_statements_give_their_nodes(
    ts: Seq<TokenView>,
    starts: Seq<int>,
    nodes: Seq<Node>,
)
    requires
        statements_at(ts, starts, nodes),
    ensures
        parse_spec(ts) == Ok::<Seq<Node>, SyntaxError>(nodes),
{
    lemma_statements_from(ts, starts, nodes, 0);
    assert(nodes.skip(0) =~= nodes);
}

} // verus!
