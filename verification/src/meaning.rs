//! What a program means: what it prints when its statements are carried
//! out one after the other, with variables that hold what was assigned to
//! them and chains of branches of which at most one runs.
use vstd::prelude::*;

use crate::ast::{Node, arith};
use crate::codegen::binop_of;
use crate::ir::Output;

verus! {

/// What a variable holds.
pub ghost enum Held {
    /// An integer.
    Int(i32),
    /// A character, by its code.
    Char(i32),
    /// A string.
    Text(Seq<char>),
}

/// The state of a program between two statements: what the variables hold,
/// what was printed, and whether the chain of branches that the last
/// statement belongs to is closed: one of its branches has run, or its
/// final branch is behind.
pub ghost struct World {
    pub env: Map<Seq<char>, Held>,
    pub out: Seq<Output>,
    pub closed: bool,
}

impl World {
    /// The state with the chain open or closed.
    pub open spec fn with_closed(self, closed: bool) -> World {
        World { env: self.env, out: self.out, closed }
    }
}

/// The state in which a program starts.
pub open spec fn start_world() -> World {
    World { env: Map::empty(), out: Seq::empty(), closed: false }
}

/// The integer value of an expression, if it has one: a literal is its
/// value; a variable holds an integer or a character; an operation is one
/// of the four and is applied to the values of its operands in 32-bit
/// arithmetic, with unsigned division and no value for a zero divisor; an
/// equality test is one or zero.
pub open spec fn value_in(e: Node, env: Map<Seq<char>, Held>) -> Option<i32>
    decreases e,
{
    match e {
        Node::Int(v) => Some(v),
        Node::Ident(name, _) => if env.dom().contains(name) {
            match env[name] {
                Held::Int(v) => Some(v),
                Held::Char(c) => Some(c),
                Held::Text(_) => None,
            }
        } else {
            None
        },
        Node::BinaryOp(kind, l, r) => match (value_in(*l, env), value_in(*r, env)) {
            (Some(a), Some(b)) => if binop_of(kind) is Some {
                arith(kind, a, b)
            } else {
                None
            },
            _ => None,
        },
        Node::Equal(l, r) => match (value_in(*l, env), value_in(*r, env)) {
            (Some(a), Some(b)) => Some(
                if a == b {
                    1i32
                } else {
                    0i32
                },
            ),
            _ => None,
        },
        _ => None,
    }
}

/// What an assignment of `v` gives the variable to hold: a character
/// literal its character, a string literal its text, anything else its
/// integer value.
pub open spec fn assigned_value(v: Node, env: Map<Seq<char>, Held>) -> Option<Held> {
    match v {
        Node::Char(c) => Some(Held::Char(c as i32)),
        Node::Str(text) => Some(Held::Text(text)),
        _ => match value_in(v, env) {
            Some(x) => Some(Held::Int(x)),
            None => None,
        },
    }
}

/// How something held is printed: an integer as a number, a character
/// with a newline behind it, a string as a text.
pub open spec fn shown(h: Held) -> Seq<Output> {
    match h {
        Held::Int(v) => seq![Output::Int(v)],
        Held::Char(c) => seq![Output::Char(c), Output::Char(10)],
        Held::Text(t) => seq![Output::Text(t)],
    }
}

/// What a print statement of `v` prints: a variable as what it holds, a
/// literal as what it is, an operation or equality test as its integer
/// value. Nothing else can be printed.
pub open spec fn printed(v: Node, env: Map<Seq<char>, Held>) -> Option<Seq<Output>> {
    match v {
        Node::Ident(name, _) => if env.dom().contains(name) {
            Some(shown(env[name]))
        } else {
            None
        },
        Node::Char(c) => Some(shown(Held::Char(c as i32))),
        Node::Str(text) => Some(shown(Held::Text(text))),
        Node::Int(_) | Node::BinaryOp(_, _, _) | Node::Equal(_, _) => match value_in(v, env) {
            Some(x) => Some(shown(Held::Int(x))),
            None => None,
        },
        _ => None,
    }
}

/// The state after a branch on a condition in an open chain: where the
/// condition is not zero the body runs and the chain is closed.
pub open spec fn run_branch(cond: Node, body: Seq<Node>, w: World) -> Option<World>
    decreases body, body.len() + 1,
{
    match value_in(cond, w.env) {
        None => None,
        Some(v) => if v != 0 {
            match run_list(body, 0, w.with_closed(false)) {
                Some(w1) => Some(w1.with_closed(true)),
                None => None,
            }
        } else {
            Some(w.with_closed(false))
        },
    }
}

/// The state after one statement. An `if` opens a new chain. An `else if`
/// or `else` does nothing where its chain is closed; else it is a branch of
/// the chain, the `else` one that always runs. An assignment gives the
/// variable its value; a print statement prints. Any statement but `else
/// if` and `else` ends the chain before it. There is no state where an
/// expression has no value.
pub open spec fn run_stmt(n: Node, w: World) -> Option<World>
    decreases n, 0nat,
{
    match n {
        Node::If(cond, body) => run_branch(*cond, body, w.with_closed(false)),
        Node::ElseIf(cond, body) => if w.closed {
            Some(w)
        } else {
            run_branch(*cond, body, w)
        },
        Node::Else(body) => if w.closed {
            Some(w)
        } else {
            match run_list(body, 0, w) {
                Some(w1) => Some(w1.with_closed(true)),
                None => None,
            }
        },
        Node::Assign(target, v) => match *target {
            Node::Ident(name, _) => match assigned_value(*v, w.env) {
                Some(h) => Some(World { env: w.env.insert(name, h), out: w.out, closed: false }),
                None => None,
            },
            _ => None,
        },
        Node::Print(v) => match printed(*v, w.env) {
            Some(o) => Some(World { env: w.env, out: w.out + o, closed: false }),
            None => None,
        },
        _ => Some(w.with_closed(false)),
    }
}

/// The state after the statements of a list from index `from` on, one
/// after the other.
pub open spec fn run_list(stmts: Seq<Node>, from: int, w: World) -> Option<World>
    decreases stmts, stmts.len() - from,
{
    if from < 0 || from >= stmts.len() {
        Some(w)
    } else {
        match run_stmt(stmts[from], w) {
            Some(w1) => run_list(stmts, from + 1, w1),
            None => None,
        }
    }
}

/// What a program prints, if all its expressions have values.
pub open spec fn meaning(stmts: Seq<Node>) -> Option<Seq<Output>> {
    match run_list(stmts, 0, start_world()) {
        Some(w) => Some(w.out),
        None => None,
    }
}

} // verus!
