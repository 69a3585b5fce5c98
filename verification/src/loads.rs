//! Programs that read no variable are lowered to programs that load
//! nothing, which the back end always writes.
use vstd::prelude::*;
use crate::ast::Node;
use crate::codegen::LowerState;
use crate::codegen::{find_var, flush_spec, initial_state, lower_assigned_spec};
use crate::codegen::{lower_branch_spec, lower_else_spec, lower_list_spec, lower_print_spec};
use crate::codegen::{lower_spec, lower_stmt_spec, lower_value_spec, print_calls};
use crate::correct::lemma_flush;
use crate::codegen::binop_of;
use crate::ir::{Builtin, Instr, Operand, Term};
use crate::token::Kind;

verus! {

/// Whether the tree reads no variable: no identifier stands in it where a
/// value is computed or printed. The target of an assignment is written,
/// not read.
pub open spec fn reads_nothing(n: Node) -> bool
    decreases n,
{
    match n {
        Node::Ident(_, _) => false,
        Node::BinaryOp(_, l, r) => reads_nothing(*l) && reads_nothing(*r),
        Node::Equal(l, r) => reads_nothing(*l) && reads_nothing(*r),
        Node::Assign(_, v) => reads_nothing(*v),
        Node::Print(v) => reads_nothing(*v),
        Node::If(cond, body) => reads_nothing(*cond) && forall|i: int|
            0 <= i < body.len() ==> reads_nothing(#[trigger] body[i]),
        Node::ElseIf(cond, body) => reads_nothing(*cond) && forall|i: int|
            0 <= i < body.len() ==> reads_nothing(#[trigger] body[i]),
        Node::Else(body) => forall|i: int| 0 <= i < body.len() ==> reads_nothing(#[trigger] body[i]),
        _ => true,
    }
}

/// Whether none of the statements reads a variable.
pub open spec fn read_nothing(stmts: Seq<Node>) -> bool {
    forall|i: int| 0 <= i < stmts.len() ==> reads_nothing(#[trigger] stmts[i])
}

/// Whether the code written so far loads nothing.
pub open spec fn loads_nothing(s: LowerState) -> bool {
    forall|k: int| 0 <= k < s.program.code.len() ==> !(#[trigger] s.program.code[k] is Load)
}

/// One more instruction that is no load leaves the code without loads.
pub proof fn lemma_emit_loads_nothing(s: LowerState, instr: Instr)
    requires
        loads_nothing(s),
        !(instr is Load),
    ensures
        loads_nothing(s.emit(instr)),
        loads_nothing(s.emit_value(instr)),
{
    assert forall|k: int| 0 <= k < s.emit(instr).program.code.len() implies !(
    #[trigger] s.emit(instr).program.code[k] is Load) by {
        if k < s.program.code.len() {
            assert(!(s.program.code[k] is Load));
        }
    }
    assert forall|k: int| 0 <= k < s.emit_value(instr).program.code.len() implies !(
    #[trigger] s.emit_value(instr).program.code[k] is Load) by {
        assert(s.emit_value(instr).program.code[k] == s.emit(instr).program.code[k]);
    }
}

/// The calls that print a value load nothing.
pub proof fn lemma_print_calls_load_nothing(s: LowerState, kind: Kind, v: Operand)
    requires
        loads_nothing(s),
    ensures
        loads_nothing(print_calls(s, kind, v)),
{
    if kind == Kind::Str {
        lemma_emit_loads_nothing(s, Instr::Call { callee: Builtin::Puts, arg: v });
    } else if kind == Kind::Char {
        let s1 = s.emit(Instr::Call { callee: Builtin::Putchar, arg: v });
        lemma_emit_loads_nothing(s, Instr::Call { callee: Builtin::Putchar, arg: v });
        lemma_emit_loads_nothing(
            s1,
            Instr::Call { callee: Builtin::Putchar, arg: Operand::Const(10) },
        );
    } else {
        lemma_emit_loads_nothing(s, Instr::Call { callee: Builtin::Printf, arg: v });
    }
}

/// The code of an expression that reads no variable loads nothing.
pub proof fn lemma_value_loads_nothing(s: LowerState, e: Node)
    requires
        lower_value_spec(s, e) is Ok,
        loads_nothing(s),
        reads_nothing(e),
    ensures
        loads_nothing(lower_value_spec(s, e).unwrap()),
    decreases e,
{
    match e {
        Node::BinaryOp(kind, l, r) => {
            let sa = lower_value_spec(s, *l).unwrap();
            lemma_value_loads_nothing(s, *l);
            lemma_value_loads_nothing(sa, *r);
            let sb = lower_value_spec(sa, *r).unwrap();
            lemma_emit_loads_nothing(
                sb,
                Instr::Arith { op: binop_of(kind).unwrap(), lhs: sa.value, rhs: sb.value },
            );
        },
        Node::Equal(l, r) => {
            let sa = lower_value_spec(s, *l).unwrap();
            lemma_value_loads_nothing(s, *l);
            lemma_value_loads_nothing(sa, *r);
            let sb = lower_value_spec(sa, *r).unwrap();
            lemma_emit_loads_nothing(sb, Instr::Test { lhs: sa.value, rhs: sb.value });
        },
        _ => {},
    }
}

/// The code of a branch that reads no variable loads nothing.
pub proof fn lemma_branch_loads_nothing(
    s: LowerState,
    pending: Seq<usize>,
    cond: Node,
    body: Seq<Node>,
)
    requires
        lower_branch_spec(s, pending, cond, body) is Ok,
        loads_nothing(s),
        reads_nothing(cond),
        read_nothing(body),
    ensures
        loads_nothing(lower_branch_spec(s, pending, cond, body).unwrap().0),
    decreases body, body.len() + 1,
{
    let s1 = lower_value_spec(s, cond).unwrap();
    lemma_value_loads_nothing(s, cond);
    let s2 = s1.open_block();
    assert(loads_nothing(s2));
    lemma_list_loads_nothing(s2, body, 0, Seq::empty());
}

/// The code of a final branch that reads no variable loads nothing.
pub proof fn lemma_else_loads_nothing(s: LowerState, pending: Seq<usize>, body: Seq<Node>)
    requires
        lower_else_spec(s, pending, body) is Ok,
        loads_nothing(s),
        read_nothing(body),
    ensures
        loads_nothing(lower_else_spec(s, pending, body).unwrap().0),
    decreases body, body.len() + 1,
{
    let s1 = s.open_block();
    let s2 = s1.set_term(s.cur(), Term::Jump(s1.cur()));
    assert(loads_nothing(s2));
    lemma_list_loads_nothing(s2, body, 0, Seq::empty());
}

/// The code of a statement that reads no variable loads nothing.
pub proof fn lemma_stmt_loads_nothing(s: LowerState, pending: Seq<usize>, n: Node)
    requires
        lower_stmt_spec(s, pending, n) is Ok,
        loads_nothing(s),
        reads_nothing(n),
    ensures
        loads_nothing(lower_stmt_spec(s, pending, n).unwrap().0),
    decreases n, 0nat,
{
    let s0 = flush_spec(s, pending);
    let done = lower_stmt_spec(s, pending, n).unwrap().0;
    lemma_flush(s, pending);
    assert(loads_nothing(s0));
    match n {
        Node::ElseIf(cond, body) => {
            assert(read_nothing(body));
            lemma_branch_loads_nothing(s, pending, *cond, body);
            assert(loads_nothing(done));
        },
        Node::Else(body) => {
            assert(read_nothing(body));
            lemma_else_loads_nothing(s, pending, body);
            assert(loads_nothing(done));
        },
        Node::If(cond, body) => {
            assert(read_nothing(body));
            lemma_branch_loads_nothing(s0, Seq::empty(), *cond, body);
            assert(loads_nothing(done));
        },
        Node::Assign(target, v) => {
            let name = target->Ident_0;
            match *v {
                Node::Char(_) => {},
                Node::Str(_) => {},
                _ => {
                    lemma_value_loads_nothing(s0, *v);
                },
            }
            let (s1, kind) = lower_assigned_spec(s0, *v).unwrap();
            assert(loads_nothing(s1));
            match find_var(s1.vars, name) {
                Some(var) => {
                    lemma_emit_loads_nothing(
                        s1,
                        Instr::Store { slot: var.slot, value: s1.value },
                    );
                },
                None => {
                    let sd = s1.declare(name, kind);
                    assert(loads_nothing(sd));
                    lemma_emit_loads_nothing(
                        sd,
                        Instr::Store { slot: s1.program.slots.len() as usize, value: s1.value },
                    );
                },
            }
            assert(loads_nothing(done));
        },
        Node::Print(v) => {
            match *v {
                Node::Int(_) | Node::BinaryOp(_, _, _) | Node::Equal(_, _) => {
                    lemma_value_loads_nothing(s0, *v);
                    let s1 = lower_value_spec(s0, *v).unwrap();
                    lemma_print_calls_load_nothing(s1, Kind::Int, s1.value);
                },
                Node::Char(c) => {
                    lemma_print_calls_load_nothing(s0, Kind::Char, Operand::Const(c as i32));
                },
                Node::Str(text) => {
                    let s1 = s0.add_global(text);
                    assert(loads_nothing(s1));
                    lemma_print_calls_load_nothing(s1, Kind::Str, s1.value);
                },
                _ => {
                    assert(!reads_nothing(*v) || lower_print_spec(s0, *v) is Err);
                },
            }
            assert(done == lower_print_spec(s0, *v).unwrap());
            assert(loads_nothing(done));
        },
        _ => {
            assert(done == s0);
        },
    }
}

/// The code of statements that read no variable loads nothing.
pub proof fn lemma_list_loads_nothing(
    s: LowerState,
    stmts: Seq<Node>,
    from: int,
    pending: Seq<usize>,
)
    requires
        lower_list_spec(s, stmts, from, pending) is Ok,
        loads_nothing(s),
        read_nothing(stmts),
    ensures
        loads_nothing(lower_list_spec(s, stmts, from, pending).unwrap()),
    decreases stmts, stmts.len() - from,
{
    if from < 0 || from >= stmts.len() {
        lemma_flush(s, pending);
    } else {
        let (s1, queue1) = lower_stmt_spec(s, pending, stmts[from]).unwrap();
        lemma_stmt_loads_nothing(s, pending, stmts[from]);
        lemma_list_loads_nothing(s1, stmts, from + 1, queue1);
    }
}

/// A program that reads no variable is lowered to a program that loads
/// nothing.
pub proof fn lemma_lowered_program_loads_nothing(stmts: Seq<Node>)
    requires
        lower_spec(stmts) is Ok,
        read_nothing(stmts),
    ensures
        forall|k: int|
            0 <= k < lower_spec(stmts).unwrap().code.len() ==> !(#[trigger] lower_spec(
                stmts,
            ).unwrap().code[k] is Load),
{
    lemma_list_loads_nothing(initial_state(), stmts, 0, Seq::empty());
}

} // verus!
