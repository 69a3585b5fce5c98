//! The code generator writes complete programs: every instruction of a
//! lowered program has operands of the sorts that it needs, and every block
//! has an end that leads to a block of the program.
use vstd::prelude::*;
use crate::token::Kind;
use crate::ast::Node;
use crate::codegen::LowerState;
use crate::codegen::{binop_of, cell_of, find_var, flush_spec, initial_state, lower_assign_spec};
use crate::codegen::{lower_assigned_spec, lower_branch_spec, lower_else_spec, lower_list_spec};
use crate::codegen::{lower_print_spec, lower_spec, lower_stmt_spec, lower_value_spec, print_calls};
use crate::correct::{grows, sound, waiting};
use crate::correct::written_on;
use crate::correct::{lemma_assign_grows, lemma_assigned_grows, lemma_branch_grows};
use crate::correct::{lemma_emit, lemma_find_var, lemma_flush, lemma_list_grows, lemma_open_block};
use crate::correct::{lemma_print_calls_grows, lemma_print_grows, lemma_set_term, lemma_stmt_grows};
use crate::correct::{lemma_value_grows, lemma_written_on_trans};
use crate::ir::{Instr, Operand, ProgramView, Sort, Term};

verus! {

/// Whether every instruction written so far is in order, and every end of
/// a block that is decided.
pub open spec fn neat(s: LowerState) -> bool {
    &&& forall|k: int| 0 <= k < s.program.code.len() ==> #[trigger] s.program.instr_ok(k)
    &&& forall|b: int|
        0 <= b < s.program.terms.len() && s.program.terms[b] != Term::Open
            ==> #[trigger] s.program.term_ok(b)
}

/// Whether the value computed last is an integer.
pub open spec fn int_value(s: LowerState) -> bool {
    s.program.is_int(s.value, s.program.code.len() as int)
}

/// Whether every block from `base` on but the current one has its end or
/// waits for it.
pub open spec fn ended(s: LowerState, base: int, pending: Seq<usize>) -> bool {
    forall|b: int|
        base <= b < s.program.starts.len() - 1 ==> #[trigger] s.program.terms[b] != Term::Open
            || pending.contains(b as usize)
}

/// Whether every block that waited has its end or still waits.
pub open spec fn served(s1: LowerState, before: Seq<usize>, after: Seq<usize>) -> bool {
    forall|i: int|
        0 <= i < before.len() ==> s1.program.terms[(#[trigger] before[i]) as int] != Term::Open
            || after.contains(before[i])
}

/// What is in order in a program stays in order when the program is
/// written further.
pub proof fn lemma_neat_stays(a: ProgramView, b: ProgramView)
    requires
        written_on(a, b),
        a.well_formed(),
    ensures
        forall|k: int| 0 <= k < a.code.len() && a.instr_ok(k) ==> #[trigger] b.instr_ok(k),
        forall|op: Operand, k: int|
            0 <= k <= a.code.len() && a.is_int(op, k) ==> #[trigger] b.is_int(op, k),
        forall|op: Operand, k: int|
            0 <= k <= a.code.len() && a.is_address(op, k) ==> #[trigger] b.is_address(op, k),
        forall|x: int|
            0 <= x < a.starts.len() - 1 && a.terms[x] != Term::Open && a.term_ok(x)
                ==> #[trigger] b.term_ok(x),
{
    assert forall|j: int| 0 <= j < a.code.len() && a.sort_of(j) != Sort::Nothing implies b.sort_of(
        j,
    ) == a.sort_of(j) by {
        assert(b.code[j] == a.code[j]);
    }
    assert forall|op: Operand, k: int| 0 <= k <= a.code.len() && a.is_int(op, k) implies #[trigger] b.is_int(
        op,
        k,
    ) by {
        match op {
            Operand::Reg(j) => {
                assert(b.sort_of(j as int) == a.sort_of(j as int));
            },
            _ => {},
        }
    }
    assert forall|op: Operand, k: int|
        0 <= k <= a.code.len() && a.is_address(op, k) implies #[trigger] b.is_address(op, k) by {
        match op {
            Operand::Reg(j) => {
                assert(b.sort_of(j as int) == a.sort_of(j as int));
            },
            _ => {},
        }
    }
    assert forall|k: int| 0 <= k < a.code.len() && a.instr_ok(k) implies #[trigger] b.instr_ok(
        k,
    ) by {
        assert(b.code[k] == a.code[k]);
        match a.code[k] {
            Instr::Store { slot, value } => {
                assert(b.slots[slot as int] == a.slots[slot as int]);
                assert(a.is_int(value, k) ==> b.is_int(value, k));
                assert(a.is_address(value, k) ==> b.is_address(value, k));
            },
            Instr::Load { slot } => {},
            Instr::Arith { op, lhs, rhs } => {
                assert(b.is_int(lhs, k) && b.is_int(rhs, k));
            },
            Instr::Test { lhs, rhs } => {
                assert(b.is_int(lhs, k) && b.is_int(rhs, k));
            },
            Instr::Call { callee, arg } => {
                assert(a.is_int(arg, k) ==> b.is_int(arg, k));
                assert(a.is_address(arg, k) ==> b.is_address(arg, k));
            },
        }
    }
    assert forall|x: int|
        0 <= x < a.starts.len() - 1 && a.terms[x] != Term::Open && a.term_ok(
            x,
        ) implies #[trigger] b.term_ok(x) by {
        assert(b.terms[x] == a.terms[x]);
        assert(b.starts[x + 1] == a.starts[x + 1]);
        assert(a.starts[x] as int <= a.block_end(x) <= a.code.len());
        match a.terms[x] {
            Term::Branch(cond, t, e) => {
                assert(a.is_int(cond, a.block_end(x)));
                assert(b.is_int(cond, a.block_end(x)));
            },
            _ => {},
        }
    }
}

/// A state that is in order and grows into a sound state by code that is
/// in order is in order again.
pub proof fn lemma_neat_grows(s: LowerState, s1: LowerState)
    requires
        sound(s),
        neat(s),
        sound(s1),
        grows(s, s1),
        s1.program.terms.len() == s.program.terms.len(),
        forall|b: int| 0 <= b < s.program.terms.len() ==> s1.program.terms[b] == s.program.terms[b],
        forall|k: int|
            s.program.code.len() <= k < s1.program.code.len() ==> #[trigger] s1.program.instr_ok(k),
    ensures
        neat(s1),
{
    lemma_neat_stays(s.program, s1.program);
    assert forall|k: int| 0 <= k < s1.program.code.len() implies #[trigger] s1.program.instr_ok(
        k,
    ) by {
        if k < s.program.code.len() {
            assert(s.program.instr_ok(k));
        }
    }
    assert forall|b: int|
        0 <= b < s1.program.terms.len() && s1.program.terms[b]
            != Term::Open implies #[trigger] s1.program.term_ok(b) by {
        assert(s.program.terms[b] != Term::Open);
        assert(s.program.term_ok(b));
    }
}

/// The code of an expression is in order, and its value is an integer.
pub proof fn lemma_value_neat(s: LowerState, e: Node)
    requires
        lower_value_spec(s, e) is Ok,
        sound(s),
        neat(s),
        lower_value_spec(s, e).unwrap().program.fits(),
    ensures
        neat(lower_value_spec(s, e).unwrap()),
        int_value(lower_value_spec(s, e).unwrap()),
    decreases e,
{
    let s1 = lower_value_spec(s, e).unwrap();
    lemma_value_grows(s, e);
    match e {
        Node::Int(v) => {
            lemma_neat_grows(s, s1);
        },
        Node::Ident(name, _) => {
            let var = find_var(s.vars, name).unwrap();
            lemma_find_var(s, name);
            let n0 = s.program.code.len() as int;
            assert(s1.program.code[n0] == Instr::Load { slot: var.slot });
            assert(s1.program.instr_ok(n0));
            lemma_neat_grows(s, s1);
            assert(s1.program.sort_of(n0) == Sort::Int);
        },
        Node::BinaryOp(kind, l, r) => {
            let sa = lower_value_spec(s, *l).unwrap();
            let sb = lower_value_spec(sa, *r).unwrap();
            lemma_value_grows(s, *l);
            lemma_value_grows(sa, *r);
            let instr = Instr::Arith { op: binop_of(kind).unwrap(), lhs: sa.value, rhs: sb.value };
            assert(s1 == sb.emit_value(instr));
            lemma_value_neat(s, *l);
            lemma_value_neat(sa, *r);
            lemma_emit(sb, instr);
            lemma_neat_stays(sa.program, sb.program);
            lemma_neat_stays(sb.program, s1.program);
            let nb = sb.program.code.len() as int;
            assert(sb.program.is_int(sa.value, nb));
            assert(s1.program.is_int(sa.value, nb));
            assert(s1.program.is_int(sb.value, nb));
            assert(s1.program.code[nb] == instr);
            assert(s1.program.instr_ok(nb));
            lemma_neat_grows(sb, s1);
            assert(s1.program.sort_of(nb) == Sort::Int);
        },
        Node::Equal(l, r) => {
            let sa = lower_value_spec(s, *l).unwrap();
            let sb = lower_value_spec(sa, *r).unwrap();
            lemma_value_grows(s, *l);
            lemma_value_grows(sa, *r);
            let instr = Instr::Test { lhs: sa.value, rhs: sb.value };
            assert(s1 == sb.emit_value(instr));
            lemma_value_neat(s, *l);
            lemma_value_neat(sa, *r);
            lemma_emit(sb, instr);
            lemma_neat_stays(sa.program, sb.program);
            lemma_neat_stays(sb.program, s1.program);
            let nb = sb.program.code.len() as int;
            assert(sb.program.is_int(sa.value, nb));
            assert(s1.program.is_int(sa.value, nb));
            assert(s1.program.is_int(sb.value, nb));
            assert(s1.program.code[nb] == instr);
            assert(s1.program.instr_ok(nb));
            lemma_neat_grows(sb, s1);
            assert(s1.program.sort_of(nb) == Sort::Int);
        },
        _ => {},
    }
}

/// Whether the value computed last is of the sort that a variable of the
/// kind holds.
pub open spec fn value_of_kind(s: LowerState, kind: Kind) -> bool {
    if kind == Kind::Str {
        s.program.is_address(s.value, s.program.code.len() as int)
    } else {
        s.program.is_int(s.value, s.program.code.len() as int)
    }
}

/// The code of the right-hand side of an assignment is in order, and its
/// value is of the sort that goes with its kind.
pub proof fn lemma_assigned_neat(s: LowerState, v: Node)
    requires
        lower_assigned_spec(s, v) is Ok,
        sound(s),
        neat(s),
        lower_assigned_spec(s, v).unwrap().0.program.fits(),
    ensures
        neat(lower_assigned_spec(s, v).unwrap().0),
        value_of_kind(lower_assigned_spec(s, v).unwrap().0, lower_assigned_spec(s, v).unwrap().1),
{
    let (s1, kind) = lower_assigned_spec(s, v).unwrap();
    lemma_assigned_grows(s, v);
    match v {
        Node::Char(c) => {
            lemma_neat_grows(s, s1);
        },
        Node::Str(text) => {
            lemma_neat_grows(s, s1);
        },
        _ => {
            lemma_value_neat(s, v);
        },
    }
}

/// The code of an assignment is in order.
pub proof fn lemma_assign_neat(s: LowerState, target: Node, v: Node)
    requires
        lower_assign_spec(s, target, v) is Ok,
        sound(s),
        neat(s),
        lower_assign_spec(s, target, v).unwrap().program.fits(),
    ensures
        neat(lower_assign_spec(s, target, v).unwrap()),
{
    let s2 = lower_assign_spec(s, target, v).unwrap();
    let name = target->Ident_0;
    let (s1, kind) = lower_assigned_spec(s, v).unwrap();
    let n1 = s1.program.code.len() as int;
    lemma_assigned_grows(s, v);
    lemma_assign_grows(s, target, v);
    assert(s1.program.fits());
    lemma_assigned_neat(s, v);
    match find_var(s1.vars, name) {
        Some(var) => {
            let instr = Instr::Store { slot: var.slot, value: s1.value };
            lemma_emit(s1, instr);
            lemma_find_var(s1, name);
            lemma_neat_stays(s1.program, s2.program);
            assert(s2.program.code[n1] == instr);
            assert(s2.program.instr_ok(n1));
            lemma_neat_grows(s1, s2);
        },
        None => {
            let sd = s1.declare(name, kind);
            let slot = s1.program.slots.len() as usize;
            let instr = Instr::Store { slot, value: s1.value };
            assert(s2 == sd.emit(instr));
            lemma_find_var(s1, name);
            assert(sound(sd)) by {
                let a = s1.program;
                let b = sd.program;
                assert forall|k: int| 0 <= k < b.starts.len() implies (#[trigger] b.starts[k]) as int
                    <= b.block_end(k) <= b.code.len() by {
                    assert(a.starts[k] as int <= a.block_end(k) <= a.code.len());
                }
            }
            assert(grows(s1, sd));
            lemma_neat_grows(s1, sd);
            lemma_emit(sd, instr);
            lemma_neat_stays(s1.program, sd.program);
            lemma_neat_stays(sd.program, s2.program);
            assert(s2.program.code[n1] == instr);
            assert(s2.program.slots[slot as int] == cell_of(kind));
            assert(s2.program.instr_ok(n1));
            lemma_neat_grows(sd, s2);
        },
    }
}

/// The calls that print a value of the sort that goes with the kind are in
/// order.
pub proof fn lemma_print_calls_neat(s: LowerState, kind: Kind, v: Operand)
    requires
        sound(s),
        neat(s),
        kind == Kind::Str ==> s.program.is_address(v, s.program.code.len() as int),
        kind != Kind::Str ==> s.program.is_int(v, s.program.code.len() as int),
    ensures
        neat(print_calls(s, kind, v)),
{
    let s2 = print_calls(s, kind, v);
    let n0 = s.program.code.len() as int;
    lemma_print_calls_grows(s, kind, v);
    lemma_neat_stays(s.program, s2.program);
    assert(s2.program.instr_ok(n0));
    if kind == Kind::Char {
        assert(s2.program.instr_ok(n0 + 1));
    }
    lemma_neat_grows(s, s2);
}

/// The code of a print statement is in order.
pub proof fn lemma_print_neat(s: LowerState, v: Node)
    requires
        lower_print_spec(s, v) is Ok,
        sound(s),
        neat(s),
        lower_print_spec(s, v).unwrap().program.fits(),
    ensures
        neat(lower_print_spec(s, v).unwrap()),
{
    let s2 = lower_print_spec(s, v).unwrap();
    let n0 = s.program.code.len() as int;
    lemma_print_grows(s, v);
    match v {
        Node::Ident(name, _) => {
            let var = find_var(s.vars, name).unwrap();
            let instr = Instr::Load { slot: var.slot };
            let s1 = s.emit_value(instr);
            lemma_emit(s, instr);
            lemma_find_var(s, name);
            assert(s1.program.code[n0] == instr);
            assert(s1.program.instr_ok(n0));
            lemma_neat_grows(s, s1);
            lemma_print_calls_neat(s1, var.kind, s1.value);
        },
        Node::Char(c) => {
            lemma_print_calls_neat(s, Kind::Char, Operand::Const(c as i32));
        },
        Node::Str(text) => {
            let s1 = s.add_global(text);
            lemma_assigned_grows(s, v);
            lemma_neat_grows(s, s1);
            lemma_print_calls_neat(s1, Kind::Str, s1.value);
        },
        Node::Int(_) | Node::BinaryOp(_, _, _) | Node::Equal(_, _) => {
            let s1 = lower_value_spec(s, v).unwrap();
            lemma_value_grows(s, v);
            lemma_value_neat(s, v);
            lemma_print_calls_neat(s1, Kind::Int, s1.value);
        },
        _ => {},
    }
}

/// Giving an open block before the current one an end that is in order
/// leaves the state in order.
pub proof fn lemma_set_term_neat(s: LowerState, b: usize, t: Term)
    requires
        sound(s),
        neat(s),
        b < s.program.starts.len() - 1,
        s.program.terms[b as int] == Term::Open,
        t != Term::Open,
        s.set_term(b, t).program.term_ok(b as int),
    ensures
        neat(s.set_term(b, t)),
{
    let s1 = s.set_term(b, t);
    lemma_set_term(s, b, t);
    lemma_neat_stays(s.program, s1.program);
    assert forall|k: int| 0 <= k < s1.program.code.len() implies #[trigger] s1.program.instr_ok(
        k,
    ) by {
        assert(s.program.instr_ok(k));
    }
    assert forall|x: int|
        0 <= x < s1.program.terms.len() && s1.program.terms[x]
            != Term::Open implies #[trigger] s1.program.term_ok(x) by {
        if x != b {
            assert(s.program.terms[x] != Term::Open);
            assert(s.program.term_ok(x));
            assert(x < s.program.starts.len() - 1);
        }
    }
}

/// Joining the waiting branches leaves the state in order.
pub proof fn lemma_flush_neat(s: LowerState, pending: Seq<usize>)
    requires
        sound(s),
        neat(s),
        waiting(s, pending),
        s.program.fits(),
    ensures
        neat(flush_spec(s, pending)),
    decreases pending.len(),
{
    if pending.len() > 0 {
        let x = pending.last();
        let t = Term::Jump(s.cur());
        let s1 = s.set_term(x, t);
        let rest = pending.drop_last();
        lemma_set_term(s, x, t);
        assert(s1.program.term_ok(x as int));
        lemma_set_term_neat(s, x, t);
        assert(waiting(s1, rest)) by {
            assert forall|i: int| 0 <= i < rest.len() implies (#[trigger] rest[i])
                < s1.program.starts.len() - 1 && s1.program.terms[rest[i] as int]
                == Term::Open by {
                assert(rest[i] == pending[i]);
                assert(pending[pending.len() - 1] == x);
            }
            assert forall|i: int, j: int| 0 <= i < j < rest.len() implies (#[trigger] rest[i]) != (
            #[trigger] rest[j]) by {
                assert(rest[i] == pending[i] && rest[j] == pending[j]);
            }
        }
        lemma_flush_neat(s1, rest);
    }
}

/// A new block leaves the state in order.
pub proof fn lemma_open_block_neat(s: LowerState)
    requires
        sound(s),
        neat(s),
        s.open_block().program.fits(),
    ensures
        neat(s.open_block()),
{
    let s1 = s.open_block();
    lemma_open_block(s);
    lemma_neat_stays(s.program, s1.program);
    assert forall|k: int| 0 <= k < s1.program.code.len() implies #[trigger] s1.program.instr_ok(
        k,
    ) by {
        assert(s.program.instr_ok(k));
    }
    assert forall|x: int|
        0 <= x < s1.program.terms.len() && s1.program.terms[x]
            != Term::Open implies #[trigger] s1.program.term_ok(x) by {
        assert(s.program.terms[x] != Term::Open);
        assert(s.program.term_ok(x));
    }
}

/// The code of a branch is in order, and every block of it has its end but
/// the one that waits.
pub proof fn lemma_branch_neat(s: LowerState, pending: Seq<usize>, cond: Node, body: Seq<Node>)
    requires
        lower_branch_spec(s, pending, cond, body) is Ok,
        sound(s),
        waiting(s, pending),
        neat(s),
        lower_branch_spec(s, pending, cond, body).unwrap().0.program.fits(),
    ensures
        neat(lower_branch_spec(s, pending, cond, body).unwrap().0),
        ended(
            lower_branch_spec(s, pending, cond, body).unwrap().0,
            s.program.starts.len() - 1,
            lower_branch_spec(s, pending, cond, body).unwrap().1,
        ),
    decreases body, body.len() + 1,
{
    let (s5, queue5) = lower_branch_spec(s, pending, cond, body).unwrap();
    let s1 = lower_value_spec(s, cond).unwrap();
    let test = s1.cur();
    let s2 = s1.open_block();
    let none = Seq::<usize>::empty();
    let s3 = lower_list_spec(s2, body, 0, none).unwrap();
    let s4 = s3.open_block();
    let term = Term::Branch(s1.value, s2.cur(), s4.cur());
    lemma_value_grows(s, cond);
    lemma_list_grows(s2, body, 0, none);
    lemma_open_block(s1);
    lemma_open_block(s3);
    assert(s3.program.terms[test as int] == Term::Open) by {
        assert(!none.contains(test));
    }
    lemma_set_term(s4, test, term);
    lemma_value_neat(s, cond);
    lemma_open_block_neat(s1);
    lemma_list_neat(s2, body, 0, none);
    lemma_open_block_neat(s3);
    lemma_written_on_trans(s1.program, s2.program, s3.program);
    lemma_written_on_trans(s1.program, s3.program, s4.program);
    lemma_written_on_trans(s1.program, s4.program, s5.program);
    lemma_neat_stays(s1.program, s5.program);
    assert(s5.program.starts[test + 1] == s2.program.starts[test + 1]);
    assert(s5.program.is_int(s1.value, s1.program.code.len() as int));
    assert(s5.program.term_ok(test as int));
    lemma_set_term_neat(s4, test, term);
    assert forall|b: int|
        s.program.starts.len() - 1 <= b < s5.program.starts.len()
            - 1 implies #[trigger] s5.program.terms[b] != Term::Open || queue5.contains(
        b as usize,
    ) by {
        if b == test {
        } else if b < s3.program.starts.len() - 1 {
            assert(s3.program.terms[b] != Term::Open || none.contains(b as usize));
        } else {
            assert(queue5[queue5.len() - 1] == b as usize);
        }
    }
}

/// The code of a final branch is in order, and every block of it has its
/// end but the one that waits.
pub proof fn lemma_else_neat(s: LowerState, pending: Seq<usize>, body: Seq<Node>)
    requires
        lower_else_spec(s, pending, body) is Ok,
        sound(s),
        waiting(s, pending),
        neat(s),
        lower_else_spec(s, pending, body).unwrap().0.program.fits(),
    ensures
        neat(lower_else_spec(s, pending, body).unwrap().0),
        ended(
            lower_else_spec(s, pending, body).unwrap().0,
            s.program.starts.len() - 1,
            lower_else_spec(s, pending, body).unwrap().1,
        ),
    decreases body, body.len() + 1,
{
    let (s4, queue4) = lower_else_spec(s, pending, body).unwrap();
    let s1 = s.open_block();
    let before = s.cur();
    let term = Term::Jump(s1.cur());
    let s2 = s1.set_term(before, term);
    let none = Seq::<usize>::empty();
    let s3 = lower_list_spec(s2, body, 0, none).unwrap();
    lemma_list_grows(s2, body, 0, none);
    lemma_open_block(s);
    lemma_set_term(s1, before, term);
    lemma_open_block(s3);
    lemma_open_block_neat(s);
    assert(s2.program.term_ok(before as int));
    lemma_set_term_neat(s1, before, term);
    lemma_list_neat(s2, body, 0, none);
    lemma_open_block_neat(s3);
    assert(s3.program.terms[before as int] == s2.program.terms[before as int]) by {
        assert(!none.contains(before));
    }
    assert forall|b: int|
        s.program.starts.len() - 1 <= b < s4.program.starts.len()
            - 1 implies #[trigger] s4.program.terms[b] != Term::Open || queue4.contains(
        b as usize,
    ) by {
        if b == before {
        } else if b < s3.program.starts.len() - 1 {
            assert(s3.program.terms[b] != Term::Open || none.contains(b as usize));
        } else {
            assert(queue4[queue4.len() - 1] == b as usize);
        }
    }
}

/// The code of a statement is in order; every block of it has its end or
/// waits, and so does every block that waited.
pub proof fn lemma_stmt_neat(s: LowerState, pending: Seq<usize>, n: Node)
    requires
        lower_stmt_spec(s, pending, n) is Ok,
        sound(s),
        waiting(s, pending),
        neat(s),
        lower_stmt_spec(s, pending, n).unwrap().0.program.fits(),
    ensures
        neat(lower_stmt_spec(s, pending, n).unwrap().0),
        ended(
            lower_stmt_spec(s, pending, n).unwrap().0,
            s.program.starts.len() - 1,
            lower_stmt_spec(s, pending, n).unwrap().1,
        ),
        served(
            lower_stmt_spec(s, pending, n).unwrap().0,
            pending,
            lower_stmt_spec(s, pending, n).unwrap().1,
        ),
    decreases n, 0nat,
{
    let (s1, queue1) = lower_stmt_spec(s, pending, n).unwrap();
    let s0 = flush_spec(s, pending);
    let none = Seq::<usize>::empty();
    lemma_stmt_grows(s, pending, n);
    lemma_flush(s, pending);
    match n {
        Node::ElseIf(cond, body) => {
            lemma_branch_neat(s, pending, *cond, body);
            assert forall|i: int| 0 <= i < pending.len() implies s1.program.terms[(
            #[trigger] pending[i]) as int] != Term::Open || queue1.contains(pending[i]) by {
                assert(queue1[i] == pending[i]);
            }
        },
        Node::Else(body) => {
            lemma_else_neat(s, pending, body);
            assert forall|i: int| 0 <= i < pending.len() implies s1.program.terms[(
            #[trigger] pending[i]) as int] != Term::Open || queue1.contains(pending[i]) by {
                assert(queue1[i] == pending[i]);
            }
        },
        Node::If(cond, body) => {
            lemma_branch_grows(s0, none, *cond, body);
            lemma_flush_neat(s, pending);
            lemma_branch_neat(s0, none, *cond, body);
            assert forall|i: int| 0 <= i < pending.len() implies s1.program.terms[(
            #[trigger] pending[i]) as int] != Term::Open || queue1.contains(pending[i]) by {
                assert(pending.contains(pending[i]));
                assert(s0.program.terms[pending[i] as int] == Term::Jump(s.cur()));
                assert(s1.program.terms[pending[i] as int] == s0.program.terms[pending[i] as int]);
            }
        },
        Node::Assign(target, v) => {
            lemma_assign_grows(s0, *target, *v);
            lemma_flush_neat(s, pending);
            lemma_assign_neat(s0, *target, *v);
            assert forall|i: int| 0 <= i < pending.len() implies s1.program.terms[(
            #[trigger] pending[i]) as int] != Term::Open || queue1.contains(pending[i]) by {
                assert(pending.contains(pending[i]));
                assert(s0.program.terms[pending[i] as int] == Term::Jump(s.cur()));
            }
        },
        Node::Print(v) => {
            lemma_print_grows(s0, *v);
            lemma_flush_neat(s, pending);
            lemma_print_neat(s0, *v);
            assert forall|i: int| 0 <= i < pending.len() implies s1.program.terms[(
            #[trigger] pending[i]) as int] != Term::Open || queue1.contains(pending[i]) by {
                assert(pending.contains(pending[i]));
                assert(s0.program.terms[pending[i] as int] == Term::Jump(s.cur()));
            }
        },
        _ => {
            lemma_flush_neat(s, pending);
            assert forall|i: int| 0 <= i < pending.len() implies s1.program.terms[(
            #[trigger] pending[i]) as int] != Term::Open || queue1.contains(pending[i]) by {
                assert(pending.contains(pending[i]));
                assert(s0.program.terms[pending[i] as int] == Term::Jump(s.cur()));
            }
        },
    }
}

/// The code of a list of statements is in order, and every block of it
/// but the current one has its end, and so has every block that waited.
pub proof fn lemma_list_neat(s: LowerState, stmts: Seq<Node>, from: int, pending: Seq<usize>)
    requires
        lower_list_spec(s, stmts, from, pending) is Ok,
        sound(s),
        waiting(s, pending),
        neat(s),
        lower_list_spec(s, stmts, from, pending).unwrap().program.fits(),
    ensures
        neat(lower_list_spec(s, stmts, from, pending).unwrap()),
        ended(
            lower_list_spec(s, stmts, from, pending).unwrap(),
            s.program.starts.len() - 1,
            Seq::empty(),
        ),
        served(lower_list_spec(s, stmts, from, pending).unwrap(), pending, Seq::empty()),
    decreases stmts, stmts.len() - from,
{
    let s_end = lower_list_spec(s, stmts, from, pending).unwrap();
    let none = Seq::<usize>::empty();
    if from < 0 || from >= stmts.len() {
        lemma_flush(s, pending);
        lemma_flush_neat(s, pending);
        assert forall|i: int| 0 <= i < pending.len() implies s_end.program.terms[(
        #[trigger] pending[i]) as int] != Term::Open || none.contains(pending[i]) by {
            assert(pending.contains(pending[i]));
            assert(s_end.program.terms[pending[i] as int] == Term::Jump(s.cur()));
        }
    } else {
        let (s1, queue1) = lower_stmt_spec(s, pending, stmts[from]).unwrap();
        lemma_list_grows(s1, stmts, from + 1, queue1);
        lemma_stmt_grows(s, pending, stmts[from]);
        lemma_stmt_neat(s, pending, stmts[from]);
        lemma_list_neat(s1, stmts, from + 1, queue1);
        assert forall|b: int|
            s.program.starts.len() - 1 <= b < s_end.program.starts.len()
                - 1 implies #[trigger] s_end.program.terms[b] != Term::Open || none.contains(
            b as usize,
        ) by {
            if b < s1.program.starts.len() - 1 {
                assert(s1.program.terms[b] != Term::Open || queue1.contains(b as usize));
                if s1.program.terms[b] != Term::Open {
                    assert(s_end.program.terms[b] == s1.program.terms[b]);
                } else {
                    let j = choose|j: int| 0 <= j < queue1.len() && queue1[j] == b as usize;
                    assert(s_end.program.terms[queue1[j] as int] != Term::Open || none.contains(
                        queue1[j],
                    ));
                }
            } else {
                assert(s_end.program.terms[b] != Term::Open || none.contains(b as usize));
            }
        }
        assert forall|i: int| 0 <= i < pending.len() implies s_end.program.terms[(
        #[trigger] pending[i]) as int] != Term::Open || none.contains(pending[i]) by {
            let x = pending[i];
            assert(s1.program.terms[x as int] != Term::Open || queue1.contains(x));
            if s1.program.terms[x as int] != Term::Open {
                assert(s_end.program.terms[x as int] == s1.program.terms[x as int]);
            } else {
                let j = choose|j: int| 0 <= j < queue1.len() && queue1[j] == x;
                assert(s_end.program.terms[queue1[j] as int] != Term::Open || none.contains(
                    queue1[j],
                ));
            }
        }
    }
}

/// The code generator writes complete programs. A program that a list of
/// statements is lowered to, of a size that a machine can hold, is well
/// formed; every instruction of it names a slot that exists and operands of
/// the sorts that it needs; and every block of it has an end, which leads
/// to blocks of the program.
pub proof fn lemma_lowered_program_is_complete(stmts: Seq<Node>)
    requires
        lower_spec(stmts) is Ok,
        lower_spec(stmts).unwrap().fits(),
    ensures
        lower_spec(stmts).unwrap().complete(),
{
    let s0 = initial_state();
    let none = Seq::<usize>::empty();
    let s_end = lower_list_spec(s0, stmts, 0, none).unwrap();
    let last = s_end.cur();
    let p = lower_spec(stmts).unwrap();
    assert(s0.program.block_end(0) == 0);
    assert(sound(s0));
    assert(neat(s0));
    lemma_list_grows(s0, stmts, 0, none);
    lemma_list_neat(s0, stmts, 0, none);
    assert(p.terms.len() == s_end.program.terms.len());
    assert forall|k: int| 0 <= k < p.starts.len() implies (#[trigger] p.starts[k]) as int
        <= p.block_end(k) <= p.code.len() by {
        assert(s_end.program.starts[k] as int <= s_end.program.block_end(k)
            <= s_end.program.code.len());
    }
    assert(written_on(s_end.program, p));
    lemma_neat_stays(s_end.program, p);
    assert forall|k: int| 0 <= k < p.code.len() implies #[trigger] p.instr_ok(k) by {
        assert(s_end.program.instr_ok(k));
    }
    assert forall|b: int| 0 <= b < p.terms.len() implies #[trigger] p.term_ok(b) by {
        if b < last {
            assert(s_end.program.terms[b] != Term::Open || none.contains(b as usize));
            assert(s_end.program.term_ok(b));
        }
    }
}

} // verus!
