//! The code generator is correct: the program that a list of statements is
//! lowered to prints what the statements mean. The proof follows the code
//! generator statement by statement and relates the state of the running
//! program to the state between the statements.
use vstd::prelude::*;
use crate::token::Kind;
use crate::ast::{Node, arith};
use crate::codegen::{LowerState, VarInfo};
use crate::codegen::{binop_of, cell_of, find_var, flush_spec, initial_state, lower_assign_spec};
use crate::codegen::{lower_assigned_spec, lower_branch_spec, lower_else_spec, lower_list_spec};
use crate::codegen::{lower_print_spec, lower_spec, lower_stmt_spec, lower_value_spec, print_calls};
use crate::ir::{Builtin, Instr, Machine, Operand, Output, ProgramView, Term, Value};
use crate::ir::{binop_apply, start_machine};
use crate::meaning::{Held, World};
use crate::meaning::{assigned_value, meaning, printed, run_branch, run_list, run_stmt, shown};
use crate::meaning::{start_world, value_in};

verus! {

/// Whether `a` is the beginning of `b`.
pub open spec fn is_prefix<T>(a: Seq<T>, b: Seq<T>) -> bool {
    &&& a.len() <= b.len()
    &&& forall|i: int| 0 <= i < a.len() ==> a[i] == b[i]
}

impl ProgramView {
    /// Whether the program is of a size that a machine can hold: every
    /// index in it is a machine integer.
    pub open spec fn fits(self) -> bool {
        &&& self.code.len() <= usize::MAX
        &&& self.starts.len() <= usize::MAX
        &&& self.globals.len() <= usize::MAX
        &&& self.slots.len() <= usize::MAX
    }
}

/// Whether the program `b` is the program `a` written further: nothing
/// that `a` holds is changed but that blocks get their ends, and code is
/// added only behind the code of `a`, in its last block or in new ones.
pub open spec fn written_on(a: ProgramView, b: ProgramView) -> bool {
    &&& is_prefix(a.code, b.code)
    &&& is_prefix(a.starts, b.starts)
    &&& is_prefix(a.globals, b.globals)
    &&& is_prefix(a.slots, b.slots)
    &&& a.terms.len() <= b.terms.len()
    &&& forall|i: int|
        0 <= i < a.terms.len() ==> (#[trigger] a.terms[i] != Term::Open ==> b.terms[i]
            == a.terms[i])
    &&& a.code.len() <= b.block_end(a.starts.len() - 1)
}

/// Whether the state `b` is the state `a` after more lowering.
pub open spec fn grows(a: LowerState, b: LowerState) -> bool {
    written_on(a.program, b.program) && part_of(a.vars, b.vars)
}

/// Whether the value computed last names something that exists.
pub open spec fn value_ok(s: LowerState) -> bool {
    match s.value {
        Operand::Const(_) => true,
        Operand::Reg(k) => k < s.program.code.len(),
        Operand::Global(g) => g < s.program.globals.len(),
    }
}

/// Whether the variable table is in order: each variable has a slot of
/// the program, of the sort that its kind asks for, and no two variables
/// share a slot.
pub open spec fn table_ok(s: LowerState) -> bool {
    &&& forall|name: Seq<char>| #[trigger]
        s.vars.contains_key(name) ==> s.vars[name].slot < s.program.slots.len()
            && s.program.slots[s.vars[name].slot as int] == cell_of(s.vars[name].kind)
    &&& forall|a: Seq<char>, b: Seq<char>|
        #![trigger s.vars[a], s.vars[b]]
        s.vars.contains_key(a) && s.vars.contains_key(b) && a != b ==> s.vars[a].slot
            != s.vars[b].slot
}

/// Whether the state of the code generator is in order: the program is
/// well formed, its last block is open, and the table and the value
/// computed last are in order.
pub open spec fn sound(s: LowerState) -> bool {
    &&& s.program.well_formed()
    &&& s.program.terms[s.program.starts.len() - 1] == Term::Open
    &&& table_ok(s)
    &&& value_ok(s)
}

/// Whether the waiting branches are in order: each is an earlier block
/// that is still open, none waits twice, and where any waits the current
/// block is empty.
pub open spec fn waiting(s: LowerState, pending: Seq<usize>) -> bool {
    &&& forall|i: int|
        0 <= i < pending.len() ==> (#[trigger] pending[i]) < s.program.starts.len() - 1
            && s.program.terms[pending[i] as int] == Term::Open
    &&& forall|i: int, j: int|
        0 <= i < j < pending.len() ==> (#[trigger] pending[i]) != (#[trigger] pending[j])
    &&& pending.len() > 0 ==> s.program.starts[s.program.starts.len() - 1]
        == s.program.code.len()
}

/// Being the beginning of a sequence carries over.
pub proof fn lemma_prefix_trans<T>(a: Seq<T>, b: Seq<T>, c: Seq<T>)
    requires
        is_prefix(a, b),
        is_prefix(b, c),
    ensures
        is_prefix(a, c),
{
}

/// Being written on carries over.
pub proof fn lemma_written_on_trans(a: ProgramView, b: ProgramView, c: ProgramView)
    requires
        written_on(a, b),
        written_on(b, c),
        a.starts.len() >= 1,
    ensures
        written_on(a, c),
{
    lemma_prefix_trans(a.code, b.code, c.code);
    lemma_prefix_trans(a.starts, b.starts, c.starts);
    lemma_prefix_trans(a.globals, b.globals, c.globals);
    lemma_prefix_trans(a.slots, b.slots, c.slots);
    assert forall|i: int| 0 <= i < a.terms.len() implies (#[trigger] a.terms[i] != Term::Open
        ==> c.terms[i] == a.terms[i]) by {
        if a.terms[i] != Term::Open {
            assert(b.terms[i] == a.terms[i]);
        }
    }
    let last = a.starts.len() - 1;
    if a.starts.len() < b.starts.len() {
        assert(b.starts[last + 1] == c.starts[last + 1]);
    }
}

/// What a lookup in a variable table that is in order finds: a slot of
/// the program, of the sort that the variable's kind asks for.
pub proof fn lemma_find_var(s: LowerState, name: Seq<char>)
    requires
        table_ok(s),
    ensures
        match find_var(s.vars, name) {
            Some(v) => s.vars.contains_key(name) && v == s.vars[name] && v.slot
                < s.program.slots.len() && s.program.slots[v.slot as int] == cell_of(v.kind),
            None => !s.vars.contains_key(name),
        },
{
}

/// Whether everything that the table `a` holds is held by the table `b`
/// as well.
pub open spec fn part_of(a: Map<Seq<char>, VarInfo>, b: Map<Seq<char>, VarInfo>) -> bool {
    forall|k: Seq<char>| #[trigger] a.contains_key(k) ==> b.contains_key(k) && a[k] == b[k]
}

/// Being part of a table carries over.
pub proof fn lemma_part_of_trans(
    a: Map<Seq<char>, VarInfo>,
    b: Map<Seq<char>, VarInfo>,
    c: Map<Seq<char>, VarInfo>,
)
    requires
        part_of(a, b),
        part_of(b, c),
    ensures
        part_of(a, c),
{
    assert forall|k: Seq<char>| #[trigger] a.contains_key(k) implies c.contains_key(k) && a[k]
        == c[k] by {
        assert(b.contains_key(k));
    }
}

/// Running a stretch of code can be done in two parts.
pub proof fn lemma_run_code_split(p: ProgramView, m: Machine, k: int, mid: int, end: int)
    requires
        k <= mid <= end,
        p.run_code(m, k, mid) is Some,
    ensures
        p.run_code(m, k, end) == p.run_code(p.run_code(m, k, mid).unwrap(), mid, end),
    decreases mid - k,
{
    if k < mid {
        lemma_run_code_split(p, p.step(m, k).unwrap(), k + 1, mid, end);
    }
}

/// Running a stretch of code and one more instruction.
pub proof fn lemma_run_code_then_step(p: ProgramView, m: Machine, k: int, end: int)
    requires
        k <= end,
        p.run_code(m, k, end) is Some,
    ensures
        p.run_code(m, k, end + 1) == p.step(p.run_code(m, k, end).unwrap(), end),
{
    lemma_run_code_split(p, m, k, end, end + 1);
    let m1 = p.run_code(m, k, end).unwrap();
    assert(p.run_code(m1, end, end + 1) == p.step(m1, end)) by {
        match p.step(m1, end) {
            Some(m2) => {
                assert(p.run_code(m2, end + 1, end + 1) == Some(m2));
            },
            None => {},
        }
    }
}

/// One more instruction leaves the state in order.
pub proof fn lemma_emit(s: LowerState, instr: Instr)
    requires
        sound(s),
    ensures
        sound(s.emit(instr)),
        grows(s, s.emit(instr)),
        s.emit(instr).program.fits() ==> sound(s.emit_value(instr)) && grows(
            s,
            s.emit_value(instr),
        ),
{
    let a = s.program;
    let b = s.emit(instr).program;
    assert forall|k: int| 0 <= k < b.starts.len() implies (#[trigger] b.starts[k]) as int
        <= b.block_end(k) <= b.code.len() by {
        assert(a.starts[k] as int <= a.block_end(k) <= a.code.len());
    }
}

/// A new block leaves the state in order; the new block is the current
/// one, and it is empty.
pub proof fn lemma_open_block(s: LowerState)
    requires
        sound(s),
        s.open_block().program.fits(),
    ensures
        sound(s.open_block()),
        grows(s, s.open_block()),
        s.open_block().cur() == s.cur() + 1,
        s.open_block().program.starts[s.cur() + 1] == s.program.code.len(),
{
    let a = s.program;
    let b = s.open_block().program;
    assert forall|k: int| 0 <= k < b.starts.len() implies (#[trigger] b.starts[k]) as int
        <= b.block_end(k) <= b.code.len() by {
        if k < a.starts.len() {
            assert(a.starts[k] as int <= a.block_end(k) <= a.code.len());
        }
    }
}

/// Giving an earlier, open block its end leaves the state in order.
pub proof fn lemma_set_term(s: LowerState, b: usize, t: Term)
    requires
        sound(s),
        b < s.program.starts.len() - 1,
        s.program.terms[b as int] == Term::Open,
    ensures
        sound(s.set_term(b, t)),
        grows(s, s.set_term(b, t)),
{
    let a = s.program;
    let c = s.set_term(b, t).program;
    assert forall|k: int| 0 <= k < c.starts.len() implies (#[trigger] c.starts[k]) as int
        <= c.block_end(k) <= c.code.len() by {
        assert(a.starts[k] as int <= a.block_end(k) <= a.code.len());
    }
}

/// Lowering an expression only adds code to the current block, and leaves
/// the state in order.
pub proof fn lemma_value_grows(s: LowerState, e: Node)
    requires
        lower_value_spec(s, e) is Ok,
    ensures
        lower_value_spec(s, e).unwrap().vars == s.vars,
        lower_value_spec(s, e).unwrap().program.starts == s.program.starts,
        lower_value_spec(s, e).unwrap().program.terms == s.program.terms,
        lower_value_spec(s, e).unwrap().program.globals == s.program.globals,
        lower_value_spec(s, e).unwrap().program.slots == s.program.slots,
        is_prefix(s.program.code, lower_value_spec(s, e).unwrap().program.code),
        sound(s) && lower_value_spec(s, e).unwrap().program.fits() ==> sound(
            lower_value_spec(s, e).unwrap(),
        ) && grows(s, lower_value_spec(s, e).unwrap()),
    decreases e,
{
    let s1 = lower_value_spec(s, e).unwrap();
    match e {
        Node::Int(v) => {},
        Node::Ident(name, _) => {
            let var = find_var(s.vars, name).unwrap();
            if sound(s) && s1.program.fits() {
                lemma_emit(s, Instr::Load { slot: var.slot });
            }
        },
        Node::BinaryOp(kind, l, r) => {
            let sa = lower_value_spec(s, *l).unwrap();
            let sb = lower_value_spec(sa, *r).unwrap();
            lemma_value_grows(s, *l);
            lemma_value_grows(sa, *r);
            let instr = Instr::Arith { op: binop_of(kind).unwrap(), lhs: sa.value, rhs: sb.value };
            assert(s1 == sb.emit_value(instr));
            lemma_prefix_trans(s.program.code, sa.program.code, sb.program.code);
            lemma_prefix_trans(s.program.code, sb.program.code, s1.program.code);
            if sound(s) && s1.program.fits() {
                lemma_emit(sb, instr);
                lemma_written_on_trans(s.program, sa.program, sb.program);
                lemma_written_on_trans(s.program, sb.program, s1.program);
            }
        },
        Node::Equal(l, r) => {
            let sa = lower_value_spec(s, *l).unwrap();
            let sb = lower_value_spec(sa, *r).unwrap();
            lemma_value_grows(s, *l);
            lemma_value_grows(sa, *r);
            let instr = Instr::Test { lhs: sa.value, rhs: sb.value };
            assert(s1 == sb.emit_value(instr));
            lemma_prefix_trans(s.program.code, sa.program.code, sb.program.code);
            lemma_prefix_trans(s.program.code, sb.program.code, s1.program.code);
            if sound(s) && s1.program.fits() {
                lemma_emit(sb, instr);
                lemma_written_on_trans(s.program, sa.program, sb.program);
                lemma_written_on_trans(s.program, sb.program, s1.program);
            }
        },
        _ => {},
    }
}

/// Whether `b` holds at least as much as `a` of everything.
pub open spec fn no_smaller(a: ProgramView, b: ProgramView) -> bool {
    &&& a.code.len() <= b.code.len()
    &&& a.starts.len() <= b.starts.len()
    &&& a.globals.len() <= b.globals.len()
    &&& a.slots.len() <= b.slots.len()
}

/// Whether the ends of the blocks before the current one of `a` that do
/// not wait are the same in `b`.
pub open spec fn same_ends(a: LowerState, pending: Seq<usize>, b: LowerState) -> bool {
    forall|i: int|
        0 <= i < a.program.starts.len() - 1 && !pending.contains(i as usize)
            ==> #[trigger] b.program.terms[i] == a.program.terms[i]
}

/// Lowering the right-hand side of an assignment adds code to the current
/// block and perhaps a global, and leaves the state in order.
pub proof fn lemma_assigned_grows(s: LowerState, v: Node)
    requires
        lower_assigned_spec(s, v) is Ok,
    ensures
        lower_assigned_spec(s, v).unwrap().0.vars == s.vars,
        lower_assigned_spec(s, v).unwrap().0.program.starts == s.program.starts,
        lower_assigned_spec(s, v).unwrap().0.program.terms == s.program.terms,
        lower_assigned_spec(s, v).unwrap().0.program.slots == s.program.slots,
        is_prefix(s.program.code, lower_assigned_spec(s, v).unwrap().0.program.code),
        is_prefix(s.program.globals, lower_assigned_spec(s, v).unwrap().0.program.globals),
        sound(s) && lower_assigned_spec(s, v).unwrap().0.program.fits() ==> sound(
            lower_assigned_spec(s, v).unwrap().0,
        ) && grows(s, lower_assigned_spec(s, v).unwrap().0),
{
    let s1 = lower_assigned_spec(s, v).unwrap().0;
    match v {
        Node::Char(c) => {},
        Node::Str(text) => {
            if sound(s) && s1.program.fits() {
                let a = s.program;
                let b = s1.program;
                assert forall|k: int| 0 <= k < b.starts.len() implies (#[trigger] b.starts[k]) as int
                    <= b.block_end(k) <= b.code.len() by {
                    assert(a.starts[k] as int <= a.block_end(k) <= a.code.len());
                }
            }
        },
        _ => {
            lemma_value_grows(s, v);
        },
    }
}

/// Lowering an assignment adds code to the current block, and perhaps a
/// global and a variable with its slot, and leaves the state in order.
pub proof fn lemma_assign_grows(s: LowerState, target: Node, v: Node)
    requires
        lower_assign_spec(s, target, v) is Ok,
    ensures
        lower_assign_spec(s, target, v).unwrap().program.starts == s.program.starts,
        lower_assign_spec(s, target, v).unwrap().program.terms == s.program.terms,
        no_smaller(s.program, lower_assign_spec(s, target, v).unwrap().program),
        sound(s) && lower_assign_spec(s, target, v).unwrap().program.fits() ==> sound(
            lower_assign_spec(s, target, v).unwrap(),
        ) && grows(s, lower_assign_spec(s, target, v).unwrap()),
{
    let s2 = lower_assign_spec(s, target, v).unwrap();
    match target {
        Node::Ident(name, _) => {
            let (s1, kind) = lower_assigned_spec(s, v).unwrap();
            lemma_assigned_grows(s, v);
            match find_var(s1.vars, name) {
                Some(var) => {
                    if sound(s) && s2.program.fits() {
                        lemma_emit(s1, Instr::Store { slot: var.slot, value: s1.value });
                        lemma_written_on_trans(s.program, s1.program, s2.program);
                        lemma_part_of_trans(s.vars, s1.vars, s2.vars);
                    }
                },
                None => {
                    let sd = s1.declare(name, kind);
                    if sound(s) && s2.program.fits() {
                        lemma_find_var(s1, name);
                        let a = s1.program;
                        let b = sd.program;
                        assert forall|k: int| 0 <= k < b.starts.len() implies (
                        #[trigger] b.starts[k]) as int <= b.block_end(k) <= b.code.len() by {
                            assert(a.starts[k] as int <= a.block_end(k) <= a.code.len());
                        }
                        assert(sound(sd));
                        assert(grows(s1, sd));
                        lemma_emit(
                            sd,
                            Instr::Store { slot: s1.program.slots.len() as usize, value: s1.value },
                        );
                        lemma_written_on_trans(s1.program, sd.program, s2.program);
                        lemma_written_on_trans(s.program, s1.program, s2.program);
                        lemma_part_of_trans(s1.vars, sd.vars, s2.vars);
                        lemma_part_of_trans(s.vars, s1.vars, s2.vars);
                    }
                },
            }
        },
        _ => {},
    }
}

/// The calls that print a value only add code to the current block.
pub proof fn lemma_print_calls_grows(s: LowerState, kind: Kind, v: Operand)
    requires
        sound(s),
    ensures
        sound(print_calls(s, kind, v)),
        grows(s, print_calls(s, kind, v)),
        print_calls(s, kind, v).program.starts == s.program.starts,
        print_calls(s, kind, v).program.terms == s.program.terms,
        print_calls(s, kind, v).vars == s.vars,
{
    if kind == Kind::Str {
        lemma_emit(s, Instr::Call { callee: Builtin::Puts, arg: v });
    } else if kind == Kind::Char {
        let s1 = s.emit(Instr::Call { callee: Builtin::Putchar, arg: v });
        lemma_emit(s, Instr::Call { callee: Builtin::Putchar, arg: v });
        lemma_emit(s1, Instr::Call { callee: Builtin::Putchar, arg: Operand::Const(10) });
        lemma_written_on_trans(s.program, s1.program, print_calls(s, kind, v).program);
    } else {
        lemma_emit(s, Instr::Call { callee: Builtin::Printf, arg: v });
    }
}

/// Lowering a print statement adds code to the current block, and perhaps
/// a global, and leaves the state in order.
pub proof fn lemma_print_grows(s: LowerState, v: Node)
    requires
        lower_print_spec(s, v) is Ok,
    ensures
        lower_print_spec(s, v).unwrap().program.starts == s.program.starts,
        lower_print_spec(s, v).unwrap().program.terms == s.program.terms,
        lower_print_spec(s, v).unwrap().vars == s.vars,
        no_smaller(s.program, lower_print_spec(s, v).unwrap().program),
        sound(s) && lower_print_spec(s, v).unwrap().program.fits() ==> sound(
            lower_print_spec(s, v).unwrap(),
        ) && grows(s, lower_print_spec(s, v).unwrap()),
{
    let s2 = lower_print_spec(s, v).unwrap();
    match v {
        Node::Ident(name, _) => {
            let var = find_var(s.vars, name).unwrap();
            let s1 = s.emit_value(Instr::Load { slot: var.slot });
            if sound(s) && s2.program.fits() {
                lemma_emit(s, Instr::Load { slot: var.slot });
                lemma_print_calls_grows(s1, var.kind, s1.value);
                lemma_written_on_trans(s.program, s1.program, s2.program);
            }
        },
        Node::Char(c) => {
            if sound(s) {
                lemma_print_calls_grows(s, Kind::Char, Operand::Const(c as i32));
            }
        },
        Node::Str(text) => {
            let s1 = s.add_global(text);
            lemma_assigned_grows(s, v);
            if sound(s) && s2.program.fits() {
                lemma_print_calls_grows(s1, Kind::Str, s1.value);
                lemma_written_on_trans(s.program, s1.program, s2.program);
            }
        },
        Node::Int(_) | Node::BinaryOp(_, _, _) | Node::Equal(_, _) => {
            let s1 = lower_value_spec(s, v).unwrap();
            lemma_value_grows(s, v);
            if sound(s) && s2.program.fits() {
                lemma_print_calls_grows(s1, Kind::Int, s1.value);
                lemma_written_on_trans(s.program, s1.program, s2.program);
            }
        },
        _ => {},
    }
}

/// Joining the waiting branches gives each of them a jump to the current
/// block, changes nothing else and leaves the state in order.
pub proof fn lemma_flush(s: LowerState, pending: Seq<usize>)
    ensures
        flush_spec(s, pending).program.code == s.program.code,
        flush_spec(s, pending).program.starts == s.program.starts,
        flush_spec(s, pending).program.globals == s.program.globals,
        flush_spec(s, pending).program.slots == s.program.slots,
        flush_spec(s, pending).vars == s.vars,
        flush_spec(s, pending).value == s.value,
        sound(s) && waiting(s, pending) && s.program.fits() ==> {
            &&& sound(flush_spec(s, pending))
            &&& grows(s, flush_spec(s, pending))
            &&& flush_spec(s, pending).program.terms.len() == s.program.terms.len()
            &&& forall|i: int|
                0 <= i < s.program.terms.len() ==> #[trigger] flush_spec(s, pending).program.terms[i]
                    == (if pending.contains(i as usize) {
                    Term::Jump(s.cur())
                } else {
                    s.program.terms[i]
                })
        },
    decreases pending.len(),
{
    if pending.len() > 0 {
        let x = pending.last();
        let s1 = s.set_term(x, Term::Jump(s.cur()));
        let rest = pending.drop_last();
        lemma_flush(s1, rest);
        if sound(s) && waiting(s, pending) && s.program.fits() {
            lemma_set_term(s, x, Term::Jump(s.cur()));
            assert(waiting(s1, rest)) by {
                assert forall|i: int| 0 <= i < rest.len() implies (#[trigger] rest[i])
                    < s1.program.starts.len() - 1 && s1.program.terms[rest[i] as int]
                    == Term::Open by {
                    assert(rest[i] == pending[i]);
                    assert(pending[pending.len() - 1] == x);
                }
            }
            let s2 = flush_spec(s, pending);
            lemma_written_on_trans(s.program, s1.program, s2.program);
            assert forall|i: int| 0 <= i < s.program.terms.len() implies #[trigger] s2.program.terms[i]
                == (if pending.contains(i as usize) {
                Term::Jump(s.cur())
            } else {
                s.program.terms[i]
            }) by {
                if pending.contains(i as usize) {
                    if rest.contains(i as usize) {
                    } else {
                        let j = choose|j: int| 0 <= j < pending.len() && pending[j] == i as usize;
                        if j < rest.len() {
                            assert(rest[j] == pending[j]);
                        }
                        assert(i == x);
                    }
                } else {
                    if rest.contains(i as usize) {
                        let j = choose|j: int| 0 <= j < rest.len() && rest[j] == i as usize;
                        assert(pending[j] == rest[j]);
                    }
                    assert(pending[pending.len() - 1] == x);
                }
            }
        }
    }
}

/// Whether every block that waits in `after` waited before or is a block
/// from the current one of `s` on.
pub open spec fn waits_on(s: LowerState, before: Seq<usize>, after: Seq<usize>) -> bool {
    forall|j: int|
        0 <= j < after.len() ==> before.contains(#[trigger] after[j]) || after[j]
            >= s.program.starts.len() - 1
}

/// What lowering a statement or a list of statements keeps in order,
/// given that the state and the waiting branches were in order and the
/// result is of a size that a machine can hold.
pub open spec fn kept(
    s: LowerState,
    pending: Seq<usize>,
    s1: LowerState,
    pending1: Seq<usize>,
) -> bool {
    sound(s) && waiting(s, pending) && s1.program.fits() ==> {
        &&& sound(s1)
        &&& waiting(s1, pending1)
        &&& grows(s, s1)
        &&& same_ends(s, pending, s1)
        &&& waits_on(s, pending, pending1)
    }
}

/// Lowering a branch leaves the state and the waiting branches in order.
pub proof fn lemma_branch_grows(s: LowerState, pending: Seq<usize>, cond: Node, body: Seq<Node>)
    requires
        lower_branch_spec(s, pending, cond, body) is Ok,
    ensures
        no_smaller(s.program, lower_branch_spec(s, pending, cond, body).unwrap().0.program),
        kept(
            s,
            pending,
            lower_branch_spec(s, pending, cond, body).unwrap().0,
            lower_branch_spec(s, pending, cond, body).unwrap().1,
        ),
    decreases body, body.len() + 1,
{
    let (s5, queue5) = lower_branch_spec(s, pending, cond, body).unwrap();
    let s1 = lower_value_spec(s, cond).unwrap();
    let test = s1.cur();
    let s2 = s1.open_block();
    let s3 = lower_list_spec(s2, body, 0, Seq::empty()).unwrap();
    let s4 = s3.open_block();
    lemma_value_grows(s, cond);
    lemma_list_grows(s2, body, 0, Seq::empty());
    if sound(s) && waiting(s, pending) && s5.program.fits() {
        lemma_open_block(s1);
        lemma_open_block(s3);
        assert(s3.program.terms[test as int] == Term::Open) by {
            assert(!Seq::<usize>::empty().contains(test));
        }
        lemma_set_term(s4, test, Term::Branch(s1.value, s2.cur(), s4.cur()));
        lemma_written_on_trans(s.program, s1.program, s2.program);
        lemma_written_on_trans(s.program, s2.program, s3.program);
        lemma_written_on_trans(s.program, s3.program, s4.program);
        lemma_written_on_trans(s.program, s4.program, s5.program);
        lemma_part_of_trans(s.vars, s2.vars, s3.vars);
        assert forall|i: int| 0 <= i < queue5.len() implies (#[trigger] queue5[i]) < s5.program.starts.len()
            - 1 && s5.program.terms[queue5[i] as int] == Term::Open by {
            if i < pending.len() {
                assert(queue5[i] == pending[i]);
                assert(!Seq::<usize>::empty().contains(pending[i]));
                assert(s3.program.terms[pending[i] as int] == s2.program.terms[pending[i] as int]);
            }
        }
        assert forall|i: int, j: int| 0 <= i < j < queue5.len() implies (#[trigger] queue5[i]) != (
        #[trigger] queue5[j]) by {
            if j < pending.len() {
                assert(queue5[i] == pending[i] && queue5[j] == pending[j]);
            } else {
                assert(queue5[i] == pending[i]);
            }
        }
        assert forall|i: int|
            0 <= i < s.program.starts.len() - 1 && !pending.contains(
                i as usize,
            ) implies #[trigger] s5.program.terms[i] == s.program.terms[i] by {
            assert(!Seq::<usize>::empty().contains(i as usize));
            assert(s3.program.terms[i] == s2.program.terms[i]);
        }
        assert forall|j: int| 0 <= j < queue5.len() implies pending.contains(#[trigger] queue5[j]) || queue5[j]
            >= s.program.starts.len() - 1 by {
            if j < pending.len() {
                assert(queue5[j] == pending[j]);
            }
        }
    }
}

/// Lowering a final branch leaves the state and the waiting branches in
/// order.
pub proof fn lemma_else_grows(s: LowerState, pending: Seq<usize>, body: Seq<Node>)
    requires
        lower_else_spec(s, pending, body) is Ok,
    ensures
        no_smaller(s.program, lower_else_spec(s, pending, body).unwrap().0.program),
        kept(
            s,
            pending,
            lower_else_spec(s, pending, body).unwrap().0,
            lower_else_spec(s, pending, body).unwrap().1,
        ),
    decreases body, body.len() + 1,
{
    let (s4, queue4) = lower_else_spec(s, pending, body).unwrap();
    let s1 = s.open_block();
    let s2 = s1.set_term(s.cur(), Term::Jump(s1.cur()));
    let s3 = lower_list_spec(s2, body, 0, Seq::empty()).unwrap();
    lemma_list_grows(s2, body, 0, Seq::empty());
    if sound(s) && waiting(s, pending) && s4.program.fits() {
        lemma_open_block(s);
        lemma_set_term(s1, s.cur(), Term::Jump(s1.cur()));
        lemma_open_block(s3);
        lemma_written_on_trans(s.program, s1.program, s2.program);
        lemma_written_on_trans(s.program, s2.program, s3.program);
        lemma_written_on_trans(s.program, s3.program, s4.program);
        lemma_part_of_trans(s.vars, s2.vars, s3.vars);
        assert forall|i: int| 0 <= i < queue4.len() implies (#[trigger] queue4[i]) < s4.program.starts.len()
            - 1 && s4.program.terms[queue4[i] as int] == Term::Open by {
            if i < pending.len() {
                assert(queue4[i] == pending[i]);
                assert(!Seq::<usize>::empty().contains(pending[i]));
                assert(s3.program.terms[pending[i] as int] == s2.program.terms[pending[i] as int]);
            }
        }
        assert forall|i: int, j: int| 0 <= i < j < queue4.len() implies (#[trigger] queue4[i]) != (
        #[trigger] queue4[j]) by {
            if j < pending.len() {
                assert(queue4[i] == pending[i] && queue4[j] == pending[j]);
            } else {
                assert(queue4[i] == pending[i]);
            }
        }
        assert forall|i: int|
            0 <= i < s.program.starts.len() - 1 && !pending.contains(
                i as usize,
            ) implies #[trigger] s4.program.terms[i] == s.program.terms[i] by {
            assert(!Seq::<usize>::empty().contains(i as usize));
            assert(s3.program.terms[i] == s2.program.terms[i]);
        }
        assert forall|j: int| 0 <= j < queue4.len() implies pending.contains(#[trigger] queue4[j]) || queue4[j]
            >= s.program.starts.len() - 1 by {
            if j < pending.len() {
                assert(queue4[j] == pending[j]);
            }
        }
    }
}

/// Lowering a statement leaves the state and the waiting branches in
/// order.
pub proof fn lemma_stmt_grows(s: LowerState, pending: Seq<usize>, n: Node)
    requires
        lower_stmt_spec(s, pending, n) is Ok,
    ensures
        no_smaller(s.program, lower_stmt_spec(s, pending, n).unwrap().0.program),
        kept(
            s,
            pending,
            lower_stmt_spec(s, pending, n).unwrap().0,
            lower_stmt_spec(s, pending, n).unwrap().1,
        ),
    decreases n, 0nat,
{
    let (s1, queue1) = lower_stmt_spec(s, pending, n).unwrap();
    let s0 = flush_spec(s, pending);
    let none = Seq::<usize>::empty();
    lemma_flush(s, pending);
    match n {
        Node::ElseIf(cond, body) => {
            lemma_branch_grows(s, pending, *cond, body);
        },
        Node::Else(body) => {
            lemma_else_grows(s, pending, body);
        },
        Node::If(cond, body) => {
            lemma_branch_grows(s0, none, *cond, body);
            if sound(s) && waiting(s, pending) && s1.program.fits() {
                lemma_written_on_trans(s.program, s0.program, s1.program);
                lemma_part_of_trans(s.vars, s0.vars, s1.vars);
                assert forall|i: int|
                    0 <= i < s.program.starts.len() - 1 && !pending.contains(
                        i as usize,
                    ) implies #[trigger] s1.program.terms[i] == s.program.terms[i] by {
                    assert(!none.contains(i as usize));
                    assert(s1.program.terms[i] == s0.program.terms[i]);
                }
                assert forall|j: int| 0 <= j < queue1.len() implies pending.contains(#[trigger] queue1[j])
                    || queue1[j] >= s.program.starts.len() - 1 by {
                    assert(!none.contains(queue1[j]));
                }
            }
        },
        Node::Assign(target, v) => {
            lemma_assign_grows(s0, *target, *v);
            if sound(s) && waiting(s, pending) && s1.program.fits() {
                lemma_written_on_trans(s.program, s0.program, s1.program);
                lemma_part_of_trans(s.vars, s0.vars, s1.vars);
            }
        },
        Node::Print(v) => {
            lemma_print_grows(s0, *v);
            if sound(s) && waiting(s, pending) && s1.program.fits() {
                lemma_written_on_trans(s.program, s0.program, s1.program);
                lemma_part_of_trans(s.vars, s0.vars, s1.vars);
            }
        },
        _ => {},
    }
}

/// Lowering a list of statements leaves the state in order, and no branch
/// waits behind it.
pub proof fn lemma_list_grows(s: LowerState, stmts: Seq<Node>, from: int, pending: Seq<usize>)
    requires
        lower_list_spec(s, stmts, from, pending) is Ok,
    ensures
        no_smaller(s.program, lower_list_spec(s, stmts, from, pending).unwrap().program),
        kept(s, pending, lower_list_spec(s, stmts, from, pending).unwrap(), Seq::empty()),
    decreases stmts, stmts.len() - from,
{
    let s_end = lower_list_spec(s, stmts, from, pending).unwrap();
    if from < 0 || from >= stmts.len() {
        lemma_flush(s, pending);
    } else {
        let (s1, queue1) = lower_stmt_spec(s, pending, stmts[from]).unwrap();
        lemma_stmt_grows(s, pending, stmts[from]);
        lemma_list_grows(s1, stmts, from + 1, queue1);
        if sound(s) && waiting(s, pending) && s_end.program.fits() {
            lemma_written_on_trans(s.program, s1.program, s_end.program);
            lemma_part_of_trans(s.vars, s1.vars, s_end.vars);
            assert forall|i: int|
                0 <= i < s.program.starts.len() - 1 && !pending.contains(
                    i as usize,
                ) implies #[trigger] s_end.program.terms[i] == s.program.terms[i] by {
                assert(s1.program.terms[i] == s.program.terms[i]);
                if queue1.contains(i as usize) {
                    let j = choose|j: int| 0 <= j < queue1.len() && queue1[j] == i as usize;
                    assert(pending.contains(queue1[j]) || queue1[j] >= s.program.starts.len() - 1);
                }
                assert(s_end.program.terms[i] == s1.program.terms[i]);
            }
        }
    }
}

/// The branches of a chain converge. Where the code generator joins the
/// waiting branches, each of the blocks in which a branch of the chain
/// ends is given a jump to one and the same block: the current one, in
/// which the statement behind the chain is lowered.
pub proof fn lemma_branches_converge(s: LowerState, pending: Seq<usize>, x: usize)
    requires
        sound(s),
        waiting(s, pending),
        s.program.fits(),
        pending.contains(x),
    ensures
        flush_spec(s, pending).program.terms[x as int] == Term::Jump(s.cur()),
        flush_spec(s, pending).cur() == s.cur(),
{
    lemma_flush(s, pending);
    let j = choose|j: int| 0 <= j < pending.len() && pending[j] == x;
    assert(pending[j] < s.program.starts.len() - 1);
}

/// The statement behind a chain starts where the branches converge. Where
/// a statement that is neither `else if` nor `else` is lowered while
/// branches wait, each of the blocks in which a branch ends has, in the
/// state behind the statement, a jump to the block that was current before
/// it: the block in which the code of the statement begins. Behind an
/// assignment or a print statement no branch waits, and the current block
/// is still that one.
pub proof fn lemma_statement_joins_the_chain(
    s: LowerState,
    pending: Seq<usize>,
    n: Node,
    x: usize,
)
    requires
        sound(s),
        waiting(s, pending),
        lower_stmt_spec(s, pending, n) is Ok,
        lower_stmt_spec(s, pending, n).unwrap().0.program.fits(),
        !(n is ElseIf),
        !(n is Else),
        pending.contains(x),
    ensures
        lower_stmt_spec(s, pending, n).unwrap().0.program.terms[x as int] == Term::Jump(s.cur()),
        n is Assign || n is Print ==> lower_stmt_spec(s, pending, n).unwrap().1.len() == 0
            && lower_stmt_spec(s, pending, n).unwrap().0.cur() == s.cur(),
{
    let (s1, queue1) = lower_stmt_spec(s, pending, n).unwrap();
    let s0 = flush_spec(s, pending);
    let none = Seq::<usize>::empty();
    lemma_stmt_grows(s, pending, n);
    lemma_flush(s, pending);
    lemma_branches_converge(s, pending, x);
    match n {
        Node::If(cond, body) => {
            lemma_branch_grows(s0, none, *cond, body);
        },
        Node::Assign(target, v) => {
            lemma_assign_grows(s0, *target, *v);
        },
        Node::Print(v) => {
            lemma_print_grows(s0, *v);
        },
        _ => {},
    }
}

/// Whether the slot of a variable of kind `kind` holds in `v` what the
/// variable holds in `h`: the same integer, or the address of a global
/// string with the same text.
pub open spec fn held_as(p: ProgramView, h: Held, v: Value, kind: Kind) -> bool {
    match h {
        Held::Int(x) => v == Value::Int(x) && kind == Kind::Int,
        Held::Char(c) => v == Value::Int(c) && kind == Kind::Char,
        Held::Text(t) => kind == Kind::Str && match v {
            Value::Text(g) => g < p.globals.len() && p.globals[g as int] == t,
            _ => false,
        },
    }
}

/// Whether the running program in state `m` stands for the state `w`
/// between the statements: the same was printed, and every variable that
/// holds something is in the table, with a slot that holds the same.
pub open spec fn agrees(
    p: ProgramView,
    vars: Map<Seq<char>, VarInfo>,
    w: World,
    m: Machine,
) -> bool {
    &&& m.out == w.out
    &&& forall|name: Seq<char>| #[trigger]
        w.env.dom().contains(name) ==> {
            &&& find_var(vars, name) is Some
            &&& find_var(vars, name).unwrap().slot < p.slots.len()
            &&& m.mem.dom().contains(find_var(vars, name).unwrap().slot as int)
            &&& held_as(
                p,
                w.env[name],
                m.mem[find_var(vars, name).unwrap().slot as int],
                find_var(vars, name).unwrap().kind,
            )
        }
}

/// Whether the results of the instructions before index `n` are the same
/// in both states.
pub open spec fn same_regs_below(a: Machine, b: Machine, n: int) -> bool {
    forall|k: int|
        0 <= k < n ==> (#[trigger] b.regs.dom().contains(k)) == a.regs.dom().contains(k) && (
        a.regs.dom().contains(k) ==> b.regs[k] == a.regs[k])
}

/// The four operations mean the same in the source and in a program.
pub proof fn lemma_binop(kind: Kind, a: i32, b: i32)
    requires
        binop_of(kind) is Some,
    ensures
        binop_apply(binop_of(kind).unwrap(), a, b) == arith(kind, a, b),
{
}

/// A running program that stands for a state does so with a longer table
/// and a program written further.
pub proof fn lemma_agrees_grows(
    p: ProgramView,
    a: Map<Seq<char>, VarInfo>,
    b: Map<Seq<char>, VarInfo>,
    w: World,
    m: Machine,
)
    requires
        agrees(p, a, w, m),
        part_of(a, b),
    ensures
        agrees(p, b, w, m),
{
    assert forall|name: Seq<char>| #[trigger] w.env.dom().contains(name) implies {
        &&& find_var(b, name) is Some
        &&& find_var(b, name).unwrap().slot < p.slots.len()
        &&& m.mem.dom().contains(find_var(b, name).unwrap().slot as int)
        &&& held_as(
            p,
            w.env[name],
            m.mem[find_var(b, name).unwrap().slot as int],
            find_var(b, name).unwrap().kind,
        )
    } by {
        assert(a.contains_key(name));
        assert(b.contains_key(name) && b[name] == a[name]);
    }
}

/// Whether an instruction, run on the integers `a` and `b`, has the
/// result `v`.
pub open spec fn computes(instr: Instr, lhs: Operand, rhs: Operand, a: i32, b: i32, v: i32) -> bool {
    match instr {
        Instr::Arith { op, lhs: l, rhs: r } => l == lhs && r == rhs && binop_apply(op, a, b)
            == Some(v),
        Instr::Test { lhs: l, rhs: r } => l == lhs && r == rhs && v == (if a == b {
            1i32
        } else {
            0i32
        }),
        _ => false,
    }
}

/// The code of two operands and the instruction on them, run one after the
/// other.
proof fn lemma_binary_runs(
    p: ProgramView,
    m: Machine,
    ma: Machine,
    mb: Machine,
    n0: int,
    na: int,
    nb: int,
    lhs: Operand,
    rhs: Operand,
    a: i32,
    b: i32,
    v: i32,
) -> (m1: Machine)
    requires
        0 <= n0 <= na <= nb <= usize::MAX,
        p.run_code(m, n0, na) == Some(ma),
        p.run_code(ma, na, nb) == Some(mb),
        ma.mem == m.mem,
        ma.out == m.out,
        mb.mem == ma.mem,
        mb.out == ma.out,
        same_regs_below(m, ma, n0),
        same_regs_below(ma, mb, na),
        ma.operand(lhs) == Some(Value::Int(a)),
        lhs matches Operand::Reg(k) ==> k < na,
        mb.operand(rhs) == Some(Value::Int(b)),
        computes(p.code[nb], lhs, rhs, a, b, v),
    ensures
        p.run_code(m, n0, nb + 1) == Some(m1),
        m1.mem == m.mem,
        m1.out == m.out,
        m1.operand(Operand::Reg(nb as usize)) == Some(Value::Int(v)),
        same_regs_below(m, m1, n0),
{
    let m1 = mb.with_reg(nb, Value::Int(v));
    assert(mb.operand(lhs) == Some(Value::Int(a))) by {
        match lhs {
            Operand::Reg(k) => {
                assert(mb.regs.dom().contains(k as int) == ma.regs.dom().contains(k as int));
            },
            _ => {},
        }
    }
    assert(p.step(mb, nb) == Some(m1));
    lemma_run_code_split(p, m, n0, na, nb);
    lemma_run_code_then_step(p, m, n0, nb);
    assert forall|k: int| 0 <= k < n0 implies (#[trigger] m1.regs.dom().contains(k))
        == m.regs.dom().contains(k) && (m.regs.dom().contains(k) ==> m1.regs[k] == m.regs[k]) by {
        assert(mb.regs.dom().contains(k) == ma.regs.dom().contains(k));
        assert(ma.regs.dom().contains(k) == m.regs.dom().contains(k));
        assert(m1.regs.dom().contains(k) == mb.regs.dom().contains(k));
        if m.regs.dom().contains(k) {
            assert(m1.regs[k] == mb.regs[k]);
            assert(mb.regs[k] == ma.regs[k]);
            assert(ma.regs[k] == m.regs[k]);
        }
    }
    assert(same_regs_below(m, m1, n0));
    m1
}

/// The code that reads a variable, run.
proof fn lemma_load_runs(p: ProgramView, m: Machine, n0: int, slot: usize) -> (m1: Machine)
    requires
        0 <= n0 <= usize::MAX,
        p.code[n0] == (Instr::Load { slot }),
        slot < p.slots.len(),
        m.mem.dom().contains(slot as int),
    ensures
        p.run_code(m, n0, n0 + 1) == Some(m1),
        m1 == m.with_reg(n0, m.mem[slot as int]),
        m1.operand(Operand::Reg(n0 as usize)) == Some(m.mem[slot as int]),
        same_regs_below(m, m1, n0),
{
    let m1 = m.with_reg(n0, m.mem[slot as int]);
    assert(p.step(m, n0) == Some(m1));
    assert(p.run_code(m1, n0 + 1, n0 + 1) == Some(m1));
    m1
}

/// The code of an expression computes the value of the expression. Where
/// the program `p` holds the code that the expression `e` is lowered to
/// from state `s`, and the running program stands in state `m` for a state
/// in which `e` has a value, running that code goes well: it leaves the
/// value of `e` as the value computed last, and changes neither the slots
/// nor what was printed nor the results of earlier instructions.
pub proof fn lemma_value_runs(
    p: ProgramView,
    s: LowerState,
    e: Node,
    w: World,
    m: Machine,
) -> (m1: Machine)
    requires
        sound(s),
        lower_value_spec(s, e) is Ok,
        written_on(lower_value_spec(s, e).unwrap().program, p),
        p.fits(),
        agrees(p, s.vars, w, m),
        value_in(e, w.env) is Some,
    ensures
        p.run_code(
            m,
            s.program.code.len() as int,
            lower_value_spec(s, e).unwrap().program.code.len() as int,
        ) == Some(m1),
        m1.mem == m.mem,
        m1.out == m.out,
        m1.operand(lower_value_spec(s, e).unwrap().value) == Some(
            Value::Int(value_in(e, w.env).unwrap()),
        ),
        same_regs_below(m, m1, s.program.code.len() as int),
    decreases e,
{
    let s1 = lower_value_spec(s, e).unwrap();
    let n0 = s.program.code.len() as int;
    let n1 = s1.program.code.len() as int;
    lemma_value_grows(s, e);
    match e {
        Node::Int(v) => m,
        Node::Ident(name, _) => {
            let var = find_var(s.vars, name).unwrap();
            assert(w.env.dom().contains(name));
            assert(s1.program.code[n0] == Instr::Load { slot: var.slot });
            assert(p.code[n0] == s1.program.code[n0]);
            lemma_load_runs(p, m, n0, var.slot)
        },
        Node::BinaryOp(kind, l, r) => {
            let sa = lower_value_spec(s, *l).unwrap();
            let sb = lower_value_spec(sa, *r).unwrap();
            let na = sa.program.code.len() as int;
            let nb = sb.program.code.len() as int;
            let op = binop_of(kind).unwrap();
            let instr = Instr::Arith { op, lhs: sa.value, rhs: sb.value };
            lemma_value_grows(s, *l);
            lemma_value_grows(sa, *r);
            assert(s1 == sb.emit_value(instr));
            assert(sound(sa) && sound(sb));
            lemma_emit(sb, instr);
            lemma_written_on_trans(sb.program, s1.program, p);
            lemma_written_on_trans(sa.program, sb.program, p);
            let ma = lemma_value_runs(p, s, *l, w, m);
            assert(agrees(p, sa.vars, w, ma));
            let mb = lemma_value_runs(p, sa, *r, w, ma);
            let a = value_in(*l, w.env).unwrap();
            let b = value_in(*r, w.env).unwrap();
            lemma_binop(kind, a, b);
            assert(s1.program.code[nb] == instr);
            assert(p.code[nb] == s1.program.code[nb]);
            lemma_binary_runs(
                p,
                m,
                ma,
                mb,
                n0,
                na,
                nb,
                sa.value,
                sb.value,
                a,
                b,
                arith(kind, a, b).unwrap(),
            )
        },
        Node::Equal(l, r) => {
            let sa = lower_value_spec(s, *l).unwrap();
            let sb = lower_value_spec(sa, *r).unwrap();
            let na = sa.program.code.len() as int;
            let nb = sb.program.code.len() as int;
            let instr = Instr::Test { lhs: sa.value, rhs: sb.value };
            lemma_value_grows(s, *l);
            lemma_value_grows(sa, *r);
            assert(s1 == sb.emit_value(instr));
            assert(sound(sa) && sound(sb));
            lemma_emit(sb, instr);
            lemma_written_on_trans(sb.program, s1.program, p);
            lemma_written_on_trans(sa.program, sb.program, p);
            let ma = lemma_value_runs(p, s, *l, w, m);
            assert(agrees(p, sa.vars, w, ma));
            let mb = lemma_value_runs(p, sa, *r, w, ma);
            let a = value_in(*l, w.env).unwrap();
            let b = value_in(*r, w.env).unwrap();
            assert(s1.program.code[nb] == instr);
            assert(p.code[nb] == s1.program.code[nb]);
            lemma_binary_runs(
                p,
                m,
                ma,
                mb,
                n0,
                na,
                nb,
                sa.value,
                sb.value,
                a,
                b,
                if a == b {
                    1i32
                } else {
                    0i32
                },
            )
        },
        _ => m,
    }
}

/// Where a running program stands, seen from the code generator: at the
/// end of the code written so far, or at the end of a block that waits.
pub ghost enum Point {
    Here,
    EndOf(usize),
}

/// The state in which the program `p` ends when it goes on in state `m`
/// from the point `pt`, where the code generator is in state `s`.
pub open spec fn rest(p: ProgramView, s: LowerState, pt: Point, m: Machine) -> Option<Machine> {
    match pt {
        Point::Here => p.finish(m, s.program.starts.len() - 1, s.program.code.len() as int),
        Point::EndOf(x) => p.leave(m, x as int),
    }
}

/// Whether the point goes with the state between the statements: the
/// program stands at the end of a waiting block exactly where the chain is
/// closed.
pub open spec fn placed(pt: Point, pending: Seq<usize>, w: World) -> bool {
    match pt {
        Point::Here => !w.closed,
        Point::EndOf(x) => w.closed && pending.contains(x),
    }
}

/// A program that has run some of the code of a block goes on behind it.
pub proof fn lemma_finish_advance(p: ProgramView, m: Machine, m1: Machine, b: int, k: int, k1: int)
    requires
        k <= k1 <= p.block_end(b),
        p.run_code(m, k, k1) == Some(m1),
    ensures
        p.finish(m, b, k) == p.finish(m1, b, k1),
{
    lemma_run_code_split(p, m, k, k1, p.block_end(b));
}

/// A program that stands at the end of a block leaves it.
pub proof fn lemma_finish_at_end(p: ProgramView, m: Machine, b: int)
    requires
        0 <= b < p.starts.len(),
    ensures
        p.finish(m, b, p.block_end(b)) == p.leave(m, b),
{
}

/// A program that leaves a block by a forward jump goes on at the start of
/// the block that the jump names.
pub proof fn lemma_leave_jump(p: ProgramView, m: Machine, b: int, t: usize)
    requires
        0 <= b < t < p.starts.len(),
        b < p.terms.len(),
        p.terms[b] == Term::Jump(t),
    ensures
        p.leave(m, b) == p.finish(m, t as int, p.starts[t as int] as int),
{
}

/// A program that leaves a block by a forward branch goes on at the start
/// of the first block where the condition is not zero, of the second where
/// it is.
pub proof fn lemma_leave_branch(
    p: ProgramView,
    m: Machine,
    b: int,
    cond: Operand,
    t: usize,
    e: usize,
    v: i32,
)
    requires
        0 <= b < t < p.starts.len(),
        b < e < p.starts.len(),
        b < p.terms.len(),
        p.terms[b] == Term::Branch(cond, t, e),
        m.operand(cond) == Some(Value::Int(v)),
    ensures
        v != 0 ==> p.leave(m, b) == p.finish(m, t as int, p.starts[t as int] as int),
        v == 0 ==> p.leave(m, b) == p.finish(m, e as int, p.starts[e as int] as int),
{
}

/// Code that was added to the current block is run from where the program
/// stood to where it stands.
pub proof fn lemma_here_advance(
    p: ProgramView,
    s: LowerState,
    s1: LowerState,
    m: Machine,
    m1: Machine,
)
    requires
        s1.program.starts == s.program.starts,
        s.program.starts.len() >= 1,
        s.program.code.len() <= s1.program.code.len(),
        written_on(s1.program, p),
        p.run_code(m, s.program.code.len() as int, s1.program.code.len() as int) == Some(m1),
    ensures
        rest(p, s, Point::Here, m) == rest(p, s1, Point::Here, m1),
{
    lemma_finish_advance(
        p,
        m,
        m1,
        s.program.starts.len() - 1,
        s.program.code.len() as int,
        s1.program.code.len() as int,
    );
}

/// Joining the waiting branches brings the program to the current block,
/// wherever it stood.
pub proof fn lemma_flush_rest(
    p: ProgramView,
    s: LowerState,
    pending: Seq<usize>,
    pt: Point,
    m: Machine,
)
    requires
        sound(s),
        waiting(s, pending),
        written_on(flush_spec(s, pending).program, p),
        p.fits(),
        pt matches Point::EndOf(x) ==> pending.contains(x),
    ensures
        rest(p, s, pt, m) == rest(p, flush_spec(s, pending), Point::Here, m),
{
    lemma_flush(s, pending);
    let s0 = flush_spec(s, pending);
    match pt {
        Point::Here => {},
        Point::EndOf(x) => {
            let cur = s.program.starts.len() - 1;
            let j = choose|j: int| 0 <= j < pending.len() && pending[j] == x;
            assert(pending[j] < cur);
            assert(s0.program.terms[x as int] == Term::Jump(s.cur()));
            assert(p.terms[x as int] == s0.program.terms[x as int]);
            assert(s.cur() == cur);
            assert(p.starts[cur] == s0.program.starts[cur]);
            lemma_leave_jump(p, m, x as int, s.cur());
        },
    }
}

/// The state between the statements after an assignment.
pub open spec fn assigned(w: World, name: Seq<char>, h: Held) -> World {
    World { env: w.env.insert(name, h), out: w.out, closed: false }
}

/// The state between the statements after something was printed.
pub open spec fn with_printed(w: World, o: Seq<Output>) -> World {
    World { env: w.env, out: w.out + o, closed: false }
}

/// A store to the slot of a variable keeps the running program in step
/// with an assignment to the variable.
proof fn lemma_store_agrees(
    p: ProgramView,
    s: LowerState,
    w: World,
    m: Machine,
    name: Seq<char>,
    h: Held,
    val: Value,
)
    requires
        table_ok(s),
        agrees(p, s.vars, w, m),
        find_var(s.vars, name) is Some,
        find_var(s.vars, name).unwrap().slot < p.slots.len(),
        held_as(p, h, val, find_var(s.vars, name).unwrap().kind),
    ensures
        agrees(
            p,
            s.vars,
            assigned(w, name, h),
            m.with_mem(find_var(s.vars, name).unwrap().slot as int, val),
        ),
{
    let var = find_var(s.vars, name).unwrap();
    let w1 = assigned(w, name, h);
    let m1 = m.with_mem(var.slot as int, val);
    lemma_find_var(s, name);
    assert forall|other: Seq<char>| #[trigger] w1.env.dom().contains(other) implies {
        &&& find_var(s.vars, other) is Some
        &&& find_var(s.vars, other).unwrap().slot < p.slots.len()
        &&& m1.mem.dom().contains(find_var(s.vars, other).unwrap().slot as int)
        &&& held_as(
            p,
            w1.env[other],
            m1.mem[find_var(s.vars, other).unwrap().slot as int],
            find_var(s.vars, other).unwrap().kind,
        )
    } by {
        if other != name {
            assert(w.env.dom().contains(other));
            lemma_find_var(s, other);
            let found = find_var(s.vars, other).unwrap();
            assert(s.vars[other].slot != s.vars[name].slot);
            assert(found.slot != var.slot);
        }
    }
}

/// The code of the right-hand side of an assignment computes what the
/// assignment gives the variable to hold.
proof fn lemma_assigned_runs(p: ProgramView, s: LowerState, v: Node, w: World, m: Machine) -> (mv:
    Machine)
    requires
        sound(s),
        lower_assigned_spec(s, v) is Ok,
        written_on(lower_assigned_spec(s, v).unwrap().0.program, p),
        p.fits(),
        agrees(p, s.vars, w, m),
        assigned_value(v, w.env) is Some,
    ensures
        p.run_code(
            m,
            s.program.code.len() as int,
            lower_assigned_spec(s, v).unwrap().0.program.code.len() as int,
        ) == Some(mv),
        mv.mem == m.mem,
        mv.out == m.out,
        mv.operand(lower_assigned_spec(s, v).unwrap().0.value) is Some,
        held_as(
            p,
            assigned_value(v, w.env).unwrap(),
            mv.operand(lower_assigned_spec(s, v).unwrap().0.value).unwrap(),
            lower_assigned_spec(s, v).unwrap().1,
        ),
{
    let (s1, kind) = lower_assigned_spec(s, v).unwrap();
    match v {
        Node::Char(c) => m,
        Node::Str(text) => {
            let g = s.program.globals.len() as int;
            assert(s1.program.globals[g] == text);
            assert(p.globals[g] == s1.program.globals[g]);
            m
        },
        _ => lemma_value_runs(p, s, v, w, m),
    }
}

/// The code of an assignment does what the assignment means.
pub proof fn lemma_assign_runs(
    p: ProgramView,
    s: LowerState,
    target: Node,
    v: Node,
    w: World,
    m: Machine,
) -> (m1: Machine)
    requires
        sound(s),
        lower_assign_spec(s, target, v) is Ok,
        written_on(lower_assign_spec(s, target, v).unwrap().program, p),
        p.fits(),
        agrees(p, s.vars, w, m),
        target is Ident,
        assigned_value(v, w.env) is Some,
    ensures
        p.run_code(
            m,
            s.program.code.len() as int,
            lower_assign_spec(s, target, v).unwrap().program.code.len() as int,
        ) == Some(m1),
        agrees(
            p,
            lower_assign_spec(s, target, v).unwrap().vars,
            assigned(w, target->Ident_0, assigned_value(v, w.env).unwrap()),
            m1,
        ),
{
    let s2 = lower_assign_spec(s, target, v).unwrap();
    let name = target->Ident_0;
    let (s1, kind) = lower_assigned_spec(s, v).unwrap();
    let h = assigned_value(v, w.env).unwrap();
    let n0 = s.program.code.len() as int;
    let n1 = s1.program.code.len() as int;
    lemma_assigned_grows(s, v);
    lemma_assign_grows(s, target, v);
    assert(s2.program.fits());
    assert(s1.program.fits());
    match find_var(s1.vars, name) {
        Some(var) => {
            let instr = Instr::Store { slot: var.slot, value: s1.value };
            lemma_emit(s1, instr);
            lemma_written_on_trans(s1.program, s2.program, p);
            let mv = lemma_assigned_runs(p, s, v, w, m);
            let val = mv.operand(s1.value).unwrap();
            lemma_find_var(s1, name);
            assert(var.slot < s1.program.slots.len());
            assert(s2.program.code[n1] == instr);
            assert(p.code[n1] == s2.program.code[n1]);
            let m1 = mv.with_mem(var.slot as int, val);
            assert(p.step(mv, n1) == Some(m1));
            lemma_run_code_then_step(p, m, n0, n1);
            lemma_store_agrees(p, s1, w, mv, name, h, val);
            m1
        },
        None => {
            let sd = s1.declare(name, kind);
            let slot = s1.program.slots.len() as usize;
            let instr = Instr::Store { slot, value: s1.value };
            assert(s2 == sd.emit(instr));
            lemma_find_var(s1, name);
            assert(table_ok(sd));
            lemma_written_on_trans(s1.program, s2.program, p);
            let mv = lemma_assigned_runs(p, s, v, w, m);
            let val = mv.operand(s1.value).unwrap();
            assert(s2.program.code[n1] == instr);
            assert(p.code[n1] == s2.program.code[n1]);
            let m1 = mv.with_mem(slot as int, val);
            assert(p.step(mv, n1) == Some(m1));
            lemma_run_code_then_step(p, m, n0, n1);
            lemma_agrees_grows(p, s1.vars, sd.vars, w, mv);
            assert(sd.vars.contains_key(name));
            lemma_store_agrees(p, sd, w, mv, name, h, val);
            m1
        },
    }
}

/// The calls that print a value print it as what it is held as.
proof fn lemma_print_calls_run(
    p: ProgramView,
    s: LowerState,
    kind: Kind,
    arg: Operand,
    m: Machine,
    h: Held,
) -> (m1: Machine)
    requires
        sound(s),
        written_on(print_calls(s, kind, arg).program, p),
        p.fits(),
        m.operand(arg) is Some,
        held_as(p, h, m.operand(arg).unwrap(), kind),
    ensures
        p.run_code(
            m,
            s.program.code.len() as int,
            print_calls(s, kind, arg).program.code.len() as int,
        ) == Some(m1),
        m1.mem == m.mem,
        m1.out == m.out + shown(h),
{
    let s2 = print_calls(s, kind, arg);
    let n0 = s.program.code.len() as int;
    let val = m.operand(arg).unwrap();
    assert(p.code[n0] == s2.program.code[n0]);
    if kind == Kind::Str {
        let g = val->Text_0;
        let m1 = m.with_out(Output::Text(p.globals[g as int]));
        assert(p.step(m, n0) == Some(m1));
        assert(p.run_code(m1, n0 + 1, n0 + 1) == Some(m1));
        assert(m1.out =~= m.out + shown(h));
        m1
    } else if kind == Kind::Char {
        let c = val->Int_0;
        let ma = m.with_out(Output::Char(c));
        let m1 = ma.with_out(Output::Char(10));
        assert(p.code[n0 + 1] == s2.program.code[n0 + 1]);
        assert(p.step(m, n0) == Some(ma));
        assert(p.step(ma, n0 + 1) == Some(m1));
        assert(p.run_code(m1, n0 + 2, n0 + 2) == Some(m1));
        assert(p.run_code(ma, n0 + 1, n0 + 2) == Some(m1));
        assert(m1.out =~= m.out + shown(h));
        m1
    } else {
        let x = val->Int_0;
        let m1 = m.with_out(Output::Int(x));
        assert(p.step(m, n0) == Some(m1));
        assert(p.run_code(m1, n0 + 1, n0 + 1) == Some(m1));
        assert(m1.out =~= m.out + shown(h));
        m1
    }
}

/// The code of a print statement prints what the statement means.
pub proof fn lemma_print_runs(p: ProgramView, s: LowerState, v: Node, w: World, m: Machine) -> (m1:
    Machine)
    requires
        sound(s),
        lower_print_spec(s, v) is Ok,
        written_on(lower_print_spec(s, v).unwrap().program, p),
        p.fits(),
        agrees(p, s.vars, w, m),
        printed(v, w.env) is Some,
    ensures
        p.run_code(
            m,
            s.program.code.len() as int,
            lower_print_spec(s, v).unwrap().program.code.len() as int,
        ) == Some(m1),
        agrees(
            p,
            lower_print_spec(s, v).unwrap().vars,
            with_printed(w, printed(v, w.env).unwrap()),
            m1,
        ),
{
    let s2 = lower_print_spec(s, v).unwrap();
    let n0 = s.program.code.len() as int;
    lemma_print_grows(s, v);
    assert(s2.program.fits());
    match v {
        Node::Ident(name, _) => {
            let var = find_var(s.vars, name).unwrap();
            let instr = Instr::Load { slot: var.slot };
            let s1 = s.emit_value(instr);
            lemma_emit(s, instr);
            lemma_print_calls_grows(s1, var.kind, s1.value);
            lemma_written_on_trans(s1.program, s2.program, p);
            assert(w.env.dom().contains(name));
            assert(p.code[n0] == s1.program.code[n0]);
            let ma = lemma_load_runs(p, m, n0, var.slot);
            let m1 = lemma_print_calls_run(p, s1, var.kind, s1.value, ma, w.env[name]);
            lemma_run_code_split(p, m, n0, n0 + 1, s2.program.code.len() as int);
            m1
        },
        Node::Char(c) => lemma_print_calls_run(
            p,
            s,
            Kind::Char,
            Operand::Const(c as i32),
            m,
            Held::Char(c as i32),
        ),
        Node::Str(text) => {
            let s1 = s.add_global(text);
            lemma_assigned_grows(s, v);
            assert(sound(s1));
            lemma_print_calls_grows(s1, Kind::Str, s1.value);
            let g = s.program.globals.len() as int;
            assert(s2.program.globals[g] == text);
            assert(p.globals[g] == s2.program.globals[g]);
            lemma_print_calls_run(p, s1, Kind::Str, s1.value, m, Held::Text(text))
        },
        Node::Int(_) | Node::BinaryOp(_, _, _) | Node::Equal(_, _) => {
            let s1 = lower_value_spec(s, v).unwrap();
            lemma_value_grows(s, v);
            assert(sound(s1));
            lemma_print_calls_grows(s1, Kind::Int, s1.value);
            lemma_written_on_trans(s1.program, s2.program, p);
            let ma = lemma_value_runs(p, s, v, w, m);
            let m1 = lemma_print_calls_run(
                p,
                s1,
                Kind::Int,
                s1.value,
                ma,
                Held::Int(value_in(v, w.env).unwrap()),
            );
            lemma_run_code_split(
                p,
                m,
                n0,
                s1.program.code.len() as int,
                s2.program.code.len() as int,
            );
            m1
        },
        _ => m,
    }
}

/// The code of a branch does what the branch means: where the condition
/// is not zero the body runs and the program stands at the end of the
/// block that then waits; else the program stands in the new current
/// block.
pub proof fn lemma_branch_runs(
    p: ProgramView,
    s: LowerState,
    pending: Seq<usize>,
    cond: Node,
    body: Seq<Node>,
    w: World,
    m: Machine,
) -> (r: (Point, Machine))
    requires
        sound(s),
        waiting(s, pending),
        lower_branch_spec(s, pending, cond, body) is Ok,
        written_on(lower_branch_spec(s, pending, cond, body).unwrap().0.program, p),
        p.fits(),
        agrees(p, s.vars, w, m),
        !w.closed,
        run_branch(cond, body, w) is Some,
    ensures
        rest(p, s, Point::Here, m) == rest(
            p,
            lower_branch_spec(s, pending, cond, body).unwrap().0,
            r.0,
            r.1,
        ),
        agrees(
            p,
            lower_branch_spec(s, pending, cond, body).unwrap().0.vars,
            run_branch(cond, body, w).unwrap(),
            r.1,
        ),
        placed(
            r.0,
            lower_branch_spec(s, pending, cond, body).unwrap().1,
            run_branch(cond, body, w).unwrap(),
        ),
    decreases body, body.len() + 1,
{
    let (s5, queue5) = lower_branch_spec(s, pending, cond, body).unwrap();
    let s1 = lower_value_spec(s, cond).unwrap();
    let test = s1.cur();
    let s2 = s1.open_block();
    let s3 = lower_list_spec(s2, body, 0, Seq::empty()).unwrap();
    let s4 = s3.open_block();
    let none = Seq::<usize>::empty();
    let n0 = s.program.code.len() as int;
    let n1 = s1.program.code.len() as int;
    lemma_value_grows(s, cond);
    lemma_list_grows(s2, body, 0, none);
    assert(s5.program.fits());
    lemma_open_block(s1);
    lemma_open_block(s3);
    assert(s3.program.terms[test as int] == Term::Open) by {
        assert(!none.contains(test));
    }
    let term = Term::Branch(s1.value, s2.cur(), s4.cur());
    lemma_set_term(s4, test, term);
    lemma_written_on_trans(s4.program, s5.program, p);
    lemma_written_on_trans(s3.program, s4.program, p);
    lemma_written_on_trans(s2.program, s3.program, p);
    lemma_written_on_trans(s1.program, s2.program, p);
    let v = value_in(cond, w.env).unwrap();
    let mc = lemma_value_runs(p, s, cond, w, m);
    assert(p.starts[test + 1] == s2.program.starts[test + 1]);
    assert(p.block_end(test as int) == n1);
    lemma_finish_advance(p, m, mc, test as int, n0, n1);
    lemma_finish_at_end(p, mc, test as int);
    assert(s5.program.terms[test as int] == term);
    assert(p.terms[test as int] == s5.program.terms[test as int]);
    lemma_leave_branch(p, mc, test as int, s1.value, s2.cur(), s4.cur(), v);
    if v != 0 {
        let w0 = w.with_closed(false);
        assert(p.finish(mc, s2.cur() as int, p.starts[s2.cur() as int] as int) == rest(
            p,
            s2,
            Point::Here,
            mc,
        ));
        assert(agrees(p, s2.vars, w0, mc));
        let m3 = lemma_list_runs(p, s2, body, 0, none, w0, Point::Here, mc);
        let exit = s3.cur();
        assert(p.starts[exit + 1] == s4.program.starts[exit + 1]);
        assert(p.block_end(exit as int) == s3.program.code.len());
        lemma_finish_at_end(p, m3, exit as int);
        assert(queue5[queue5.len() - 1] == exit);
        (Point::EndOf(exit), m3)
    } else {
        let after = s4.cur();
        assert(p.starts[after as int] == s4.program.starts[after as int]);
        lemma_part_of_trans(s.vars, s2.vars, s3.vars);
        lemma_agrees_grows(p, s.vars, s5.vars, w, mc);
        (Point::Here, mc)
    }
}

/// The code of a final branch does what the branch means: the body runs,
/// and the program stands at the end of the block that then waits.
pub proof fn lemma_else_runs(
    p: ProgramView,
    s: LowerState,
    pending: Seq<usize>,
    body: Seq<Node>,
    w: World,
    m: Machine,
) -> (r: (Point, Machine))
    requires
        sound(s),
        waiting(s, pending),
        lower_else_spec(s, pending, body) is Ok,
        written_on(lower_else_spec(s, pending, body).unwrap().0.program, p),
        p.fits(),
        agrees(p, s.vars, w, m),
        !w.closed,
        run_list(body, 0, w) is Some,
    ensures
        rest(p, s, Point::Here, m) == rest(p, lower_else_spec(s, pending, body).unwrap().0, r.0, r.1),
        agrees(
            p,
            lower_else_spec(s, pending, body).unwrap().0.vars,
            run_list(body, 0, w).unwrap().with_closed(true),
            r.1,
        ),
        placed(
            r.0,
            lower_else_spec(s, pending, body).unwrap().1,
            run_list(body, 0, w).unwrap().with_closed(true),
        ),
    decreases body, body.len() + 1,
{
    let (s4, queue4) = lower_else_spec(s, pending, body).unwrap();
    let s1 = s.open_block();
    let before = s.cur();
    let s2 = s1.set_term(before, Term::Jump(s1.cur()));
    let s3 = lower_list_spec(s2, body, 0, Seq::empty()).unwrap();
    let none = Seq::<usize>::empty();
    let n0 = s.program.code.len() as int;
    lemma_list_grows(s2, body, 0, none);
    assert(s4.program.fits());
    lemma_open_block(s);
    lemma_set_term(s1, before, Term::Jump(s1.cur()));
    lemma_open_block(s3);
    lemma_written_on_trans(s3.program, s4.program, p);
    lemma_written_on_trans(s2.program, s3.program, p);
    lemma_written_on_trans(s1.program, s2.program, p);
    assert(s3.program.terms[before as int] == s2.program.terms[before as int]) by {
        assert(!none.contains(before));
    }
    assert(p.terms[before as int] == s4.program.terms[before as int]);
    assert(p.starts[before + 1] == s2.program.starts[before + 1]);
    assert(p.block_end(before as int) == n0);
    lemma_finish_at_end(p, m, before as int);
    lemma_leave_jump(p, m, before as int, s1.cur());
    assert(p.finish(m, s1.cur() as int, p.starts[s1.cur() as int] as int) == rest(
        p,
        s2,
        Point::Here,
        m,
    ));
    assert(agrees(p, s2.vars, w, m));
    let m3 = lemma_list_runs(p, s2, body, 0, none, w, Point::Here, m);
    let exit = s3.cur();
    assert(p.starts[exit + 1] == s4.program.starts[exit + 1]);
    assert(p.block_end(exit as int) == s3.program.code.len());
    lemma_finish_at_end(p, m3, exit as int);
    assert(queue4[queue4.len() - 1] == exit);
    (Point::EndOf(exit), m3)
}

/// The code of a statement does what the statement means. Where the
/// running program stands for the state before the statement, it goes on
/// as a program that stands for the state behind it.
pub proof fn lemma_stmt_runs(
    p: ProgramView,
    s: LowerState,
    pending: Seq<usize>,
    n: Node,
    w: World,
    pt: Point,
    m: Machine,
) -> (r: (Point, Machine))
    requires
        sound(s),
        waiting(s, pending),
        lower_stmt_spec(s, pending, n) is Ok,
        written_on(lower_stmt_spec(s, pending, n).unwrap().0.program, p),
        p.fits(),
        agrees(p, s.vars, w, m),
        placed(pt, pending, w),
        run_stmt(n, w) is Some,
    ensures
        rest(p, s, pt, m) == rest(p, lower_stmt_spec(s, pending, n).unwrap().0, r.0, r.1),
        agrees(p, lower_stmt_spec(s, pending, n).unwrap().0.vars, run_stmt(n, w).unwrap(), r.1),
        placed(r.0, lower_stmt_spec(s, pending, n).unwrap().1, run_stmt(n, w).unwrap()),
    decreases n, 0nat,
{
    let (s1, queue1) = lower_stmt_spec(s, pending, n).unwrap();
    let s0 = flush_spec(s, pending);
    let none = Seq::<usize>::empty();
    lemma_stmt_grows(s, pending, n);
    assert(s1.program.fits());
    lemma_flush(s, pending);
    match n {
        Node::ElseIf(cond, body) => {
            if w.closed {
                lemma_agrees_grows(p, s.vars, s1.vars, w, m);
                let x = pt->EndOf_0;
                let j = choose|j: int| 0 <= j < pending.len() && pending[j] == x;
                assert(queue1[j] == x);
                (pt, m)
            } else {
                lemma_branch_runs(p, s, pending, *cond, body, w, m)
            }
        },
        Node::Else(body) => {
            if w.closed {
                lemma_agrees_grows(p, s.vars, s1.vars, w, m);
                let x = pt->EndOf_0;
                let j = choose|j: int| 0 <= j < pending.len() && pending[j] == x;
                assert(queue1[j] == x);
                (pt, m)
            } else {
                lemma_else_runs(p, s, pending, body, w, m)
            }
        },
        Node::If(cond, body) => {
            lemma_branch_grows(s0, none, *cond, body);
            lemma_written_on_trans(s0.program, s1.program, p);
            lemma_flush_rest(p, s, pending, pt, m);
            lemma_branch_runs(p, s0, none, *cond, body, w.with_closed(false), m)
        },
        Node::Assign(target, v) => {
            lemma_assign_grows(s0, *target, *v);
            lemma_written_on_trans(s0.program, s1.program, p);
            lemma_flush_rest(p, s, pending, pt, m);
            let m1 = lemma_assign_runs(p, s0, *target, *v, w, m);
            lemma_here_advance(p, s0, s1, m, m1);
            (Point::Here, m1)
        },
        Node::Print(v) => {
            lemma_print_grows(s0, *v);
            lemma_written_on_trans(s0.program, s1.program, p);
            lemma_flush_rest(p, s, pending, pt, m);
            let m1 = lemma_print_runs(p, s0, *v, w, m);
            lemma_here_advance(p, s0, s1, m, m1);
            (Point::Here, m1)
        },
        _ => {
            lemma_flush_rest(p, s, pending, pt, m);
            (Point::Here, m)
        },
    }
}

/// The code of a list of statements does what the statements mean, one
/// after the other; behind it the program stands in the current block.
pub proof fn lemma_list_runs(
    p: ProgramView,
    s: LowerState,
    stmts: Seq<Node>,
    from: int,
    pending: Seq<usize>,
    w: World,
    pt: Point,
    m: Machine,
) -> (m1: Machine)
    requires
        sound(s),
        waiting(s, pending),
        lower_list_spec(s, stmts, from, pending) is Ok,
        written_on(lower_list_spec(s, stmts, from, pending).unwrap().program, p),
        p.fits(),
        agrees(p, s.vars, w, m),
        placed(pt, pending, w),
        run_list(stmts, from, w) is Some,
    ensures
        rest(p, s, pt, m) == rest(
            p,
            lower_list_spec(s, stmts, from, pending).unwrap(),
            Point::Here,
            m1,
        ),
        agrees(
            p,
            lower_list_spec(s, stmts, from, pending).unwrap().vars,
            run_list(stmts, from, w).unwrap(),
            m1,
        ),
    decreases stmts, stmts.len() - from,
{
    let s_end = lower_list_spec(s, stmts, from, pending).unwrap();
    if from < 0 || from >= stmts.len() {
        lemma_flush(s, pending);
        lemma_flush_rest(p, s, pending, pt, m);
        m
    } else {
        let (s1, queue1) = lower_stmt_spec(s, pending, stmts[from]).unwrap();
        lemma_list_grows(s1, stmts, from + 1, queue1);
        assert(s_end.program.fits());
        assert(s1.program.fits());
        lemma_stmt_grows(s, pending, stmts[from]);
        lemma_written_on_trans(s1.program, s_end.program, p);
        let r = lemma_stmt_runs(p, s, pending, stmts[from], w, pt, m);
        lemma_list_runs(p, s1, stmts, from + 1, queue1, run_stmt(stmts[from], w).unwrap(), r.0, r.1)
    }
}

/// The code generator is correct. Where a list of statements is lowered
/// to a program of a size that a machine can hold, and every expression
/// that is evaluated along the way has a value, the program runs from its
/// entry to its return and prints exactly what the statements mean.
pub proof fn lemma_lowered_program_means_the_same(stmts: Seq<Node>)
    requires
        lower_spec(stmts) is Ok,
        lower_spec(stmts).unwrap().fits(),
        meaning(stmts) is Some,
    ensures
        lower_spec(stmts).unwrap().run() == meaning(stmts),
{
    let s0 = initial_state();
    let none = Seq::<usize>::empty();
    let s_end = lower_list_spec(s0, stmts, 0, none).unwrap();
    let last = s_end.cur();
    let p = lower_spec(stmts).unwrap();
    assert(s0.program.block_end(0) == 0);
    assert(sound(s0));
    lemma_list_grows(s0, stmts, 0, none);
    assert(s_end.program.fits());
    assert(p.terms.len() == s_end.program.terms.len());
    assert forall|k: int| 0 <= k < p.starts.len() implies (#[trigger] p.starts[k]) as int
        <= p.block_end(k) <= p.code.len() by {
        assert(s_end.program.starts[k] as int <= s_end.program.block_end(k)
            <= s_end.program.code.len());
    }
    assert(written_on(s_end.program, p));
    let m_end = lemma_list_runs(
        p,
        s0,
        stmts,
        0,
        none,
        start_world(),
        Point::Here,
        start_machine(),
    );
    assert(p.starts[0] == s_end.program.starts[0]);
    assert(s_end.program.starts[0] == s0.program.starts[0]);
    lemma_finish_at_end(p, m_end, last as int);
}

} // verus!
