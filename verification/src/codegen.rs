//! The code generator: one walk over the syntax tree that lowers it to the
//! intermediate form, with a variable table (a hash map from names to
//! slots), a cell for the value computed last, and the branches of a chain
//! that wait for their common end.
use vstd::prelude::*;
use vstd::hash_map::StringHashMap;
use crate::token::Kind;
use crate::ast::{Expr, Node};
use crate::ast::{lemma_branch_view, lemma_else_view, nodes_of};
use crate::ir::{BinOp, Builtin, Cell, Instr, Operand, Program, ProgramView, Term};

use crate::correct::lemma_lowered_program_means_the_same;
use crate::meaning::meaning;
use crate::typing::lemma_lowered_program_is_complete;

verus! {

/// Why a program could not be lowered.
#[derive(PartialEq, Eq, Debug, Copy, Clone, Structural)]
pub enum CodegenError {
    /// A variable is read that no assignment before it declares.
    UndeclaredIdentifier,
    /// A value is needed and the expression is of a shape that has none.
    UnsupportedExpression,
    /// A print statement prints what cannot be printed.
    UnsupportedPrint,
    /// A variable is assigned a value of another kind than it was declared
    /// with. Each variable keeps the kind of its first assignment.
    KindChanged,
    /// The back end could not write the program as the text of a module.
    Backend,
}

/// What the variable table holds of a variable.
#[derive(PartialEq, Eq, Debug, Copy, Clone, Structural)]
pub struct VarInfo {
    /// The slot that holds the variable's value.
    pub slot: usize,
    /// `Int`, `Char` or `Str`.
    pub kind: Kind,
}

/// What the table holds of the variable `name`, if it is declared.
pub open spec fn find_var(vars: Map<Seq<char>, VarInfo>, name: Seq<char>) -> Option<VarInfo> {
    if vars.contains_key(name) {
        Some(vars[name])
    } else {
        None
    }
}

/// The state of the code generator: the program as far as it is written,
/// the variable table and the value computed last. Instructions go to the
/// last block.
pub ghost struct LowerState {
    pub program: ProgramView,
    pub vars: Map<Seq<char>, VarInfo>,
    pub value: Operand,
}

impl LowerState {
    /// The block that instructions go to.
    pub open spec fn cur(self) -> usize {
        (self.program.starts.len() - 1) as usize
    }

    /// The state with another value computed last.
    pub open spec fn with_value(self, value: Operand) -> LowerState {
        LowerState { program: self.program, vars: self.vars, value }
    }

    /// The state after one more instruction.
    pub open spec fn emit(self, instr: Instr) -> LowerState {
        LowerState {
            program: ProgramView {
                globals: self.program.globals,
                slots: self.program.slots,
                code: self.program.code.push(instr),
                starts: self.program.starts,
                terms: self.program.terms,
            },
            vars: self.vars,
            value: self.value,
        }
    }

    /// The state after one more instruction, whose result is the value
    /// computed last.
    pub open spec fn emit_value(self, instr: Instr) -> LowerState {
        self.emit(instr).with_value(Operand::Reg(self.program.code.len() as usize))
    }

    /// The state after a new, empty block was opened.
    pub open spec fn open_block(self) -> LowerState {
        LowerState {
            program: ProgramView {
                globals: self.program.globals,
                slots: self.program.slots,
                code: self.program.code,
                starts: self.program.starts.push(self.program.code.len() as usize),
                terms: self.program.terms.push(Term::Open),
            },
            vars: self.vars,
            value: self.value,
        }
    }

    /// The state after block `b` was given its end.
    pub open spec fn set_term(self, b: usize, t: Term) -> LowerState {
        LowerState {
            program: ProgramView {
                globals: self.program.globals,
                slots: self.program.slots,
                code: self.program.code,
                starts: self.program.starts,
                terms: self.program.terms.update(b as int, t),
            },
            vars: self.vars,
            value: self.value,
        }
    }

    /// The state after a new global string, whose address is the value
    /// computed last.
    pub open spec fn add_global(self, text: Seq<char>) -> LowerState {
        LowerState {
            program: ProgramView {
                globals: self.program.globals.push(text),
                slots: self.program.slots,
                code: self.program.code,
                starts: self.program.starts,
                terms: self.program.terms,
            },
            vars: self.vars,
            value: Operand::Global(self.program.globals.len() as usize),
        }
    }

    /// The state after a new variable was declared, with a slot of its own.
    pub open spec fn declare(self, name: Seq<char>, kind: Kind) -> LowerState {
        LowerState {
            program: ProgramView {
                globals: self.program.globals,
                slots: self.program.slots.push(cell_of(kind)),
                code: self.program.code,
                starts: self.program.starts,
                terms: self.program.terms,
            },
            vars: self.vars.insert(
                name,
                VarInfo { slot: self.program.slots.len() as usize, kind },
            ),
            value: self.value,
        }
    }

    /// Whether the program written so far is well formed.
    pub open spec fn well_formed(self) -> bool {
        self.program.well_formed()
    }
}

/// What a slot for a variable of this kind holds.
pub open spec fn cell_of(kind: Kind) -> Cell {
    if kind == Kind::Str {
        Cell::Pointer
    } else {
        Cell::Word
    }
}

/// The state in which lowering starts: one open block, nothing else.
pub open spec fn initial_state() -> LowerState {
    LowerState {
        program: ProgramView {
            globals: Seq::empty(),
            slots: Seq::empty(),
            code: Seq::empty(),
            starts: seq![0usize],
            terms: seq![Term::Open],
        },
        vars: Map::empty(),
        value: Operand::Const(0),
    }
}

/// The operation that an operator kind stands for, if it is one of the
/// four.
pub open spec fn binop_of(kind: Kind) -> Option<BinOp> {
    match kind {
        Kind::Plus => Some(BinOp::Add),
        Kind::Minus => Some(BinOp::Sub),
        Kind::Multi => Some(BinOp::Mul),
        Kind::Divi => Some(BinOp::UDiv),
        _ => None,
    }
}

/// Lowers an expression that stands where an integer is needed. A literal
/// is a constant; a variable of integer or character kind is loaded from
/// its slot; an operation or an equality test has its operands lowered from
/// left to right and then one instruction on their values. Anything else
/// has no integer value.
pub open spec fn lower_value_spec(s: LowerState, e: Node) -> Result<LowerState, CodegenError>
    decreases e,
{
    match e {
        Node::Int(v) => Ok(s.with_value(Operand::Const(v))),
        Node::Ident(name, _) => match find_var(s.vars, name) {
            None => Err(CodegenError::UndeclaredIdentifier),
            Some(var) => if var.kind == Kind::Str {
                Err(CodegenError::UnsupportedExpression)
            } else {
                Ok(s.emit_value(Instr::Load { slot: var.slot }))
            },
        },
        Node::BinaryOp(kind, l, r) => match lower_value_spec(s, *l) {
            Err(err) => Err(err),
            Ok(s1) => match lower_value_spec(s1, *r) {
                Err(err) => Err(err),
                Ok(s2) => match binop_of(kind) {
                    None => Err(CodegenError::UnsupportedExpression),
                    Some(op) => Ok(
                        s2.emit_value(Instr::Arith { op, lhs: s1.value, rhs: s2.value }),
                    ),
                },
            },
        },
        Node::Equal(l, r) => match lower_value_spec(s, *l) {
            Err(err) => Err(err),
            Ok(s1) => match lower_value_spec(s1, *r) {
                Err(err) => Err(err),
                Ok(s2) => Ok(s2.emit_value(Instr::Test { lhs: s1.value, rhs: s2.value })),
            },
        },
        _ => Err(CodegenError::UnsupportedExpression),
    }
}

/// Lowers the right-hand side of an assignment and says which kind its
/// value is of: a character literal is a constant of character kind, a
/// string literal a new global string, anything else an integer.
pub open spec fn lower_assigned_spec(s: LowerState, v: Node) -> Result<
    (LowerState, Kind),
    CodegenError,
> {
    match v {
        Node::Char(c) => Ok((s.with_value(Operand::Const(c as i32)), Kind::Char)),
        Node::Str(text) => Ok((s.add_global(text), Kind::Str)),
        _ => match lower_value_spec(s, v) {
            Err(err) => Err(err),
            Ok(s1) => Ok((s1, Kind::Int)),
        },
    }
}

/// Lowers an assignment: the value is computed and stored in the
/// variable's slot. The first assignment to a name declares the variable
/// with the kind of the value and a new slot; a later one must be of the
/// same kind and writes to the same slot.
pub open spec fn lower_assign_spec(s: LowerState, target: Node, v: Node) -> Result<
    LowerState,
    CodegenError,
> {
    match target {
        Node::Ident(name, _) => match lower_assigned_spec(s, v) {
            Err(err) => Err(err),
            Ok((s1, kind)) => match find_var(s1.vars, name) {
                Some(var) => if var.kind != kind {
                    Err(CodegenError::KindChanged)
                } else {
                    Ok(s1.emit(Instr::Store { slot: var.slot, value: s1.value }))
                },
                None => Ok(
                    s1.declare(name, kind).emit(
                        Instr::Store { slot: s1.program.slots.len() as usize, value: s1.value },
                    ),
                ),
            },
        },
        _ => Err(CodegenError::UnsupportedExpression),
    }
}

/// The calls that print the value `v` of a variable or literal of kind
/// `kind`: a string goes to `puts`, a character to `putchar` with a newline
/// behind it, an integer to `printf`.
pub open spec fn print_calls(s: LowerState, kind: Kind, v: Operand) -> LowerState {
    if kind == Kind::Str {
        s.emit(Instr::Call { callee: Builtin::Puts, arg: v })
    } else if kind == Kind::Char {
        s.emit(Instr::Call { callee: Builtin::Putchar, arg: v }).emit(
            Instr::Call { callee: Builtin::Putchar, arg: Operand::Const(10) },
        )
    } else {
        s.emit(Instr::Call { callee: Builtin::Printf, arg: v })
    }
}

/// Lowers a print statement by the shape of what it prints: a variable is
/// loaded and printed as its kind says; a literal is printed as what it is;
/// an operation, an equality test or an integer literal is computed and
/// printed as an integer. Nothing else can be printed.
pub open spec fn lower_print_spec(s: LowerState, v: Node) -> Result<LowerState, CodegenError> {
    match v {
        Node::Ident(name, _) => match find_var(s.vars, name) {
            None => Err(CodegenError::UndeclaredIdentifier),
            Some(var) => {
                let s1 = s.emit_value(Instr::Load { slot: var.slot });
                Ok(print_calls(s1, var.kind, s1.value))
            },
        },
        Node::Char(c) => Ok(print_calls(s, Kind::Char, Operand::Const(c as i32))),
        Node::Str(text) => {
            let s1 = s.add_global(text);
            Ok(print_calls(s1, Kind::Str, s1.value))
        },
        Node::Int(_) | Node::BinaryOp(_, _, _) | Node::Equal(_, _) => match lower_value_spec(s, v) {
            Err(err) => Err(err),
            Ok(s1) => Ok(print_calls(s1, Kind::Int, s1.value)),
        },
        _ => Err(CodegenError::UnsupportedPrint),
    }
}

/// Joins the waiting branches: each of the blocks in `pending` ends in a
/// jump to the current block, where they converge.
pub open spec fn flush_spec(s: LowerState, pending: Seq<usize>) -> LowerState
    decreases pending.len(),
{
    if pending.len() == 0 {
        s
    } else {
        flush_spec(s.set_term(pending.last(), Term::Jump(s.cur())), pending.drop_last())
    }
}

/// Lowers a branch on a condition, `if` or `else if`. The condition is
/// computed in the current block, which ends in a conditional branch: to a
/// new block with the body where the condition is not zero, else to a new
/// block behind the body, where lowering goes on. The block in which the
/// body ends joins the waiting branches.
pub open spec fn lower_branch_spec(
    s: LowerState,
    pending: Seq<usize>,
    cond: Node,
    body: Seq<Node>,
) -> Result<(LowerState, Seq<usize>), CodegenError>
    decreases body, body.len() + 1,
{
    match lower_value_spec(s, cond) {
        Err(err) => Err(err),
        Ok(s1) => {
            let test = s1.cur();
            let s2 = s1.open_block();
            match lower_list_spec(s2, body, 0, Seq::empty()) {
                Err(err) => Err(err),
                Ok(s3) => {
                    let s4 = s3.open_block();
                    Ok(
                        (
                            s4.set_term(test, Term::Branch(s1.value, s2.cur(), s4.cur())),
                            pending.push(s3.cur()),
                        ),
                    )
                },
            }
        },
    }
}

/// Lowers the final branch of a chain. The current block ends in a jump to
/// a new block with the body. The block in which the body ends joins the
/// waiting branches, and lowering goes on in a new block.
pub open spec fn lower_else_spec(s: LowerState, pending: Seq<usize>, body: Seq<Node>) -> Result<
    (LowerState, Seq<usize>),
    CodegenError,
>
    decreases body, body.len() + 1,
{
    let s1 = s.open_block();
    let s2 = s1.set_term(s.cur(), Term::Jump(s1.cur()));
    match lower_list_spec(s2, body, 0, Seq::empty()) {
        Err(err) => Err(err),
        Ok(s3) => Ok((s3.open_block(), pending.push(s3.cur()))),
    }
}

/// Lowers one statement, given the branches that wait. `else if` and
/// `else` add to them. Any other statement first joins them in the current
/// block; then an `if` opens a new chain, an assignment or a print
/// statement is lowered in place, and anything else does nothing.
pub open spec fn lower_stmt_spec(s: LowerState, pending: Seq<usize>, n: Node) -> Result<
    (LowerState, Seq<usize>),
    CodegenError,
>
    decreases n, 0nat,
{
    match n {
        Node::ElseIf(cond, body) => lower_branch_spec(s, pending, *cond, body),
        Node::Else(body) => lower_else_spec(s, pending, body),
        Node::If(cond, body) => lower_branch_spec(
            flush_spec(s, pending),
            Seq::empty(),
            *cond,
            body,
        ),
        Node::Assign(target, v) => match lower_assign_spec(flush_spec(s, pending), *target, *v) {
            Err(err) => Err(err),
            Ok(s1) => Ok((s1, Seq::empty())),
        },
        Node::Print(v) => match lower_print_spec(flush_spec(s, pending), *v) {
            Err(err) => Err(err),
            Ok(s1) => Ok((s1, Seq::empty())),
        },
        _ => Ok((flush_spec(s, pending), Seq::empty())),
    }
}

/// Lowers the statements of a list from index `from` on, one after the
/// other, and joins the branches that still wait at its end.
pub open spec fn lower_list_spec(
    s: LowerState,
    stmts: Seq<Node>,
    from: int,
    pending: Seq<usize>,
) -> Result<LowerState, CodegenError>
    decreases stmts, stmts.len() - from,
{
    if from < 0 || from >= stmts.len() {
        Ok(flush_spec(s, pending))
    } else {
        match lower_stmt_spec(s, pending, stmts[from]) {
            Err(err) => Err(err),
            Ok((s1, queue1)) => lower_list_spec(s1, stmts, from + 1, queue1),
        }
    }
}

/// The program that a list of statements is lowered to: the statements in
/// the entry block and the blocks that branches open, the last block
/// returning.
pub open spec fn lower_spec(stmts: Seq<Node>) -> Result<ProgramView, CodegenError> {
    match lower_list_spec(initial_state(), stmts, 0, Seq::empty()) {
        Err(err) => Err(err),
        Ok(s) => Ok(s.set_term(s.cur(), Term::Ret).program),
    }
}

/// The code generator at work: the program as far as it is written, the
/// variable table and the value computed last.
pub struct Lowering {
    pub program: Program,
    /// The variable table: for each declared name its slot and kind.
    pub vars: StringHashMap<VarInfo>,
    pub value: Operand,
}

impl View for Lowering {
    type V = LowerState;

    open spec fn view(&self) -> LowerState {
        LowerState { program: self.program@, vars: self.vars@, value: self.value }
    }
}

/// Whether every block in `pending` is a block of the program in `s`.
pub open spec fn pending_ok(s: LowerState, pending: Seq<usize>) -> bool {
    forall|i: int| 0 <= i < pending.len() ==> (#[trigger] pending[i]) < s.program.terms.len()
}

impl Lowering {
    /// A code generator that has written nothing yet.
    pub fn new() -> (r: Lowering)
        ensures
            r@ == initial_state(),
            r@.well_formed(),
    {
        let mut starts: Vec<usize> = Vec::new();
        starts.push(0);
        let mut terms: Vec<Term> = Vec::new();
        terms.push(Term::Open);
        let r = Lowering {
            program: Program {
                globals: Vec::new(),
                slots: Vec::new(),
                code: Vec::new(),
                starts,
                terms,
            },
            vars: StringHashMap::new(),
            value: Operand::Const(0),
        };
        proof {
            assert(r@.program.globals =~= Seq::empty());
            assert(r@.program.starts =~= seq![0usize]);
            assert(r@.program.terms =~= seq![Term::Open]);
        }
        r
    }

    /// The block that instructions go to.
    fn cur(&self) -> (b: usize)
        requires
            self@.well_formed(),
        ensures
            b == self@.cur(),
            b < self@.program.terms.len(),
    {
        self.program.starts.len() - 1
    }

    /// Appends an instruction to the current block.
    fn emit(&mut self, instr: Instr)
        requires
            old(self)@.well_formed(),
        ensures
            final(self)@ == old(self)@.emit(instr),
            final(self)@.well_formed(),
    {
        self.program.code.push(instr);
        proof {
            let a = old(self)@.program;
            let b = self@.program;
            assert forall|k: int| 0 <= k < b.starts.len() implies (#[trigger] b.starts[k]) as int
                <= b.block_end(k) <= b.code.len() by {
                assert(a.starts[k] as int <= a.block_end(k) <= a.code.len());
            }
        }
    }

    /// Appends an instruction and keeps its result as the value computed
    /// last.
    fn emit_value(&mut self, instr: Instr)
        requires
            old(self)@.well_formed(),
        ensures
            final(self)@ == old(self)@.emit_value(instr),
            final(self)@.well_formed(),
    {
        let k: usize = self.program.code.len();
        self.emit(instr);
        self.value = Operand::Reg(k);
    }

    /// Opens a new block behind the code written so far.
    fn open_block(&mut self)
        requires
            old(self)@.well_formed(),
        ensures
            final(self)@ == old(self)@.open_block(),
            final(self)@.well_formed(),
    {
        let k: usize = self.program.code.len();
        self.program.starts.push(k);
        self.program.terms.push(Term::Open);
        proof {
            let a = old(self)@.program;
            let b = self@.program;
            assert forall|k: int| 0 <= k < b.starts.len() implies (#[trigger] b.starts[k]) as int
                <= b.block_end(k) <= b.code.len() by {
                if k < a.starts.len() {
                    assert(a.starts[k] as int <= a.block_end(k) <= a.code.len());
                }
            }
        }
    }

    /// Gives block `b` its end.
    fn set_term(&mut self, b: usize, t: Term)
        requires
            old(self)@.well_formed(),
            b < old(self)@.program.terms.len(),
        ensures
            final(self)@ == old(self)@.set_term(b, t),
            final(self)@.well_formed(),
    {
        self.program.terms.set(b, t);
        proof {
            let a = old(self)@.program;
            let c = self@.program;
            assert forall|k: int| 0 <= k < c.starts.len() implies (#[trigger] c.starts[k]) as int
                <= c.block_end(k) <= c.code.len() by {
                assert(a.starts[k] as int <= a.block_end(k) <= a.code.len());
            }
        }
    }

    /// Adds a global string and keeps its address as the value computed
    /// last.
    fn add_global(&mut self, text: String)
        requires
            old(self)@.well_formed(),
        ensures
            final(self)@ == old(self)@.add_global(text@),
            final(self)@.well_formed(),
    {
        let k: usize = self.program.globals.len();
        self.program.globals.push(text);
        self.value = Operand::Global(k);
        proof {
            assert(self@.program.globals =~= old(self)@.program.globals.push(text@));
            let a = old(self)@.program;
            let c = self@.program;
            assert forall|k: int| 0 <= k < c.starts.len() implies (#[trigger] c.starts[k]) as int
                <= c.block_end(k) <= c.code.len() by {
                assert(a.starts[k] as int <= a.block_end(k) <= a.code.len());
            }
        }
    }

    /// Declares a variable, with a new slot, and returns the slot.
    fn declare(&mut self, name: String, kind: Kind) -> (slot: usize)
        requires
            old(self)@.well_formed(),
        ensures
            final(self)@ == old(self)@.declare(name@, kind),
            final(self)@.well_formed(),
            slot == old(self)@.program.slots.len(),
    {
        let slot: usize = self.program.slots.len();
        let cell: Cell = if kind == Kind::Str {
            Cell::Pointer
        } else {
            Cell::Word
        };
        self.program.slots.push(cell);
        self.vars.insert(name, VarInfo { slot, kind });
        proof {
            let a = old(self)@.program;
            let c = self@.program;
            assert forall|k: int| 0 <= k < c.starts.len() implies (#[trigger] c.starts[k]) as int
                <= c.block_end(k) <= c.code.len() by {
                assert(a.starts[k] as int <= a.block_end(k) <= a.code.len());
            }
        }
        slot
    }

    /// Looks a variable up: its slot and kind, if it is declared.
    fn find(&self, name: &String) -> (r: Option<(usize, Kind)>)
        ensures
            match find_var(self@.vars, name@) {
                Some(var) => r == Some((var.slot, var.kind)),
                None => r is None,
            },
    {
        match self.vars.get(name.as_str()) {
            Some(var) => Some((var.slot, var.kind)),
            None => None,
        }
    }

    /// Lowers an expression that stands where an integer is needed.
    fn lower_value(&mut self, e: &Expr) -> (r: Result<(), CodegenError>)
        requires
            old(self)@.well_formed(),
        ensures
            match lower_value_spec(old(self)@, e@) {
                Ok(s) => r is Ok && final(self)@ == s,
                Err(err) => r == Err::<(), CodegenError>(err),
            },
            final(self)@.well_formed(),
            final(self)@.program.terms.len() == old(self)@.program.terms.len(),
        decreases e,
    {
        match e {
            Expr::Int(v) => {
                self.value = Operand::Const(v.eval());
                Ok(())
            },
            Expr::Ident(i) => {
                match self.find(&i.name) {
                    None => Err(CodegenError::UndeclaredIdentifier),
                    Some((slot, kind)) => {
                        if kind == Kind::Str {
                            Err(CodegenError::UnsupportedExpression)
                        } else {
                            self.emit_value(Instr::Load { slot });
                            Ok(())
                        }
                    },
                }
            },
            Expr::BinaryOp(b) => {
                match self.lower_value(&b.left_expr) {
                    Err(err) => {
                        return Err(err);
                    },
                    Ok(()) => {},
                }
                let lhs: Operand = self.value;
                match self.lower_value(&b.right_expr) {
                    Err(err) => {
                        return Err(err);
                    },
                    Ok(()) => {},
                }
                let rhs: Operand = self.value;
                let op: BinOp = match b.kind {
                    Kind::Plus => BinOp::Add,
                    Kind::Minus => BinOp::Sub,
                    Kind::Multi => BinOp::Mul,
                    Kind::Divi => BinOp::UDiv,
                    _ => {
                        return Err(CodegenError::UnsupportedExpression);
                    },
                };
                self.emit_value(Instr::Arith { op, lhs, rhs });
                Ok(())
            },
            Expr::Equal(b) => {
                match self.lower_value(&b.left_expr) {
                    Err(err) => {
                        return Err(err);
                    },
                    Ok(()) => {},
                }
                let lhs: Operand = self.value;
                match self.lower_value(&b.right_expr) {
                    Err(err) => {
                        return Err(err);
                    },
                    Ok(()) => {},
                }
                let rhs: Operand = self.value;
                self.emit_value(Instr::Test { lhs, rhs });
                Ok(())
            },
            _ => Err(CodegenError::UnsupportedExpression),
        }
    }

    /// Lowers the right-hand side of an assignment and returns the kind of
    /// its value.
    fn lower_assigned(&mut self, v: &Expr) -> (r: Result<Kind, CodegenError>)
        requires
            old(self)@.well_formed(),
        ensures
            match lower_assigned_spec(old(self)@, v@) {
                Ok((s, kind)) => r == Ok::<Kind, CodegenError>(kind) && final(self)@ == s,
                Err(err) => r == Err::<Kind, CodegenError>(err),
            },
            final(self)@.well_formed(),
            final(self)@.program.terms.len() == old(self)@.program.terms.len(),
    {
        match v {
            Expr::Char(c) => {
                self.value = Operand::Const(c.eval() as i32);
                Ok(Kind::Char)
            },
            Expr::Str(text) => {
                self.add_global(text.eval());
                Ok(Kind::Str)
            },
            _ => match self.lower_value(v) {
                Err(err) => Err(err),
                Ok(()) => Ok(Kind::Int),
            },
        }
    }

    /// Lowers an assignment.
    fn lower_assign(&mut self, target: &Expr, v: &Expr) -> (r: Result<(), CodegenError>)
        requires
            old(self)@.well_formed(),
        ensures
            match lower_assign_spec(old(self)@, target@, v@) {
                Ok(s) => r is Ok && final(self)@ == s,
                Err(err) => r == Err::<(), CodegenError>(err),
            },
            final(self)@.well_formed(),
            final(self)@.program.terms.len() == old(self)@.program.terms.len(),
    {
        match target {
            Expr::Ident(i) => {
                let kind: Kind = match self.lower_assigned(v) {
                    Err(err) => {
                        return Err(err);
                    },
                    Ok(kind) => kind,
                };
                let value: Operand = self.value;
                match self.find(&i.name) {
                    Some((slot, declared)) => {
                        if declared != kind {
                            return Err(CodegenError::KindChanged);
                        }
                        self.emit(Instr::Store { slot, value });
                    },
                    None => {
                        let slot: usize = self.declare(i.name(), kind);
                        self.emit(Instr::Store { slot, value });
                    },
                }
                Ok(())
            },
            _ => Err(CodegenError::UnsupportedExpression),
        }
    }

    /// Appends the calls that print a value of the given kind.
    fn print_calls(&mut self, kind: Kind, v: Operand)
        requires
            old(self)@.well_formed(),
        ensures
            final(self)@ == print_calls(old(self)@, kind, v),
            final(self)@.well_formed(),
    {
        if kind == Kind::Str {
            self.emit(Instr::Call { callee: Builtin::Puts, arg: v });
        } else if kind == Kind::Char {
            self.emit(Instr::Call { callee: Builtin::Putchar, arg: v });
            self.emit(Instr::Call { callee: Builtin::Putchar, arg: Operand::Const(10) });
        } else {
            self.emit(Instr::Call { callee: Builtin::Printf, arg: v });
        }
    }

    /// Lowers a print statement.
    fn lower_print(&mut self, v: &Expr) -> (r: Result<(), CodegenError>)
        requires
            old(self)@.well_formed(),
        ensures
            match lower_print_spec(old(self)@, v@) {
                Ok(s) => r is Ok && final(self)@ == s,
                Err(err) => r == Err::<(), CodegenError>(err),
            },
            final(self)@.well_formed(),
            final(self)@.program.terms.len() == old(self)@.program.terms.len(),
    {
        match v {
            Expr::Ident(i) => {
                match self.find(&i.name) {
                    None => Err(CodegenError::UndeclaredIdentifier),
                    Some((slot, kind)) => {
                        self.emit_value(Instr::Load { slot });
                        let loaded: Operand = self.value;
                        self.print_calls(kind, loaded);
                        Ok(())
                    },
                }
            },
            Expr::Char(c) => {
                self.print_calls(Kind::Char, Operand::Const(c.eval() as i32));
                Ok(())
            },
            Expr::Str(text) => {
                self.add_global(text.eval());
                let address: Operand = self.value;
                self.print_calls(Kind::Str, address);
                Ok(())
            },
            Expr::Int(_) | Expr::BinaryOp(_) | Expr::Equal(_) => {
                match self.lower_value(v) {
                    Err(err) => Err(err),
                    Ok(()) => {
                        let computed: Operand = self.value;
                        self.print_calls(Kind::Int, computed);
                        Ok(())
                    },
                }
            },
            _ => Err(CodegenError::UnsupportedPrint),
        }
    }

    /// Joins the waiting branches in the current block and empties the
    /// list of them.
    fn flush(&mut self, pending: &mut Vec<usize>)
        requires
            old(self)@.well_formed(),
            pending_ok(old(self)@, old(pending)@),
        ensures
            final(self)@ == flush_spec(old(self)@, old(pending)@),
            final(self)@.well_formed(),
            final(pending)@.len() == 0,
            final(self)@.program.terms.len() == old(self)@.program.terms.len(),
    {
        while pending.len() > 0
            invariant
                self@.well_formed(),
                pending_ok(self@, pending@),
                flush_spec(self@, pending@) == flush_spec(old(self)@, old(pending)@),
                self@.program.terms.len() == old(self)@.program.terms.len(),
            decreases pending@.len(),
        {
            let target: usize = self.cur();
            let ghost before = pending@;
            let b: usize = pending.pop().unwrap();
            assert(b == before[before.len() - 1]);
            self.set_term(b, Term::Jump(target));
        }
    }

    /// Lowers a branch on a condition, `if` or `else if`.
    fn lower_branch(&mut self, pending: &mut Vec<usize>, cond: &Expr, body: &Vec<Expr>) -> (r:
        Result<(), CodegenError>)
        requires
            old(self)@.well_formed(),
            pending_ok(old(self)@, old(pending)@),
        ensures
            match lower_branch_spec(old(self)@, old(pending)@, cond@, nodes_of(body@)) {
                Ok((s, p)) => r is Ok && final(self)@ == s && final(pending)@ == p,
                Err(err) => r == Err::<(), CodegenError>(err),
            },
            final(self)@.well_formed(),
            r is Ok ==> pending_ok(final(self)@, final(pending)@),
            r is Ok ==> final(self)@.program.terms.len() >= old(self)@.program.terms.len(),
        decreases body, 2nat,
    {
        match self.lower_value(cond) {
            Err(err) => {
                return Err(err);
            },
            Ok(()) => {},
        }
        let test: usize = self.cur();
        let value: Operand = self.value;
        self.open_block();
        let then_block: usize = self.cur();
        match self.lower_list(body) {
            Err(err) => {
                return Err(err);
            },
            Ok(()) => {},
        }
        let exit: usize = self.cur();
        self.open_block();
        let after: usize = self.cur();
        self.set_term(test, Term::Branch(value, then_block, after));
        pending.push(exit);
        Ok(())
    }

    /// Lowers the final branch of a chain.
    fn lower_else(&mut self, pending: &mut Vec<usize>, body: &Vec<Expr>) -> (r: Result<
        (),
        CodegenError,
    >)
        requires
            old(self)@.well_formed(),
            pending_ok(old(self)@, old(pending)@),
        ensures
            match lower_else_spec(old(self)@, old(pending)@, nodes_of(body@)) {
                Ok((s, p)) => r is Ok && final(self)@ == s && final(pending)@ == p,
                Err(err) => r == Err::<(), CodegenError>(err),
            },
            final(self)@.well_formed(),
            r is Ok ==> pending_ok(final(self)@, final(pending)@),
            r is Ok ==> final(self)@.program.terms.len() >= old(self)@.program.terms.len(),
        decreases body, 2nat,
    {
        let before: usize = self.cur();
        self.open_block();
        let then_block: usize = self.cur();
        self.set_term(before, Term::Jump(then_block));
        match self.lower_list(body) {
            Err(err) => {
                return Err(err);
            },
            Ok(()) => {},
        }
        let exit: usize = self.cur();
        self.open_block();
        pending.push(exit);
        Ok(())
    }

    /// Lowers one statement, given the branches that wait.
    fn lower_stmt(&mut self, pending: &mut Vec<usize>, stmt: &Expr) -> (r: Result<
        (),
        CodegenError,
    >)
        requires
            old(self)@.well_formed(),
            pending_ok(old(self)@, old(pending)@),
        ensures
            match lower_stmt_spec(old(self)@, old(pending)@, stmt@) {
                Ok((s, p)) => r is Ok && final(self)@ == s && final(pending)@ == p,
                Err(err) => r == Err::<(), CodegenError>(err),
            },
            final(self)@.well_formed(),
            r is Ok ==> pending_ok(final(self)@, final(pending)@),
            r is Ok ==> final(self)@.program.terms.len() >= old(self)@.program.terms.len(),
        decreases stmt, 0nat,
    {
        let ghost s0 = self@;
        let ghost pos0 = pending@;
        match stmt {
            Expr::ElseIf(i) => {
                proof {
                    lemma_branch_view(**i);
                }
                self.lower_branch(pending, &i.condition, &i.list)
            },
            Expr::Else(i) => {
                proof {
                    lemma_else_view(**i);
                }
                self.lower_else(pending, &i.list)
            },
            Expr::If(i) => {
                proof {
                    lemma_branch_view(**i);
                }
                self.flush(pending);
                assert(pending@ =~= Seq::<usize>::empty());
                self.lower_branch(pending, &i.condition, &i.list)
            },
            Expr::Assign(a) => {
                assert(stmt@ == Node::Assign(Box::new(a.left_expr@), Box::new(a.right_expr@)));
                self.flush(pending);
                assert(pending@ =~= Seq::<usize>::empty());
                self.lower_assign(&a.left_expr, &a.right_expr)
            },
            Expr::Print(p) => {
                assert(stmt@ == Node::Print(Box::new(p.val@)));
                self.flush(pending);
                assert(pending@ =~= Seq::<usize>::empty());
                self.lower_print(&p.val)
            },
            _ => {
                assert(lower_stmt_spec(s0, pos0, stmt@) == Ok::<
                    (LowerState, Seq<usize>),
                    CodegenError,
                >((flush_spec(s0, pos0), Seq::empty())));
                self.flush(pending);
                assert(pending@ =~= Seq::<usize>::empty());
                Ok(())
            },
        }
    }

    /// Lowers a list of statements and joins the branches that wait at its
    /// end.
    fn lower_list(&mut self, stmts: &Vec<Expr>) -> (r: Result<(), CodegenError>)
        requires
            old(self)@.well_formed(),
        ensures
            match lower_list_spec(old(self)@, nodes_of(stmts@), 0, Seq::empty()) {
                Ok(s) => r is Ok && final(self)@ == s,
                Err(err) => r == Err::<(), CodegenError>(err),
            },
            final(self)@.well_formed(),
            r is Ok ==> final(self)@.program.terms.len() >= old(self)@.program.terms.len(),
        decreases stmts, 1nat,
    {
        let mut pending: Vec<usize> = Vec::new();
        let mut i: usize = 0;
        while i < stmts.len()
            invariant
                i <= stmts@.len(),
                self@.well_formed(),
                pending_ok(self@, pending@),
                self@.program.terms.len() >= old(self)@.program.terms.len(),
                lower_list_spec(old(self)@, nodes_of(stmts@), 0, Seq::empty()) == lower_list_spec(
                    self@,
                    nodes_of(stmts@),
                    i as int,
                    pending@,
                ),
            decreases stmts@.len() - i,
        {
            match self.lower_stmt(&mut pending, &stmts[i]) {
                Err(err) => {
                    return Err(err);
                },
                Ok(()) => {},
            }
            i = i + 1;
        }
        self.flush(&mut pending);
        Ok(())
    }
}

/// Lowers a program to its intermediate form. The program that comes out
/// is complete: well formed, with operands of the right sorts and an end
/// for every block. And it is correct: where the statements mean
/// something, it prints exactly that when it runs.
pub fn lower(ast: &Vec<Expr>) -> (r: Result<Program, CodegenError>)
    ensures
        match lower_spec(nodes_of(ast@)) {
            Ok(p) => r is Ok && r.unwrap()@ == p,
            Err(err) => r == Err::<Program, CodegenError>(err),
        },
        r is Ok ==> r.unwrap()@.complete(),
        r is Ok && meaning(nodes_of(ast@)) is Some ==> r.unwrap()@.run() == meaning(
            nodes_of(ast@),
        ),
{
    let mut state: Lowering = Lowering::new();
    match state.lower_list(ast) {
        Err(err) => Err(err),
        Ok(()) => {
            let last: usize = state.cur();
            state.set_term(last, Term::Ret);
            let instructions: usize = state.program.code.len();
            let blocks: usize = state.program.starts.len();
            let globals: usize = state.program.globals.len();
            let slots: usize = state.program.slots.len();
            proof {
                assert(state.program@.fits());
                lemma_lowered_program_is_complete(nodes_of(ast@));
                if meaning(nodes_of(ast@)) is Some {
                    lemma_lowered_program_means_the_same(nodes_of(ast@));
                }
            }
            Ok(state.program)
        },
    }
}

} // verus!
