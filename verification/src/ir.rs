//! The intermediate form that a program is lowered to: basic blocks of
//! simple instructions over storage slots, with the calls to the output
//! primitives, and what running such a program means.
use vstd::prelude::*;
use crate::ast::{apply_arith, udiv32};
use crate::token::Kind;

verus! {

/// The arithmetic operations of the intermediate form.
#[derive(PartialEq, Eq, Debug, Copy, Clone, Structural)]
pub enum BinOp {
    Add,
    Sub,
    Mul,
    /// Division of the operands read as unsigned numbers.
    UDiv,
}

/// The output primitives that a program may call.
#[derive(PartialEq, Eq, Debug, Copy, Clone, Structural)]
pub enum Builtin {
    /// Prints a byte string and a newline.
    Puts,
    /// Prints the character with the given code.
    Putchar,
    /// Prints an integer in decimal and a newline.
    Printf,
}

/// What an instruction works on.
#[derive(PartialEq, Eq, Debug, Copy, Clone, Structural)]
pub enum Operand {
    /// A constant.
    Const(i32),
    /// The result of the instruction with this index.
    Reg(usize),
    /// The address of the global string with this index.
    Global(usize),
}

/// One instruction. The instruction at index `k` of the code defines the
/// value `Reg(k)`, where it has a result.
#[derive(PartialEq, Eq, Debug, Copy, Clone, Structural)]
pub enum Instr {
    /// Writes a value to a slot.
    Store { slot: usize, value: Operand },
    /// Reads a slot.
    Load { slot: usize },
    /// Applies an arithmetic operation.
    Arith { op: BinOp, lhs: Operand, rhs: Operand },
    /// Compares two integers: one where they are equal, else zero.
    Test { lhs: Operand, rhs: Operand },
    /// Calls an output primitive.
    Call { callee: Builtin, arg: Operand },
}

/// How a basic block ends.
#[derive(PartialEq, Eq, Debug, Copy, Clone, Structural)]
pub enum Term {
    /// Not decided yet.
    Open,
    /// Goes on in the given block.
    Jump(usize),
    /// Goes on in the first block where the condition is not zero, in the
    /// second where it is.
    Branch(Operand, usize, usize),
    /// Leaves the program with status zero.
    Ret,
}

/// What a storage slot holds.
#[derive(PartialEq, Eq, Debug, Copy, Clone, Structural)]
pub enum Cell {
    /// A 32-bit integer.
    Word,
    /// The address of a string.
    Pointer,
}

/// A program in intermediate form: one entry function. Block `b` consists
/// of the instructions from index `starts[b]` up to the start of the next
/// block, or to the end of the code for the last block, and ends as
/// `terms[b]` says. Block 0 is the entry.
#[derive(PartialEq, Eq, Debug)]
pub struct Program {
    /// The texts of the global string constants.
    pub globals: Vec<String>,
    /// The storage slots, each with what it holds.
    pub slots: Vec<Cell>,
    /// The instructions of all blocks, block after block.
    pub code: Vec<Instr>,
    /// For each block the index of its first instruction.
    pub starts: Vec<usize>,
    /// For each block how it ends.
    pub terms: Vec<Term>,
}

/// The mathematical content of a [`Program`].
pub ghost struct ProgramView {
    pub globals: Seq<Seq<char>>,
    pub slots: Seq<Cell>,
    pub code: Seq<Instr>,
    pub starts: Seq<usize>,
    pub terms: Seq<Term>,
}

/// The texts of a list of strings, in order.
pub open spec fn texts_of(v: Seq<String>) -> Seq<Seq<char>> {
    Seq::new(v.len(), |i: int| v[i]@)
}

impl View for Program {
    type V = ProgramView;

    open spec fn view(&self) -> ProgramView {
        ProgramView {
            globals: texts_of(self.globals@),
            slots: self.slots@,
            code: self.code@,
            starts: self.starts@,
            terms: self.terms@,
        }
    }
}

impl ProgramView {
    /// The number of blocks.
    pub open spec fn blocks(self) -> int {
        self.starts.len() as int
    }

    /// The index behind the last instruction of block `b`.
    pub open spec fn block_end(self, b: int) -> int {
        if b + 1 < self.starts.len() {
            self.starts[b + 1] as int
        } else {
            self.code.len() as int
        }
    }

    /// Whether the blocks lie in the code one behind the other, each with
    /// its terminator, the first at index 0.
    pub open spec fn well_formed(self) -> bool {
        &&& self.starts.len() == self.terms.len()
        &&& self.starts.len() >= 1
        &&& self.starts[0] == 0
        &&& forall|b: int|
            0 <= b < self.starts.len() ==> (#[trigger] self.starts[b]) as int <= self.block_end(b)
                <= self.code.len()
    }
}

/// The sorts of thing that an instruction can leave behind.
#[derive(PartialEq, Eq, Debug, Copy, Clone, Structural)]
pub enum Sort {
    /// Nothing: the instruction has no result.
    Nothing,
    /// A 32-bit integer.
    Int,
    /// The address of a string.
    Address,
}

impl ProgramView {
    /// What instruction `k` leaves behind: a load what its slot holds, an
    /// operation or test an integer, anything else nothing.
    pub open spec fn sort_of(self, k: int) -> Sort {
        match self.code[k] {
            Instr::Load { slot } => if slot < self.slots.len() {
                match self.slots[slot as int] {
                    Cell::Word => Sort::Int,
                    Cell::Pointer => Sort::Address,
                }
            } else {
                Sort::Nothing
            },
            Instr::Arith { op, lhs, rhs } => Sort::Int,
            Instr::Test { lhs, rhs } => Sort::Int,
            _ => Sort::Nothing,
        }
    }

    /// Whether the operand stands for an integer before instruction `k`: a
    /// constant, or the integer result of an earlier instruction.
    pub open spec fn is_int(self, operand: Operand, k: int) -> bool {
        match operand {
            Operand::Const(_) => true,
            Operand::Reg(j) => j < k && j < self.code.len() && self.sort_of(j as int) == Sort::Int,
            Operand::Global(_) => false,
        }
    }

    /// Whether the operand stands for an address before instruction `k`: a
    /// global string, or the address that an earlier instruction loaded.
    pub open spec fn is_address(self, operand: Operand, k: int) -> bool {
        match operand {
            Operand::Const(_) => false,
            Operand::Reg(j) => j < k && j < self.code.len() && self.sort_of(j as int)
                == Sort::Address,
            Operand::Global(g) => g < self.globals.len(),
        }
    }

    /// Whether instruction `k` names a slot that exists and operands of the
    /// sorts that it needs.
    pub open spec fn instr_ok(self, k: int) -> bool {
        match self.code[k] {
            Instr::Store { slot, value } => slot < self.slots.len() && match self.slots[slot as int] {
                Cell::Word => self.is_int(value, k),
                Cell::Pointer => self.is_address(value, k),
            },
            Instr::Load { slot } => slot < self.slots.len(),
            Instr::Arith { op, lhs, rhs } => self.is_int(lhs, k) && self.is_int(rhs, k),
            Instr::Test { lhs, rhs } => self.is_int(lhs, k) && self.is_int(rhs, k),
            Instr::Call { callee, arg } => match callee {
                Builtin::Puts => self.is_address(arg, k),
                Builtin::Putchar => self.is_int(arg, k),
                Builtin::Printf => self.is_int(arg, k),
            },
        }
    }

    /// Whether block `b` has an end that leads to blocks of the program,
    /// on an integer condition where it branches.
    pub open spec fn term_ok(self, b: int) -> bool {
        match self.terms[b] {
            Term::Open => false,
            Term::Ret => true,
            Term::Jump(t) => t < self.terms.len(),
            Term::Branch(cond, t, e) => t < self.terms.len() && e < self.terms.len()
                && self.is_int(cond, self.block_end(b)),
        }
    }

    /// Whether the program is complete and in order: it is well formed,
    /// every instruction and every end of a block is in order.
    pub open spec fn complete(self) -> bool {
        &&& self.well_formed()
        &&& forall|k: int| 0 <= k < self.code.len() ==> #[trigger] self.instr_ok(k)
        &&& forall|b: int| 0 <= b < self.terms.len() ==> #[trigger] self.term_ok(b)
    }
}

/// A value at run time.
#[derive(PartialEq, Eq, Debug, Copy, Clone, Structural)]
pub enum Value {
    /// A 32-bit integer.
    Int(i32),
    /// The address of the global string with this index.
    Text(usize),
}

/// One thing that a program printed.
#[derive(PartialEq, Eq, Debug)]
pub enum Printed {
    /// An integer, in decimal, and a newline.
    Int(i32),
    /// The character with this code.
    Char(i32),
    /// A text and a newline.
    Text(String),
}

/// The mathematical content of a [`Printed`].
pub ghost enum Output {
    Int(i32),
    Char(i32),
    Text(Seq<char>),
}

impl View for Printed {
    type V = Output;

    open spec fn view(&self) -> Output {
        match self {
            Printed::Int(v) => Output::Int(*v),
            Printed::Char(c) => Output::Char(*c),
            Printed::Text(t) => Output::Text(t@),
        }
    }
}

/// The contents of a list of printed things, in order.
pub open spec fn outputs_of(v: Seq<Printed>) -> Seq<Output> {
    Seq::new(v.len(), |i: int| v[i]@)
}

/// The state of a running program: the results of the instructions that
/// have run, what the slots hold, and what was printed.
pub ghost struct Machine {
    pub regs: Map<int, Value>,
    pub mem: Map<int, Value>,
    pub out: Seq<Output>,
}

/// The state in which a program starts.
pub open spec fn start_machine() -> Machine {
    Machine { regs: Map::empty(), mem: Map::empty(), out: Seq::empty() }
}

/// The result of an arithmetic operation on 32-bit integers; none for a
/// division by zero.
pub open spec fn binop_apply(op: BinOp, a: i32, b: i32) -> Option<i32> {
    match op {
        BinOp::Add => Some(a.wrapping_add(b)),
        BinOp::Sub => Some(a.wrapping_sub(b)),
        BinOp::Mul => Some(a.wrapping_mul(b)),
        BinOp::UDiv => if b == 0 {
            None
        } else {
            Some(udiv32(a, b))
        },
    }
}

impl Machine {
    /// The value of an operand, if it has one: a constant is itself, a
    /// result must have been computed, a global is its address.
    pub open spec fn operand(self, op: Operand) -> Option<Value> {
        match op {
            Operand::Const(v) => Some(Value::Int(v)),
            Operand::Reg(k) => if self.regs.dom().contains(k as int) {
                Some(self.regs[k as int])
            } else {
                None
            },
            Operand::Global(g) => Some(Value::Text(g)),
        }
    }

    /// The state with the result `v` of instruction `k`.
    pub open spec fn with_reg(self, k: int, v: Value) -> Machine {
        Machine { regs: self.regs.insert(k, v), mem: self.mem, out: self.out }
    }

    /// The state with `v` in the slot.
    pub open spec fn with_mem(self, slot: int, v: Value) -> Machine {
        Machine { regs: self.regs, mem: self.mem.insert(slot, v), out: self.out }
    }

    /// The state with one more thing printed.
    pub open spec fn with_out(self, o: Output) -> Machine {
        Machine { regs: self.regs, mem: self.mem, out: self.out.push(o) }
    }
}

impl ProgramView {
    /// The state after instruction `k` has run in state `m`. There is none
    /// where the instruction goes wrong: an operand has no value or a value
    /// of the wrong sort, a slot does not exist or was never written, a
    /// division is by zero.
    pub open spec fn step(self, m: Machine, k: int) -> Option<Machine> {
        match self.code[k] {
            Instr::Store { slot, value } => match m.operand(value) {
                Some(v) => if slot < self.slots.len() {
                    Some(m.with_mem(slot as int, v))
                } else {
                    None
                },
                None => None,
            },
            Instr::Load { slot } => if slot < self.slots.len() && m.mem.dom().contains(slot as int) {
                Some(m.with_reg(k, m.mem[slot as int]))
            } else {
                None
            },
            Instr::Arith { op, lhs, rhs } => match (m.operand(lhs), m.operand(rhs)) {
                (Some(Value::Int(a)), Some(Value::Int(b))) => match binop_apply(op, a, b) {
                    Some(v) => Some(m.with_reg(k, Value::Int(v))),
                    None => None,
                },
                _ => None,
            },
            Instr::Test { lhs, rhs } => match (m.operand(lhs), m.operand(rhs)) {
                (Some(Value::Int(a)), Some(Value::Int(b))) => Some(
                    m.with_reg(
                        k,
                        Value::Int(
                            if a == b {
                                1i32
                            } else {
                                0i32
                            },
                        ),
                    ),
                ),
                _ => None,
            },
            Instr::Call { callee, arg } => match (callee, m.operand(arg)) {
                (Builtin::Puts, Some(Value::Text(g))) => if g < self.globals.len() {
                    Some(m.with_out(Output::Text(self.globals[g as int])))
                } else {
                    None
                },
                (Builtin::Putchar, Some(Value::Int(c))) => Some(m.with_out(Output::Char(c))),
                (Builtin::Printf, Some(Value::Int(v))) => Some(m.with_out(Output::Int(v))),
                _ => None,
            },
        }
    }

    /// The state after the instructions from index `k` up to `end` have
    /// run, one after the other.
    pub open spec fn run_code(self, m: Machine, k: int, end: int) -> Option<Machine>
        decreases end - k,
    {
        if k >= end {
            Some(m)
        } else {
            match self.step(m, k) {
                None => None,
                Some(m1) => self.run_code(m1, k + 1, end),
            }
        }
    }

    /// The block in which a program that has run block `b` into state `m`
    /// goes on; none where the block returns, its end is undecided or its
    /// condition has no integer value.
    pub open spec fn successor(self, m: Machine, b: int) -> Option<int> {
        match self.terms[b] {
            Term::Jump(t) => Some(t as int),
            Term::Branch(cond, t, e) => match m.operand(cond) {
                Some(Value::Int(v)) => Some(
                    if v != 0 {
                        t as int
                    } else {
                        e as int
                    },
                ),
                _ => None,
            },
            _ => None,
        }
    }

    /// The state in which a program ends that has run the instructions of
    /// block `b` into state `m`: the program returns, or goes on in the
    /// block that the end of `b` names. A program only ever goes on in a
    /// later block, so it has no loops; a program that would go back, or
    /// that goes wrong, has no final state.
    pub open spec fn leave(self, m: Machine, b: int) -> Option<Machine>
        decreases self.starts.len() - b, 0nat,
    {
        if b < 0 || b >= self.starts.len() || b >= self.terms.len() {
            None
        } else if self.terms[b] == Term::Ret {
            Some(m)
        } else {
            match self.successor(m, b) {
                Some(next) => if b < next < self.starts.len() {
                    self.run_block(m, next)
                } else {
                    None
                },
                None => None,
            }
        }
    }

    /// The state in which a program ends that stands in block `b` before
    /// instruction `k` in state `m`: the rest of the block's instructions
    /// run, and then the program leaves the block.
    pub open spec fn finish(self, m: Machine, b: int, k: int) -> Option<Machine>
        decreases self.starts.len() - b, 1nat,
    {
        if b < 0 || b >= self.starts.len() {
            None
        } else {
            match self.run_code(m, k, self.block_end(b)) {
                None => None,
                Some(m1) => self.leave(m1, b),
            }
        }
    }

    /// The state in which a program ends that enters block `b` in state
    /// `m`.
    pub open spec fn run_block(self, m: Machine, b: int) -> Option<Machine>
        decreases self.starts.len() - b, 2nat,
    {
        if b < 0 || b >= self.starts.len() {
            None
        } else {
            self.finish(m, b, self.starts[b] as int)
        }
    }

    /// What the program prints when it runs from its entry to its return,
    /// if it gets there.
    pub open spec fn run(self) -> Option<Seq<Output>> {
        if self.well_formed() {
            match self.run_block(start_machine(), 0) {
                Some(m) => Some(m.out),
                None => None,
            }
        } else {
            None
        }
    }
}

/// A running program: for each instruction its result, once it has run,
/// for each slot what it holds, once it was written, and what was printed.
pub struct Runner {
    pub regs: Vec<Option<Value>>,
    pub mem: Vec<Option<Value>>,
    pub out: Vec<Printed>,
}

/// The values that are there in a list of places, by index.
pub open spec fn filled(v: Seq<Option<Value>>) -> Map<int, Value> {
    Map::new(|k: int| 0 <= k < v.len() && v[k] is Some, |k: int| v[k]->0)
}

impl View for Runner {
    type V = Machine;

    open spec fn view(&self) -> Machine {
        Machine { regs: filled(self.regs@), mem: filled(self.mem@), out: outputs_of(self.out@) }
    }
}

/// Applies an arithmetic operation of the intermediate form.
pub fn apply_binop(op: BinOp, a: i32, b: i32) -> (r: Option<i32>)
    ensures
        r == binop_apply(op, a, b),
{
    match op {
        BinOp::Add => apply_arith(Kind::Plus, a, b),
        BinOp::Sub => apply_arith(Kind::Minus, a, b),
        BinOp::Mul => apply_arith(Kind::Multi, a, b),
        BinOp::UDiv => apply_arith(Kind::Divi, a, b),
    }
}

impl Program {
    /// Whether the blocks lie in the code one behind the other, each with
    /// its terminator, the first at index 0.
    pub fn is_well_formed(&self) -> (r: bool)
        ensures
            r == self@.well_formed(),
    {
        let n: usize = self.starts.len();
        if n != self.terms.len() || n == 0 || self.starts[0] != 0 {
            return false;
        }
        let mut b: usize = 0;
        while b < n
            invariant
                b <= n,
                n == self.starts@.len(),
                forall|j: int|
                    0 <= j < b ==> (#[trigger] self@.starts[j]) as int <= self@.block_end(j)
                        <= self@.code.len(),
            decreases n - b,
        {
            let end: usize = if b + 1 < n {
                self.starts[b + 1]
            } else {
                self.code.len()
            };
            if self.starts[b] > end || end > self.code.len() {
                assert(!(self@.starts[b as int] as int <= self@.block_end(b as int)
                    <= self@.code.len()));
                return false;
            }
            b = b + 1;
        }
        true
    }
}

impl Runner {
    /// The value of an operand.
    fn operand(&self, op: Operand) -> (r: Option<Value>)
        ensures
            r == self@.operand(op),
    {
        match op {
            Operand::Const(v) => Some(Value::Int(v)),
            Operand::Reg(k) => {
                if k < self.regs.len() {
                    self.regs[k]
                } else {
                    None
                }
            },
            Operand::Global(g) => Some(Value::Text(g)),
        }
    }

    /// Runs instruction `k` of the program; answers whether it went well.
    fn step(&mut self, program: &Program, k: usize) -> (ok: bool)
        requires
            k < program.code@.len(),
            old(self).regs@.len() == program.code@.len(),
            old(self).mem@.len() == program.slots@.len(),
        ensures
            match program@.step(old(self)@, k as int) {
                Some(m) => ok && final(self)@ == m,
                None => !ok,
            },
            final(self).regs@.len() == program.code@.len(),
            final(self).mem@.len() == program.slots@.len(),
    {
        match program.code[k] {
            Instr::Store { slot, value } => {
                match self.operand(value) {
                    Some(v) => {
                        if slot < self.mem.len() {
                            self.mem.set(slot, Some(v));
                            assert(self@.mem =~= old(self)@.mem.insert(slot as int, v));
                            true
                        } else {
                            false
                        }
                    },
                    None => false,
                }
            },
            Instr::Load { slot } => {
                if slot < self.mem.len() {
                    match self.mem[slot] {
                        Some(v) => {
                            self.regs.set(k, Some(v));
                            assert(self@.regs =~= old(self)@.regs.insert(k as int, v));
                            true
                        },
                        None => false,
                    }
                } else {
                    false
                }
            },
            Instr::Arith { op, lhs, rhs } => {
                match (self.operand(lhs), self.operand(rhs)) {
                    (Some(Value::Int(a)), Some(Value::Int(b))) => match apply_binop(op, a, b) {
                        Some(v) => {
                            self.regs.set(k, Some(Value::Int(v)));
                            assert(self@.regs =~= old(self)@.regs.insert(k as int, Value::Int(v)));
                            true
                        },
                        None => false,
                    },
                    _ => false,
                }
            },
            Instr::Test { lhs, rhs } => {
                match (self.operand(lhs), self.operand(rhs)) {
                    (Some(Value::Int(a)), Some(Value::Int(b))) => {
                        let v: i32 = if a == b {
                            1
                        } else {
                            0
                        };
                        self.regs.set(k, Some(Value::Int(v)));
                        assert(self@.regs =~= old(self)@.regs.insert(k as int, Value::Int(v)));
                        true
                    },
                    _ => false,
                }
            },
            Instr::Call { callee, arg } => {
                let printed: Printed = match (callee, self.operand(arg)) {
                    (Builtin::Puts, Some(Value::Text(g))) => {
                        if g < program.globals.len() {
                            Printed::Text(program.globals[g].clone())
                        } else {
                            return false;
                        }
                    },
                    (Builtin::Putchar, Some(Value::Int(c))) => Printed::Char(c),
                    (Builtin::Printf, Some(Value::Int(v))) => Printed::Int(v),
                    _ => {
                        return false;
                    },
                };
                let ghost o = printed@;
                self.out.push(printed);
                assert(self@.out =~= old(self)@.out.push(o));
                true
            },
        }
    }
}

/// Runs a program from its entry to its return and gives what it printed,
/// or `None` where the program is not well formed, goes wrong or would go
/// back to an earlier block.
pub fn run_program(program: &Program) -> (r: Option<Vec<Printed>>)
    ensures
        match program@.run() {
            Some(out) => r is Some && outputs_of(r.unwrap()@) == out,
            None => r is None,
        },
{
    if !program.is_well_formed() {
        return None;
    }
    let mut runner: Runner = Runner { regs: Vec::new(), mem: Vec::new(), out: Vec::new() };
    let mut i: usize = 0;
    while i < program.code.len()
        invariant
            i <= program.code@.len(),
            runner.regs@.len() == i,
            runner.mem@.len() == 0,
            runner.out@.len() == 0,
            forall|j: int| 0 <= j < i ==> runner.regs@[j] is None,
        decreases program.code@.len() - i,
    {
        runner.regs.push(None);
        i = i + 1;
    }
    i = 0;
    while i < program.slots.len()
        invariant
            i <= program.slots@.len(),
            runner.regs@.len() == program.code@.len(),
            runner.mem@.len() == i,
            runner.out@.len() == 0,
            forall|j: int| 0 <= j < runner.regs@.len() ==> runner.regs@[j] is None,
            forall|j: int| 0 <= j < i ==> runner.mem@[j] is None,
        decreases program.slots@.len() - i,
    {
        runner.mem.push(None);
        i = i + 1;
    }
    proof {
        assert(runner@.regs =~= Map::empty());
        assert(runner@.mem =~= Map::empty());
        assert(runner@.out =~= Seq::empty());
    }
    let blocks: usize = program.starts.len();
    let mut b: usize = 0;
    loop
        invariant
            program@.well_formed(),
            blocks == program.starts@.len(),
            b < blocks,
            runner.regs@.len() == program.code@.len(),
            runner.mem@.len() == program.slots@.len(),
            program@.run_block(start_machine(), 0) == program@.run_block(runner@, b as int),
        decreases blocks - b,
    {
        let end: usize = if b + 1 < blocks {
            program.starts[b + 1]
        } else {
            program.code.len()
        };
        let mut k: usize = program.starts[b];
        let ghost entered = runner@;
        assert(program@.starts[b as int] as int <= program@.block_end(b as int)
            <= program@.code.len());
        while k < end
            invariant
                k <= end <= program.code@.len(),
                program@.well_formed(),
                blocks == program.starts@.len(),
                b < blocks,
                end == program@.block_end(b as int),
                program@.run_block(start_machine(), 0) == program@.run_block(entered, b as int),
                runner.regs@.len() == program.code@.len(),
                runner.mem@.len() == program.slots@.len(),
                program@.run_code(entered, program@.starts[b as int] as int, end as int)
                    == program@.run_code(runner@, k as int, end as int),
            decreases end - k,
        {
            if !runner.step(program, k) {
                return None;
            }
            k = k + 1;
        }
        let next: usize = match program.terms[b] {
            Term::Ret => {
                return Some(runner.out);
            },
            Term::Open => {
                return None;
            },
            Term::Jump(t) => t,
            Term::Branch(cond, t, e) => match runner.operand(cond) {
                Some(Value::Int(v)) => if v != 0 {
                    t
                } else {
                    e
                },
                _ => {
                    return None;
                },
            },
        };
        if next <= b || next >= blocks {
            return None;
        }
        b = next;
    }
}

} // verus!
