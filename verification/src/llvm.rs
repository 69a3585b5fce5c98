//! The back end: writes a program in intermediate form as the text of an
//! LLVM module, through the `inkwell` bindings. Nothing is known here of
//! what LLVM does with the calls; the code below is verified to make them
//! in order and within bounds, and to refuse a program that it cannot
//! write.
use vstd::prelude::*;
use inkwell::basic_block::BasicBlock;
use inkwell::builder::Builder;
use inkwell::context::Context;
use inkwell::module::Module;
use inkwell::types::{ArrayType, BasicMetadataTypeEnum, BasicTypeEnum, FunctionType, IntType, PointerType};
use inkwell::values::{ArrayValue, BasicMetadataValueEnum, BasicValueEnum, FunctionValue, GlobalValue};
use inkwell::values::{IntValue, PointerValue};
use crate::ast::{Expr, nodes_of};
use crate::codegen::{CodegenError, lower, lower_spec};
use crate::loads::{lemma_lowered_program_loads_nothing, read_nothing};
use crate::ir::{BinOp, Builtin, Cell, Instr, Operand, Program, ProgramView, Sort, Term};

verus! {

/// `inkwell`'s `Context`: an LLVM context, which owns the types and constants of the modules made in it. Nothing is known of what is in it.
#[verifier::external_type_specification]
#[verifier::external_body]
pub struct ExContext(Context);

/// `inkwell`'s `Module`: an LLVM module. Nothing is known of what is in it.
#[verifier::external_type_specification]
#[verifier::external_body]
pub struct ExModule<'ctx>(Module<'ctx>);

/// `inkwell`'s `Builder`: an LLVM instruction builder, which appends instructions where it stands. Nothing is known of what is in it.
#[verifier::external_type_specification]
#[verifier::external_body]
pub struct ExBuilder<'ctx>(Builder<'ctx>);

/// `inkwell`'s `IntType`: an LLVM integer type. Nothing is known of what is in it.
#[verifier::external_type_specification]
#[verifier::external_body]
pub struct ExIntType<'ctx>(IntType<'ctx>);

/// `inkwell`'s `PointerType`: an LLVM pointer type. Nothing is known of what is in it.
#[verifier::external_type_specification]
#[verifier::external_body]
pub struct ExPointerType<'ctx>(PointerType<'ctx>);

/// `inkwell`'s `FunctionType`: an LLVM function type. Nothing is known of what is in it.
#[verifier::external_type_specification]
#[verifier::external_body]
pub struct ExFunctionType<'ctx>(FunctionType<'ctx>);

/// `inkwell`'s `ArrayType`: an LLVM array type. Nothing is known of what is in it.
#[verifier::external_type_specification]
#[verifier::external_body]
pub struct ExArrayType<'ctx>(ArrayType<'ctx>);

/// `inkwell`'s `BasicTypeEnum`: one of the LLVM types that a value can have. Nothing is known of what is in it.
#[verifier::external_type_specification]
#[verifier::external_body]
pub struct ExBasicTypeEnum<'ctx>(BasicTypeEnum<'ctx>);

/// `inkwell`'s `BasicMetadataTypeEnum`: one of the LLVM types that a parameter can have. Nothing is known of what is in it.
#[verifier::external_type_specification]
#[verifier::external_body]
pub struct ExBasicMetadataTypeEnum<'ctx>(BasicMetadataTypeEnum<'ctx>);

/// `inkwell`'s `ArrayValue`: an LLVM array constant. Nothing is known of what is in it.
#[verifier::external_type_specification]
#[verifier::external_body]
pub struct ExArrayValue<'ctx>(ArrayValue<'ctx>);

/// `inkwell`'s `GlobalValue`: an LLVM global variable. Nothing is known of what is in it.
#[verifier::external_type_specification]
#[verifier::external_body]
pub struct ExGlobalValue<'ctx>(GlobalValue<'ctx>);

/// `inkwell`'s `FunctionValue`: an LLVM function. Nothing is known of what is in it.
#[verifier::external_type_specification]
#[verifier::external_body]
pub struct ExFunctionValue<'ctx>(FunctionValue<'ctx>);

/// `inkwell`'s `IntValue`: an LLVM integer value. Nothing is known of what is in it.
#[verifier::external_type_specification]
#[verifier::external_body]
pub struct ExIntValue<'ctx>(IntValue<'ctx>);

/// `inkwell`'s `PointerValue`: an LLVM pointer value. Nothing is known of what is in it.
#[verifier::external_type_specification]
#[verifier::external_body]
pub struct ExPointerValue<'ctx>(PointerValue<'ctx>);

/// `inkwell`'s `BasicValueEnum`: one of the LLVM values that an instruction can work on. Nothing is known of what is in it.
#[verifier::external_type_specification]
#[verifier::external_body]
pub struct ExBasicValueEnum<'ctx>(BasicValueEnum<'ctx>);

/// `inkwell`'s `BasicMetadataValueEnum`: one of the LLVM values that a call can pass. Nothing is known of what is in it.
#[verifier::external_type_specification]
#[verifier::external_body]
pub struct ExBasicMetadataValueEnum<'ctx>(BasicMetadataValueEnum<'ctx>);

/// `inkwell`'s `BasicBlock`: an LLVM basic block. Nothing is known of what is in it.
#[verifier::external_type_specification]
#[verifier::external_body]
pub struct ExBasicBlock<'ctx>(BasicBlock<'ctx>);

/// `Context::create`: a new LLVM context.
#[verifier::external_body]
fn new_context() -> Context {
    Context::create()
}

/// `Context::create_module`: a new, empty module of the given name.
#[verifier::external_body]
fn new_module<'ctx>(context: &'ctx Context, name: &str) -> Module<'ctx> {
    context.create_module(name)
}

/// `Context::create_builder`: a new instruction builder.
#[verifier::external_body]
fn new_builder<'ctx>(context: &'ctx Context) -> Builder<'ctx> {
    context.create_builder()
}

/// `Context::i32_type`: the type of 32-bit integers.
#[verifier::external_body]
fn i32_type<'ctx>(context: &'ctx Context) -> IntType<'ctx> {
    context.i32_type()
}

/// `Context::i8_type`: the type of bytes.
#[verifier::external_body]
fn i8_type<'ctx>(context: &'ctx Context) -> IntType<'ctx> {
    context.i8_type()
}

/// `IntType::ptr_type`: the type of pointers to this type, in the default
/// address space.
#[verifier::external_body]
fn ptr_type<'ctx>(ty: IntType<'ctx>) -> PointerType<'ctx> {
    ty.ptr_type(inkwell::AddressSpace::default())
}

/// `BasicTypeEnum::from` an integer type: the same type, as one of the
/// basic types.
#[verifier::external_body]
fn int_basic_type<'ctx>(ty: IntType<'ctx>) -> BasicTypeEnum<'ctx> {
    BasicTypeEnum::from(ty)
}

/// `BasicTypeEnum::from` a pointer type: the same type, as one of the basic
/// types.
#[verifier::external_body]
fn ptr_basic_type<'ctx>(ty: PointerType<'ctx>) -> BasicTypeEnum<'ctx> {
    BasicTypeEnum::from(ty)
}

/// `BasicTypeEnum::from` an array type: the same type, as one of the basic
/// types.
#[verifier::external_body]
fn array_basic_type<'ctx>(ty: ArrayType<'ctx>) -> BasicTypeEnum<'ctx> {
    BasicTypeEnum::from(ty)
}

/// `BasicMetadataTypeEnum::from` a basic type: the same type, as a
/// parameter type.
#[verifier::external_body]
fn param_type<'ctx>(ty: BasicTypeEnum<'ctx>) -> BasicMetadataTypeEnum<'ctx> {
    BasicMetadataTypeEnum::from(ty)
}

/// `IntType::fn_type`: the type of functions that return this type and
/// take the given parameters, and more where `variadic` is set.
#[verifier::external_body]
fn fn_type<'ctx>(
    ret: IntType<'ctx>,
    params: &Vec<BasicMetadataTypeEnum<'ctx>>,
    variadic: bool,
) -> FunctionType<'ctx> {
    ret.fn_type(params.as_slice(), variadic)
}

/// `Module::add_function` with no linkage given: declares a function of the
/// given name and type in the module.
#[verifier::external_body]
fn add_function<'ctx>(module: &Module<'ctx>, name: &str, ty: FunctionType<'ctx>) -> FunctionValue<
    'ctx,
> {
    module.add_function(name, ty, None)
}

/// `Module::add_function` with external linkage: declares a function of
/// the given name and type that is defined outside the module.
#[verifier::external_body]
fn add_external_function<'ctx>(
    module: &Module<'ctx>,
    name: &str,
    ty: FunctionType<'ctx>,
) -> FunctionValue<'ctx> {
    module.add_function(name, ty, Some(inkwell::module::Linkage::External))
}

/// `Context::append_basic_block`: a new basic block at the end of the
/// function.
#[verifier::external_body]
fn append_block<'ctx>(
    context: &'ctx Context,
    function: FunctionValue<'ctx>,
    name: &str,
) -> BasicBlock<'ctx> {
    context.append_basic_block(function, name)
}

/// `Builder::position_at_end`: what is built next goes to the end of the
/// block.
#[verifier::external_body]
fn position_at_end<'ctx>(builder: &Builder<'ctx>, block: BasicBlock<'ctx>) {
    builder.position_at_end(block)
}

/// `IntType::const_int`: the constant of this type with the given bits, not
/// sign-extended.
#[verifier::external_body]
fn const_int<'ctx>(ty: IntType<'ctx>, value: u64) -> IntValue<'ctx> {
    ty.const_int(value, false)
}

/// `BasicValueEnum::from` an integer value: the same value, as one of the
/// basic values.
#[verifier::external_body]
fn int_basic_value<'ctx>(value: IntValue<'ctx>) -> BasicValueEnum<'ctx> {
    BasicValueEnum::from(value)
}

/// `BasicValueEnum::from` a pointer value: the same value, as one of the
/// basic values.
#[verifier::external_body]
fn ptr_basic_value<'ctx>(value: PointerValue<'ctx>) -> BasicValueEnum<'ctx> {
    BasicValueEnum::from(value)
}

/// `BasicValueEnum::from` an array value: the same value, as one of the
/// basic values.
#[verifier::external_body]
fn array_basic_value<'ctx>(value: ArrayValue<'ctx>) -> BasicValueEnum<'ctx> {
    BasicValueEnum::from(value)
}

/// `BasicMetadataValueEnum::from` a basic value: the same value, as an
/// argument of a call.
#[verifier::external_body]
fn argument<'ctx>(value: BasicValueEnum<'ctx>) -> BasicMetadataValueEnum<'ctx> {
    BasicMetadataValueEnum::from(value)
}

/// `IntValue::try_from` a basic value: the integer value that it is, or
/// `None` where it is of another sort.
#[verifier::external_body]
fn as_int_value<'ctx>(value: BasicValueEnum<'ctx>) -> Option<IntValue<'ctx>> {
    IntValue::try_from(value).ok()
}

/// `PointerValue::try_from` a basic value: the pointer value that it is, or
/// `None` where it is of another sort.
#[verifier::external_body]
fn as_ptr_value<'ctx>(value: BasicValueEnum<'ctx>) -> Option<PointerValue<'ctx>> {
    PointerValue::try_from(value).ok()
}

/// `Builder::build_alloca`: an instruction that reserves storage for one
/// value of the type, in the block in which the builder stands.
#[verifier::external_body]
fn build_alloca<'ctx>(builder: &Builder<'ctx>, ty: BasicTypeEnum<'ctx>) -> PointerValue<'ctx> {
    builder.build_alloca(ty, "")
}

/// `Builder::build_store`: an instruction that writes the value to the
/// address.
#[verifier::external_body]
fn build_store<'ctx>(builder: &Builder<'ctx>, ptr: PointerValue<'ctx>, value: BasicValueEnum<'ctx>) {
    builder.build_store(ptr, value);
}

/// `Builder::build_load`: an instruction that reads the value at the
/// address.
#[verifier::external_body]
fn build_load<'ctx>(builder: &Builder<'ctx>, ptr: PointerValue<'ctx>) -> BasicValueEnum<'ctx> {
    builder.build_load(ptr, "")
}

/// `Builder::build_int_add`: the sum of two integers.
#[verifier::external_body]
fn build_int_add<'ctx>(builder: &Builder<'ctx>, lhs: IntValue<'ctx>, rhs: IntValue<'ctx>) -> IntValue<
    'ctx,
> {
    builder.build_int_add(lhs, rhs, "")
}

/// `Builder::build_int_sub`: the difference of two integers.
#[verifier::external_body]
fn build_int_sub<'ctx>(builder: &Builder<'ctx>, lhs: IntValue<'ctx>, rhs: IntValue<'ctx>) -> IntValue<
    'ctx,
> {
    builder.build_int_sub(lhs, rhs, "")
}

/// `Builder::build_int_mul`: the product of two integers.
#[verifier::external_body]
fn build_int_mul<'ctx>(builder: &Builder<'ctx>, lhs: IntValue<'ctx>, rhs: IntValue<'ctx>) -> IntValue<
    'ctx,
> {
    builder.build_int_mul(lhs, rhs, "")
}

/// `Builder::build_int_unsigned_div`: the quotient of two integers read as
/// unsigned numbers.
#[verifier::external_body]
fn build_int_unsigned_div<'ctx>(
    builder: &Builder<'ctx>,
    lhs: IntValue<'ctx>,
    rhs: IntValue<'ctx>,
) -> IntValue<'ctx> {
    builder.build_int_unsigned_div(lhs, rhs, "")
}

/// `Builder::build_int_compare` for equality: a one-bit value that is set
/// where the two integers are equal.
#[verifier::external_body]
fn build_is_equal<'ctx>(builder: &Builder<'ctx>, lhs: IntValue<'ctx>, rhs: IntValue<'ctx>) -> IntValue<
    'ctx,
> {
    builder.build_int_compare(inkwell::IntPredicate::EQ, lhs, rhs, "")
}

/// `Builder::build_int_compare` for inequality: a one-bit value that is set
/// where the two integers differ.
#[verifier::external_body]
fn build_is_unequal<'ctx>(
    builder: &Builder<'ctx>,
    lhs: IntValue<'ctx>,
    rhs: IntValue<'ctx>,
) -> IntValue<'ctx> {
    builder.build_int_compare(inkwell::IntPredicate::NE, lhs, rhs, "")
}

/// `Builder::build_int_z_extend`: the integer widened to the type, with
/// zeros in the new bits.
#[verifier::external_body]
fn build_int_z_extend<'ctx>(builder: &Builder<'ctx>, value: IntValue<'ctx>, ty: IntType<'ctx>) -> IntValue<
    'ctx,
> {
    builder.build_int_z_extend(value, ty, "")
}

/// `Context::const_string`: the constant array of the bytes of the text
/// and a closing NUL byte.
#[verifier::external_body]
fn const_string<'ctx>(context: &'ctx Context, text: &str) -> ArrayValue<'ctx> {
    context.const_string(text.as_bytes(), true)
}

/// `ArrayValue::get_type`: the type of the array.
#[verifier::external_body]
fn array_type_of<'ctx>(value: ArrayValue<'ctx>) -> ArrayType<'ctx> {
    value.get_type()
}

/// `Module::add_global`: a new global variable of the type in the module,
/// in the default address space.
#[verifier::external_body]
fn add_global<'ctx>(module: &Module<'ctx>, ty: BasicTypeEnum<'ctx>) -> GlobalValue<'ctx> {
    module.add_global(ty, Some(inkwell::AddressSpace::default()), "")
}

/// `GlobalValue::set_linkage`: the global is made internal to the module.
#[verifier::external_body]
fn set_internal<'ctx>(global: GlobalValue<'ctx>) {
    global.set_linkage(inkwell::module::Linkage::Internal)
}

/// `GlobalValue::set_initializer`: the global starts out as the value.
#[verifier::external_body]
fn set_initializer<'ctx>(global: GlobalValue<'ctx>, value: BasicValueEnum<'ctx>) {
    global.set_initializer(&value)
}

/// `GlobalValue::as_pointer_value`: the address of the global.
#[verifier::external_body]
fn global_address<'ctx>(global: GlobalValue<'ctx>) -> PointerValue<'ctx> {
    global.as_pointer_value()
}

/// `Builder::build_pointer_cast`: the pointer, as a pointer of the type.
#[verifier::external_body]
fn build_pointer_cast<'ctx>(
    builder: &Builder<'ctx>,
    ptr: PointerValue<'ctx>,
    ty: PointerType<'ctx>,
) -> PointerValue<'ctx> {
    builder.build_pointer_cast(ptr, ty, "")
}

/// `Builder::build_call`: a call of the function with the arguments.
#[verifier::external_body]
fn build_call<'ctx>(
    builder: &Builder<'ctx>,
    function: FunctionValue<'ctx>,
    args: &Vec<BasicMetadataValueEnum<'ctx>>,
) {
    builder.build_call(function, args.as_slice(), "");
}

/// `Builder::build_unconditional_branch`: a jump to the block.
#[verifier::external_body]
fn build_jump<'ctx>(builder: &Builder<'ctx>, target: BasicBlock<'ctx>) {
    builder.build_unconditional_branch(target);
}

/// `Builder::build_conditional_branch`: a branch to the first block where
/// the one-bit condition is set, else to the second.
#[verifier::external_body]
fn build_branch<'ctx>(
    builder: &Builder<'ctx>,
    condition: IntValue<'ctx>,
    then_block: BasicBlock<'ctx>,
    else_block: BasicBlock<'ctx>,
) {
    builder.build_conditional_branch(condition, then_block, else_block);
}

/// `Builder::build_return`: a return of the value.
#[verifier::external_body]
fn build_return<'ctx>(builder: &Builder<'ctx>, value: IntValue<'ctx>) {
    builder.build_return(Some(&value));
}

/// `Module::print_to_string`: the module as LLVM assembly text.
#[verifier::external_body]
fn print_module<'ctx>(module: &Module<'ctx>) -> String {
    module.print_to_string().to_string()
}

/// The handles of one LLVM module under construction.
pub struct Llvmir<'ctx> {
    pub context: &'ctx Context,
    pub module: Module<'ctx>,
    pub builder: Builder<'ctx>,
}

impl<'ctx> Llvmir<'ctx> {
    /// A new module named `name` in `context`, with a builder for it. The
    /// context of the handles is the one given; the module and the builder
    /// are what LLVM makes in it.
    pub fn new(context: &'ctx Context, name: &str) -> (r: Llvmir<'ctx>)
        ensures
            r.context == context,
    {
        let module = new_module(context, name);
        let builder = new_builder(context);
        Llvmir { context, module, builder }
    }
}

/// What an instruction of the program left behind in the module.
#[derive(Clone, Copy)]
enum Built<'ctx> {
    Nothing,
    Int(IntValue<'ctx>),
    Ptr(PointerValue<'ctx>),
}

/// The sort of what was left behind.
spec fn built_sort(b: Built) -> Sort {
    match b {
        Built::Nothing => Sort::Nothing,
        Built::Int(_) => Sort::Int,
        Built::Ptr(_) => Sort::Address,
    }
}

/// The module under construction and what was built in it so far.
struct Emitter<'ctx> {
    ir: Llvmir<'ctx>,
    word: IntType<'ctx>,
    text: PointerType<'ctx>,
    puts: FunctionValue<'ctx>,
    putchar: FunctionValue<'ctx>,
    printf: FunctionValue<'ctx>,
    format: PointerValue<'ctx>,
    blocks: Vec<BasicBlock<'ctx>>,
    slots: Vec<PointerValue<'ctx>>,
    globals: Vec<PointerValue<'ctx>>,
    values: Vec<Built<'ctx>>,
}

/// Adds a global string constant with the given text to the module and
/// returns its address as a pointer to bytes.
fn global_string<'ctx>(ir: &Llvmir<'ctx>, text: &str, bytes: PointerType<'ctx>) -> PointerValue<'ctx> {
    let init: ArrayValue<'ctx> = const_string(ir.context, text);
    let global: GlobalValue<'ctx> = add_global(&ir.module, array_basic_type(array_type_of(init)));
    set_internal(global);
    set_initializer(global, array_basic_value(init));
    build_pointer_cast(&ir.builder, global_address(global), bytes)
}

/// What a load from a slot that holds an integer left behind, given what
/// LLVM says the loaded value is: that integer, or a refusal where it is
/// none.
fn loaded_int<'ctx>(value: Option<IntValue<'ctx>>) -> (r: Result<Built<'ctx>, CodegenError>)
    ensures
        match value {
            Some(v) => r == Ok::<Built, CodegenError>(Built::Int(v)),
            None => r == Err::<Built, CodegenError>(CodegenError::Backend),
        },
{
    match value {
        Some(v) => Ok(Built::Int(v)),
        None => Err(CodegenError::Backend),
    }
}

/// What a load from a slot that holds an address left behind, given what
/// LLVM says the loaded value is: that address, or a refusal where it is
/// none.
fn loaded_address<'ctx>(value: Option<PointerValue<'ctx>>) -> (r: Result<Built<'ctx>, CodegenError>)
    ensures
        match value {
            Some(v) => r == Ok::<Built, CodegenError>(Built::Ptr(v)),
            None => r == Err::<Built, CodegenError>(CodegenError::Backend),
        },
{
    match value {
        Some(v) => Ok(Built::Ptr(v)),
        None => Err(CodegenError::Backend),
    }
}

impl<'ctx> Emitter<'ctx> {
    /// Whether the emitter has built the first instructions of the program
    /// and holds for each what it left behind, of the sort that the
    /// instruction says.
    spec fn follows(&self, p: ProgramView) -> bool {
        &&& self.blocks@.len() == p.terms.len()
        &&& self.slots@.len() == p.slots.len()
        &&& self.globals@.len() == p.globals.len()
        &&& self.values@.len() <= p.code.len()
        &&& forall|j: int|
            0 <= j < self.values@.len() ==> built_sort(#[trigger] self.values@[j]) == p.sort_of(j)
    }

    /// Opens the module: declares the output primitives and the entry
    /// function with one block for each block of the program, and in the
    /// entry block, where the builder is put, one global for each string
    /// and storage for each slot.
    fn new(context: &'ctx Context, name: &str, program: &Program) -> (r: Emitter<'ctx>)
        requires
            program.terms@.len() >= 1,
        ensures
            r.follows(program@),
            r.values@.len() == 0,
    {
        let ir: Llvmir<'ctx> = Llvmir::new(context, name);
        let word: IntType<'ctx> = i32_type(context);
        let text: PointerType<'ctx> = ptr_type(i8_type(context));
        let mut text_param: Vec<BasicMetadataTypeEnum<'ctx>> = Vec::new();
        text_param.push(param_type(ptr_basic_type(text)));
        let mut word_param: Vec<BasicMetadataTypeEnum<'ctx>> = Vec::new();
        word_param.push(param_type(int_basic_type(word)));
        let no_param: Vec<BasicMetadataTypeEnum<'ctx>> = Vec::new();
        let puts: FunctionValue<'ctx> = add_external_function(
            &ir.module,
            "puts",
            fn_type(word, &text_param, true),
        );
        let putchar: FunctionValue<'ctx> = add_function(
            &ir.module,
            "putchar",
            fn_type(word, &word_param, false),
        );
        let printf: FunctionValue<'ctx> = add_external_function(
            &ir.module,
            "printf",
            fn_type(word, &text_param, true),
        );
        let main: FunctionValue<'ctx> = add_function(
            &ir.module,
            "main",
            fn_type(word, &no_param, false),
        );
        let mut blocks: Vec<BasicBlock<'ctx>> = Vec::new();
        let mut b: usize = 0;
        while b < program.terms.len()
            invariant
                b <= program.terms@.len(),
                blocks@.len() == b,
            decreases program.terms@.len() - b,
        {
            let block: BasicBlock<'ctx> = if b == 0 {
                append_block(context, main, "entry")
            } else {
                append_block(context, main, "")
            };
            blocks.push(block);
            b = b + 1;
        }
        position_at_end(&ir.builder, blocks[0]);
        let format: PointerValue<'ctx> = global_string(&ir, "%d\n", text);
        let mut globals: Vec<PointerValue<'ctx>> = Vec::new();
        let mut g: usize = 0;
        while g < program.globals.len()
            invariant
                g <= program.globals@.len(),
                globals@.len() == g,
            decreases program.globals@.len() - g,
        {
            globals.push(global_string(&ir, program.globals[g].as_str(), text));
            g = g + 1;
        }
        let mut slots: Vec<PointerValue<'ctx>> = Vec::new();
        let mut k: usize = 0;
        while k < program.slots.len()
            invariant
                k <= program.slots@.len(),
                slots@.len() == k,
            decreases program.slots@.len() - k,
        {
            let ty: BasicTypeEnum<'ctx> = match program.slots[k] {
                Cell::Word => int_basic_type(word),
                Cell::Pointer => ptr_basic_type(text),
            };
            slots.push(build_alloca(&ir.builder, ty));
            k = k + 1;
        }
        Emitter {
            ir,
            word,
            text,
            puts,
            putchar,
            printf,
            format,
            blocks,
            slots,
            globals,
            values: Vec::new(),
        }
    }

    /// The integer that an operand stands for, if it stands for one.
    fn int_operand(&self, program: &Program, operand: Operand) -> (r: Option<IntValue<'ctx>>)
        requires
            self.follows(program@),
        ensures
            r is Some <==> program@.is_int(operand, self.values@.len() as int),
    {
        match operand {
            Operand::Const(v) => {
                let bits: u32 = #[verifier::truncate] (v as u32);
                Some(const_int(self.word, bits as u64))
            },
            Operand::Reg(k) => {
                if k < self.values.len() {
                    match self.values[k] {
                        Built::Int(value) => Some(value),
                        _ => None,
                    }
                } else {
                    None
                }
            },
            Operand::Global(_) => None,
        }
    }

    /// The address that an operand stands for, if it stands for one.
    fn ptr_operand(&self, program: &Program, operand: Operand) -> (r: Option<PointerValue<'ctx>>)
        requires
            self.follows(program@),
        ensures
            r is Some <==> program@.is_address(operand, self.values@.len() as int),
    {
        match operand {
            Operand::Const(_) => None,
            Operand::Reg(k) => {
                if k < self.values.len() {
                    match self.values[k] {
                        Built::Ptr(value) => Some(value),
                        _ => None,
                    }
                } else {
                    None
                }
            },
            Operand::Global(g) => {
                if g < self.globals.len() {
                    Some(self.globals[g])
                } else {
                    None
                }
            },
        }
    }

    /// The value that an operand stands for, for a slot that holds `cell`.
    fn cell_operand(&self, program: &Program, cell: Cell, operand: Operand) -> (r: Option<
        BasicValueEnum<'ctx>,
    >)
        requires
            self.follows(program@),
        ensures
            r is Some <==> match cell {
                Cell::Word => program@.is_int(operand, self.values@.len() as int),
                Cell::Pointer => program@.is_address(operand, self.values@.len() as int),
            },
    {
        match cell {
            Cell::Word => match self.int_operand(program, operand) {
                Some(value) => Some(int_basic_value(value)),
                None => None,
            },
            Cell::Pointer => match self.ptr_operand(program, operand) {
                Some(value) => Some(ptr_basic_value(value)),
                None => None,
            },
        }
    }

    /// Builds the next instruction of the program at the builder's
    /// position and records what it left behind, behind what the earlier
    /// instructions left. An instruction whose slot or operands are not
    /// what it needs is refused with `Backend`, and nothing is recorded.
    /// Any other instruction is built, but for a load of which LLVM hands
    /// back a value of another sort than the slot holds: that is refused
    /// too.
    fn instruction(&mut self, program: &Program) -> (r: Result<(), CodegenError>)
        requires
            old(self).follows(program@),
            old(self).values@.len() < program.code@.len(),
        ensures
            r is Err ==> r == Err::<(), CodegenError>(CodegenError::Backend),
            !program@.instr_ok(old(self).values@.len() as int) ==> r is Err,
            !(program@.code[old(self).values@.len() as int] is Load) && program@.instr_ok(
                old(self).values@.len() as int,
            ) ==> r is Ok,
            r is Ok ==> final(self).follows(program@) && final(self).values@.len() == old(
                self,
            ).values@.len() + 1 && final(self).values@.drop_last() == old(self).values@
                && built_sort(final(self).values@.last()) == program@.sort_of(
                old(self).values@.len() as int,
            ),
            r is Err ==> final(self).values@ == old(self).values@,
            final(self).blocks@ == old(self).blocks@,
            final(self).slots@ == old(self).slots@,
            final(self).globals@ == old(self).globals@,
    {
        let k: usize = self.values.len();
        let built: Built<'ctx> = match program.code[k] {
            Instr::Store { slot, value } => {
                if slot >= self.slots.len() {
                    return Err(CodegenError::Backend);
                }
                match self.cell_operand(program, program.slots[slot], value) {
                    None => {
                        return Err(CodegenError::Backend);
                    },
                    Some(stored) => {
                        build_store(&self.ir.builder, self.slots[slot], stored);
                        Built::Nothing
                    },
                }
            },
            Instr::Load { slot } => {
                if slot >= self.slots.len() {
                    return Err(CodegenError::Backend);
                }
                let loaded: BasicValueEnum<'ctx> = build_load(&self.ir.builder, self.slots[slot]);
                let outcome: Result<Built<'ctx>, CodegenError> = match program.slots[slot] {
                    Cell::Word => loaded_int(as_int_value(loaded)),
                    Cell::Pointer => loaded_address(as_ptr_value(loaded)),
                };
                match outcome {
                    Ok(built) => built,
                    Err(err) => {
                        return Err(err);
                    },
                }
            },
            Instr::Arith { op, lhs, rhs } => {
                match (self.int_operand(program, lhs), self.int_operand(program, rhs)) {
                    (Some(a), Some(b)) => Built::Int(
                        match op {
                            BinOp::Add => build_int_add(&self.ir.builder, a, b),
                            BinOp::Sub => build_int_sub(&self.ir.builder, a, b),
                            BinOp::Mul => build_int_mul(&self.ir.builder, a, b),
                            BinOp::UDiv => build_int_unsigned_div(&self.ir.builder, a, b),
                        },
                    ),
                    _ => {
                        return Err(CodegenError::Backend);
                    },
                }
            },
            Instr::Test { lhs, rhs } => {
                match (self.int_operand(program, lhs), self.int_operand(program, rhs)) {
                    (Some(a), Some(b)) => {
                        let bit: IntValue<'ctx> = build_is_equal(&self.ir.builder, a, b);
                        Built::Int(build_int_z_extend(&self.ir.builder, bit, self.word))
                    },
                    _ => {
                        return Err(CodegenError::Backend);
                    },
                }
            },
            Instr::Call { callee, arg } => {
                let mut args: Vec<BasicMetadataValueEnum<'ctx>> = Vec::new();
                match callee {
                    Builtin::Puts => match self.ptr_operand(program, arg) {
                        None => {
                            return Err(CodegenError::Backend);
                        },
                        Some(address) => {
                            args.push(argument(ptr_basic_value(address)));
                            build_call(&self.ir.builder, self.puts, &args);
                        },
                    },
                    Builtin::Putchar => match self.int_operand(program, arg) {
                        None => {
                            return Err(CodegenError::Backend);
                        },
                        Some(code) => {
                            args.push(argument(int_basic_value(code)));
                            build_call(&self.ir.builder, self.putchar, &args);
                        },
                    },
                    Builtin::Printf => match self.int_operand(program, arg) {
                        None => {
                            return Err(CodegenError::Backend);
                        },
                        Some(number) => {
                            args.push(argument(ptr_basic_value(self.format)));
                            args.push(argument(int_basic_value(number)));
                            build_call(&self.ir.builder, self.printf, &args);
                        },
                    },
                }
                Built::Nothing
            },
        };
        self.values.push(built);
        Ok(())
    }

    /// Builds the end of block `b` at the builder's position, behind the
    /// last instruction of the block. The end is built exactly where it is
    /// in order; a block whose end is not decided, leads out of the program
    /// or branches on what is no integer is refused with `Backend`.
    fn terminator(&self, program: &Program, b: usize) -> (r: Result<(), CodegenError>)
        requires
            self.follows(program@),
            b < program.terms@.len(),
            self.values@.len() == program@.block_end(b as int),
        ensures
            r is Ok <==> program@.term_ok(b as int),
            r is Err ==> r == Err::<(), CodegenError>(CodegenError::Backend),
    {
        match program.terms[b] {
            Term::Open => Err(CodegenError::Backend),
            Term::Ret => {
                build_return(&self.ir.builder, const_int(self.word, 0));
                Ok(())
            },
            Term::Jump(target) => {
                if target >= self.blocks.len() {
                    return Err(CodegenError::Backend);
                }
                build_jump(&self.ir.builder, self.blocks[target]);
                Ok(())
            },
            Term::Branch(cond, then_block, else_block) => {
                if then_block >= self.blocks.len() || else_block >= self.blocks.len() {
                    return Err(CodegenError::Backend);
                }
                match self.int_operand(program, cond) {
                    None => Err(CodegenError::Backend),
                    Some(value) => {
                        let bit: IntValue<'ctx> = build_is_unequal(
                            &self.ir.builder,
                            value,
                            const_int(self.word, 0),
                        );
                        build_branch(
                            &self.ir.builder,
                            bit,
                            self.blocks[then_block],
                            self.blocks[else_block],
                        );
                        Ok(())
                    },
                }
            },
        }
    }
}

/// Writes a program in intermediate form as the text of an LLVM module
/// named `name`. The module declares `puts`, `putchar` and `printf` and
/// defines `main`, which returns an integer. Only a complete program is
/// written; any other is refused with `Backend`. A complete program that
/// loads nothing is always written. One that loads is written unless LLVM
/// hands back, for a load, a value of another sort than the slot holds.
pub fn emit(program: &Program, name: &str) -> (r: Result<String, CodegenError>)
    ensures
        r is Err ==> r == Err::<String, CodegenError>(CodegenError::Backend),
        r is Ok ==> program@.complete(),
        program@.complete() && (forall|k: int|
            0 <= k < program@.code.len() ==> !(#[trigger] program@.code[k] is Load)) ==> r is Ok,
{
    let ghost owed: bool = program@.complete() && (forall|k: int|
        0 <= k < program@.code.len() ==> !(#[trigger] program@.code[k] is Load));
    let blocks: usize = program.terms.len();
    if blocks == 0 || program.starts.len() != blocks || program.starts[0] != 0 {
        return Err(CodegenError::Backend);
    }
    let context: Context = new_context();
    let mut emitter: Emitter = Emitter::new(&context, name, program);
    let mut b: usize = 0;
    while b < blocks
        invariant
            b <= blocks,
            blocks == program.terms@.len(),
            blocks == program.starts@.len(),
            program@.starts[0] == 0,
            emitter.follows(program@),
            emitter.values@.len() == (if b < blocks {
                program@.starts[b as int] as int
            } else {
                program@.code.len() as int
            }),
            forall|k: int| 0 <= k < emitter.values@.len() ==> #[trigger] program@.instr_ok(k),
            forall|x: int|
                0 <= x < b ==> (#[trigger] program@.starts[x]) as int <= program@.block_end(x)
                    <= program@.code.len(),
            forall|x: int| 0 <= x < b ==> #[trigger] program@.term_ok(x),
            owed ==> program@.complete(),
            owed ==> forall|k: int|
                0 <= k < program@.code.len() ==> !(#[trigger] program@.code[k] is Load),
        decreases blocks - b,
    {
        let end: usize = if b + 1 < blocks {
            program.starts[b + 1]
        } else {
            program.code.len()
        };
        if end < program.starts[b] || end > program.code.len() {
            assert(!(program@.starts[b as int] as int <= program@.block_end(b as int)
                <= program@.code.len()));
            return Err(CodegenError::Backend);
        }
        position_at_end(&emitter.ir.builder, emitter.blocks[b]);
        while emitter.values.len() < end
            invariant
                end <= program.code@.len(),
                emitter.values@.len() <= end,
                emitter.follows(program@),
                forall|k: int| 0 <= k < emitter.values@.len() ==> #[trigger] program@.instr_ok(k),
                owed ==> program@.complete(),
                owed ==> forall|k: int|
                    0 <= k < program@.code.len() ==> !(#[trigger] program@.code[k] is Load),
            decreases end - emitter.values@.len(),
        {
            proof {
                let k = emitter.values@.len() as int;
                if owed {
                    assert(program@.instr_ok(k));
                    assert(!(program@.code[k] is Load));
                }
            }
            match emitter.instruction(program) {
                Err(err) => {
                    return Err(CodegenError::Backend);
                },
                Ok(()) => {},
            }
        }
        proof {
            if owed {
                assert(program@.term_ok(b as int));
            }
        }
        match emitter.terminator(program, b) {
            Err(err) => {
                return Err(CodegenError::Backend);
            },
            Ok(()) => {},
        }
        b = b + 1;
    }
    Ok(print_module(&emitter.ir.module))
}

/// Compiles a program: lowers it to its intermediate form and writes that
/// as the text of an LLVM module named `main`. A program that cannot be
/// lowered is refused with the error of the code generator. A program that
/// can is complete, and it is written: always where it loads no variable,
/// as every program does that reads none, and else unless LLVM hands back,
/// for a load, a value of another sort than the slot holds, which is
/// refused with `Backend`.
pub fn generate(ast: &Vec<Expr>) -> (r: Result<String, CodegenError>)
    ensures
        match lower_spec(nodes_of(ast@)) {
            Err(err) => r == Err::<String, CodegenError>(err),
            Ok(p) => r is Ok || r == Err::<String, CodegenError>(CodegenError::Backend),
        },
        lower_spec(nodes_of(ast@)) matches Ok(p) && (forall|k: int|
            0 <= k < p.code.len() ==> !(#[trigger] p.code[k] is Load)) ==> r is Ok,
        lower_spec(nodes_of(ast@)) is Ok && read_nothing(nodes_of(ast@)) ==> r is Ok,
{
    proof {
        if lower_spec(nodes_of(ast@)) is Ok && read_nothing(nodes_of(ast@)) {
            lemma_lowered_program_loads_nothing(nodes_of(ast@));
        }
    }
    match lower(ast) {
        Err(err) => Err(err),
        Ok(program) => emit(&program, "main"),
    }
}

} // verus!
