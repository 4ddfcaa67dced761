//! The SSA form: instructions, blocks with arguments, and functions made of them.

use crate::back::slice::{ref_slice, ref_slice_mut};
use crate::binary64::Real;
use crate::symbol::Symbol;
use vstd::prelude::*;

verus! {

/// The name of a basic block: its index in the function.
#[derive(Clone, Copy, Debug, PartialEq, Eq, Hash, Structural)]
pub struct Block(pub u32);

/// The name of an instruction and of the value it defines: its index in the function.
#[derive(Clone, Copy, Debug, PartialEq, Eq, Hash, Structural)]
pub struct Value(pub u32);

/// The index of the entry block.
pub const ENTRY: u32 = 0;

/// The index of the exit block.
pub const EXIT: u32 = 1;

impl Block {
    /// The entry block.
    pub fn entry() -> (block: Block)
        ensures
            block == Block(ENTRY),
    {
        Block(ENTRY)
    }

    /// The exit block.
    pub fn exit() -> (block: Block)
        ensures
            block == Block(EXIT),
    {
        Block(EXIT)
    }
}

/// A constant operand.
#[derive(Clone, Copy, Debug, PartialEq, Eq, Structural)]
pub enum Constant {
    Real(Real),
    String(Symbol),
}

/// The operations on one value.
#[derive(Clone, Copy, Debug, PartialEq, Eq, Structural)]
pub enum Unary {
    Negate,
    Invert,
    BitInvert,
    With,
    Next,
    ToArray,
    ToScalar,
}

/// The operations on two values.
#[derive(Clone, Copy, Debug, PartialEq, Eq, Structural)]
pub enum Binary {
    Lt,
    Le,
    Eq,
    Ne,
    Ge,
    Gt,
    Add,
    Subtract,
    Multiply,
    Divide,
    Div,
    Mod,
    And,
    Or,
    Xor,
    BitAnd,
    BitOr,
    BitXor,
    ShiftLeft,
    ShiftRight,
    LoadRow,
    LoadIndex,
    StoreRow,
}

/// An instruction.
///
/// The values that an instruction uses stand together in one field, so that they can be
/// handed out as one slice.
#[derive(Debug, PartialEq)]
#[allow(inconsistent_fields)]
pub enum Inst {
    /// Stands for a value that is not defined.
    Undef,
    /// Stands for a value that another value has replaced. It is in no block, and is gone
    /// before code is generated.
    Alias(Value),
    Immediate { value: Constant },
    Unary { op: Unary, arg: Value },
    Binary { op: Binary, args: [Value; 2] },
    /// Stands for an argument of a block.
    Argument,
    DeclareGlobal { symbol: Symbol },
    Lookup { symbol: Symbol },
    /// Marks a value as read; reading `Undef` is an error.
    Read { symbol: Symbol, arg: Value },
    /// `args` holds the value and the array.
    Write { args: [Value; 2] },
    LoadField { scope: Value, field: Symbol },
    LoadFieldDefault { scope: Value, field: Symbol },
    LoadFieldArray { scope: Value, field: Symbol },
    /// `args` holds the value and the scope.
    StoreField { args: [Value; 2], field: Symbol },
    /// `args` holds the value, the row and the column.
    StoreIndex { args: [Value; 3] },
    Release { arg: Value },
    Call { symbol: Symbol, args: Vec<Value>, parameters: Vec<Value> },
    Return { arg: Value },
    Jump { target: Block, args: Vec<Value> },
    /// `args` holds the condition, then `arg_lens[0]` arguments of the first target, then
    /// `arg_lens[1]` arguments of the second.
    Branch { targets: [Block; 2], arg_lens: [usize; 2], args: Vec<Value> },
}

impl Inst {
    /// The values that the instruction uses, in their order.
    pub open spec fn spec_arguments(&self) -> Seq<Value> {
        match self {
            Inst::Unary { arg, .. } => seq![*arg],
            Inst::Binary { args, .. } => args@,
            Inst::Read { arg, .. } => seq![*arg],
            Inst::Write { args } => args@,
            Inst::LoadField { scope, .. } => seq![*scope],
            Inst::LoadFieldDefault { scope, .. } => seq![*scope],
            Inst::LoadFieldArray { scope, .. } => seq![*scope],
            Inst::StoreField { args, .. } => args@,
            Inst::StoreIndex { args } => args@,
            Inst::Release { arg } => seq![*arg],
            Inst::Call { args, .. } => args@,
            Inst::Return { arg } => seq![*arg],
            Inst::Jump { args, .. } => args@,
            Inst::Branch { args, .. } => args@,
            Inst::Undef | Inst::Alias(_) | Inst::Immediate { .. } | Inst::Argument
            | Inst::DeclareGlobal { .. } | Inst::Lookup { .. } => Seq::empty(),
        }
    }

    /// Whether the instruction defines a value that others can use.
    pub open spec fn defines(&self) -> bool {
        self is Immediate || self is Unary || self is Binary || self is Argument || self is Lookup
            || self is Write || self is LoadField || self is LoadFieldDefault
            || self is LoadFieldArray || self is Call
    }

    /// Whether the instruction ends a block.
    pub open spec fn terminates(&self) -> bool {
        self is Jump || self is Branch || self is Return
    }

    /// The blocks that control goes to after the instruction, where it ends a block.
    pub open spec fn targets(&self) -> Seq<Block> {
        match self {
            Inst::Jump { target, .. } => seq![*target],
            Inst::Branch { targets, .. } => targets@,
            _ => Seq::empty(),
        }
    }

    /// Whether two instructions differ in nothing but the values they use.
    pub open spec fn same_operation(&self, other: &Inst) -> bool {
        match (self, other) {
            (Inst::Undef, Inst::Undef) => true,
            (Inst::Alias(a), Inst::Alias(b)) => a == b,
            (Inst::Immediate { value: a }, Inst::Immediate { value: b }) => a == b,
            (Inst::Unary { op: a, .. }, Inst::Unary { op: b, .. }) => a == b,
            (Inst::Binary { op: a, .. }, Inst::Binary { op: b, .. }) => a == b,
            (Inst::Argument, Inst::Argument) => true,
            (Inst::DeclareGlobal { symbol: a }, Inst::DeclareGlobal { symbol: b }) => a == b,
            (Inst::Lookup { symbol: a }, Inst::Lookup { symbol: b }) => a == b,
            (Inst::Read { symbol: a, .. }, Inst::Read { symbol: b, .. }) => a == b,
            (Inst::Write { .. }, Inst::Write { .. }) => true,
            (Inst::LoadField { field: a, .. }, Inst::LoadField { field: b, .. }) => a == b,
            (Inst::LoadFieldDefault { field: a, .. }, Inst::LoadFieldDefault { field: b, .. }) => a
                == b,
            (Inst::LoadFieldArray { field: a, .. }, Inst::LoadFieldArray { field: b, .. }) => a
                == b,
            (Inst::StoreField { field: a, .. }, Inst::StoreField { field: b, .. }) => a == b,
            (Inst::StoreIndex { .. }, Inst::StoreIndex { .. }) => true,
            (Inst::Release { .. }, Inst::Release { .. }) => true,
            (
                Inst::Call { symbol: a, parameters: p, .. },
                Inst::Call { symbol: b, parameters: q, .. },
            ) => a == b && p == q,
            (Inst::Return { .. }, Inst::Return { .. }) => true,
            (Inst::Jump { target: a, .. }, Inst::Jump { target: b, .. }) => a == b,
            (
                Inst::Branch { targets: a, arg_lens: m, .. },
                Inst::Branch { targets: b, arg_lens: n, .. },
            ) => a == b && m == n,
            _ => false,
        }
    }

    /// The values that the instruction uses, in their order, to be replaced in place. The
    /// instruction stays what it is but for these.
    pub fn arguments_mut(&mut self) -> (uses: &mut [Value])
        ensures
            uses@ == old(self).spec_arguments(),
            final(uses)@ == final(self).spec_arguments(),
            old(self).same_operation(final(self)),
    {
        match self {
            Inst::Unary { arg, .. } => ref_slice_mut(arg),
            Inst::Binary { args, .. } => args,
            Inst::Read { arg, .. } => ref_slice_mut(arg),
            Inst::Write { args } => args,
            Inst::LoadField { scope, .. } => ref_slice_mut(scope),
            Inst::LoadFieldDefault { scope, .. } => ref_slice_mut(scope),
            Inst::LoadFieldArray { scope, .. } => ref_slice_mut(scope),
            Inst::StoreField { args, .. } => args,
            Inst::StoreIndex { args } => args,
            Inst::Release { arg } => ref_slice_mut(arg),
            Inst::Call { args, .. } => args.as_mut_slice(),
            Inst::Return { arg } => ref_slice_mut(arg),
            Inst::Jump { args, .. } => args.as_mut_slice(),
            Inst::Branch { args, .. } => args.as_mut_slice(),
            Inst::Undef | Inst::Alias(_) | Inst::Immediate { .. } | Inst::Argument
            | Inst::DeclareGlobal { .. } | Inst::Lookup { .. } => {
                let none: &mut [Value] = &mut [];
                none
            },
        }
    }

    /// The values that the instruction uses, in their order.
    pub fn arguments(&self) -> (uses: &[Value])
        ensures
            uses@ == self.spec_arguments(),
    {
        match self {
            Inst::Unary { arg, .. } => ref_slice(arg),
            Inst::Binary { args, .. } => args.as_slice(),
            Inst::Read { arg, .. } => ref_slice(arg),
            Inst::Write { args } => args.as_slice(),
            Inst::LoadField { scope, .. } => ref_slice(scope),
            Inst::LoadFieldDefault { scope, .. } => ref_slice(scope),
            Inst::LoadFieldArray { scope, .. } => ref_slice(scope),
            Inst::StoreField { args, .. } => args.as_slice(),
            Inst::StoreIndex { args } => args.as_slice(),
            Inst::Release { arg } => ref_slice(arg),
            Inst::Call { args, .. } => args.as_slice(),
            Inst::Return { arg } => ref_slice(arg),
            Inst::Jump { args, .. } => args.as_slice(),
            Inst::Branch { args, .. } => args.as_slice(),
            Inst::Undef | Inst::Alias(_) | Inst::Immediate { .. } | Inst::Argument
            | Inst::DeclareGlobal { .. } | Inst::Lookup { .. } => {
                let none: &[Value] = &[];
                none
            },
        }
    }
}

/// The body of a basic block: the values that stand for its arguments, and its instructions.
#[derive(Debug, PartialEq)]
pub struct BlockBody {
    pub arguments: Vec<Value>,
    pub instructions: Vec<Value>,
}

/// A function in SSA form: blocks, the instructions they are made of, and the value that
/// collects what the function returns.
pub struct Function {
    pub blocks: Vec<BlockBody>,
    pub values: Vec<Inst>,
    pub return_def: Value,
}

impl Function {
    /// Whether the function names a block.
    pub open spec fn has_block(&self, block: Block) -> bool {
        block.0 < self.blocks@.len()
    }

    /// Whether the function names a value.
    pub open spec fn has_value(&self, value: Value) -> bool {
        value.0 < self.values@.len()
    }

    /// The instructions of a block.
    pub open spec fn instructions(&self, block: Block) -> Seq<Value> {
        self.blocks@[block.0 as int].instructions@
    }

    /// The arguments of a block.
    pub open spec fn arguments(&self, block: Block) -> Seq<Value> {
        self.blocks@[block.0 as int].arguments@
    }

    /// The instruction that a value names.
    pub open spec fn inst(&self, value: Value) -> Inst {
        self.values@[value.0 as int]
    }

    /// Whether every name in the block, of an argument or of an instruction, is one of the
    /// function.
    pub open spec fn block_wf(&self, block: int) -> bool {
        &&& forall|i: int|
            0 <= i < self.blocks@[block].instructions@.len() ==> self.has_value(
                #[trigger] self.blocks@[block].instructions@[i],
            )
        &&& forall|i: int|
            0 <= i < self.blocks@[block].arguments@.len() ==> self.has_value(
                #[trigger] self.blocks@[block].arguments@[i],
            )
    }

    /// Whether every index fits a name, and every name in a block is one of the function.
    pub open spec fn wf(&self) -> bool {
        &&& self.blocks@.len() <= u32::MAX
        &&& self.values@.len() <= u32::MAX
        &&& self.has_value(self.return_def)
        &&& forall|block: int| 0 <= block < self.blocks@.len() ==> #[trigger] self.block_wf(block)
    }

    /// Whether the instruction names values and blocks of the function only, and, where it is
    /// a branch, holds as many arguments as it says: the condition and those of either target.
    pub open spec fn inst_wf(&self, value: int) -> bool {
        let inst = self.values@[value];
        &&& forall|i: int|
            0 <= i < inst.spec_arguments().len() ==> self.has_value(
                #[trigger] inst.spec_arguments()[i],
            )
        &&& forall|i: int|
            0 <= i < inst.targets().len() ==> self.has_block(#[trigger] inst.targets()[i])
        &&& inst matches Inst::Alias(replaced) ==> self.has_value(replaced)
        &&& inst matches Inst::Call { parameters, .. } ==> forall|i: int|
            0 <= i < parameters@.len() ==> self.has_value(#[trigger] parameters@[i])
        &&& inst matches Inst::Branch { arg_lens, args, .. } ==> 1 + arg_lens@[0] + arg_lens@[1]
            == args@.len()
    }

    /// Whether every instruction names values and blocks of the function only.
    pub open spec fn linked(&self) -> bool {
        forall|value: int| 0 <= value < self.values@.len() ==> #[trigger] self.inst_wf(value)
    }

    /// Whether the block ends in a terminator and holds no other.
    pub open spec fn terminated(&self, block: int) -> bool {
        let instructions = self.blocks@[block].instructions@;
        &&& instructions.len() > 0
        &&& forall|i: int|
            0 <= i < instructions.len() ==> (self.inst(#[trigger] instructions[i]).terminates()
                <==> i == instructions.len() - 1)
    }

    /// Whether the block holds no value that is undefined or replaced.
    pub open spec fn settled(&self, block: int) -> bool {
        let instructions = self.blocks@[block].instructions@;
        forall|i: int|
            0 <= i < instructions.len() ==> !(self.inst(#[trigger] instructions[i]) is Undef)
                && !(self.inst(instructions[i]) is Alias)
    }

    /// Whether the block is as it stays: it ends in its one terminator, and holds no value
    /// that is undefined or replaced.
    pub open spec fn block_final(&self, block: int) -> bool {
        self.terminated(block) && self.settled(block)
    }

    /// Whether construction is over: every name is one of the function, every block ends in
    /// its one terminator, and no block holds a value that is undefined or replaced.
    pub open spec fn finalized(&self) -> bool {
        &&& self.wf()
        &&& self.linked()
        &&& forall|block: int|
            0 <= block < self.blocks@.len() ==> #[trigger] self.block_final(block)
    }

    /// Whether every name in the list is one of the function.
    fn names_known(&self, names: &[Value]) -> (known: bool)
        ensures
            known == forall|i: int| 0 <= i < names@.len() ==> self.has_value(#[trigger] names@[i]),
    {
        let mut i: usize = 0;
        while i < names.len()
            invariant
                i <= names@.len(),
                forall|j: int| 0 <= j < i ==> self.has_value(#[trigger] names@[j]),
            decreases names@.len() - i,
        {
            if names[i].0 as usize >= self.values.len() {
                return false;
            }
            i += 1;
        }
        true
    }

    /// Whether every index fits a name, and every name in a block is one of the function.
    pub fn is_wf(&self) -> (wf: bool)
        ensures
            wf == self.wf(),
    {
        if self.blocks.len() > 0xffff_ffff || self.values.len() > 0xffff_ffff
            || self.return_def.0 as usize >= self.values.len() {
            return false;
        }
        let mut block: usize = 0;
        while block < self.blocks.len()
            invariant
                block <= self.blocks@.len(),
                forall|b: int| 0 <= b < block ==> #[trigger] self.block_wf(b),
            decreases self.blocks@.len() - block,
        {
            if !self.names_known(self.blocks[block].instructions.as_slice())
                || !self.names_known(self.blocks[block].arguments.as_slice()) {
                assert(!self.block_wf(block as int));
                return false;
            }
            assert(self.block_wf(block as int));
            block += 1;
        }
        true
    }

    /// Whether every block in the list is one of the function.
    fn blocks_known(&self, blocks: &[Block]) -> (known: bool)
        ensures
            known == forall|i: int|
                0 <= i < blocks@.len() ==> self.has_block(#[trigger] blocks@[i]),
    {
        let mut i: usize = 0;
        while i < blocks.len()
            invariant
                i <= blocks@.len(),
                forall|j: int| 0 <= j < i ==> self.has_block(#[trigger] blocks@[j]),
            decreases blocks@.len() - i,
        {
            if blocks[i].0 as usize >= self.blocks.len() {
                return false;
            }
            i += 1;
        }
        true
    }

    /// Whether the instruction names values and blocks of the function only, and, where it is
    /// a branch, holds as many arguments as it says.
    fn is_inst_wf(&self, value: usize) -> (wf: bool)
        requires
            value < self.values@.len(),
        ensures
            wf == self.inst_wf(value as int),
    {
        let inst = &self.values[value];
        if !self.names_known(inst.arguments()) {
            return false;
        }
        match inst {
            Inst::Alias(replaced) => (replaced.0 as usize) < self.values.len(),
            Inst::Call { parameters, .. } => self.names_known(parameters.as_slice()),
            Inst::Jump { target, .. } => {
                assert(inst.targets()[0] == *target);
                (target.0 as usize) < self.blocks.len()
            },
            Inst::Branch { targets, arg_lens, args } => {
                let len = args.len();
                let counted = match arg_lens[0].checked_add(arg_lens[1]) {
                    Some(sum) => match sum.checked_add(1) {
                        Some(all) => all == len,
                        None => false,
                    },
                    None => false,
                };
                self.blocks_known(targets.as_slice()) && counted
            },
            _ => true,
        }
    }

    /// Whether every instruction names values and blocks of the function only.
    pub fn is_linked(&self) -> (linked: bool)
        ensures
            linked == self.linked(),
    {
        let mut value: usize = 0;
        while value < self.values.len()
            invariant
                value <= self.values@.len(),
                forall|v: int| 0 <= v < value ==> #[trigger] self.inst_wf(v),
            decreases self.values@.len() - value,
        {
            if !self.is_inst_wf(value) {
                return false;
            }
            value += 1;
        }
        true
    }

    /// Whether construction is over: the function is well formed, every block ends in its
    /// one terminator, and no block holds a value that is undefined or replaced.
    pub fn is_finalized(&self) -> (finalized: bool)
        ensures
            finalized == self.finalized(),
    {
        if !self.is_wf() || !self.is_linked() {
            return false;
        }
        let mut block: usize = 0;
        while block < self.blocks.len()
            invariant
                self.wf(),
                self.linked(),
                block <= self.blocks@.len(),
                forall|b: int| 0 <= b < block ==> #[trigger] self.block_final(b),
            decreases self.blocks@.len() - block,
        {
            let instructions = &self.blocks[block].instructions;
            let len = instructions.len();
            assert(self.block_wf(block as int));
            if len == 0 {
                assert(!self.block_final(block as int));
                return false;
            }
            let mut i: usize = 0;
            while i < len
                invariant
                    self.wf(),
                    block < self.blocks@.len(),
                    instructions@ == self.blocks@[block as int].instructions@,
                    len == instructions@.len(),
                    self.block_wf(block as int),
                    i <= len,
                    forall|j: int|
                        0 <= j < i ==> (self.inst(#[trigger] instructions@[j]).terminates() <==> j
                            == len - 1),
                    forall|j: int|
                        0 <= j < i ==> !(self.inst(#[trigger] instructions@[j]) is Undef) && !(
                        self.inst(instructions@[j]) is Alias),
                decreases len - i,
            {
                let value = instructions[i];
                assert(self.has_value(instructions@[i as int]));
                let ends = match &self.values[value.0 as usize] {
                    Inst::Jump { .. } | Inst::Branch { .. } | Inst::Return { .. } => true,
                    _ => false,
                };
                let placeholder = match &self.values[value.0 as usize] {
                    Inst::Undef | Inst::Alias(_) => true,
                    _ => false,
                };
                if placeholder {
                    assert(!self.block_final(block as int));
                    return false;
                }
                if ends != (i == len - 1) {
                    assert(!self.block_final(block as int));
                    return false;
                }
                i += 1;
            }
            assert(self.block_final(block as int));
            block += 1;
        }
        true
    }

    /// Once construction is over, every block has a terminator to ask the successors of.
    pub proof fn lemma_finalized_block(&self, block: Block)
        requires
            self.finalized(),
            self.has_block(block),
        ensures
            self.instructions(block).len() > 0,
            self.has_value(self.instructions(block).last()),
            self.inst(self.instructions(block).last()).terminates(),
            !(self.inst(self.instructions(block).last()) is Undef),
    {
        assert(self.block_final(block.0 as int));
        assert(self.block_wf(block.0 as int));
        let instructions = self.instructions(block);
        assert(self.has_value(instructions[instructions.len() - 1]));
    }

    /// A function with an entry block and an exit block, both empty, and an undefined value to
    /// collect what is returned.
    pub fn new() -> (function: Function)
        ensures
            function.wf(),
            function.values@ == seq![Inst::Undef],
            function.return_def == Value(0),
            function.blocks@.len() == 2,
            function.blocks@[ENTRY as int].arguments@.len() == 0,
            function.blocks@[ENTRY as int].instructions@.len() == 0,
            function.blocks@[EXIT as int].arguments@.len() == 0,
            function.blocks@[EXIT as int].instructions@.len() == 0,
    {
        let mut values: Vec<Inst> = Vec::new();
        values.push(Inst::Undef);
        let mut function = Function { blocks: Vec::new(), values, return_def: Value(0) };
        function.make_block();
        function.make_block();
        function
    }

    /// The last instruction of a block.
    pub fn terminator(&self, block: Block) -> (value: Value)
        requires
            self.has_block(block),
            self.instructions(block).len() > 0,
        ensures
            value == self.instructions(block).last(),
    {
        let instructions = &self.blocks[block.0 as usize].instructions;
        instructions[instructions.len() - 1]
    }

    /// The blocks that control goes to from the end of a block: one after a jump, two after a
    /// branch, none after a return.
    pub fn successors(&self, block: Block) -> (targets: &[Block])
        requires
            self.has_block(block),
            self.instructions(block).len() > 0,
            self.has_value(self.instructions(block).last()),
            self.inst(self.instructions(block).last()).terminates(),
        ensures
            targets@ == self.inst(self.instructions(block).last()).targets(),
    {
        let value = self.terminator(block);
        match &self.values[value.0 as usize] {
            Inst::Jump { target, .. } => ref_slice(target),
            Inst::Branch { targets, .. } => targets.as_slice(),
            _ => {
                let none: &[Block] = &[];
                none
            },
        }
    }

    /// The value that an instruction defines: itself, where it defines one.
    pub fn defs(&self, value: Value) -> (defined: Option<Value>)
        requires
            self.has_value(value),
        ensures
            defined == if self.inst(value).defines() {
                Some(value)
            } else {
                None
            },
    {
        match &self.values[value.0 as usize] {
            Inst::Immediate { .. } | Inst::Unary { .. } | Inst::Binary { .. } | Inst::Argument
            | Inst::Lookup { .. } | Inst::Write { .. } | Inst::LoadField { .. }
            | Inst::LoadFieldDefault { .. } | Inst::LoadFieldArray { .. }
            | Inst::Call { .. } => Some(value),
            Inst::Undef | Inst::Alias(_) | Inst::DeclareGlobal { .. } | Inst::Release { .. }
            | Inst::Read { .. } | Inst::StoreField { .. } | Inst::StoreIndex { .. }
            | Inst::Return { .. } | Inst::Jump { .. } | Inst::Branch { .. } => None,
        }
    }

    /// The values that an instruction defines for its own use: the parameters of a call.
    pub fn internal_defs(&self, value: Value) -> (defined: &[Value])
        requires
            self.has_value(value),
        ensures
            defined@ == match self.inst(value) {
                Inst::Call { parameters, .. } => parameters@,
                _ => Seq::empty(),
            },
    {
        match &self.values[value.0 as usize] {
            Inst::Call { parameters, .. } => parameters.as_slice(),
            _ => {
                let none: &[Value] = &[];
                none
            },
        }
    }

    /// The values that an instruction uses.
    pub fn uses(&self, value: Value) -> (used: &[Value])
        requires
            self.has_value(value),
        ensures
            used@ == self.inst(value).spec_arguments(),
    {
        self.values[value.0 as usize].arguments()
    }

    /// Adds an instruction at the end of a block, and gives the value that names it.
    pub fn emit_instruction(&mut self, block: Block, inst: Inst) -> (value: Value)
        requires
            old(self).has_block(block),
            old(self).values@.len() < u32::MAX,
        ensures
            value.0 == old(self).values@.len(),
            final(self).values@ == old(self).values@.push(inst),
            final(self).return_def == old(self).return_def,
            final(self).blocks@.len() == old(self).blocks@.len(),
            final(self).blocks@[block.0 as int].instructions@ == old(self).instructions(block).push(
                value,
            ),
            final(self).blocks@[block.0 as int].arguments@ == old(self).arguments(block),
            forall|b: int|
                0 <= b < old(self).blocks@.len() && b != block.0 ==> final(self).blocks@[b] == old(
                    self,
                ).blocks@[b],
            old(self).wf() ==> final(self).wf(),
    {
        let value = Value(self.values.len() as u32);
        self.values.push(inst);
        self.blocks[block.0 as usize].instructions.push(value);
        proof {
            if old(self).wf() {
                assert forall|b: int| 0 <= b < self.blocks@.len() implies #[trigger] self.block_wf(
                    b,
                ) by {
                    assert(old(self).block_wf(b));
                }
            }
        }
        value
    }

    /// Adds an argument to a block, and gives the value that names it.
    pub fn emit_argument(&mut self, block: Block) -> (value: Value)
        requires
            old(self).has_block(block),
            old(self).values@.len() < u32::MAX,
        ensures
            value.0 == old(self).values@.len(),
            final(self).values@ == old(self).values@.push(Inst::Argument),
            final(self).return_def == old(self).return_def,
            final(self).blocks@.len() == old(self).blocks@.len(),
            final(self).blocks@[block.0 as int].arguments@ == old(self).arguments(block).push(
                value,
            ),
            final(self).blocks@[block.0 as int].instructions@ == old(self).instructions(block),
            forall|b: int|
                0 <= b < old(self).blocks@.len() && b != block.0 ==> final(self).blocks@[b] == old(
                    self,
                ).blocks@[b],
            old(self).wf() ==> final(self).wf(),
    {
        let value = Value(self.values.len() as u32);
        self.values.push(Inst::Argument);
        self.blocks[block.0 as usize].arguments.push(value);
        proof {
            if old(self).wf() {
                assert forall|b: int| 0 <= b < self.blocks@.len() implies #[trigger] self.block_wf(
                    b,
                ) by {
                    assert(old(self).block_wf(b));
                }
            }
        }
        value
    }

    /// Adds an empty block, and gives its name.
    pub fn make_block(&mut self) -> (block: Block)
        requires
            old(self).blocks@.len() < u32::MAX,
        ensures
            block.0 == old(self).blocks@.len(),
            final(self).blocks@.len() == old(self).blocks@.len() + 1,
            final(self).blocks@[block.0 as int].arguments@.len() == 0,
            final(self).blocks@[block.0 as int].instructions@.len() == 0,
            forall|b: int|
                0 <= b < old(self).blocks@.len() ==> final(self).blocks@[b] == old(self).blocks@[b],
            final(self).values@ == old(self).values@,
            final(self).return_def == old(self).return_def,
            old(self).wf() ==> final(self).wf(),
    {
        let block = Block(self.blocks.len() as u32);
        self.blocks.push(BlockBody { arguments: Vec::new(), instructions: Vec::new() });
        proof {
            if old(self).wf() {
                assert forall|b: int| 0 <= b < self.blocks@.len() implies #[trigger] self.block_wf(
                    b,
                ) by {
                    if b < old(self).blocks@.len() {
                        assert(old(self).block_wf(b));
                    }
                }
            }
        }
        block
    }
}

} // verus!
