use gml::back::ssa::{Binary, Block, Constant, Function, Inst, Unary, Value, ENTRY, EXIT};
use gml::binary64::Real;
use gml::symbol::Symbol;

fn every_inst() -> Vec<(Inst, Vec<Value>, bool)> {
    let a = Value(1);
    let b = Value(2);
    let c = Value(3);
    let s = Symbol(40);
    vec![
        (Inst::Undef, vec![], false),
        (Inst::Alias(a), vec![], false),
        (Inst::Immediate { value: Constant::Real(Real::zero()) }, vec![], true),
        (Inst::Immediate { value: Constant::String(s) }, vec![], true),
        (Inst::Unary { op: Unary::Negate, arg: a }, vec![a], true),
        (Inst::Binary { op: Binary::Add, args: [a, b] }, vec![a, b], true),
        (Inst::Argument, vec![], true),
        (Inst::DeclareGlobal { symbol: s }, vec![], false),
        (Inst::Lookup { symbol: s }, vec![], true),
        (Inst::Read { symbol: s, arg: a }, vec![a], false),
        (Inst::Write { args: [a, b] }, vec![a, b], true),
        (Inst::LoadField { scope: a, field: s }, vec![a], true),
        (Inst::LoadFieldDefault { scope: b, field: s }, vec![b], true),
        (Inst::LoadFieldArray { scope: c, field: s }, vec![c], true),
        (Inst::StoreField { args: [a, b], field: s }, vec![a, b], false),
        (Inst::StoreIndex { args: [a, b, c] }, vec![a, b, c], false),
        (Inst::Release { arg: c }, vec![c], false),
        (Inst::Call { symbol: s, args: vec![a, b, c], parameters: vec![c] }, vec![a, b, c], true),
        (Inst::Return { arg: b }, vec![b], false),
        (Inst::Jump { target: Block(1), args: vec![a] }, vec![a], false),
        (
            Inst::Branch { targets: [Block(2), Block(3)], arg_lens: [1, 0], args: vec![a, b] },
            vec![a, b],
            false,
        ),
    ]
}

#[test]
fn a_new_function_has_two_empty_blocks() {
    let function = Function::new();
    assert_eq!(function.blocks.len(), 2);
    assert!(function.blocks[ENTRY as usize].instructions.is_empty());
    assert!(function.blocks[ENTRY as usize].arguments.is_empty());
    assert!(function.blocks[EXIT as usize].instructions.is_empty());
    assert_eq!(function.values, vec![Inst::Undef]);
    assert_eq!(function.return_def, Value(0));
    assert_eq!(Block::entry(), Block(0));
    assert_eq!(Block::exit(), Block(1));
    assert!(function.is_wf());
    assert!(!function.is_finalized());
}

#[test]
fn instructions_hand_out_what_they_use() {
    for (inst, uses, _) in every_inst() {
        assert_eq!(inst.arguments(), &uses[..], "{:?}", inst);
    }
}

#[test]
fn uses_can_be_replaced_in_place() {
    for (mut inst, uses, _) in every_inst() {
        let replaced: Vec<Value> = uses.iter().map(|value| Value(value.0 + 10)).collect();
        {
            let slots = inst.arguments_mut();
            assert_eq!(&slots[..], &uses[..]);
            for slot in slots.iter_mut() {
                *slot = Value(slot.0 + 10);
            }
        }
        assert_eq!(inst.arguments(), &replaced[..], "{:?}", inst);
    }
    let mut call =
        Inst::Call { symbol: Symbol(40), args: vec![Value(1)], parameters: vec![Value(2)] };
    call.arguments_mut()[0] = Value(9);
    assert_eq!(
        call,
        Inst::Call { symbol: Symbol(40), args: vec![Value(9)], parameters: vec![Value(2)] }
    );
}

#[test]
fn definitions() {
    let mut function = Function::new();
    let entry = Block::entry();
    for (inst, _, defines) in every_inst() {
        let value = function.emit_instruction(entry, inst);
        assert_eq!(function.defs(value), if defines { Some(value) } else { None });
    }
}

#[test]
fn only_calls_define_values_for_their_own_use() {
    let mut function = Function::new();
    let entry = Block::entry();
    for (inst, uses, _) in every_inst() {
        let is_call = matches!(inst, Inst::Call { .. });
        let value = function.emit_instruction(entry, inst);
        assert_eq!(function.uses(value), &uses[..]);
        if is_call {
            assert_eq!(function.internal_defs(value), &[Value(3)][..]);
        } else {
            assert!(function.internal_defs(value).is_empty());
        }
    }
}

#[test]
fn emitting_numbers_values_in_order() {
    let mut function = Function::new();
    let block = function.make_block();
    assert_eq!(block, Block(2));
    let argument = function.emit_argument(block);
    assert_eq!(argument, Value(1));
    let one = function.emit_instruction(
        block,
        Inst::Immediate { value: Constant::Real(Real::from_u32(1)) },
    );
    assert_eq!(one, Value(2));
    let sum =
        function.emit_instruction(block, Inst::Binary { op: Binary::Add, args: [argument, one] });
    assert_eq!(sum, Value(3));
    assert_eq!(function.blocks[2].arguments, vec![argument]);
    assert_eq!(function.blocks[2].instructions, vec![one, sum]);
    assert_eq!(function.values.len(), 4);
    assert_eq!(function.values[1], Inst::Argument);
    assert_eq!(function.terminator(block), sum);
    assert!(function.is_wf());
}

#[test]
fn successors_follow_the_terminator() {
    let mut function = Function::new();
    let entry = Block::entry();
    let exit = Block::exit();
    let middle = function.make_block();
    let cond = function.emit_instruction(
        entry,
        Inst::Immediate { value: Constant::Real(Real::from_u32(1)) },
    );
    function.emit_instruction(
        entry,
        Inst::Branch { targets: [middle, exit], arg_lens: [0, 1], args: vec![cond, cond] },
    );
    function.emit_instruction(middle, Inst::Jump { target: exit, args: vec![cond] });
    let result = function.emit_argument(exit);
    function.emit_instruction(exit, Inst::Return { arg: result });
    assert_eq!(function.successors(entry), &[middle, exit][..]);
    assert_eq!(function.successors(middle), &[exit][..]);
    assert!(function.successors(exit).is_empty());
    assert!(function.is_finalized());
}

#[test]
fn a_function_is_not_finalized_with_a_placeholder_or_a_stray_terminator() {
    let mut function = Function::new();
    let entry = Block::entry();
    let exit = Block::exit();
    let zero = function.emit_instruction(
        entry,
        Inst::Immediate { value: Constant::Real(Real::zero()) },
    );
    function.emit_instruction(entry, Inst::Jump { target: exit, args: vec![] });
    function.emit_instruction(exit, Inst::Return { arg: zero });
    assert!(function.is_finalized());

    let mut with_undef = Function::new();
    with_undef.emit_instruction(entry, Inst::Undef);
    with_undef.emit_instruction(entry, Inst::Jump { target: exit, args: vec![] });
    with_undef.emit_instruction(exit, Inst::Return { arg: Value(0) });
    assert!(with_undef.is_wf());
    assert!(!with_undef.is_finalized());

    let mut with_alias = Function::new();
    with_alias.emit_instruction(entry, Inst::Alias(Value(0)));
    with_alias.emit_instruction(entry, Inst::Jump { target: exit, args: vec![] });
    with_alias.emit_instruction(exit, Inst::Return { arg: Value(0) });
    assert!(!with_alias.is_finalized());

    let mut two_terminators = Function::new();
    two_terminators.emit_instruction(entry, Inst::Jump { target: exit, args: vec![] });
    two_terminators.emit_instruction(entry, Inst::Jump { target: exit, args: vec![] });
    two_terminators.emit_instruction(exit, Inst::Return { arg: Value(0) });
    assert!(!two_terminators.is_finalized());

    let mut open_end = Function::new();
    open_end.emit_instruction(entry, Inst::Jump { target: exit, args: vec![] });
    open_end.emit_instruction(exit, Inst::Release { arg: Value(0) });
    assert!(!open_end.is_finalized());
}

#[test]
fn instructions_that_name_what_is_not_there_are_not_linked() {
    let entry = Block::entry();
    let exit = Block::exit();
    let mut function = Function::new();
    let zero = function.emit_instruction(
        entry,
        Inst::Immediate { value: Constant::Real(Real::zero()) },
    );
    function.emit_instruction(
        entry,
        Inst::Branch { targets: [exit, exit], arg_lens: [1, 1], args: vec![zero, zero, zero] },
    );
    function.emit_instruction(exit, Inst::Return { arg: zero });
    assert!(function.is_linked());
    assert!(function.is_finalized());

    let broken: Vec<Inst> = vec![
        Inst::Unary { op: Unary::Negate, arg: Value(99) },
        Inst::Binary { op: Binary::Add, args: [zero, Value(99)] },
        Inst::Alias(Value(99)),
        Inst::Call { symbol: Symbol(40), args: vec![zero], parameters: vec![Value(99)] },
        Inst::Call { symbol: Symbol(40), args: vec![Value(99)], parameters: vec![] },
        Inst::Jump { target: Block(9), args: vec![] },
        Inst::Jump { target: exit, args: vec![Value(99)] },
        Inst::Branch { targets: [exit, Block(9)], arg_lens: [0, 0], args: vec![zero] },
        Inst::Branch { targets: [exit, exit], arg_lens: [1, 1], args: vec![zero, zero] },
        Inst::Branch { targets: [exit, exit], arg_lens: [usize::MAX, 1], args: vec![zero] },
        Inst::Branch { targets: [exit, exit], arg_lens: [0, 0], args: vec![] },
    ];
    for inst in broken {
        let mut function = Function::new();
        function.values.push(inst);
        assert!(function.is_wf());
        assert!(!function.is_linked());
        assert!(!function.is_finalized());
    }
}

#[test]
fn names_from_elsewhere_make_a_function_ill_formed() {
    let mut function = Function::new();
    function.blocks[0].instructions.push(Value(5));
    assert!(!function.is_wf());
    assert!(!function.is_finalized());
    let mut function = Function::new();
    function.blocks[1].arguments.push(Value(1));
    assert!(!function.is_wf());
    let mut function = Function::new();
    function.return_def = Value(1);
    assert!(!function.is_wf());
}
