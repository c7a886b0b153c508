use provable_vm::vm::{Instruction, Opcode, ProvableState, ProvableVM, VmError};

fn ins(opcode: Opcode, operand: Option<u32>) -> Instruction {
    Instruction { opcode, operand }
}

fn push(v: u32) -> Instruction {
    ins(Opcode::PUSH, Some(v))
}

fn op(opcode: Opcode) -> Instruction {
    ins(opcode, None)
}

fn run(program: &[Instruction]) -> (ProvableVM, Result<(), VmError>) {
    let mut vm = ProvableVM::new();
    let r = vm.run_program(program);
    (vm, r)
}

#[test]
fn add_program_trace_and_top() {
    let program = vec![push(3), push(4), op(Opcode::ADD), op(Opcode::HALT)];
    let (vm, r) = run(&program);
    assert_eq!(r, Ok(()));
    assert_eq!(vm.trace.len(), 5);
    assert_eq!(vm.stack, vec![7]);
    assert_eq!(vm.trace.last().unwrap().stack, vec![7]);
    assert_eq!(vm.trace.last().unwrap().pc, 3);
}

#[test]
fn sub_program_top() {
    let program = vec![push(10), push(4), op(Opcode::SUB), op(Opcode::HALT)];
    let (vm, r) = run(&program);
    assert_eq!(r, Ok(()));
    assert_eq!(*vm.stack.last().unwrap(), 6);
}

#[test]
fn sub_underflow_fails() {
    let program = vec![push(5), push(10), op(Opcode::SUB), op(Opcode::HALT)];
    let (_, r) = run(&program);
    assert_eq!(r, Err(VmError::ArithmeticUnderflow));
}

#[test]
fn store_then_load() {
    let program = vec![push(42), ins(Opcode::STORE, Some(100)), ins(Opcode::LOAD, Some(100)), op(Opcode::HALT)];
    let (vm, r) = run(&program);
    assert_eq!(r, Ok(()));
    assert_eq!(*vm.stack.last().unwrap(), 42);
    assert_eq!(vm.heap, vec![(100, 42)]);
}

#[test]
fn load_missing_address_fails() {
    let program = vec![ins(Opcode::LOAD, Some(7)), op(Opcode::HALT)];
    let (_, r) = run(&program);
    assert_eq!(r, Err(VmError::HeapMiss));
}

#[test]
fn second_pop_underflows() {
    let program = vec![push(1), op(Opcode::POP), op(Opcode::POP), op(Opcode::HALT)];
    let (vm, r) = run(&program);
    assert_eq!(r, Err(VmError::StackUnderflow));
    // the state before the failing POP was captured: pc 2, empty stack
    assert_eq!(vm.pc, 2);
}

#[test]
fn empty_program_has_one_state() {
    let (vm, r) = run(&[]);
    assert_eq!(r, Ok(()));
    assert_eq!(vm.trace.len(), 1);
    assert_eq!(vm.trace[0].pc, 0);
    assert!(vm.trace[0].stack.is_empty());
    assert!(vm.trace[0].heap.is_empty());
    assert_eq!(vm.trace[0].flags, 0);
}

#[test]
fn single_halt_program() {
    let (vm, r) = run(&[op(Opcode::HALT)]);
    assert_eq!(r, Ok(()));
    assert_eq!(vm.trace.len(), 2);
    assert_eq!(vm.trace[1].pc, 0);
}

#[test]
fn program_without_halt_ends_past_the_end() {
    let (vm, r) = run(&[push(1), push(2)]);
    assert_eq!(r, Ok(()));
    assert_eq!(vm.trace.len(), 3);
    assert_eq!(vm.trace[2].pc, 2);
    assert_eq!(vm.trace[2].stack, vec![1, 2]);
}

#[test]
fn max_operand_is_kept() {
    let (vm, r) = run(&[push(u32::MAX), op(Opcode::HALT)]);
    assert_eq!(r, Ok(()));
    assert_eq!(vm.stack, vec![u32::MAX]);
}

#[test]
fn add_wraps_at_word_size() {
    let (vm, r) = run(&[push(u32::MAX), push(2), op(Opcode::ADD), op(Opcode::HALT)]);
    assert_eq!(r, Ok(()));
    assert_eq!(vm.stack, vec![1]);
}

#[test]
fn sub_equal_operands_gives_zero() {
    let (vm, r) = run(&[push(9), push(9), op(Opcode::SUB), op(Opcode::HALT)]);
    assert_eq!(r, Ok(()));
    assert_eq!(vm.stack, vec![0]);
}

#[test]
fn jumps_are_unsupported() {
    let (_, r) = run(&[ins(Opcode::JMP, Some(0))]);
    assert_eq!(r, Err(VmError::UnsupportedOpcode));
    let (_, r) = run(&[push(0), ins(Opcode::JZ, Some(0))]);
    assert_eq!(r, Err(VmError::UnsupportedOpcode));
}

#[test]
fn missing_operands_fail() {
    assert_eq!(run(&[op(Opcode::PUSH)]).1, Err(VmError::MissingOperand));
    assert_eq!(run(&[push(1), op(Opcode::STORE)]).1, Err(VmError::MissingOperand));
    assert_eq!(run(&[op(Opcode::LOAD)]).1, Err(VmError::MissingOperand));
}

#[test]
fn add_needs_two_entries() {
    assert_eq!(run(&[push(1), op(Opcode::ADD)]).1, Err(VmError::StackUnderflow));
    assert_eq!(run(&[op(Opcode::STORE), push(1)]).1, Err(VmError::MissingOperand));
    assert_eq!(run(&[ins(Opcode::STORE, Some(1))]).1, Err(VmError::StackUnderflow));
}

#[test]
fn heap_stays_sorted_and_overwrites() {
    let program = vec![
        push(1),
        ins(Opcode::STORE, Some(50)),
        push(2),
        ins(Opcode::STORE, Some(10)),
        push(3),
        ins(Opcode::STORE, Some(30)),
        push(4),
        ins(Opcode::STORE, Some(10)),
        op(Opcode::HALT),
    ];
    let (vm, r) = run(&program);
    assert_eq!(r, Ok(()));
    assert_eq!(vm.heap, vec![(10, 4), (30, 3), (50, 1)]);
}

#[test]
fn trace_length_counts_executed_steps() {
    let program = vec![push(1), push(2), op(Opcode::HALT), push(3)];
    let (vm, r) = run(&program);
    assert_eq!(r, Ok(()));
    assert_eq!(vm.trace.len(), 4);
    assert_eq!(vm.trace[3].pc, 2);
}

#[test]
fn execute_instruction_step() {
    let mut vm = ProvableVM::new();
    assert_eq!(vm.execute_instruction(&push(5)), Ok(true));
    assert_eq!(vm.pc, 1);
    assert_eq!(vm.execute_instruction(&op(Opcode::HALT)), Ok(false));
    assert_eq!(vm.pc, 1);
    assert_eq!(vm.execute_instruction(&op(Opcode::SUB)), Err(VmError::StackUnderflow));
    assert_eq!(vm.stack, vec![5]);
    assert!(vm.trace.is_empty());
}

#[test]
fn capture_state_copies_the_machine() {
    let mut vm = ProvableVM::new();
    vm.run_program(&[push(42), ins(Opcode::STORE, Some(100)), push(7)]).unwrap();
    let s: ProvableState = vm.capture_state();
    assert_eq!(s.pc, 3);
    assert_eq!(s.stack, vec![7]);
    assert_eq!(s.heap, vec![(100, 42)]);
    assert_eq!(s.flags, 0);
}

#[test]
fn runs_are_deterministic() {
    let program = vec![push(42), ins(Opcode::STORE, Some(100)), ins(Opcode::LOAD, Some(100)), op(Opcode::HALT)];
    let (a, _) = run(&program);
    let (b, _) = run(&program);
    assert_eq!(a.trace.len(), b.trace.len());
    for (x, y) in a.trace.iter().zip(b.trace.iter()) {
        assert_eq!(x.pc, y.pc);
        assert_eq!(x.stack, y.stack);
        assert_eq!(x.heap, y.heap);
        assert_eq!(x.flags, y.flags);
    }
    assert_eq!(a.generate_trace_commitment(), b.generate_trace_commitment());
}

#[test]
fn step_limit_refuses_long_runs() {
    let program = vec![push(1), push(2), op(Opcode::HALT)];
    let mut vm = ProvableVM::new();
    assert_eq!(vm.run_program_bounded(&program, 3), Ok(()));
    assert_eq!(vm.trace.len(), 4);
    let mut vm = ProvableVM::new();
    assert_eq!(vm.run_program_bounded(&program, 2), Err(VmError::StepLimitExceeded));
    let mut vm = ProvableVM::new();
    assert_eq!(vm.run_program_bounded(&[], 0), Ok(()));
    assert_eq!(vm.trace.len(), 1);
}
