use provable_vm::commitment::commitment_hex;
use provable_vm::encoding::{decode_program, encode_program, encode_state, encode_trace};
use provable_vm::vm::{Instruction, Opcode, ProvableState, ProvableVM};

fn all_instructions() -> Vec<Instruction> {
    let ops = [
        Opcode::PUSH,
        Opcode::POP,
        Opcode::ADD,
        Opcode::SUB,
        Opcode::JMP,
        Opcode::JZ,
        Opcode::LOAD,
        Opcode::STORE,
        Opcode::HALT,
    ];
    let mut v = Vec::new();
    for op in ops {
        v.push(Instruction { opcode: op, operand: None });
        v.push(Instruction { opcode: op, operand: Some(0) });
        v.push(Instruction { opcode: op, operand: Some(u32::MAX) });
        v.push(Instruction { opcode: op, operand: Some(0x0102_0304) });
    }
    v
}

#[test]
fn opcode_codes() {
    assert_eq!(Opcode::PUSH.code(), 1);
    assert_eq!(Opcode::HALT.code(), 9);
    assert_eq!(Opcode::STORE.code(), 8);
    assert_eq!(Opcode::from_code(4), Some(Opcode::SUB));
    assert_eq!(Opcode::from_code(0), None);
    assert_eq!(Opcode::from_code(10), None);
}

#[test]
fn instruction_encoding_bytes() {
    let mut out = Vec::new();
    Instruction { opcode: Opcode::PUSH, operand: Some(0x0102_0304) }.encode(&mut out);
    assert_eq!(out, vec![1, 0, 0, 0, 1, 4, 3, 2, 1]);
    let mut out = Vec::new();
    Instruction { opcode: Opcode::HALT, operand: None }.encode(&mut out);
    assert_eq!(out, vec![9, 0, 0, 0, 0]);
}

#[test]
fn instruction_round_trip() {
    for i in all_instructions() {
        let mut out = Vec::new();
        i.encode(&mut out);
        assert_eq!(Instruction::decode(&out, 0), Some((i, out.len())));
    }
}

#[test]
fn malformed_instructions_are_refused() {
    assert_eq!(Instruction::decode(&vec![1, 0, 0, 0], 0), None);
    assert_eq!(Instruction::decode(&vec![10, 0, 0, 0, 0], 0), None);
    assert_eq!(Instruction::decode(&vec![1, 0, 0, 0, 2], 0), None);
    assert_eq!(Instruction::decode(&vec![1, 0, 0, 0, 1, 5], 0), None);
    assert_eq!(Instruction::decode(&vec![9, 0, 0, 0, 0], 6), None);
}

#[test]
fn program_file_decodes() {
    let program = vec![
        Instruction { opcode: Opcode::PUSH, operand: Some(3) },
        Instruction { opcode: Opcode::PUSH, operand: Some(4) },
        Instruction { opcode: Opcode::ADD, operand: None },
        Instruction { opcode: Opcode::HALT, operand: None },
    ];
    let mut bytes = vec![4, 0, 0, 0, 0, 0, 0, 0];
    for i in &program {
        i.encode(&mut bytes);
    }
    assert_eq!(decode_program(&bytes), Some(program));
    let mut longer = bytes.clone();
    longer.push(0);
    assert_eq!(decode_program(&longer), None);
    let mut wrong_count = bytes.clone();
    wrong_count[0] = 5;
    assert_eq!(decode_program(&wrong_count), None);
    assert_eq!(decode_program(&vec![0, 0, 0, 0, 0, 0, 0, 0]), Some(vec![]));
    assert_eq!(decode_program(&vec![0, 0, 0]), None);
}

#[test]
fn state_canonical_bytes() {
    let s = ProvableState { pc: 2, stack: vec![3, 4], heap: vec![(100, 42)], flags: 0 };
    let mut out = Vec::new();
    encode_state(&s, &mut out);
    assert_eq!(
        out,
        vec![2, 0, 0, 0, 2, 0, 0, 0, 3, 0, 0, 0, 4, 0, 0, 0, 1, 0, 0, 0, 100, 0, 0, 0, 42, 0, 0, 0, 0]
    );
}

#[test]
fn trace_bytes_concatenate_states() {
    let mut vm = ProvableVM::new();
    vm.run_program(&[]).unwrap();
    assert_eq!(encode_trace(&vm.trace), vec![0u8; 13]);
}

#[test]
fn empty_program_commitment() {
    let mut vm = ProvableVM::new();
    vm.run_program(&[]).unwrap();
    let c = vm.generate_trace_commitment();
    assert_eq!(c.len(), 32);
    assert_eq!(
        commitment_hex(&c),
        "dd46c3eebb1884ff3b5258c0a2fc9398e560a29e0780d4b53869b6254aa46a96"
    );
}

#[test]
fn add_program_commitment() {
    let mut vm = ProvableVM::new();
    vm.run_program(&[
        Instruction { opcode: Opcode::PUSH, operand: Some(3) },
        Instruction { opcode: Opcode::PUSH, operand: Some(4) },
        Instruction { opcode: Opcode::ADD, operand: None },
        Instruction { opcode: Opcode::HALT, operand: None },
    ])
    .unwrap();
    assert_eq!(
        commitment_hex(&vm.generate_trace_commitment()),
        "95d4565781dc6cfe2a1a3d521bf99d108566003249be8e53e3a1e5bf537199db"
    );
}

#[test]
fn commitment_changes_with_one_byte() {
    let mut a = ProvableVM::new();
    a.run_program(&[Instruction { opcode: Opcode::PUSH, operand: Some(1) }]).unwrap();
    let mut b = ProvableVM::new();
    b.run_program(&[Instruction { opcode: Opcode::PUSH, operand: Some(2) }]).unwrap();
    assert_ne!(a.generate_trace_commitment(), b.generate_trace_commitment());
}

#[test]
fn hex_of_digest() {
    assert_eq!(commitment_hex(&vec![0xab, 0x01, 0x00, 0xff]), "ab0100ff");
    assert_eq!(commitment_hex(&vec![]), "");
}

#[test]
fn program_encoding_bytes() {
    let program = vec![
        Instruction { opcode: Opcode::PUSH, operand: Some(7) },
        Instruction { opcode: Opcode::HALT, operand: None },
    ];
    assert_eq!(
        encode_program(&program),
        vec![2, 0, 0, 0, 0, 0, 0, 0, 1, 0, 0, 0, 1, 7, 0, 0, 0, 9, 0, 0, 0, 0]
    );
    assert_eq!(encode_program(&[]), vec![0u8; 8]);
}

#[test]
fn program_round_trip() {
    let program = all_instructions();
    assert_eq!(decode_program(&encode_program(&program)), Some(program));
}
