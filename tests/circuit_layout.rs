use ark_bls12_381::{Bls12_381, Fr};
use ark_ff::PrimeField;
use ark_groth16::Groth16;
use ark_relations::r1cs::{
    ConstraintSynthesizer, ConstraintSystem, ConstraintSystemRef, LinearCombination, SynthesisError,
    Variable,
};
use ark_snark::{CircuitSpecificSetupSNARK, SNARK};
use provable_vm::circuit::{Coeff, ExecutionCircuit, R1csLayout, Term, Var};
use provable_vm::vm::{Instruction, Opcode, ProvableVM};
use rand_chacha::ChaCha20Rng;
use rand_core::SeedableRng;

#[derive(Clone)]
struct LayoutCircuit {
    layout: R1csLayout,
    commitment: Fr,
}

impl ConstraintSynthesizer<Fr> for LayoutCircuit {
    fn generate_constraints(self, cs: ConstraintSystemRef<Fr>) -> Result<(), SynthesisError> {
        let commitment = self.commitment;
        let input = cs.new_input_variable(|| Ok(commitment))?;
        let mut witnesses = Vec::with_capacity(self.layout.witnesses.len());
        for &w in &self.layout.witnesses {
            witnesses.push(cs.new_witness_variable(|| Ok(Fr::from(w)))?);
        }
        let lc = |terms: &[Term]| {
            let mut lc = LinearCombination::<Fr>::zero();
            for t in terms {
                let coeff = match t.coeff {
                    Coeff::Int(k) => Fr::from(k),
                    Coeff::CommitmentValue => commitment,
                };
                let var = match t.var {
                    Var::One => Variable::One,
                    Var::Commitment => input,
                    Var::Witness(i) => witnesses[i],
                };
                lc = lc + (coeff, var);
            }
            lc
        };
        for c in &self.layout.constraints {
            cs.enforce_constraint(lc(&c.a), lc(&c.b), lc(&c.c))?;
        }
        Ok(())
    }
}

fn ins(opcode: Opcode, operand: Option<u32>) -> Instruction {
    Instruction { opcode, operand }
}

fn circuit_for(program: Vec<Instruction>) -> (ExecutionCircuit, Vec<u8>) {
    let mut vm = ProvableVM::new();
    vm.run_program(&program).unwrap();
    let commitment = vm.generate_trace_commitment();
    let circuit = ExecutionCircuit {
        initial_state: vm.trace.first().unwrap().clone(),
        final_state: vm.trace.last().unwrap().clone(),
        program,
        trace_commitment: commitment.clone(),
    };
    (circuit, commitment)
}

fn satisfied(layout: &R1csLayout, commitment: &[u8]) -> bool {
    let cs = ConstraintSystem::<Fr>::new_ref();
    let circuit = LayoutCircuit {
        layout: layout.clone(),
        commitment: Fr::from_le_bytes_mod_order(commitment),
    };
    circuit.generate_constraints(cs.clone()).unwrap();
    cs.is_satisfied().unwrap()
}

#[test]
fn add_program_layout() {
    let (circuit, commitment) = circuit_for(vec![
        ins(Opcode::PUSH, Some(3)),
        ins(Opcode::PUSH, Some(4)),
        ins(Opcode::ADD, None),
        ins(Opcode::HALT, None),
    ]);
    let layout = circuit.generate_constraints();
    assert_eq!(layout.witnesses, vec![3, 4, 4, 3, 7, 0, 7, 7]);
    assert_eq!(layout.constraints.len(), 7);
    let gate = &layout.constraints[0];
    assert_eq!(gate.a, vec![Term { coeff: Coeff::Int(1), var: Var::Commitment }]);
    assert_eq!(gate.c, vec![Term { coeff: Coeff::CommitmentValue, var: Var::One }]);
    let last = &layout.constraints[6];
    assert_eq!(last.a, vec![Term { coeff: Coeff::Int(1), var: Var::Witness(6) }]);
    assert_eq!(last.c, vec![Term { coeff: Coeff::Int(1), var: Var::Witness(7) }]);
    assert!(satisfied(&layout, &commitment));
}

#[test]
fn wrapping_add_layout_is_satisfied() {
    let (circuit, commitment) = circuit_for(vec![
        ins(Opcode::PUSH, Some(u32::MAX)),
        ins(Opcode::PUSH, Some(2)),
        ins(Opcode::ADD, None),
        ins(Opcode::HALT, None),
    ]);
    let layout = circuit.generate_constraints();
    assert_eq!(layout.witnesses, vec![u32::MAX, 2, 2, u32::MAX, 1, 1, 1, 1]);
    assert!(satisfied(&layout, &commitment));
}

#[test]
fn heap_program_layout() {
    let (circuit, commitment) = circuit_for(vec![
        ins(Opcode::PUSH, Some(42)),
        ins(Opcode::STORE, Some(100)),
        ins(Opcode::LOAD, Some(100)),
        ins(Opcode::HALT, None),
    ]);
    let layout = circuit.generate_constraints();
    assert_eq!(layout.witnesses, vec![42, 100, 42, 100, 42, 42, 42]);
    assert_eq!(layout.constraints.len(), 8);
    assert!(satisfied(&layout, &commitment));
}

#[test]
fn sub_program_layout() {
    let (circuit, commitment) = circuit_for(vec![
        ins(Opcode::PUSH, Some(10)),
        ins(Opcode::PUSH, Some(4)),
        ins(Opcode::SUB, None),
        ins(Opcode::HALT, None),
    ]);
    let layout = circuit.generate_constraints();
    assert_eq!(layout.witnesses, vec![10, 4, 4, 10, 6, 6, 6]);
    assert!(satisfied(&layout, &commitment));
}

#[test]
fn empty_program_layout() {
    let (circuit, commitment) = circuit_for(vec![]);
    let layout = circuit.generate_constraints();
    assert!(layout.witnesses.is_empty());
    assert_eq!(layout.constraints.len(), 1);
    assert!(satisfied(&layout, &commitment));
}

#[test]
fn prove_and_verify_end_to_end() {
    let (circuit, commitment) = circuit_for(vec![
        ins(Opcode::PUSH, Some(3)),
        ins(Opcode::PUSH, Some(4)),
        ins(Opcode::ADD, None),
        ins(Opcode::HALT, None),
    ]);
    let fe = Fr::from_le_bytes_mod_order(&commitment);
    let snark_circuit = LayoutCircuit { layout: circuit.generate_constraints(), commitment: fe };
    let mut rng = ChaCha20Rng::seed_from_u64(7);
    let (pk, vk) = Groth16::<Bls12_381>::setup(snark_circuit.clone(), &mut rng).unwrap();
    let proof = Groth16::<Bls12_381>::prove(&pk, snark_circuit, &mut rng).unwrap();
    assert!(Groth16::<Bls12_381>::verify(&vk, &[fe], &proof).unwrap());
    let other = fe + Fr::from(1u64);
    assert!(!Groth16::<Bls12_381>::verify(&vk, &[other], &proof).unwrap());
}
