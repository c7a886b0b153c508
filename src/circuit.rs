use vstd::prelude::*;
use crate::vm::{
    copy_heap, copy_words, heap_get, heap_lookup, heap_sorted, run_from, run_spec, zero_state, step, wrapping_add_word, Instruction, Opcode, ProvableState, ProvableVM,
    StateModel,
};

verus! {

/// A variable of the constraint system: the constant one, the public input
/// (the trace commitment), or the witness at an index of `R1csLayout::witnesses`.
#[derive(Clone, Copy, Debug, PartialEq, Eq, Structural)]
pub enum Var {
    One,
    Commitment,
    Witness(usize),
}

/// A coefficient: a small integer, or the trace commitment read as a field element.
#[derive(Clone, Copy, Debug, PartialEq, Eq, Structural)]
pub enum Coeff {
    Int(i64),
    CommitmentValue,
}

#[derive(Clone, Copy, Debug, PartialEq, Eq, Structural)]
pub struct Term {
    pub coeff: Coeff,
    pub var: Var,
}

/// One rank-1 constraint `a * b = c` over linear combinations.
#[derive(Clone, Debug)]
pub struct Constraint {
    pub a: Vec<Term>,
    pub b: Vec<Term>,
    pub c: Vec<Term>,
}

pub struct ConstraintModel {
    pub a: Seq<Term>,
    pub b: Seq<Term>,
    pub c: Seq<Term>,
}

impl View for Constraint {
    type V = ConstraintModel;

    open spec fn view(&self) -> ConstraintModel {
        ConstraintModel { a: self.a@, b: self.b@, c: self.c@ }
    }
}

/// The shape and assignment of the execution circuit: one public input (the
/// commitment), the witness values in allocation order, and the constraints in
/// emission order.
#[derive(Clone, Debug)]
pub struct R1csLayout {
    pub witnesses: Vec<u32>,
    pub constraints: Vec<Constraint>,
}

/// What the circuit is built from: a program, the first and last states of its
/// trace, and the trace commitment.
#[derive(Clone, Debug)]
pub struct ExecutionCircuit {
    pub initial_state: ProvableState,
    pub final_state: ProvableState,
    pub program: Vec<Instruction>,
    pub trace_commitment: Vec<u8>,
}

pub open spec fn term(k: int, v: Var) -> Term {
    Term { coeff: Coeff::Int(k as i64), var: v }
}

pub open spec fn rc(a: Seq<Term>, b: Seq<Term>, c: Seq<Term>) -> ConstraintModel {
    ConstraintModel { a, b, c }
}

/// `v * 1 = v`.
pub open spec fn identity(v: Var) -> ConstraintModel {
    rc(seq![term(1, v)], seq![term(1, Var::One)], seq![term(1, v)])
}

pub open spec fn carry(a: u32, b: u32) -> u32 {
    if a as int + b as int >= 0x1_0000_0000 {
        1
    } else {
        0
    }
}

/// The witnesses and constraints that one instruction emits on state `s` when
/// `base` witnesses have been allocated before it. ADD also allocates its carry
/// bit `k`, constrained by `k * k = k` and `(a + b - 2^32 k) * 1 = r`, so that
/// the field relation matches the machine's wrapping addition.
pub open spec fn gadget(s: StateModel, ins: Instruction, base: int) -> (Seq<u32>, Seq<ConstraintModel>) {
    let st = s.stack;
    let w = |i: int| Var::Witness((base + i) as usize);
    match ins.opcode {
        Opcode::PUSH => (seq![ins.operand->Some_0], seq![identity(w(0))]),
        Opcode::ADD => {
            let a = st.last();
            let b = st.drop_last().last();
            (
                seq![a, b, wrapping_add_word(a, b), carry(a, b)],
                seq![
                    rc(
                        seq![term(1, w(0)), term(1, w(1)), term(-0x1_0000_0000, w(3))],
                        seq![term(1, Var::One)],
                        seq![term(1, w(2))],
                    ),
                    rc(seq![term(1, w(3))], seq![term(1, w(3))], seq![term(1, w(3))]),
                ],
            )
        },
        Opcode::SUB => {
            let a = st.last();
            let b = st.drop_last().last();
            (
                seq![a, b, (b - a) as u32],
                seq![
                    rc(
                        seq![term(1, w(1)), term(-1, w(0))],
                        seq![term(1, Var::One)],
                        seq![term(1, w(2))],
                    ),
                ],
            )
        },
        Opcode::STORE => (
            seq![ins.operand->Some_0, st.last()],
            seq![identity(w(0)), identity(w(1))],
        ),
        Opcode::LOAD => (
            seq![ins.operand->Some_0, heap_lookup(s.heap, ins.operand->Some_0)->Some_0],
            seq![identity(w(0)), identity(w(1))],
        ),
        Opcode::HALT => (
            seq![],
            seq![rc(seq![term(1, Var::One)], seq![term(1, Var::One)], seq![term(1, Var::One)])],
        ),
        _ => (seq![], seq![]),
    }
}

/// The witnesses and constraints of walking `program` from `s`, with `base`
/// witnesses allocated before, and the simulated stack at the end of the walk.
pub open spec fn walk(program: Seq<Instruction>, s: StateModel, base: int) -> (
    Seq<u32>,
    Seq<ConstraintModel>,
    Seq<u32>,
)
    decreases program.len() - s.pc,
{
    if s.pc >= program.len() {
        (seq![], seq![], s.stack)
    } else {
        match step(s, program[s.pc as int]) {
            Err(_) => (seq![], seq![], s.stack),
            Ok((t, go)) => {
                let g = gadget(s, program[s.pc as int], base);
                if go {
                    let r = walk(program, t, base + g.0.len());
                    (g.0 + r.0, g.1 + r.1, r.2)
                } else {
                    (g.0, g.1, t.stack)
                }
            },
        }
    }
}


pub open spec fn constraints_model(cs: Seq<Constraint>) -> Seq<ConstraintModel> {
    cs.map_values(|c: Constraint| c@)
}

/// `C_pub * 1 = c`, where `c` is the commitment as a constant.
pub open spec fn commitment_gate() -> ConstraintModel {
    rc(
        seq![term(1, Var::Commitment)],
        seq![term(1, Var::One)],
        seq![Term { coeff: Coeff::CommitmentValue, var: Var::One }],
    )
}

/// The whole layout for a walk from `start`: the commitment gate, the gadgets,
/// and, if the simulated stack ends non-empty, the check that its bottom
/// element equals the bottom element of `final_stack`.
pub open spec fn layout_spec(program: Seq<Instruction>, start: StateModel, final_stack: Seq<u32>) -> (
    Seq<u32>,
    Seq<ConstraintModel>,
) {
    let r = walk(program, start, 0);
    let n = r.0.len() as int;
    if r.2.len() > 0 {
        (
            r.0 + seq![r.2[0], final_stack[0]],
            seq![commitment_gate()] + r.1 + seq![
                rc(
                    seq![term(1, Var::Witness(n as usize))],
                    seq![term(1, Var::One)],
                    seq![term(1, Var::Witness((n + 1) as usize))],
                ),
            ],
        )
    } else {
        (r.0, seq![commitment_gate()] + r.1)
    }
}

fn lc1(k: i64, v: Var) -> (r: Vec<Term>)
    ensures
        r@ == seq![term(k as int, v)],
{
    let mut r: Vec<Term> = Vec::new();
    r.push(Term { coeff: Coeff::Int(k), var: v });
    assert(r@ =~= seq![term(k as int, v)]);
    r
}

fn identity_constraint(v: Var) -> (r: Constraint)
    ensures
        r@ == identity(v),
{
    Constraint { a: lc1(1, v), b: lc1(1, Var::One), c: lc1(1, v) }
}

fn push_constraint(cs: &mut Vec<Constraint>, c: Constraint)
    ensures
        constraints_model(final(cs)@) == constraints_model(old(cs)@).push(c@),
{
    let ghost m = c@;
    cs.push(c);
    assert(constraints_model(cs@) =~= constraints_model(old(cs)@).push(m));
}

/// Appends the witnesses and constraints of `ins` on the current state of `vm`.
fn emit_gadget(vm: &ProvableVM, ins: Instruction, w: &mut Vec<u32>, cs: &mut Vec<Constraint>)
    requires
        vm.wf(),
        step(vm.state_model(), ins) is Ok,
    ensures
        final(w)@ == old(w)@ + gadget(vm.state_model(), ins, old(w)@.len() as int).0,
        constraints_model(final(cs)@) == constraints_model(old(cs)@) + gadget(
            vm.state_model(),
            ins,
            old(w)@.len() as int,
        ).1,
{
    let ghost g = gadget(vm.state_model(), ins, old(w)@.len() as int);
    let ghost w0 = w@;
    let ghost c0 = constraints_model(cs@);
    let n = vm.stack.len();
    match ins.opcode {
        Opcode::PUSH => {
            let v = ins.operand.unwrap();
            w.push(v);
            let i = w.len() - 1;
            push_constraint(cs, identity_constraint(Var::Witness(i)));
        },
        Opcode::ADD => {
            let a = vm.stack[n - 1];
            let b = vm.stack[n - 2];
            let sum: u64 = a as u64 + b as u64;
            let (r, k): (u32, u32) = if sum > 0xffff_ffff {
                ((sum - 0x1_0000_0000) as u32, 1)
            } else {
                (sum as u32, 0)
            };
            assert(r == wrapping_add_word(a, b) && k == carry(a, b));
            w.push(a);
            w.push(b);
            w.push(r);
            w.push(k);
            let i = w.len() - 4;
            let mut sum_lc: Vec<Term> = Vec::new();
            sum_lc.push(Term { coeff: Coeff::Int(1), var: Var::Witness(i) });
            sum_lc.push(Term { coeff: Coeff::Int(1), var: Var::Witness(i + 1) });
            sum_lc.push(Term { coeff: Coeff::Int(-0x1_0000_0000), var: Var::Witness(i + 3) });
            assert(sum_lc@ =~= seq![
                term(1, Var::Witness(i)),
                term(1, Var::Witness((i + 1) as usize)),
                term(-0x1_0000_0000, Var::Witness((i + 3) as usize)),
            ]);
            push_constraint(
                cs,
                Constraint { a: sum_lc, b: lc1(1, Var::One), c: lc1(1, Var::Witness(i + 2)) },
            );
            push_constraint(
                cs,
                Constraint {
                    a: lc1(1, Var::Witness(i + 3)),
                    b: lc1(1, Var::Witness(i + 3)),
                    c: lc1(1, Var::Witness(i + 3)),
                },
            );
        },
        Opcode::SUB => {
            let a = vm.stack[n - 1];
            let b = vm.stack[n - 2];
            w.push(a);
            w.push(b);
            w.push(b - a);
            let i = w.len() - 3;
            let mut diff: Vec<Term> = Vec::new();
            diff.push(Term { coeff: Coeff::Int(1), var: Var::Witness(i + 1) });
            diff.push(Term { coeff: Coeff::Int(-1), var: Var::Witness(i) });
            assert(diff@ =~= seq![term(1, Var::Witness((i + 1) as usize)), term(-1, Var::Witness(i))]);
            push_constraint(
                cs,
                Constraint { a: diff, b: lc1(1, Var::One), c: lc1(1, Var::Witness(i + 2)) },
            );
        },
        Opcode::STORE => {
            let addr = ins.operand.unwrap();
            w.push(addr);
            w.push(vm.stack[n - 1]);
            let i = w.len() - 2;
            push_constraint(cs, identity_constraint(Var::Witness(i)));
            push_constraint(cs, identity_constraint(Var::Witness(i + 1)));
        },
        Opcode::LOAD => {
            let addr = ins.operand.unwrap();
            let v = heap_get(&vm.heap, addr).unwrap();
            w.push(addr);
            w.push(v);
            let i = w.len() - 2;
            push_constraint(cs, identity_constraint(Var::Witness(i)));
            push_constraint(cs, identity_constraint(Var::Witness(i + 1)));
        },
        Opcode::HALT => {
            push_constraint(
                cs,
                Constraint { a: lc1(1, Var::One), b: lc1(1, Var::One), c: lc1(1, Var::One) },
            );
        },
        _ => {},
    }
    assert(w@ =~= w0 + g.0);
    assert(constraints_model(cs@) =~= c0 + g.1);
}


impl ExecutionCircuit {
    /// The simulated state that the walk starts from: the initial state's
    /// stack, heap and flags at the first instruction.
    pub open spec fn start(&self) -> StateModel {
        StateModel {
            pc: 0,
            stack: self.initial_state.stack@,
            heap: self.initial_state.heap@,
            flags: self.initial_state.flags,
        }
    }

    /// The circuit's inputs come from a successful run: the program runs from
    /// the initial state without error, and where the walk ends with a non-empty
    /// stack the final state's stack is not empty either.
    pub open spec fn wf(&self) -> bool {
        &&& heap_sorted(self.initial_state.heap@)
        &&& self.program@.len() <= u32::MAX
        &&& run_from(self.program@, self.start()) is Ok
        &&& walk(self.program@, self.start(), 0).2.len() > 0 ==> self.final_state.stack@.len() > 0
    }

    /// Walks the program in order on a simulated machine and lays out the
    /// witnesses and constraints of the execution circuit.
    pub fn generate_constraints(&self) -> (r: R1csLayout)
        requires
            self.wf(),
        ensures
            r.witnesses@ == layout_spec(self.program@, self.start(), self.final_state.stack@).0,
            constraints_model(r.constraints@) == layout_spec(
                self.program@,
                self.start(),
                self.final_state.stack@,
            ).1,
    {
        let ghost p = self.program@;
        let ghost total = walk(p, self.start(), 0);
        let mut vm = ProvableVM {
            pc: 0,
            stack: copy_words(&self.initial_state.stack),
            heap: copy_heap(&self.initial_state.heap),
            flags: self.initial_state.flags,
            trace: Vec::new(),
        };
        assert(vm.state_model() =~= self.start());
        let mut w: Vec<u32> = Vec::new();
        let mut cs: Vec<Constraint> = Vec::new();
        let mut value: Vec<Term> = Vec::new();
        value.push(Term { coeff: Coeff::CommitmentValue, var: Var::One });
        push_constraint(
            &mut cs,
            Constraint { a: lc1(1, Var::Commitment), b: lc1(1, Var::One), c: value },
        );
        assert(constraints_model(cs@)[0] =~= commitment_gate());
        assert(constraints_model(cs@) =~= seq![commitment_gate()]);
        assert(w@ + total.0 =~= total.0);
        let mut done = false;
        while !done && (vm.pc as usize) < self.program.len()
            invariant
                vm.wf(),
                p == self.program@,
                p.len() <= u32::MAX,
                vm.pc <= p.len(),
                done ==> vm.pc < p.len(),
                total == walk(p, self.start(), 0),
                !done ==> run_from(p, vm.state_model()) is Ok,
                total.0 == w@ + (if done {
                    Seq::<u32>::empty()
                } else {
                    walk(p, vm.state_model(), w@.len() as int).0
                }),
                seq![commitment_gate()] + total.1 == constraints_model(cs@) + (if done {
                    Seq::<ConstraintModel>::empty()
                } else {
                    walk(p, vm.state_model(), w@.len() as int).1
                }),
                total.2 == (if done {
                    vm.stack@
                } else {
                    walk(p, vm.state_model(), w@.len() as int).2
                }),
            decreases p.len() - vm.pc + (if done {
                0int
            } else {
                1int
            }),
        {
            let ins = self.program[vm.pc as usize];
            let ghost cur = vm.state_model();
            let ghost w0 = w@;
            let ghost c0 = constraints_model(cs@);
            assert(ins == p[cur.pc as int]);
            assert(step(cur, ins) is Ok);
            let ghost g = gadget(cur, ins, w0.len() as int);
            emit_gadget(&vm, ins, &mut w, &mut cs);
            let res = vm.execute_instruction(&ins);
            let go = match res {
                Ok(go) => go,
                Err(_) => true,
            };
            proof {
                let t = step(cur, ins)->Ok_0.0;
                assert(vm.state_model() == t);
                if go {
                    let r = walk(p, t, w@.len() as int);
                    assert(w0 + (g.0 + r.0) =~= w@ + r.0);
                    assert(c0 + (g.1 + r.1) =~= constraints_model(cs@) + r.1);
                } else {
                    assert(w0 + g.0 =~= w@ + Seq::<u32>::empty());
                    assert(c0 + g.1 =~= constraints_model(cs@) + Seq::<ConstraintModel>::empty());
                }
            }
            if !go {
                done = true;
            }
        }
        assert(total.0 =~= w@);
        assert(seq![commitment_gate()] + total.1 =~= constraints_model(cs@));
        if vm.stack.len() > 0 {
            let ghost c1 = constraints_model(cs@);
            w.push(vm.stack[0]);
            w.push(self.final_state.stack[0]);
            let n = w.len() - 2;
            push_constraint(
                &mut cs,
                Constraint {
                    a: lc1(1, Var::Witness(n)),
                    b: lc1(1, Var::One),
                    c: lc1(1, Var::Witness(n + 1)),
                },
            );
            assert(w@ =~= total.0 + seq![total.2[0], self.final_state.stack@[0]]);
        }
        R1csLayout { witnesses: w, constraints: cs }
    }
}


/// The value of a variable when the public input is `x` and the witnesses are `w`.
pub open spec fn eval_var(v: Var, x: int, w: Seq<u32>) -> int {
    match v {
        Var::One => 1,
        Var::Commitment => x,
        Var::Witness(i) => if i < w.len() {
            w[i as int] as int
        } else {
            0
        },
    }
}

pub open spec fn eval_coeff(c: Coeff, x: int) -> int {
    match c {
        Coeff::Int(k) => k as int,
        Coeff::CommitmentValue => x,
    }
}

/// The value of a linear combination, computed over the integers.
pub open spec fn eval_lc(lc: Seq<Term>, x: int, w: Seq<u32>) -> int
    decreases lc.len(),
{
    if lc.len() == 0 {
        0
    } else {
        eval_lc(lc.drop_last(), x, w) + eval_coeff(lc.last().coeff, x) * eval_var(lc.last().var, x, w)
    }
}

/// `a * b = c` holds over the integers, hence in every prime field.
pub open spec fn satisfied_by(c: ConstraintModel, x: int, w: Seq<u32>) -> bool {
    eval_lc(c.a, x, w) * eval_lc(c.b, x, w) == eval_lc(c.c, x, w)
}

pub open spec fn all_satisfied(cs: Seq<ConstraintModel>, x: int, w: Seq<u32>) -> bool {
    forall|i: int| 0 <= i < cs.len() ==> satisfied_by(#[trigger] cs[i], x, w)
}

pub open spec fn eval_term(t: Term, x: int, w: Seq<u32>) -> int {
    eval_coeff(t.coeff, x) * eval_var(t.var, x, w)
}

proof fn lemma_eval_short(lc: Seq<Term>, x: int, w: Seq<u32>)
    ensures
        lc.len() == 1 ==> eval_lc(lc, x, w) == eval_term(lc[0], x, w),
        lc.len() == 2 ==> eval_lc(lc, x, w) == eval_term(lc[0], x, w) + eval_term(lc[1], x, w),
        lc.len() == 3 ==> eval_lc(lc, x, w) == eval_term(lc[0], x, w) + eval_term(lc[1], x, w)
            + eval_term(lc[2], x, w),
{
    if lc.len() == 1 {
        assert(eval_lc(lc.drop_last(), x, w) == 0);
    } else if lc.len() == 2 {
        let d1 = lc.drop_last();
        assert(eval_lc(d1.drop_last(), x, w) == 0);
        assert(eval_lc(d1, x, w) == eval_lc(d1.drop_last(), x, w) + eval_term(d1.last(), x, w));
        assert(d1.last() == lc[0]);
    } else if lc.len() == 3 {
        let d1 = lc.drop_last();
        let d2 = d1.drop_last();
        assert(eval_lc(d2.drop_last(), x, w) == 0);
        assert(eval_lc(d2, x, w) == eval_lc(d2.drop_last(), x, w) + eval_term(d2.last(), x, w));
        assert(eval_lc(d1, x, w) == eval_lc(d2, x, w) + eval_term(d1.last(), x, w));
        assert(d2.last() == lc[0] && d1.last() == lc[1]);
    }
}

proof fn lemma_term_value(t: Term, k: int, j: int, x: int, w: Seq<u32>)
    requires
        t == term(k, Var::Witness(j as usize)),
        0 <= j < w.len() <= usize::MAX,
        i64::MIN <= k <= i64::MAX,
    ensures
        eval_term(t, x, w) == k * w[j],
{
    assert(eval_coeff(t.coeff, x) == k);
    assert(eval_var(t.var, x, w) == w[j] as int);
}

#[verifier::spinoff_prover]
#[verifier::rlimit(40)]
proof fn lemma_gadget_satisfied(s: StateModel, ins: Instruction, base: int, x: int, w: Seq<u32>)
    requires
        step(s, ins) is Ok,
        0 <= base,
        base + gadget(s, ins, base).0.len() <= w.len() <= usize::MAX,
        w.subrange(base, base + gadget(s, ins, base).0.len()) == gadget(s, ins, base).0,
    ensures
        all_satisfied(gadget(s, ins, base).1, x, w),
{
    let g = gadget(s, ins, base);
    assert forall|j: int| 0 <= j < g.0.len() implies w[base + j] == #[trigger] g.0[j] by {
        assert(w.subrange(base, base + g.0.len())[j] == w[base + j]);
    }
    assert forall|i: int| 0 <= i < g.1.len() implies satisfied_by(#[trigger] g.1[i], x, w) by {
        let c = g.1[i];
        lemma_eval_short(c.a, x, w);
        lemma_eval_short(c.b, x, w);
        lemma_eval_short(c.c, x, w);
        match ins.opcode {
            Opcode::ADD => {
                let a = s.stack.last();
                let b = s.stack.drop_last().last();
                assert(w[base] == a && w[base + 1] == b && w[base + 2] == wrapping_add_word(a, b)
                    && w[base + 3] == carry(a, b));
                if i == 0 {
                    lemma_term_value(c.a[0], 1, base, x, w);
                    lemma_term_value(c.a[1], 1, base + 1, x, w);
                    lemma_term_value(c.a[2], -0x1_0000_0000, base + 3, x, w);
                    lemma_term_value(c.c[0], 1, base + 2, x, w);
                    let k = carry(a, b) as int;
                    assert(w[base + 3] as int == k);
                    assert(eval_term(c.a[2], x, w) == -0x1_0000_0000 * k);
                    assert(w[base] as int == a as int);
                    assert(w[base + 1] as int == b as int);
                    assert(eval_term(c.a[0], x, w) == 1 * (w[base] as int));
                    assert(eval_term(c.a[1], x, w) == 1 * (w[base + 1] as int));
                    assert(c.a.len() == 3);
                    assert(eval_lc(c.a, x, w) == a as int + b as int - 0x1_0000_0000 * carry(a, b));
                    assert(eval_lc(c.c, x, w) == wrapping_add_word(a, b) as int);
                    assert(eval_lc(c.b, x, w) == 1);
                    assert(wrapping_add_word(a, b) as int == a as int + b as int - 0x1_0000_0000 * k);
                    assert(satisfied_by(c, x, w));
                } else {
                    lemma_term_value(c.a[0], 1, base + 3, x, w);
                    lemma_term_value(c.b[0], 1, base + 3, x, w);
                    lemma_term_value(c.c[0], 1, base + 3, x, w);
                    assert(w[base + 3] as int == carry(a, b) as int);
                    assert(c.a.len() == 1 && c.b.len() == 1 && c.c.len() == 1);
                    assert(eval_term(c.a[0], x, w) == 1 * (w[base + 3] as int));
                    assert(eval_term(c.b[0], x, w) == 1 * (w[base + 3] as int));
                    assert(eval_term(c.c[0], x, w) == 1 * (w[base + 3] as int));
                    assert(eval_lc(c.a, x, w) == carry(a, b) as int);
                    assert(eval_lc(c.b, x, w) == carry(a, b) as int);
                    assert(eval_lc(c.c, x, w) == carry(a, b) as int);
                    let k = carry(a, b) as int;
                    assert(k == 0 || k == 1);
                    assert(k * k == k) by (nonlinear_arith)
                        requires
                            k == 0 || k == 1,
                    ;
                    assert(satisfied_by(c, x, w));
                }
            },
            Opcode::SUB => {
                let a = s.stack.last();
                let b = s.stack.drop_last().last();
                assert(w[base] == a && w[base + 1] == b && w[base + 2] == (b - a) as u32);
                lemma_term_value(c.a[0], 1, base + 1, x, w);
                lemma_term_value(c.a[1], -1, base, x, w);
                lemma_term_value(c.c[0], 1, base + 2, x, w);
                assert(b >= a);
                assert(w[base] as int == a as int);
                assert(w[base + 1] as int == b as int);
                assert(w[base + 2] as int == b as int - a as int);
                assert(eval_term(c.a[0], x, w) == 1 * (w[base + 1] as int));
                assert(eval_term(c.a[1], x, w) == -1 * (w[base] as int));
                assert(eval_term(c.c[0], x, w) == 1 * (w[base + 2] as int));
                assert(c.a.len() == 2 && c.c.len() == 1);
                assert(eval_lc(c.a, x, w) == b as int - a as int);
                assert(eval_lc(c.c, x, w) == b as int - a as int);
                assert(eval_lc(c.b, x, w) == 1);
                assert(satisfied_by(c, x, w));
            },
            _ => {
                assert(eval_term(term(1, Var::One), x, w) == 1);
                assert(c.b == seq![term(1, Var::One)]);
                assert(eval_lc(c.b, x, w) == 1);
                assert(c.a == c.c);
                assert(eval_lc(c.a, x, w) * 1 == eval_lc(c.c, x, w));
            },
        }
    }
}


proof fn lemma_walk_satisfied(program: Seq<Instruction>, s: StateModel, base: int, x: int, w: Seq<u32>)
    requires
        run_from(program, s) is Ok,
        0 <= base,
        base + walk(program, s, base).0.len() <= w.len() <= usize::MAX,
        w.subrange(base, base + walk(program, s, base).0.len()) == walk(program, s, base).0,
    ensures
        all_satisfied(walk(program, s, base).1, x, w),
        walk(program, s, base).2 == run_from(program, s)->Ok_0.last().stack,
    decreases program.len() - s.pc,
{
    let all = walk(program, s, base);
    if s.pc < program.len() {
        let ins = program[s.pc as int];
        let t = step(s, ins)->Ok_0.0;
        let go = step(s, ins)->Ok_0.1;
        let g = gadget(s, ins, base);
        let n = g.0.len() as int;
        assert(w.subrange(base, base + n) =~= g.0) by {
            assert forall|j: int| 0 <= j < n implies w.subrange(base, base + n)[j] == g.0[j] by {
                assert(w.subrange(base, base + all.0.len())[j] == all.0[j]);
            }
        }
        lemma_gadget_satisfied(s, ins, base, x, w);
        if go {
            let r = walk(program, t, base + n);
            assert(w.subrange(base + n, base + n + r.0.len()) =~= r.0) by {
                assert forall|j: int| 0 <= j < r.0.len() implies w.subrange(
                    base + n,
                    base + n + r.0.len(),
                )[j] == r.0[j] by {
                    assert(w.subrange(base, base + all.0.len())[n + j] == all.0[n + j]);
                }
            }
            lemma_walk_satisfied(program, t, base + n, x, w);
            assert forall|i: int| 0 <= i < all.1.len() implies satisfied_by(
                #[trigger] all.1[i],
                x,
                w,
            ) by {
                if i < g.1.len() {
                    assert(all.1[i] == g.1[i]);
                } else {
                    assert(all.1[i] == r.1[i - g.1.len()]);
                }
            }
            let tr = run_from(program, t)->Ok_0;
            assert((seq![s] + tr).last() == tr.last());
        }
    }
}

/// For every successful run, the circuit laid out from its program and its
/// last state is satisfied by the layout's own witness assignment: each
/// constraint holds over the integers, hence in the scalar field, with the
/// commitment (read as a number `x`) as public input.
pub proof fn lemma_layout_satisfied(program: Seq<Instruction>, x: int)
    requires
        run_spec(program) is Ok,
        layout_spec(program, zero_state(), run_spec(program)->Ok_0.last().stack).0.len() <= usize::MAX,
    ensures
        all_satisfied(
            layout_spec(program, zero_state(), run_spec(program)->Ok_0.last().stack).1,
            x,
            layout_spec(program, zero_state(), run_spec(program)->Ok_0.last().stack).0,
        ),
{
    let fin = run_spec(program)->Ok_0.last().stack;
    let l = layout_spec(program, zero_state(), fin);
    let r = walk(program, zero_state(), 0);
    let w = l.0;
    let m = r.0.len() as int;
    assert(w.subrange(0, m) =~= r.0);
    lemma_walk_satisfied(program, zero_state(), 0, x, w);
    let one = seq![term(1, Var::One)];
    lemma_eval_short(one, x, w);
    assert(eval_lc(one, x, w) == 1);
    assert forall|i: int| 0 <= i < l.1.len() implies satisfied_by(#[trigger] l.1[i], x, w) by {
        let c = l.1[i];
        if i == 0 {
            let g = commitment_gate();
            assert(c == g);
            lemma_eval_short(g.a, x, w);
            lemma_eval_short(g.b, x, w);
            lemma_eval_short(g.c, x, w);
            assert(eval_var(Var::Commitment, x, w) == x);
            assert(eval_lc(g.a, x, w) == 1 * x);
            assert(eval_coeff(Coeff::CommitmentValue, x) == x);
            assert(eval_var(Var::One, x, w) == 1);
            assert(eval_term(g.c[0], x, w) == x * 1);
            assert(x * 1 == x) by (nonlinear_arith);
            assert(eval_lc(g.b, x, w) == 1);
            assert(satisfied_by(c, x, w));
            assert(eval_lc(g.c, x, w) == x);
        } else if i <= r.1.len() {
            assert(c == r.1[i - 1]);
            assert(satisfied_by(r.1[i - 1], x, w));
        } else {
            assert(r.2.len() > 0);
            assert(w[m] == r.2[0] && w[m + 1] == fin[0]);
            lemma_eval_short(c.a, x, w);
            lemma_eval_short(c.b, x, w);
            lemma_eval_short(c.c, x, w);
            assert(w.len() == m + 2);
            lemma_term_value(c.a[0], 1, m, x, w);
            lemma_term_value(c.c[0], 1, m + 1, x, w);
            assert(eval_lc(c.a, x, w) == w[m] as int);
            assert(eval_lc(c.c, x, w) == w[m + 1] as int);
            assert(eval_lc(c.b, x, w) == 1);
            assert(r.2 == fin);
            assert(w[m] == w[m + 1]);
            let (ea, eb, ec) = (eval_lc(c.a, x, w), eval_lc(c.b, x, w), eval_lc(c.c, x, w));
            assert(ea * eb == ec) by (nonlinear_arith)
                requires
                    eb == 1,
                    ea == ec,
            ;
            assert(satisfied_by(c, x, w));
        }
    }
}

} // verus!
