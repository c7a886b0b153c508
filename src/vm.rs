use vstd::prelude::*;

verus! {

/// The instruction set. Each opcode has a fixed numeric code, see `Opcode::code`.
#[derive(Clone, Copy, Debug, PartialEq, Eq, Structural)]
pub enum Opcode {
    PUSH,
    POP,
    ADD,
    SUB,
    JMP,
    JZ,
    LOAD,
    STORE,
    HALT,
}

/// An opcode with its optional word operand.
#[derive(Clone, Copy, Debug, PartialEq, Eq, Structural)]
pub struct Instruction {
    pub opcode: Opcode,
    pub operand: Option<u32>,
}

/// Why a run stopped before its end.
#[derive(Clone, Copy, Debug, PartialEq, Eq, Structural)]
pub enum VmError {
    MissingOperand,
    StackUnderflow,
    ArithmeticUnderflow,
    HeapMiss,
    UnsupportedOpcode,
    StepLimitExceeded,
}

/// A snapshot of the machine. The heap is kept as `(address, value)` pairs
/// sorted by strictly increasing address, which is its canonical order.
#[derive(Clone, Debug)]
pub struct ProvableState {
    pub pc: u32,
    pub stack: Vec<u32>,
    pub heap: Vec<(u32, u32)>,
    pub flags: u8,
}

/// The mathematical value of a snapshot.
pub struct StateModel {
    pub pc: nat,
    pub stack: Seq<u32>,
    pub heap: Seq<(u32, u32)>,
    pub flags: u8,
}

impl View for ProvableState {
    type V = StateModel;

    open spec fn view(&self) -> StateModel {
        StateModel { pc: self.pc as nat, stack: self.stack@, heap: self.heap@, flags: self.flags }
    }
}

/// The interpreter: a current state and the trace captured so far.
pub struct ProvableVM {
    pub pc: u32,
    pub stack: Vec<u32>,
    pub heap: Vec<(u32, u32)>,
    pub flags: u8,
    pub trace: Vec<ProvableState>,
}

pub open spec fn heap_sorted(h: Seq<(u32, u32)>) -> bool {
    forall|i: int, j: int| 0 <= i < j < h.len() ==> #[trigger] h[i].0 < #[trigger] h[j].0
}

/// The value stored at `addr`, if any.
pub open spec fn heap_lookup(h: Seq<(u32, u32)>, addr: u32) -> Option<u32> {
    if exists|i: int| 0 <= i < h.len() && h[i].0 == addr {
        Some(h[choose|i: int| 0 <= i < h.len() && h[i].0 == addr].1)
    } else {
        None
    }
}

/// The heap after writing `v` at `addr`, keeping addresses sorted and unique.
pub open spec fn heap_store(h: Seq<(u32, u32)>, addr: u32, v: u32) -> Seq<(u32, u32)>
    decreases h.len(),
{
    if h.len() == 0 {
        seq![(addr, v)]
    } else if addr < h[0].0 {
        seq![(addr, v)] + h
    } else if addr == h[0].0 {
        h.update(0, (addr, v))
    } else {
        seq![h[0]] + heap_store(h.drop_first(), addr, v)
    }
}

pub open spec fn zero_state() -> StateModel {
    StateModel { pc: 0, stack: Seq::empty(), heap: Seq::empty(), flags: 0 }
}

pub open spec fn wrapping_add_word(a: u32, b: u32) -> u32 {
    ((a as int + b as int) % 0x1_0000_0000) as u32
}

/// The state after a non-halting instruction: the given stack and heap, pc advanced.
pub open spec fn advance(s: StateModel, stack: Seq<u32>, heap: Seq<(u32, u32)>) -> StateModel {
    StateModel { pc: s.pc + 1, stack, heap, flags: s.flags }
}

/// One instruction on state `s`: the next state and whether execution goes on.
pub open spec fn step(s: StateModel, ins: Instruction) -> Result<(StateModel, bool), VmError> {
    let st = s.stack;
    match ins.opcode {
        Opcode::PUSH => match ins.operand {
            Some(v) => Ok((advance(s, st.push(v), s.heap), true)),
            None => Err(VmError::MissingOperand),
        },
        Opcode::POP => if st.len() >= 1 {
            Ok((advance(s, st.drop_last(), s.heap), true))
        } else {
            Err(VmError::StackUnderflow)
        },
        Opcode::ADD => if st.len() >= 2 {
            let a = st.last();
            let b = st.drop_last().last();
            Ok((advance(s, st.drop_last().drop_last().push(wrapping_add_word(a, b)), s.heap), true))
        } else {
            Err(VmError::StackUnderflow)
        },
        Opcode::SUB => if st.len() >= 2 {
            let a = st.last();
            let b = st.drop_last().last();
            if b >= a {
                Ok((advance(s, st.drop_last().drop_last().push((b - a) as u32), s.heap), true))
            } else {
                Err(VmError::ArithmeticUnderflow)
            }
        } else {
            Err(VmError::StackUnderflow)
        },
        Opcode::LOAD => match ins.operand {
            Some(addr) => match heap_lookup(s.heap, addr) {
                Some(v) => Ok((advance(s, st.push(v), s.heap), true)),
                None => Err(VmError::HeapMiss),
            },
            None => Err(VmError::MissingOperand),
        },
        Opcode::STORE => match ins.operand {
            Some(addr) => if st.len() >= 1 {
                Ok((advance(s, st.drop_last(), heap_store(s.heap, addr, st.last())), true))
            } else {
                Err(VmError::StackUnderflow)
            },
            None => Err(VmError::MissingOperand),
        },
        Opcode::HALT => Ok((s, false)),
        _ => Err(VmError::UnsupportedOpcode),
    }
}

pub open spec fn prepend(p: Seq<StateModel>, r: Result<Seq<StateModel>, VmError>) -> Result<
    Seq<StateModel>,
    VmError,
> {
    match r {
        Ok(t) => Ok(p + t),
        Err(e) => Err(e),
    }
}

/// The trace of running `program` from `s`: the state before each executed
/// instruction, then the state at the end (after HALT, or with pc past the end).
pub open spec fn run_from(program: Seq<Instruction>, s: StateModel) -> Result<
    Seq<StateModel>,
    VmError,
>
    decreases program.len() - s.pc,
{
    if s.pc >= program.len() {
        Ok(seq![s])
    } else {
        match step(s, program[s.pc as int]) {
            Err(e) => Err(e),
            Ok((t, go)) => if go {
                prepend(seq![s], run_from(program, t))
            } else {
                Ok(seq![s, t])
            },
        }
    }
}

/// `run_from` executing at most `max` instructions: where it would execute
/// another, the run fails with `StepLimitExceeded`.
pub open spec fn run_bounded(program: Seq<Instruction>, s: StateModel, max: nat) -> Result<
    Seq<StateModel>,
    VmError,
>
    decreases program.len() - s.pc,
{
    if s.pc >= program.len() {
        Ok(seq![s])
    } else if max == 0 {
        Err(VmError::StepLimitExceeded)
    } else {
        match step(s, program[s.pc as int]) {
            Err(e) => Err(e),
            Ok((t, go)) => if go {
                prepend(seq![s], run_bounded(program, t, (max - 1) as nat))
            } else {
                Ok(seq![s, t])
            },
        }
    }
}

/// With a bound at least the number of instructions left, the bound is never
/// reached.
pub proof fn lemma_bounded_run(program: Seq<Instruction>, s: StateModel, max: nat)
    requires
        max >= program.len() - s.pc,
    ensures
        run_bounded(program, s, max) == run_from(program, s),
    decreases program.len() - s.pc,
{
    if s.pc < program.len() {
        if let Ok((t, go)) = step(s, program[s.pc as int]) {
            if go {
                lemma_bounded_run(program, t, (max - 1) as nat);
            }
        }
    }
}

/// The trace of running `program` on a fresh machine.
pub open spec fn run_spec(program: Seq<Instruction>) -> Result<Seq<StateModel>, VmError> {
    run_from(program, zero_state())
}

proof fn lemma_prepend_concat(a: Seq<StateModel>, b: Seq<StateModel>, r: Result<Seq<StateModel>, VmError>)
    ensures
        prepend(a, prepend(b, r)) == prepend(a + b, r),
{
    if let Ok(t) = r {
        assert(a + (b + t) =~= (a + b) + t);
    }
}

pub(crate) fn copy_words(v: &Vec<u32>) -> (r: Vec<u32>)
    ensures
        r@ == v@,
{
    let mut r: Vec<u32> = Vec::new();
    let mut i: usize = 0;
    while i < v.len()
        invariant
            i <= v.len(),
            r@ == v@.subrange(0, i as int),
        decreases v.len() - i,
    {
        r.push(v[i]);
        i = i + 1;
        assert(r@ =~= v@.subrange(0, i as int));
    }
    assert(r@ =~= v@);
    r
}

pub(crate) fn copy_heap(v: &Vec<(u32, u32)>) -> (r: Vec<(u32, u32)>)
    ensures
        r@ == v@,
{
    let mut r: Vec<(u32, u32)> = Vec::new();
    let mut i: usize = 0;
    while i < v.len()
        invariant
            i <= v.len(),
            r@ == v@.subrange(0, i as int),
        decreases v.len() - i,
    {
        r.push(v[i]);
        i = i + 1;
        assert(r@ =~= v@.subrange(0, i as int));
    }
    assert(r@ =~= v@);
    r
}


proof fn lemma_heap_store_at(h: Seq<(u32, u32)>, addr: u32, v: u32, i: int)
    requires
        heap_sorted(h),
        0 <= i <= h.len(),
        forall|j: int| 0 <= j < i ==> #[trigger] h[j].0 < addr,
        i < h.len() ==> h[i].0 >= addr,
    ensures
        heap_store(h, addr, v) == if i < h.len() && h[i].0 == addr {
            h.update(i, (addr, v))
        } else {
            h.insert(i, (addr, v))
        },
    decreases i,
{
    if i == 0 {
        if h.len() == 0 {
            assert(seq![(addr, v)] =~= h.insert(0, (addr, v)));
        } else if addr < h[0].0 {
            assert(seq![(addr, v)] + h =~= h.insert(0, (addr, v)));
        }
    } else {
        let t = h.drop_first();
        assert forall|j: int| 0 <= j < i - 1 implies #[trigger] t[j].0 < addr by {
            assert(t[j] == h[j + 1]);
        }
        lemma_heap_store_at(t, addr, v, i - 1);
        assert(h[0].0 < addr);
        if i < h.len() && h[i].0 == addr {
            assert(seq![h[0]] + t.update(i - 1, (addr, v)) =~= h.update(i, (addr, v)));
        } else {
            assert(seq![h[0]] + t.insert(i - 1, (addr, v)) =~= h.insert(i, (addr, v)));
        }
    }
}

/// Looks up `addr` in a sorted heap.
pub(crate) fn heap_get(h: &Vec<(u32, u32)>, addr: u32) -> (r: Option<u32>)
    requires
        heap_sorted(h@),
    ensures
        r == heap_lookup(h@, addr),
{
    let mut i: usize = 0;
    while i < h.len()
        invariant
            i <= h.len(),
            heap_sorted(h@),
            forall|j: int| 0 <= j < i ==> #[trigger] h@[j].0 != addr,
        decreases h.len() - i,
    {
        if h[i].0 == addr {
            assert(h@[i as int].0 == addr);
            let ghost k = choose|k: int| 0 <= k < h@.len() && h@[k].0 == addr;
            assert(k == i as int) by {
                if k < i as int {
                } else if k > i as int {
                    assert(h@[i as int].0 < h@[k].0);
                }
            }
            return Some(h[i].1);
        }
        i = i + 1;
    }
    None
}

/// Writes `v` at `addr`, keeping the heap sorted.
fn heap_put(h: &mut Vec<(u32, u32)>, addr: u32, v: u32)
    requires
        heap_sorted(old(h)@),
    ensures
        final(h)@ == heap_store(old(h)@, addr, v),
        heap_sorted(final(h)@),
{
    let mut i: usize = 0;
    while i < h.len() && h[i].0 < addr
        invariant
            i <= h.len(),
            heap_sorted(h@),
            h@ == old(h)@,
            forall|j: int| 0 <= j < i ==> #[trigger] h@[j].0 < addr,
        decreases h.len() - i,
    {
        i = i + 1;
    }
    proof {
        lemma_heap_store_at(h@, addr, v, i as int);
    }
    let ghost h0 = h@;
    if i < h.len() && h[i].0 == addr {
        h.set(i, (addr, v));
        assert forall|a: int, b: int| 0 <= a < b < h@.len() implies #[trigger] h@[a].0 < #[trigger] h@[b].0 by {
            assert(h@[a].0 == h0[a].0 && h@[b].0 == h0[b].0);
        }
    } else {
        h.insert(i, (addr, v));
        assert forall|a: int, b: int| 0 <= a < b < h@.len() implies #[trigger] h@[a].0 < #[trigger] h@[b].0 by {
            if b < i {
                assert(h@[a] == h0[a] && h@[b] == h0[b]);
            } else if b == i {
                assert(h@[a] == h0[a]);
            } else if a < i {
                assert(h@[a] == h0[a] && h@[b] == h0[b - 1]);
                assert(h0[i as int].0 >= addr);
            } else if a == i {
                assert(h@[b] == h0[b - 1]);
                assert(h0[i as int].0 >= addr);
            } else {
                assert(h@[a] == h0[a - 1] && h@[b] == h0[b - 1]);
            }
        }
    }
}

impl ProvableVM {
    pub open spec fn wf(&self) -> bool {
        heap_sorted(self.heap@)
    }

    /// The current state as a snapshot value.
    pub open spec fn state_model(&self) -> StateModel {
        StateModel { pc: self.pc as nat, stack: self.stack@, heap: self.heap@, flags: self.flags }
    }

    /// The captured trace as snapshot values.
    pub open spec fn trace_model(&self) -> Seq<StateModel> {
        self.trace@.map_values(|s: ProvableState| s@)
    }

    /// A machine in the zero state with an empty trace.
    pub fn new() -> (r: Self)
        ensures
            r.wf(),
            r.state_model() == zero_state(),
            r.trace@.len() == 0,
    {
        let r = ProvableVM { pc: 0, stack: Vec::new(), heap: Vec::new(), flags: 0, trace: Vec::new() };
        assert(r.state_model() =~= zero_state());
        r
    }

    /// A copy of the current state.
    pub fn capture_state(&self) -> (r: ProvableState)
        ensures
            r@ == self.state_model(),
    {
        ProvableState {
            pc: self.pc,
            stack: copy_words(&self.stack),
            heap: copy_heap(&self.heap),
            flags: self.flags,
        }
    }

    /// Executes one instruction. `Ok(true)` means execution goes on, `Ok(false)`
    /// that the instruction was HALT. On an error the state is left unchanged.
    pub fn execute_instruction(&mut self, instruction: &Instruction) -> (r: Result<bool, VmError>)
        requires
            old(self).wf(),
            old(self).pc < u32::MAX,
        ensures
            final(self).wf(),
            final(self).trace == old(self).trace,
            match step(old(self).state_model(), *instruction) {
                Ok((t, go)) => r == Ok::<bool, VmError>(go) && final(self).state_model() == t,
                Err(e) => r == Err::<bool, VmError>(e) && final(self).state_model() == old(self).state_model(),
            },
    {
        let ghost s = self.state_model();
        match instruction.opcode {
            Opcode::PUSH => match instruction.operand {
                Some(v) => {
                    self.stack.push(v);
                },
                None => {
                    return Err(VmError::MissingOperand);
                },
            },
            Opcode::POP => {
                if self.stack.len() < 1 {
                    return Err(VmError::StackUnderflow);
                }
                self.stack.pop();
            },
            Opcode::ADD => {
                if self.stack.len() < 2 {
                    return Err(VmError::StackUnderflow);
                }
                let a = self.stack.pop().unwrap();
                let b = self.stack.pop().unwrap();
                let sum: u64 = a as u64 + b as u64;
                let r: u32 = if sum > 0xffff_ffff {
                    (sum - 0x1_0000_0000) as u32
                } else {
                    sum as u32
                };
                assert(r == wrapping_add_word(a, b));
                self.stack.push(r);
            },
            Opcode::SUB => {
                let n = self.stack.len();
                if n < 2 {
                    return Err(VmError::StackUnderflow);
                }
                if self.stack[n - 2] < self.stack[n - 1] {
                    return Err(VmError::ArithmeticUnderflow);
                }
                let a = self.stack.pop().unwrap();
                let b = self.stack.pop().unwrap();
                self.stack.push(b - a);
            },
            Opcode::LOAD => match instruction.operand {
                Some(addr) => match heap_get(&self.heap, addr) {
                    Some(v) => {
                        self.stack.push(v);
                    },
                    None => {
                        return Err(VmError::HeapMiss);
                    },
                },
                None => {
                    return Err(VmError::MissingOperand);
                },
            },
            Opcode::STORE => match instruction.operand {
                Some(addr) => {
                    if self.stack.len() < 1 {
                        return Err(VmError::StackUnderflow);
                    }
                    let v = self.stack.pop().unwrap();
                    heap_put(&mut self.heap, addr, v);
                },
                None => {
                    return Err(VmError::MissingOperand);
                },
            },
            Opcode::HALT => {
                return Ok(false);
            },
            _ => {
                return Err(VmError::UnsupportedOpcode);
            },
        }
        self.pc = self.pc + 1;
        Ok(true)
    }

    /// Runs `program` from the current state until HALT or until pc leaves the
    /// program, appending the state before each instruction and the final state
    /// to the trace.
    pub fn run_program(&mut self, program: &[Instruction]) -> (r: Result<(), VmError>)
        requires
            old(self).wf(),
            program@.len() <= u32::MAX,
        ensures
            match run_from(program@, old(self).state_model()) {
                Ok(t) => r is Ok && final(self).wf() && final(self).trace_model() == old(
                    self,
                ).trace_model() + t && final(self).state_model() == t.last(),
                Err(e) => r == Err::<(), VmError>(e),
            },
    {
        proof {
            lemma_bounded_run(program@, self.state_model(), u64::MAX as nat);
        }
        self.run_program_bounded(program, u64::MAX)
    }

    /// Runs `program` as `run_program` does, but executes at most `max_steps`
    /// instructions: a run that would execute more fails with
    /// `StepLimitExceeded`.
    pub fn run_program_bounded(&mut self, program: &[Instruction], max_steps: u64) -> (r: Result<
        (),
        VmError,
    >)
        requires
            old(self).wf(),
            program@.len() <= u32::MAX,
        ensures
            match run_bounded(program@, old(self).state_model(), max_steps as nat) {
                Ok(t) => r is Ok && final(self).wf() && final(self).trace_model() == old(
                    self,
                ).trace_model() + t && final(self).state_model() == t.last(),
                Err(e) => r == Err::<(), VmError>(e),
            },
    {
        let ghost s0 = self.state_model();
        let ghost t0 = self.trace_model();
        let ghost n0 = self.trace@.len() as int;
        let mut done = false;
        let mut left: u64 = max_steps;
        assert(self.trace_model().subrange(n0, n0) =~= Seq::<StateModel>::empty());
        assert(Seq::<StateModel>::empty() + run_bounded(program@, s0, max_steps as nat)->Ok_0 =~= run_bounded(program@, s0, max_steps as nat)->Ok_0);
        while !done && (self.pc as usize) < program.len()
            invariant
                self.wf(),
                program@.len() <= u32::MAX,
                done ==> self.pc < program@.len(),
                s0 == old(self).state_model(),
                t0 == old(self).trace_model(),
                self.trace_model().len() == self.trace@.len(),
                0 <= n0 <= self.trace@.len(),
                self.trace_model().subrange(0, n0) == t0,
                run_bounded(program@, s0, max_steps as nat) == prepend(
                    self.trace_model().subrange(n0, self.trace@.len() as int),
                    if done {
                        Ok(seq![self.state_model()])
                    } else {
                        run_bounded(program@, self.state_model(), left as nat)
                    },
                ),
            decreases (if self.pc <= program@.len() {
                program@.len() - self.pc
            } else {
                0int
            }) + (if done {
                0int
            } else {
                1int
            }),
        {
            let ins = program[self.pc as usize];
            let ghost cur = self.state_model();
            let ghost p = self.trace_model().subrange(n0, self.trace@.len() as int);
            if left == 0 {
                assert(run_bounded(program@, cur, 0) == Err::<Seq<StateModel>, VmError>(
                    VmError::StepLimitExceeded,
                ));
                return Err(VmError::StepLimitExceeded);
            }
            assert(run_bounded(program@, s0, max_steps as nat) == prepend(p, run_bounded(program@, cur, left as nat)));
            let ghost tm = self.trace_model();
            let st = self.capture_state();
            self.trace.push(st);
            assert(self.trace_model() =~= tm.push(cur));
            assert(tm.subrange(0, n0) == t0);
            assert(tm.push(cur).subrange(0, n0) =~= tm.subrange(0, n0));
            assert(tm.push(cur).subrange(n0, tm.len() as int + 1) =~= p + seq![cur]);
            assert(self.trace_model().subrange(n0, self.trace@.len() as int) =~= p + seq![cur]);
            let ghost left0 = left as nat;
            let res = self.execute_instruction(&ins);
            left = left - 1;
            match res {
                Err(e) => {
                    assert(ins == program@[cur.pc as int]);
                    assert(run_bounded(program@, cur, left0) == Err::<Seq<StateModel>, VmError>(e));
                    assert(run_bounded(program@, s0, max_steps as nat) == Err::<Seq<StateModel>, VmError>(e));
                    return Err(e);
                },
                Ok(go) => {
                    proof {
                            lemma_prepend_concat(
                            p,
                            seq![cur],
                            run_bounded(program@, self.state_model(), left as nat),
                        );
                        lemma_prepend_concat(p, seq![cur], Ok(seq![cur]));
                        assert(seq![cur] + seq![cur] =~= seq![cur, cur]);
                    }
                    if !go {
                        done = true;
                    }
                },
            }
        }
        let ghost p = self.trace_model().subrange(n0, self.trace@.len() as int);
        let ghost cur = self.state_model();
        let ghost tm = self.trace_model();
        let st = self.capture_state();
        self.trace.push(st);
        assert(self.trace_model() =~= tm.push(cur));
        assert(tm =~= tm.subrange(0, n0) + p);
        assert(self.trace_model() =~= t0 + (p + seq![cur]));
        Ok(())
    }
}


/// The number of instructions executed when running `program` from `s`
/// (HALT counts as executed).
pub open spec fn steps_executed(program: Seq<Instruction>, s: StateModel) -> nat
    decreases program.len() - s.pc,
{
    if s.pc >= program.len() {
        0
    } else {
        match step(s, program[s.pc as int]) {
            Ok((t, go)) => if go {
                1 + steps_executed(program, t)
            } else {
                1
            },
            Err(_) => 1,
        }
    }
}

/// A successful run's trace has one state per executed instruction, plus the
/// final state.
pub proof fn lemma_trace_length(program: Seq<Instruction>, s: StateModel)
    ensures
        run_from(program, s) is Ok ==> run_from(program, s)->Ok_0.len() == steps_executed(
            program,
            s,
        ) + 1,
    decreases program.len() - s.pc,
{
    if s.pc < program.len() {
        if let Ok((t, go)) = step(s, program[s.pc as int]) {
            if go {
                lemma_trace_length(program, t);
            }
        }
    }
}

/// What a successful run's trace `t` from `s` satisfies: it starts at `s`, it
/// ends with pc at the end of the program or at an executed HALT, and each
/// state is the one that the instruction at the previous state's pc leads to.
pub open spec fn trace_agrees(program: Seq<Instruction>, s: StateModel, t: Seq<StateModel>) -> bool {
    &&& t.len() >= 1
    &&& t[0] == s
    &&& (t.last().pc == program.len() || (t.last().pc < program.len() && program[t.last().pc as int].opcode
        == Opcode::HALT))
    &&& forall|i: int|
        0 <= i < t.len() - 1 ==> #[trigger] t[i].pc < program.len() && step(
            t[i],
            program[t[i].pc as int],
        ) is Ok && step(t[i], program[t[i].pc as int])->Ok_0.0 == t[i + 1]
}

proof fn lemma_run_agrees(program: Seq<Instruction>, s: StateModel)
    requires
        s.pc <= program.len(),
    ensures
        run_from(program, s) is Ok ==> trace_agrees(program, s, run_from(program, s)->Ok_0),
    decreases program.len() - s.pc,
{
    if s.pc < program.len() {
        if let Ok((t, go)) = step(s, program[s.pc as int]) {
            if go {
                lemma_run_agrees(program, t);
                if let Ok(r) = run_from(program, t) {
                    let full = seq![s] + r;
                    assert forall|i: int| 0 <= i < full.len() - 1 implies #[trigger] full[i].pc
                        < program.len() && step(full[i], program[full[i].pc as int]) is Ok && step(
                        full[i],
                        program[full[i].pc as int],
                    )->Ok_0.0 == full[i + 1] by {
                        if i > 0 {
                            assert(full[i] == r[i - 1]);
                            assert(full[i + 1] == r[i]);
                        }
                    }
                }
            } else {
                let full = seq![s, t];
                assert forall|i: int| 0 <= i < full.len() - 1 implies #[trigger] full[i].pc
                    < program.len() && step(full[i], program[full[i].pc as int]) is Ok && step(
                    full[i],
                    program[full[i].pc as int],
                )->Ok_0.0 == full[i + 1] by {
                    assert(i == 0);
                }
            }
        }
    }
}

/// A successful run from the zero state has a trace that starts at the zero
/// state, ends with pc at the program's end or at the executing HALT, and whose
/// every pair of neighbours is one step of the machine.
pub proof fn lemma_endpoint_agreement(program: Seq<Instruction>)
    ensures
        run_spec(program) is Ok ==> trace_agrees(program, zero_state(), run_spec(program)->Ok_0),
{
    lemma_run_agrees(program, zero_state());
}

} // verus!
