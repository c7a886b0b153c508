use vstd::prelude::*;
use crate::vm::{
    heap_store, run_from, run_spec, step, zero_state, Instruction, Opcode, ProvableState, StateModel,
};

verus! {

/// The four little-endian bytes of `x`.
pub open spec fn le32(x: u32) -> Seq<u8> {
    seq![
        (x & 0xff) as u8,
        ((x >> 8u32) & 0xff) as u8,
        ((x >> 16u32) & 0xff) as u8,
        ((x >> 24u32) & 0xff) as u8,
    ]
}


/// The word whose little-endian bytes stand at `b[pos..pos + 4]`.
pub open spec fn read_le32(b: Seq<u8>, pos: int) -> u32 {
    (b[pos] as u32) | ((b[pos + 1] as u32) << 8u32) | ((b[pos + 2] as u32) << 16u32) | ((
    b[pos + 3] as u32) << 24u32)
}

/// The stack entries, bottom to top, four bytes each.
pub open spec fn words_bytes(s: Seq<u32>) -> Seq<u8>
    decreases s.len(),
{
    if s.len() == 0 {
        Seq::empty()
    } else {
        words_bytes(s.drop_last()) + le32(s.last())
    }
}

/// The heap entries in their (address-sorted) order, address then value.
pub open spec fn heap_bytes(h: Seq<(u32, u32)>) -> Seq<u8>
    decreases h.len(),
{
    if h.len() == 0 {
        Seq::empty()
    } else {
        heap_bytes(h.drop_last()) + le32(h.last().0) + le32(h.last().1)
    }
}

/// The canonical encoding of one state.
pub open spec fn state_bytes(s: StateModel) -> Seq<u8> {
    le32(s.pc as u32) + le32(s.stack.len() as u32) + words_bytes(s.stack) + le32(
        s.heap.len() as u32,
    ) + heap_bytes(s.heap) + seq![s.flags]
}

/// The canonical encodings of the states of a trace, in order.
pub open spec fn trace_bytes(t: Seq<StateModel>) -> Seq<u8>
    decreases t.len(),
{
    if t.len() == 0 {
        Seq::empty()
    } else {
        trace_bytes(t.drop_last()) + state_bytes(t.last())
    }
}

/// A state that the canonical encoding can hold: its lengths fit in four bytes.
pub open spec fn encodable(s: StateModel) -> bool {
    s.stack.len() <= u32::MAX && s.heap.len() <= u32::MAX
}

pub open spec fn opcode_code(op: Opcode) -> u32 {
    match op {
        Opcode::PUSH => 1,
        Opcode::POP => 2,
        Opcode::ADD => 3,
        Opcode::SUB => 4,
        Opcode::JMP => 5,
        Opcode::JZ => 6,
        Opcode::LOAD => 7,
        Opcode::STORE => 8,
        Opcode::HALT => 9,
    }
}

pub open spec fn opcode_of(code: u32) -> Option<Opcode> {
    if code == 1 {
        Some(Opcode::PUSH)
    } else if code == 2 {
        Some(Opcode::POP)
    } else if code == 3 {
        Some(Opcode::ADD)
    } else if code == 4 {
        Some(Opcode::SUB)
    } else if code == 5 {
        Some(Opcode::JMP)
    } else if code == 6 {
        Some(Opcode::JZ)
    } else if code == 7 {
        Some(Opcode::LOAD)
    } else if code == 8 {
        Some(Opcode::STORE)
    } else if code == 9 {
        Some(Opcode::HALT)
    } else {
        None
    }
}

/// Opcode code, operand-present flag, and the operand if present.
pub open spec fn instruction_bytes(i: Instruction) -> Seq<u8> {
    le32(opcode_code(i.opcode)) + match i.operand {
        Some(v) => seq![1u8] + le32(v),
        None => seq![0u8],
    }
}

/// The instruction encoded at `b[pos..]` and the position after it, if the
/// bytes there are a valid encoding.
pub open spec fn decode_instruction_at(b: Seq<u8>, pos: int) -> Option<(Instruction, int)> {
    if 0 <= pos && pos + 5 <= b.len() {
        match opcode_of(read_le32(b, pos)) {
            None => None,
            Some(op) => if b[pos + 4] == 0 {
                Some((Instruction { opcode: op, operand: None }, pos + 5))
            } else if b[pos + 4] == 1 && pos + 9 <= b.len() {
                Some((Instruction { opcode: op, operand: Some(read_le32(b, pos + 5)) }, pos + 9))
            } else {
                None
            },
        }
    } else {
        None
    }
}

pub proof fn lemma_read_le32(x: u32)
    ensures
        read_le32(le32(x), 0) == x,
{
    let b = le32(x);
    let b0 = (x & 0xff) as u8;
    let b1 = ((x >> 8u32) & 0xff) as u8;
    let b2 = ((x >> 16u32) & 0xff) as u8;
    let b3 = ((x >> 24u32) & 0xff) as u8;
    assert(b[0] == b0 && b[1] == b1 && b[2] == b2 && b[3] == b3);
    assert((b0 as u32) | ((b1 as u32) << 8u32) | ((b2 as u32) << 16u32) | ((b3 as u32) << 24u32)
        == x) by (bit_vector)
        requires
            b0 == (x & 0xff) as u8,
            b1 == ((x >> 8u32) & 0xff) as u8,
            b2 == ((x >> 16u32) & 0xff) as u8,
            b3 == ((x >> 24u32) & 0xff) as u8,
    ;
}

/// Decoding an encoded instruction gives the instruction back, and stops right
/// after its encoding.
pub proof fn lemma_instruction_round_trip(i: Instruction)
    ensures
        decode_instruction_at(instruction_bytes(i), 0) == Some(
            (i, instruction_bytes(i).len() as int),
        ),
{
    let b = instruction_bytes(i);
    lemma_read_le32(opcode_code(i.opcode));
    assert(b.subrange(0, 4) =~= le32(opcode_code(i.opcode)));
    assert(read_le32(b, 0) == read_le32(le32(opcode_code(i.opcode)), 0));
    if let Some(v) = i.operand {
        lemma_read_le32(v);
        assert(read_le32(b, 5) == read_le32(le32(v), 0));
    }
}

fn push_le32(out: &mut Vec<u8>, x: u32)
    ensures
        final(out)@ == old(out)@ + le32(x),
{
    out.push((x & 0xff) as u8);
    out.push(((x >> 8) & 0xff) as u8);
    out.push(((x >> 16) & 0xff) as u8);
    out.push(((x >> 24) & 0xff) as u8);
    assert(out@ =~= old(out)@ + le32(x));
}

/// Appends the canonical encoding of `s` to `out`.
pub fn encode_state(s: &ProvableState, out: &mut Vec<u8>)
    requires
        encodable(s@),
    ensures
        final(out)@ == old(out)@ + state_bytes(s@),
{
    push_le32(out, s.pc);
    push_le32(out, s.stack.len() as u32);
    let ghost o1 = out@;
    let mut i: usize = 0;
    while i < s.stack.len()
        invariant
            i <= s.stack@.len(),
            out@ == o1 + words_bytes(s.stack@.subrange(0, i as int)),
        decreases s.stack@.len() - i,
    {
        let ghost before = s.stack@.subrange(0, i as int);
        push_le32(out, s.stack[i]);
        i = i + 1;
        assert(s.stack@.subrange(0, i as int).drop_last() =~= before);
        assert(out@ =~= o1 + words_bytes(s.stack@.subrange(0, i as int)));
    }
    assert(s.stack@.subrange(0, i as int) =~= s.stack@);
    push_le32(out, s.heap.len() as u32);
    let ghost o2 = out@;
    let mut j: usize = 0;
    while j < s.heap.len()
        invariant
            j <= s.heap@.len(),
            out@ == o2 + heap_bytes(s.heap@.subrange(0, j as int)),
        decreases s.heap@.len() - j,
    {
        let ghost before = s.heap@.subrange(0, j as int);
        let (a, v) = s.heap[j];
        push_le32(out, a);
        push_le32(out, v);
        j = j + 1;
        assert(s.heap@.subrange(0, j as int).drop_last() =~= before);
        assert(out@ =~= o2 + heap_bytes(s.heap@.subrange(0, j as int)));
    }
    assert(s.heap@.subrange(0, j as int) =~= s.heap@);
    out.push(s.flags);
    assert(out@ =~= old(out)@ + state_bytes(s@));
}

/// The canonical encoding of a whole trace.
pub fn encode_trace(trace: &Vec<ProvableState>) -> (r: Vec<u8>)
    requires
        forall|i: int| 0 <= i < trace@.len() ==> encodable(#[trigger] trace@[i]@),
    ensures
        r@ == trace_bytes(trace@.map_values(|s: ProvableState| s@)),
{
    let ghost t = trace@.map_values(|s: ProvableState| s@);
    let mut out: Vec<u8> = Vec::new();
    let mut i: usize = 0;
    while i < trace.len()
        invariant
            i <= trace@.len(),
            t == trace@.map_values(|s: ProvableState| s@),
            forall|k: int| 0 <= k < trace@.len() ==> encodable(#[trigger] trace@[k]@),
            out@ == trace_bytes(t.subrange(0, i as int)),
        decreases trace@.len() - i,
    {
        let ghost before = t.subrange(0, i as int);
        encode_state(&trace[i], &mut out);
        i = i + 1;
        assert(t.subrange(0, i as int).drop_last() =~= before);
    }
    assert(t.subrange(0, i as int) =~= t);
    out
}

impl Opcode {
    /// The opcode's numeric code.
    pub fn code(&self) -> (r: u32)
        ensures
            r == opcode_code(*self),
    {
        match self {
            Opcode::PUSH => 1,
            Opcode::POP => 2,
            Opcode::ADD => 3,
            Opcode::SUB => 4,
            Opcode::JMP => 5,
            Opcode::JZ => 6,
            Opcode::LOAD => 7,
            Opcode::STORE => 8,
            Opcode::HALT => 9,
        }
    }

    /// The opcode with the given code, if any.
    pub fn from_code(code: u32) -> (r: Option<Opcode>)
        ensures
            r == opcode_of(code),
    {
        match code {
            1 => Some(Opcode::PUSH),
            2 => Some(Opcode::POP),
            3 => Some(Opcode::ADD),
            4 => Some(Opcode::SUB),
            5 => Some(Opcode::JMP),
            6 => Some(Opcode::JZ),
            7 => Some(Opcode::LOAD),
            8 => Some(Opcode::STORE),
            9 => Some(Opcode::HALT),
            _ => None,
        }
    }
}

impl Instruction {
    /// Appends the encoding of this instruction to `out`.
    pub fn encode(&self, out: &mut Vec<u8>)
        ensures
            final(out)@ == old(out)@ + instruction_bytes(*self),
    {
        push_le32(out, self.opcode.code());
        match self.operand {
            Some(v) => {
                out.push(1);
                push_le32(out, v);
            },
            None => {
                out.push(0);
            },
        }
        assert(out@ =~= old(out)@ + instruction_bytes(*self));
    }

    /// Decodes the instruction at `bytes[pos..]`, with the position after it.
    pub fn decode(bytes: &Vec<u8>, pos: usize) -> (r: Option<(Instruction, usize)>)
        ensures
            match decode_instruction_at(bytes@, pos as int) {
                Some((i, next)) => r is Some && (r->Some_0).0 == i && (r->Some_0).1 as int == next,
                None => r is None,
            },
    {
        if pos > bytes.len() || bytes.len() - pos < 5 {
            return None;
        }
        let code = read_word(bytes, pos);
        let op = match Opcode::from_code(code) {
            Some(op) => op,
            None => {
                return None;
            },
        };
        let flag = bytes[pos + 4];
        if flag == 0 {
            Some((Instruction { opcode: op, operand: None }, pos + 5))
        } else if flag == 1 && bytes.len() - pos >= 9 {
            Some((Instruction { opcode: op, operand: Some(read_word(bytes, pos + 5)) }, pos + 9))
        } else {
            None
        }
    }
}

fn read_word(bytes: &Vec<u8>, pos: usize) -> (r: u32)
    requires
        pos + 4 <= bytes@.len(),
    ensures
        r == read_le32(bytes@, pos as int),
{
    let n = bytes.len();
    assert(pos + 4 <= n);
    (bytes[pos] as u32) | ((bytes[pos + 1] as u32) << 8) | ((bytes[pos + 2] as u32) << 16) | ((
    bytes[pos + 3] as u32) << 24)
}


/// The 64-bit little-endian integer at `b[pos..pos + 8]`.
pub open spec fn read_le64(b: Seq<u8>, pos: int) -> u64 {
    (read_le32(b, pos) as u64) | ((read_le32(b, pos + 4) as u64) << 32u64)
}

/// `n` instructions decoded one after another from `b[pos..]`, which must end
/// exactly at the end of `b`.
pub open spec fn decode_instructions(b: Seq<u8>, pos: int, n: nat) -> Option<Seq<Instruction>>
    decreases n,
{
    if n == 0 {
        if pos == b.len() {
            Some(Seq::empty())
        } else {
            None
        }
    } else {
        match decode_instruction_at(b, pos) {
            Some((i, next)) => match decode_instructions(b, next, (n - 1) as nat) {
                Some(rest) => Some(seq![i] + rest),
                None => None,
            },
            None => None,
        }
    }
}

/// A program file: an 8-byte little-endian instruction count, then the
/// instructions, and nothing after them.
pub open spec fn decode_program_bytes(b: Seq<u8>) -> Option<Seq<Instruction>> {
    if b.len() >= 8 {
        decode_instructions(b, 8, read_le64(b, 0) as nat)
    } else {
        None
    }
}

pub open spec fn prefixed(a: Seq<Instruction>, o: Option<Seq<Instruction>>) -> Option<Seq<Instruction>> {
    match o {
        Some(x) => Some(a + x),
        None => None,
    }
}

/// Decodes a program file; `None` if the bytes are not a well-formed program.
pub fn decode_program(bytes: &Vec<u8>) -> (r: Option<Vec<Instruction>>)
    ensures
        match decode_program_bytes(bytes@) {
            Some(p) => r is Some && r->Some_0@ == p,
            None => r is None,
        },
{
    if bytes.len() < 8 {
        return None;
    }
    let count: u64 = (read_word(bytes, 0) as u64) | ((read_word(bytes, 4) as u64) << 32);
    let mut program: Vec<Instruction> = Vec::new();
    let mut pos: usize = 8;
    let mut k: u64 = 0;
    assert(prefixed(program@, decode_instructions(bytes@, 8, count as nat)) == decode_instructions(
        bytes@,
        8,
        count as nat,
    )) by {
        if let Some(x) = decode_instructions(bytes@, 8, count as nat) {
            assert(program@ + x =~= x);
        }
    }
    while k < count
        invariant
            k <= count,
            count == read_le64(bytes@, 0),
            bytes@.len() >= 8,
            decode_program_bytes(bytes@) == prefixed(
                program@,
                decode_instructions(bytes@, pos as int, (count - k) as nat),
            ),
        decreases count - k,
    {
        let res = Instruction::decode(bytes, pos);
        if res.is_none() {
            return None;
        }
        let (ins, next) = res.unwrap();
        let ghost spec_res = decode_instruction_at(bytes@, pos as int);
        assert(spec_res is Some);
        assert(spec_res->Some_0.0 == ins);
        assert(spec_res->Some_0.1 == next as int);
        let ghost before = program@;
        let ghost rest = decode_instructions(bytes@, next as int, (count - k - 1) as nat);
        assert(decode_instructions(bytes@, pos as int, (count - k) as nat) == prefixed(
            seq![ins],
            rest,
        ));
        program.push(ins);
        pos = next;
        k = k + 1;
        proof {
            if let Some(x) = rest {
                assert(before + (seq![ins] + x) =~= program@ + x);
            }
        }
    }
    if pos == bytes.len() {
        assert(program@ + Seq::<Instruction>::empty() =~= program@);
        Some(program)
    } else {
        None
    }
}


proof fn lemma_heap_store_len(h: Seq<(u32, u32)>, addr: u32, v: u32)
    ensures
        heap_store(h, addr, v).len() <= h.len() + 1,
    decreases h.len(),
{
    if h.len() > 0 && addr > h[0].0 {
        lemma_heap_store_len(h.drop_first(), addr, v);
    }
}

/// `t` grew from `b` by at most one stack entry and one heap entry per
/// instruction.
spec fn grew_slowly(b: StateModel, t: StateModel) -> bool {
    &&& b.pc <= t.pc
    &&& t.stack.len() <= b.stack.len() + (t.pc - b.pc)
    &&& t.heap.len() <= b.heap.len() + (t.pc - b.pc)
}

proof fn lemma_run_growth(program: Seq<Instruction>, b: StateModel, s: StateModel)
    requires
        grew_slowly(b, s),
        s.pc <= program.len(),
    ensures
        run_from(program, s) is Ok ==> forall|i: int|
            0 <= i < run_from(program, s)->Ok_0.len() ==> grew_slowly(
                b,
                #[trigger] run_from(program, s)->Ok_0[i],
            ) && run_from(program, s)->Ok_0[i].pc <= program.len(),
    decreases program.len() - s.pc,
{
    if s.pc < program.len() {
        let ins = program[s.pc as int];
        if let Ok((t, go)) = step(s, ins) {
            if let Some(addr) = ins.operand {
                if ins.opcode == Opcode::STORE && s.stack.len() >= 1 {
                    lemma_heap_store_len(s.heap, addr, s.stack.last());
                }
            }
            assert(grew_slowly(b, t));
            if go {
                lemma_run_growth(program, b, t);
                if let Ok(r) = run_from(program, t) {
                    let full = seq![s] + r;
                    assert forall|i: int| 0 <= i < full.len() implies grew_slowly(
                        b,
                        #[trigger] full[i],
                    ) && full[i].pc <= program.len() by {
                        if i > 0 {
                            assert(full[i] == r[i - 1]);
                        }
                    }
                }
            } else {
                let two = seq![s, t];
                assert forall|i: int| 0 <= i < 2 implies grew_slowly(b, #[trigger] two[i])
                    && two[i].pc <= program.len() by {}
            }
        }
    }
}

/// Every state of a successful run on a fresh machine can be encoded: its
/// stack and heap grow by at most one entry per instruction.
pub proof fn lemma_run_encodable(program: Seq<Instruction>)
    requires
        program.len() <= u32::MAX,
    ensures
        run_spec(program) is Ok ==> forall|i: int|
            0 <= i < run_spec(program)->Ok_0.len() ==> encodable(
                #[trigger] run_spec(program)->Ok_0[i],
            ),
{
    lemma_run_growth(program, zero_state(), zero_state());
}


/// The encodings of the instructions of `p`, one after another.
pub open spec fn instructions_bytes(p: Seq<Instruction>) -> Seq<u8>
    decreases p.len(),
{
    if p.len() == 0 {
        Seq::empty()
    } else {
        instruction_bytes(p[0]) + instructions_bytes(p.drop_first())
    }
}

/// A program file: the instruction count as eight little-endian bytes, then
/// the instructions.
pub open spec fn program_bytes(p: Seq<Instruction>) -> Seq<u8> {
    le32(((p.len() as u64) & 0xffff_ffff) as u32) + le32(((p.len() as u64) >> 32u64) as u32)
        + instructions_bytes(p)
}

proof fn lemma_instructions_bytes_push(p: Seq<Instruction>, i: Instruction)
    ensures
        instructions_bytes(p.push(i)) == instructions_bytes(p) + instruction_bytes(i),
    decreases p.len(),
{
    if p.len() == 0 {
        assert(p.push(i).drop_first() =~= Seq::<Instruction>::empty());
        assert(p.push(i)[0] == i);
        assert(instructions_bytes(Seq::<Instruction>::empty()) == Seq::<u8>::empty());
        assert(instructions_bytes(p) == Seq::<u8>::empty());
        assert(instructions_bytes(p.push(i)) =~= instruction_bytes(i));
    } else {
        assert(p.push(i).drop_first() =~= p.drop_first().push(i));
        lemma_instructions_bytes_push(p.drop_first(), i);
        assert(instructions_bytes(p.push(i)) =~= instructions_bytes(p) + instruction_bytes(i));
    }
}

proof fn lemma_decode_in_context(pre: Seq<u8>, i: Instruction, post: Seq<u8>)
    ensures
        decode_instruction_at(pre + instruction_bytes(i) + post, pre.len() as int) == Some(
            (i, (pre.len() + instruction_bytes(i).len()) as int),
        ),
{
    let ib = instruction_bytes(i);
    let b = pre + ib + post;
    let pos = pre.len() as int;
    assert forall|k: int| 0 <= k < ib.len() implies b[pos + k] == ib[k] by {}
    lemma_instruction_round_trip(i);
    assert(read_le32(b, pos) == read_le32(ib, 0));
    if i.operand is Some {
        assert(read_le32(b, pos + 5) == read_le32(ib, 5));
    }
}

proof fn lemma_decode_instructions(pre: Seq<u8>, p: Seq<Instruction>)
    ensures
        decode_instructions(pre + instructions_bytes(p), pre.len() as int, p.len()) == Some(p),
    decreases p.len(),
{
    if p.len() == 0 {
        assert(pre + instructions_bytes(p) =~= pre);
    } else {
        let ib = instruction_bytes(p[0]);
        let rest = p.drop_first();
        let b = pre + instructions_bytes(p);
        assert(b =~= pre + ib + instructions_bytes(rest));
        assert(b =~= (pre + ib) + instructions_bytes(rest));
        lemma_decode_in_context(pre, p[0], instructions_bytes(rest));
        lemma_decode_instructions(pre + ib, rest);
        assert(seq![p[0]] + rest =~= p);
    }
}

/// Decoding an encoded program gives the program back.
pub proof fn lemma_program_round_trip(p: Seq<Instruction>)
    requires
        p.len() <= u64::MAX,
    ensures
        decode_program_bytes(program_bytes(p)) == Some(p),
{
    let n = p.len() as u64;
    let b = program_bytes(p);
    let lo = (n & 0xffff_ffff) as u32;
    let hi = (n >> 32u64) as u32;
    lemma_read_le32(lo);
    lemma_read_le32(hi);
    assert(read_le32(b, 0) == read_le32(le32(lo), 0));
    assert(read_le32(b, 4) == read_le32(le32(hi), 0));
    assert(((lo as u64) | ((hi as u64) << 32u64)) == n) by (bit_vector)
        requires
            lo == (n & 0xffff_ffff) as u32,
            hi == (n >> 32u64) as u32,
    ;
    assert(b =~= (le32(lo) + le32(hi)) + instructions_bytes(p));
    lemma_decode_instructions(le32(lo) + le32(hi), p);
}

/// The program file of `program`.
pub fn encode_program(program: &[Instruction]) -> (r: Vec<u8>)
    ensures
        r@ == program_bytes(program@),
{
    let n = program.len() as u64;
    let mut out: Vec<u8> = Vec::new();
    push_le32(&mut out, (n & 0xffff_ffff) as u32);
    push_le32(&mut out, (n >> 32) as u32);
    let ghost head = out@;
    let mut i: usize = 0;
    assert(program@.subrange(0, 0) =~= Seq::<Instruction>::empty());
    assert(out@ =~= head + instructions_bytes(program@.subrange(0, 0)));
    while i < program.len()
        invariant
            i <= program@.len(),
            out@ == head + instructions_bytes(program@.subrange(0, i as int)),
        decreases program@.len() - i,
    {
        let ghost before = program@.subrange(0, i as int);
        program[i].encode(&mut out);
        proof {
            lemma_instructions_bytes_push(before, program@[i as int]);
            assert(program@.subrange(0, i + 1) =~= before.push(program@[i as int]));
        }
        i = i + 1;
    }
    assert(program@.subrange(0, i as int) =~= program@);
    out
}

} // verus!
