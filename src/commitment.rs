use vstd::prelude::*;
use crate::encoding::{encodable, encode_trace, trace_bytes};
use crate::vm::{run_spec, Instruction, ProvableState, ProvableVM, StateModel};

verus! {

/// The SHA-256 digest of a byte string.
pub uninterp spec fn sha256_of(data: Seq<u8>) -> Seq<u8>;

/// Relies on sha2's `Sha256::digest`: the SHA-256 digest of `data`, which is
/// 32 bytes long (`OutputSize = U32`).
#[verifier::external_body]
fn sha256(data: &Vec<u8>) -> (r: Vec<u8>)
    ensures
        r@ == sha256_of(data@),
        r@.len() == 32,
{
    <sha2::Sha256 as sha2::Digest>::digest(data).to_vec()
}

/// The lowercase hexadecimal digit of a nibble.
pub open spec fn hex_digit(n: u8) -> char {
    seq!['0', '1', '2', '3', '4', '5', '6', '7', '8', '9', 'a', 'b', 'c', 'd', 'e', 'f'][n as int]
}

/// Two lowercase hexadecimal digits per byte, high nibble first.
pub open spec fn hex_of(b: Seq<u8>) -> Seq<char>
    decreases b.len(),
{
    if b.len() == 0 {
        Seq::empty()
    } else {
        hex_of(b.drop_last()) + seq![hex_digit(b.last() / 16), hex_digit(b.last() % 16)]
    }
}

/// Relies on `hex::encode`: each byte as two lowercase hexadecimal digits,
/// high nibble first, in order.
#[verifier::external_body]
fn hex_encode(b: &Vec<u8>) -> (r: String)
    ensures
        r@ == hex_of(b@),
{
    hex::encode(b)
}

/// The commitment to a trace: the SHA-256 digest of its canonical encoding.
pub open spec fn commitment_of(t: Seq<StateModel>) -> Seq<u8> {
    sha256_of(trace_bytes(t))
}

impl ProvableVM {
    /// The commitment to the captured trace.
    pub fn generate_trace_commitment(&self) -> (r: Vec<u8>)
        requires
            forall|i: int| 0 <= i < self.trace@.len() ==> encodable(#[trigger] self.trace@[i]@),
        ensures
            r@ == commitment_of(self.trace_model()),
            r@.len() == 32,
    {
        let bytes = encode_trace(&self.trace);
        sha256(&bytes)
    }
}

/// The text of the trace-commitment file, without its line terminator: the
/// digest in lowercase hexadecimal.
pub fn commitment_hex(digest: &Vec<u8>) -> (r: String)
    ensures
        r@ == hex_of(digest@),
{
    hex_encode(digest)
}

/// The commitment is a function of the trace's contents: equal traces have
/// equal commitments, whatever states or machines captured them.
pub proof fn lemma_commitment_purity(a: Seq<ProvableState>, b: Seq<ProvableState>)
    requires
        a.map_values(|s: ProvableState| s@) == b.map_values(|s: ProvableState| s@),
    ensures
        commitment_of(a.map_values(|s: ProvableState| s@)) == commitment_of(
            b.map_values(|s: ProvableState| s@),
        ),
{
}


/// Running a program twice gives the same trace, hence the same commitment.
pub proof fn lemma_run_deterministic(program: Seq<Instruction>, a: Seq<StateModel>, b: Seq<StateModel>)
    requires
        run_spec(program) == Ok::<Seq<StateModel>, crate::vm::VmError>(a),
        run_spec(program) == Ok::<Seq<StateModel>, crate::vm::VmError>(b),
    ensures
        a == b,
        commitment_of(a) == commitment_of(b),
{
}

} // verus!
