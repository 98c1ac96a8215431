//! The closed set of byte-transform operations a proof step can apply.

use vstd::prelude::*;
use crate::hashes::{sha256, sha1, ripemd160, sha256_of, sha1_of, ripemd160_of};
use crate::hexs::{hex_seq_of, hex_bytes};

verus! {

/// Mathematical model of an operation.
pub enum OpV {
    Sha1,
    Sha256,
    Ripemd160,
    Hexlify,
    Reverse,
    Append(Seq<u8>),
    Prepend(Seq<u8>),
}

/// A deterministic byte-transform operation.
pub enum Op {
    Sha1,
    Sha256,
    Ripemd160,
    Hexlify,
    Reverse,
    Append(Vec<u8>),
    Prepend(Vec<u8>),
}

impl View for Op {
    type V = OpV;

    open spec fn view(&self) -> OpV {
        match self {
            Op::Sha1 => OpV::Sha1,
            Op::Sha256 => OpV::Sha256,
            Op::Ripemd160 => OpV::Ripemd160,
            Op::Hexlify => OpV::Hexlify,
            Op::Reverse => OpV::Reverse,
            Op::Append(d) => OpV::Append(d@),
            Op::Prepend(d) => OpV::Prepend(d@),
        }
    }
}

/// The reversal of a byte sequence.
pub open spec fn rev_seq(b: Seq<u8>) -> Seq<u8> {
    Seq::new(b.len(), |i: int| b[b.len() - 1 - i])
}

/// What applying an operation to an input digest yields.
pub open spec fn op_apply(op: OpV, input: Seq<u8>) -> Seq<u8> {
    match op {
        OpV::Sha1 => sha1_of(input),
        OpV::Sha256 => sha256_of(input),
        OpV::Ripemd160 => ripemd160_of(input),
        OpV::Hexlify => hex_seq_of(input),
        OpV::Reverse => rev_seq(input),
        OpV::Append(d) => input + d,
        OpV::Prepend(d) => d + input,
    }
}

impl Op {
    /// Makes a deep copy of the operation.
    pub fn duplicate(&self) -> (r: Op)
        ensures
            r@ == self@,
    {
        match self {
            Op::Sha1 => Op::Sha1,
            Op::Sha256 => Op::Sha256,
            Op::Ripemd160 => Op::Ripemd160,
            Op::Hexlify => Op::Hexlify,
            Op::Reverse => Op::Reverse,
            Op::Append(d) => Op::Append(copy_bytes(d)),
            Op::Prepend(d) => Op::Prepend(copy_bytes(d)),
        }
    }

    /// Applies the operation to an input digest.
    pub fn execute(&self, input: &Vec<u8>) -> (r: Vec<u8>)
        requires
            match self@ {
                OpV::Hexlify => input@.len() * 2 <= usize::MAX,
                OpV::Append(d) => input@.len() + d.len() <= usize::MAX,
                OpV::Prepend(d) => input@.len() + d.len() <= usize::MAX,
                _ => true,
            },
        ensures
            r@ == op_apply(self@, input@),
    {
        match self {
            Op::Sha1 => sha1(input),
            Op::Sha256 => sha256(input),
            Op::Ripemd160 => ripemd160(input),
            Op::Hexlify => hex_bytes(input),
            Op::Reverse => {
                let mut out: Vec<u8> = Vec::new();
                let mut i: usize = input.len();
                while i > 0
                    invariant
                        i <= input@.len(),
                        out@.len() == input@.len() - i,
                        forall|j: int| 0 <= j < out@.len() ==> out@[j] == #[trigger] rev_seq(
                            input@,
                        )[j],
                    decreases i,
                {
                    i = i - 1;
                    out.push(input[i]);
                }
                assert(out@ =~= rev_seq(input@));
                out
            },
            Op::Append(d) => {
                let mut out = copy_bytes(input);
                let mut ext = copy_bytes(d);
                out.append(&mut ext);
                assert(out@ =~= input@ + d@);
                out
            },
            Op::Prepend(d) => {
                let mut out = copy_bytes(d);
                let mut ext = copy_bytes(input);
                out.append(&mut ext);
                assert(out@ =~= d@ + input@);
                out
            },
        }
    }
}

/// Makes a fresh copy of a byte vector.
pub fn copy_bytes(b: &Vec<u8>) -> (r: Vec<u8>)
    ensures
        r@ == b@,
{
    let mut out: Vec<u8> = Vec::new();
    let mut i: usize = 0;
    while i < b.len()
        invariant
            i <= b@.len(),
            out@ == b@.subrange(0, i as int),
        decreases b@.len() - i,
    {
        out.push(b[i]);
        i = i + 1;
    }
    assert(out@ =~= b@);
    out
}

/// Compares two byte vectors for equality of contents.
pub fn bytes_eq(a: &Vec<u8>, b: &Vec<u8>) -> (r: bool)
    ensures
        r == (a@ == b@),
{
    if a.len() != b.len() {
        assert(a@ != b@);
        return false;
    }
    let mut i: usize = 0;
    while i < a.len()
        invariant
            i <= a@.len(),
            a@.len() == b@.len(),
            forall|j: int| 0 <= j < i ==> a@[j] == b@[j],
        decreases a@.len() - i,
    {
        if a[i] != b[i] {
            return false;
        }
        i = i + 1;
    }
    assert(a@ =~= b@);
    true
}

} // verus!
