//! The detached-proof wire format: tag-prefixed steps under a magic
//! header, with base-128 variable-length integers.

use vstd::prelude::*;
use crate::attestation::{Attestation, AttV};
use crate::error::Error;
use crate::op::{Op, OpV, op_apply, copy_bytes};
use crate::timestamp::{
    Step, StepData, StepV, StepDataV, Timestamp, TimestampV, step_view, steps_view,
    lemma_steps_view, step_wf, ts_wf, child_ok,
};

verus! {

/// The hash function that produced a file's starting digest.
#[derive(Clone, Copy, PartialEq, Eq, Structural, Debug)]
pub enum DigestType {
    Sha1,
    Sha256,
    Ripemd160,
}

/// The one-byte tag of a digest type.
pub open spec fn digest_tag(t: DigestType) -> u8 {
    match t {
        DigestType::Sha1 => 0x02,
        DigestType::Sha256 => 0x08,
        DigestType::Ripemd160 => 0x03,
    }
}

/// The length in bytes of a digest of this type.
pub open spec fn digest_len(t: DigestType) -> nat {
    match t {
        DigestType::Sha1 => 20,
        DigestType::Sha256 => 32,
        DigestType::Ripemd160 => 20,
    }
}

impl DigestType {
    /// The one-byte tag of this digest type.
    pub fn to_tag(&self) -> (r: u8)
        ensures
            r == digest_tag(*self),
    {
        match self {
            DigestType::Sha1 => 0x02,
            DigestType::Sha256 => 0x08,
            DigestType::Ripemd160 => 0x03,
        }
    }

    /// The digest type a one-byte tag denotes, if any.
    pub fn from_tag(tag: u8) -> (r: Option<DigestType>)
        ensures
            match r {
                Some(t) => digest_tag(t) == tag,
                None => tag != 0x02 && tag != 0x08 && tag != 0x03,
            },
    {
        match tag {
            0x02 => Some(DigestType::Sha1),
            0x03 => Some(DigestType::Ripemd160),
            0x08 => Some(DigestType::Sha256),
            _ => None,
        }
    }

    /// The length in bytes of a digest of this type.
    pub fn length(&self) -> (r: usize)
        ensures
            r == digest_len(*self),
    {
        match self {
            DigestType::Sha1 => 20,
            DigestType::Sha256 => 32,
            DigestType::Ripemd160 => 20,
        }
    }
}

/// Mathematical model of a detached timestamp file.
#[verifier::ext_equal]
pub struct FileV {
    pub digest_type: DigestType,
    pub timestamp: TimestampV,
}

/// A detached timestamp file: the digest type of the starting digest
/// plus the timestamp proper. This is the unit of persistence.
pub struct DetachedTimestampFile {
    /// The hash function that produced the starting digest.
    pub digest_type: DigestType,
    /// The timestamp data.
    pub timestamp: Timestamp,
}

impl View for DetachedTimestampFile {
    type V = FileV;

    open spec fn view(&self) -> FileV {
        FileV { digest_type: self.digest_type, timestamp: self.timestamp@ }
    }
}

/// The magic bytes every detached proof file starts with.
pub open spec fn magic() -> Seq<u8> {
    seq![
        0x00u8, 0x4fu8, 0x70u8, 0x65u8, 0x6eu8, 0x54u8, 0x69u8, 0x6du8, 0x65u8, 0x73u8, 0x74u8,
        0x61u8, 0x6du8, 0x70u8, 0x73u8, 0x00u8, 0x00u8, 0x50u8, 0x72u8, 0x6fu8, 0x6fu8, 0x66u8,
        0x00u8, 0xbfu8, 0x89u8, 0xe2u8, 0xe8u8, 0x84u8, 0xe8u8, 0x92u8, 0x94u8,
    ]
}

/// The eight-byte tag of a Bitcoin attestation.
pub open spec fn bitcoin_tag() -> Seq<u8> {
    seq![0x05u8, 0x88u8, 0x96u8, 0x0du8, 0x73u8, 0xd7u8, 0x19u8, 0x01u8]
}

/// The eight-byte tag of a pending attestation.
pub open spec fn pending_tag() -> Seq<u8> {
    seq![0x83u8, 0xdfu8, 0xe3u8, 0x0du8, 0x2eu8, 0xf9u8, 0x0cu8, 0x8eu8]
}

/// The canonical base-128 encoding of an unsigned integer, least
/// significant seven bits first, high bit marking continuation.
pub open spec fn ser_uint(n: nat) -> Seq<u8>
    decreases n,
{
    if n < 128 {
        seq![n as u8]
    } else {
        seq![((n % 128) + 128) as u8] + ser_uint(n / 128)
    }
}

/// A length-prefixed byte string.
pub open spec fn ser_bytes(b: Seq<u8>) -> Seq<u8> {
    ser_uint(b.len()) + b
}

/// Whether a character may appear in a pending attestation's URI:
/// letters, digits, and `.` `-` `_` `/` `:`.
pub open spec fn uri_char_ok(c: char) -> bool {
    uri_byte_ok(c as u8) && (c as u32) < 128
}

/// Whether a byte may appear in a pending attestation's URI.
pub open spec fn uri_byte_ok(b: u8) -> bool {
    (97 <= b && b <= 122) || (65 <= b && b <= 90) || (48 <= b && b <= 57) || b == 46 || b == 45
        || b == 95 || b == 47 || b == 58
}

/// Whether a URI is well-formed: at most 1000 characters, all from the
/// restricted set.
pub open spec fn uri_ok(u: Seq<char>) -> bool {
    u.len() <= 1000 && forall|i: int| 0 <= i < u.len() ==> uri_char_ok(#[trigger] u[i])
}

/// The ASCII bytes of a URI.
pub open spec fn uri_bytes(u: Seq<char>) -> Seq<u8> {
    u.map(|_i: int, c: char| c as u8)
}

/// Whether an attestation can be written and read back: a pending URI is
/// well-formed, an unknown tag is eight bytes and not a reserved tag.
pub open spec fn att_shape_ok(a: AttV) -> bool {
    match a {
        AttV::Bitcoin { height } => true,
        AttV::Pending { uri } => uri_ok(uri),
        AttV::Unknown { tag, data } => tag.len() == 8 && tag != bitcoin_tag() && tag
            != pending_tag() && data.len() <= usize::MAX,
    }
}

/// The wire form of an attestation: an eight-byte type tag followed by a
/// length-prefixed payload.
pub open spec fn ser_att(a: AttV) -> Seq<u8> {
    match a {
        AttV::Bitcoin { height } => bitcoin_tag() + ser_bytes(ser_uint(height as nat)),
        AttV::Pending { uri } => pending_tag() + ser_bytes(
            ser_uint(uri.len()) + uri_bytes(uri),
        ),
        AttV::Unknown { tag, data } => tag + ser_bytes(data),
    }
}

/// The one-byte tag of an operation.
pub open spec fn op_tag(op: OpV) -> u8 {
    match op {
        OpV::Sha1 => 0x02,
        OpV::Sha256 => 0x08,
        OpV::Ripemd160 => 0x03,
        OpV::Hexlify => 0xf3,
        OpV::Reverse => 0xf2,
        OpV::Append(_) => 0xf0,
        OpV::Prepend(_) => 0xf1,
    }
}

/// Whether an operation can be written and read back: appended or
/// prepended data is between 1 and 4096 bytes.
pub open spec fn op_shape_ok(op: OpV) -> bool {
    match op {
        OpV::Append(d) => 1 <= d.len() <= 4096,
        OpV::Prepend(d) => 1 <= d.len() <= 4096,
        _ => true,
    }
}

/// The wire form of an operation: its tag, then for append and prepend
/// the length-prefixed data.
pub open spec fn ser_op(op: OpV) -> Seq<u8> {
    match op {
        OpV::Append(d) => seq![0xf0u8] + ser_bytes(d),
        OpV::Prepend(d) => seq![0xf1u8] + ser_bytes(d),
        _ => seq![op_tag(op)],
    }
}

/// Whether a step tree can be written and read back unchanged: an
/// attestation step is a leaf, an operation step has exactly one child,
/// a fork has at least two children and its last child is not itself a
/// fork (a trailing fork would be flattened into its parent on reading).
pub open spec fn step_shape_ok(s: StepV) -> bool
    decreases s,
{
    match s.data {
        StepDataV::Attestation(a) => s.next.len() == 0 && att_shape_ok(a),
        StepDataV::Op(op) => s.next.len() == 1 && op_shape_ok(op) && step_shape_ok(s.next[0]),
        StepDataV::Fork => s.next.len() >= 2 && !(s.next.last().data is Fork) && forall|i: int|
            0 <= i < s.next.len() ==> step_shape_ok(#[trigger] s.next[i]),
    }
}

/// The wire form of a step tree: an attestation is `0x00` plus the
/// attestation; an operation is the op followed by its continuation; a
/// fork writes `0xff` before each child but the last.
pub open spec fn ser_step(s: StepV) -> Seq<u8>
    decreases s, 1int,
{
    match s.data {
        StepDataV::Attestation(a) => seq![0x00u8] + ser_att(a),
        StepDataV::Op(op) => ser_op(op) + if s.next.len() > 0 {
            ser_step(s.next[0])
        } else {
            Seq::empty()
        },
        StepDataV::Fork => ser_forked(s.next),
    }
}

/// The wire form of a fork's children: `0xff` before each child but the
/// last.
pub open spec fn ser_forked(cs: Seq<StepV>) -> Seq<u8>
    decreases cs, 0int,
{
    if cs.len() == 0 {
        Seq::empty()
    } else if cs.len() == 1 {
        ser_step(cs[0])
    } else {
        seq![0xffu8] + ser_step(cs[0]) + ser_forked(cs.drop_first())
    }
}

/// Whether a file can be written and read back unchanged: the starting
/// digest has the length its type demands and the tree has the wire
/// shape.
pub open spec fn file_shape_ok(f: FileV) -> bool {
    f.timestamp.start_digest.len() == digest_len(f.digest_type) && step_shape_ok(
        f.timestamp.first_step,
    )
}

/// The wire form of a detached timestamp file: magic, version 1, digest
/// type tag, the starting digest, then the step tree.
pub open spec fn ser_file(f: FileV) -> Seq<u8> {
    magic() + ser_uint(1) + seq![digest_tag(f.digest_type)] + f.timestamp.start_digest + ser_step(
        f.timestamp.first_step,
    )
}

/// How many bytes a variable-length integer may at most occupy.
pub open spec fn varint_limit() -> nat {
    10
}

/// Parses a base-128 integer from the front of `s`, reading at most
/// `depth` bytes and rejecting values above `usize::MAX`; yields the
/// value and the number of bytes consumed.
pub open spec fn spec_parse_uint(s: Seq<u8>, depth: nat) -> Option<(nat, int)>
    decreases depth,
{
    if depth == 0 || s.len() == 0 {
        None
    } else if s[0] < 128 {
        Some((s[0] as nat, 1))
    } else {
        match spec_parse_uint(s.skip(1), (depth - 1) as nat) {
            None => None,
            Some((v, n)) => {
                let t = (s[0] - 128) as nat + 128 * v;
                if t > usize::MAX as nat {
                    None
                } else {
                    Some((t, n + 1))
                }
            },
        }
    }
}

/// Parses a length-prefixed byte string whose length must lie between
/// `min` and `max`.
pub open spec fn spec_parse_varbytes(s: Seq<u8>, min: nat, max: nat) -> Option<(Seq<u8>, int)> {
    match spec_parse_uint(s, varint_limit()) {
        None => None,
        Some((l, n)) => if l < min || l > max || n + l > s.len() {
            None
        } else {
            Some((s.subrange(n, n + l), n + l))
        },
    }
}

/// Parses an attestation: an eight-byte tag, a payload length, then the
/// payload as the tag demands. The payload length is not checked against
/// the payload for the known tags.
pub open spec fn spec_parse_att(s: Seq<u8>) -> Option<(AttV, int)> {
    if s.len() < 8 {
        None
    } else {
        let tag = s.take(8);
        match spec_parse_uint(s.skip(8), varint_limit()) {
            None => None,
            Some((plen, n1)) => {
                let body = s.skip(8 + n1);
                if tag == bitcoin_tag() {
                    match spec_parse_uint(body, varint_limit()) {
                        None => None,
                        Some((h, n2)) => Some(
                            (AttV::Bitcoin { height: h as usize }, 8 + n1 + n2),
                        ),
                    }
                } else if tag == pending_tag() {
                    match spec_parse_varbytes(body, 0, 1000) {
                        None => None,
                        Some((ub, n2)) => if forall|i: int|
                            0 <= i < ub.len() ==> uri_byte_ok(#[trigger] ub[i]) {
                            Some(
                                (
                                    AttV::Pending { uri: ub.map(|_i: int, b: u8| b as char) },
                                    8 + n1 + n2,
                                ),
                            )
                        } else {
                            None
                        },
                    }
                } else {
                    if plen > body.len() {
                        None
                    } else {
                        Some(
                            (
                                AttV::Unknown { tag: tag, data: body.take(plen as int) },
                                8 + n1 + plen,
                            ),
                        )
                    }
                }
            },
        }
    }
}

/// Whether applying an operation to a digest of this length stays
/// within the machine's address space.
pub open spec fn op_fits(op: OpV, d: Seq<u8>) -> bool {
    match op {
        OpV::Hexlify => 2 * d.len() <= usize::MAX,
        OpV::Append(e) => d.len() + e.len() <= usize::MAX,
        OpV::Prepend(e) => d.len() + e.len() <= usize::MAX,
        _ => true,
    }
}

/// Every digest in the tree fits in the machine's address space.
pub open spec fn step_lens_ok(s: StepV) -> bool
    decreases s,
{
    s.output.len() <= usize::MAX && forall|i: int|
        0 <= i < s.next.len() ==> step_lens_ok(#[trigger] s.next[i])
}

/// The view of any in-memory step satisfies the length bounds.
pub proof fn lemma_step_view_lens(s: Step)
    ensures
        step_lens_ok(s@),
    decreases s,
{
    assert(vstd::std_specs::vec::spec_vec_len(&s.output) == s.output@.len());
    lemma_steps_view(s.next@);
    assert forall|i: int| 0 <= i < s@.next.len() implies step_lens_ok(#[trigger] s@.next[i]) by {
        assert(s@.next[i] == step_view(s.next@[i]));
        lemma_step_view_lens(s.next@[i]);
    };
}

/// Parses an operation from its one-byte tag, with length-prefixed data
/// for append and prepend.
pub open spec fn spec_parse_op(s: Seq<u8>) -> Option<(OpV, int)> {
    if s.len() == 0 {
        None
    } else {
        let tag = s[0];
        if tag == 0x02 {
            Some((OpV::Sha1, 1))
        } else if tag == 0x08 {
            Some((OpV::Sha256, 1))
        } else if tag == 0x03 {
            Some((OpV::Ripemd160, 1))
        } else if tag == 0xf3 {
            Some((OpV::Hexlify, 1))
        } else if tag == 0xf2 {
            Some((OpV::Reverse, 1))
        } else if tag == 0xf0 {
            match spec_parse_varbytes(s.skip(1), 1, 4096) {
                None => None,
                Some((d, n)) => Some((OpV::Append(d), 1 + n)),
            }
        } else if tag == 0xf1 {
            match spec_parse_varbytes(s.skip(1), 1, 4096) {
                None => None,
                Some((d, n)) => Some((OpV::Prepend(d), 1 + n)),
            }
        } else {
            None
        }
    }
}

/// Parses one step with input digest `d`: `0x00` starts an attestation
/// leaf, `0xff` a fork, any other byte an operation whose output feeds
/// its single continuation.
pub open spec fn spec_parse_step(s: Seq<u8>, d: Seq<u8>) -> Option<(StepV, int)>
    decreases s.len(), 0int,
{
    if s.len() == 0 {
        None
    } else {
        let tag = s[0];
        if tag == 0x00 {
            match spec_parse_att(s.skip(1)) {
                None => None,
                Some((a, n)) => Some(
                    (
                        StepV { data: StepDataV::Attestation(a), output: d, next: Seq::empty() },
                        1 + n,
                    ),
                ),
            }
        } else if tag == 0xff {
            match spec_parse_fork(s.skip(1), d) {
                None => None,
                Some((cs, n)) => Some((StepV { data: StepDataV::Fork, output: d, next: cs }, 1 + n)),
            }
        } else {
            match spec_parse_op(s) {
                None => None,
                Some((op, n)) => {
                    if n < 1 || n > s.len() || !op_fits(op, d) {
                        None
                    } else {
                        let out = op_apply(op, d);
                        match spec_parse_step(s.skip(n), out) {
                            None => None,
                            Some((c, m)) => Some(
                                (
                                    StepV { data: StepDataV::Op(op), output: out, next: seq![c] },
                                    n + m,
                                ),
                            ),
                        }
                    }
                },
            }
        }
    }
}

/// Parses the children of a fork whose first `0xff` has been consumed:
/// children separated by `0xff` bytes, ending with the first child that
/// is not preceded by one.
pub open spec fn spec_parse_fork(s: Seq<u8>, d: Seq<u8>) -> Option<(Seq<StepV>, int)>
    decreases s.len(), 1int,
{
    match spec_parse_step(s, d) {
        None => None,
        Some((c, n)) => {
            if n < 1 || n >= s.len() {
                None
            } else {
                let t = s[n];
                if t == 0xff {
                    match spec_parse_fork(s.skip(n + 1), d) {
                        None => None,
                        Some((cs, m)) => Some((seq![c] + cs, n + 1 + m)),
                    }
                } else {
                    match spec_parse_step(s.skip(n), d) {
                        None => None,
                        Some((c2, m)) => Some((seq![c] + seq![c2], n + m)),
                    }
                }
            }
        },
    }
}

/// Parses a whole detached timestamp file: magic, version 1, digest
/// type, starting digest, the step tree, and nothing after it.
pub open spec fn spec_parse_file(s: Seq<u8>) -> Option<FileV> {
    if s.len() < 31 || s.take(31) != magic() {
        None
    } else {
        match spec_parse_uint(s.skip(31), varint_limit()) {
            None => None,
            Some((v, n)) => if v != 1 {
                None
            } else {
                let rest = s.skip(31 + n);
                if rest.len() < 1 {
                    None
                } else {
                    let dt = if rest[0] == 0x02 {
                        Some(DigestType::Sha1)
                    } else if rest[0] == 0x03 {
                        Some(DigestType::Ripemd160)
                    } else if rest[0] == 0x08 {
                        Some(DigestType::Sha256)
                    } else {
                        None
                    };
                    match dt {
                        None => None,
                        Some(dt) => {
                            let dl = digest_len(dt) as int;
                            if rest.len() < 1 + dl {
                                None
                            } else {
                                let digest = rest.subrange(1, 1 + dl);
                                match spec_parse_step(rest.skip(1 + dl), digest) {
                                    None => None,
                                    Some((st, m)) => if 1 + dl + m == rest.len() {
                                        Some(
                                            FileV {
                                                digest_type: dt,
                                                timestamp: TimestampV {
                                                    start_digest: digest,
                                                    first_step: st,
                                                },
                                            },
                                        )
                                    } else {
                                        None
                                    },
                                }
                            }
                        },
                    }
                }
            },
        }
    }
}

/// 128 raised to a power.
pub open spec fn pow128(k: nat) -> nat
    decreases k,
{
    if k == 0 {
        1
    } else {
        128 * pow128((k - 1) as nat)
    }
}

/// The canonical encoding of `n < 128^k` takes at most `k` bytes.
proof fn lemma_ser_uint_len_bound(n: nat, k: nat)
    requires
        k >= 1,
        n < pow128(k),
    ensures
        1 <= ser_uint(n).len() <= k,
    decreases k,
{
    if n >= 128 {
        assert(pow128(k) == 128 * pow128((k - 1) as nat));
        assert(n / 128 < pow128((k - 1) as nat)) by (nonlinear_arith)
            requires
                n < 128 * pow128((k - 1) as nat),
        ;
        assert(k >= 2) by {
            if k == 1 {
                assert(pow128(1nat) == 128);
            }
        }
        lemma_ser_uint_len_bound(n / 128, (k - 1) as nat);
    }
}

/// The canonical encoding of a machine-sized value takes at most ten
/// bytes.
proof fn lemma_ser_uint_len(n: nat)
    requires
        n <= usize::MAX as nat,
    ensures
        1 <= ser_uint(n).len() <= varint_limit(),
{
    assert(pow128(10nat) == 1180591620717411303424) by {
        reveal_with_fuel(pow128, 11);
    }
    assert((usize::MAX as nat) < pow128(10nat));
    lemma_ser_uint_len_bound(n, 10nat);
}

/// Parsing the canonical encoding of `n` yields `n` and consumes
/// exactly the encoding.
proof fn lemma_uint_roundtrip(n: nat, rest: Seq<u8>, depth: nat)
    requires
        n <= usize::MAX as nat,
        ser_uint(n).len() <= depth,
    ensures
        spec_parse_uint(ser_uint(n) + rest, depth) == Some((n, ser_uint(n).len() as int)),
    decreases n,
{
    let s = ser_uint(n) + rest;
    if n < 128 {
        assert(s[0] == n as u8);
    } else {
        assert(s[0] == ((n % 128) + 128) as u8);
        assert(s[0] >= 128);
        assert(s.skip(1) =~= ser_uint(n / 128) + rest);
        lemma_uint_roundtrip(n / 128, rest, (depth - 1) as nat);
        assert((s[0] - 128) as nat + 128 * (n / 128) == n) by {
            assert(n % 128 + 128 * (n / 128) == n);
        }
    }
}

/// Parsing a length-prefixed byte string yields the bytes and consumes
/// exactly the encoding.
proof fn lemma_varbytes_roundtrip(b: Seq<u8>, rest: Seq<u8>, min: nat, max: nat)
    requires
        min <= b.len() <= max,
        max <= usize::MAX as nat,
    ensures
        spec_parse_varbytes(ser_bytes(b) + rest, min, max) == Some(
            (b, ser_bytes(b).len() as int),
        ),
{
    let s = ser_bytes(b) + rest;
    lemma_ser_uint_len(b.len());
    assert(s =~= ser_uint(b.len()) + (b + rest));
    lemma_uint_roundtrip(b.len(), b + rest, varint_limit());
    let n = ser_uint(b.len()).len() as int;
    assert(s.subrange(n, n + b.len()) =~= b);
}

proof fn lemma_att_roundtrip_bitcoin(height: usize, rest: Seq<u8>)
    ensures
        spec_parse_att(ser_att(AttV::Bitcoin { height }) + rest) == Some(
            (AttV::Bitcoin { height }, ser_att(AttV::Bitcoin { height }).len() as int),
        ),
{
    let a = AttV::Bitcoin { height };
    let s = ser_att(a) + rest;
    let p = ser_uint(height as nat);
    lemma_ser_uint_len(height as nat);
    assert(s.take(8) =~= bitcoin_tag());
    assert(s.skip(8) =~= ser_uint(p.len()) + (p + rest));
    lemma_uint_roundtrip(p.len(), p + rest, varint_limit());
    let n1 = ser_uint(p.len()).len() as int;
    assert(s.skip(8 + n1) =~= p + rest);
    lemma_uint_roundtrip(height as nat, rest, varint_limit());
    assert((height as nat) as usize == height);
}

/// Narrowing an ASCII character to a byte and widening it again gives
/// the character back.
proof fn lemma_ascii_char_cast(c: char)
    requires
        (c as u32) < 128,
    ensures
        (c as u8) as char == c,
{
}

#[verifier::rlimit(50)]
proof fn lemma_att_roundtrip_pending(uri: Seq<char>, rest: Seq<u8>)
    requires
        uri_ok(uri),
    ensures
        spec_parse_att(ser_att(AttV::Pending { uri }) + rest) == Some(
            (AttV::Pending { uri }, ser_att(AttV::Pending { uri }).len() as int),
        ),
{
    let a = AttV::Pending { uri };
    let s = ser_att(a) + rest;
    let ub = uri_bytes(uri);
    let p = ser_uint(uri.len()) + ub;
    assert(ub.len() == uri.len());
    assert(s.take(8) =~= pending_tag());
    assert(s.take(8) != bitcoin_tag());
    lemma_ser_uint_len(uri.len());
    lemma_ser_uint_len(p.len());
    assert(s.skip(8) =~= ser_uint(p.len()) + (p + rest));
    lemma_uint_roundtrip(p.len(), p + rest, varint_limit());
    let n1 = ser_uint(p.len()).len() as int;
    assert(s.skip(8 + n1) =~= ser_bytes(ub) + rest) by {
        assert(ser_bytes(ub) =~= ser_uint(ub.len()) + ub);
        assert(s.skip(8 + n1) =~= p + rest);
        assert(p + rest =~= (ser_uint(uri.len()) + ub) + rest);
    }
    lemma_varbytes_roundtrip(ub, rest, 0, 1000);
    assert forall|i: int| 0 <= i < ub.len() implies uri_byte_ok(#[trigger] ub[i]) by {
        assert(uri_char_ok(uri[i]));
        assert(ub[i] == uri[i] as u8);
    };
    assert forall|i: int| 0 <= i < ub.len() implies (#[trigger] ub[i]) as char == uri[i] by {
        let c = uri[i];
        assert(uri_char_ok(c));
        assert(ub[i] == c as u8);
        lemma_ascii_char_cast(c);
    };
    assert(ub.map(|_i: int, b: u8| b as char) =~= uri);
}

proof fn lemma_att_roundtrip_unknown(tag: Seq<u8>, data: Seq<u8>, rest: Seq<u8>)
    requires
        att_shape_ok(AttV::Unknown { tag, data }),
    ensures
        spec_parse_att(ser_att(AttV::Unknown { tag, data }) + rest) == Some(
            (AttV::Unknown { tag, data }, ser_att(AttV::Unknown { tag, data }).len() as int),
        ),
{
    let a = AttV::Unknown { tag, data };
    let s = ser_att(a) + rest;
    assert(s.take(8) =~= tag);
    lemma_ser_uint_len(data.len());
    assert(s.skip(8) =~= ser_uint(data.len()) + (data + rest));
    lemma_uint_roundtrip(data.len(), data + rest, varint_limit());
    let n1 = ser_uint(data.len()).len() as int;
    assert(s.skip(8 + n1) =~= data + rest);
    assert((data + rest).take(data.len() as int) =~= data);
}

/// Parsing a serialized well-formed attestation yields it back and
/// consumes exactly the encoding.
proof fn lemma_att_roundtrip(a: AttV, rest: Seq<u8>)
    requires
        att_shape_ok(a),
    ensures
        spec_parse_att(ser_att(a) + rest) == Some((a, ser_att(a).len() as int)),
{
    match a {
        AttV::Bitcoin { height } => lemma_att_roundtrip_bitcoin(height, rest),
        AttV::Pending { uri } => lemma_att_roundtrip_pending(uri, rest),
        AttV::Unknown { tag, data } => lemma_att_roundtrip_unknown(tag, data, rest),
    }
}

/// Parsing a serialized well-formed operation yields it back and
/// consumes exactly the encoding.
proof fn lemma_op_roundtrip(op: OpV, rest: Seq<u8>)
    requires
        op_shape_ok(op),
    ensures
        spec_parse_op(ser_op(op) + rest) == Some((op, ser_op(op).len() as int)),
        1 <= ser_op(op).len(),
        ser_op(op)[0] == op_tag(op),
{
    let s = ser_op(op) + rest;
    match op {
        OpV::Append(d) => {
            assert(s[0] == 0xf0);
            assert(s.skip(1) =~= ser_bytes(d) + rest);
            lemma_varbytes_roundtrip(d, rest, 1, 4096);
        },
        OpV::Prepend(d) => {
            assert(s[0] == 0xf1);
            assert(s.skip(1) =~= ser_bytes(d) + rest);
            lemma_varbytes_roundtrip(d, rest, 1, 4096);
        },
        _ => {},
    }
}

/// The serialization of a well-formed step is non-empty; it starts with
/// `0xff` exactly when the step is a fork.
proof fn lemma_ser_step_first(s: StepV)
    requires
        step_shape_ok(s),
    ensures
        ser_step(s).len() >= 1,
        s.data is Fork <==> ser_step(s)[0] == 0xff,
        s.data is Attestation <==> ser_step(s)[0] == 0x00,
{
    match s.data {
        StepDataV::Attestation(_) => {},
        StepDataV::Op(op) => {
            match op {
                OpV::Append(_) => {},
                OpV::Prepend(_) => {},
                _ => {},
            }
        },
        StepDataV::Fork => {
            assert(ser_step(s) == ser_forked(s.next));
            assert(s.next.len() >= 2);
        },
    }
}

/// The serialized children of a fork, after its first `0xff`.
pub open spec fn ser_fork_tail(cs: Seq<StepV>) -> Seq<u8>
    recommends
        cs.len() >= 1,
{
    ser_step(cs[0]) + ser_forked(cs.drop_first())
}

/// Parsing a serialized well-formed step tree with its input digest
/// yields it back and consumes exactly the encoding.
proof fn lemma_step_roundtrip(s: StepV, d: Seq<u8>, rest: Seq<u8>)
    requires
        step_shape_ok(s),
        child_ok(d, s),
        step_wf(s),
        step_lens_ok(s),
    ensures
        spec_parse_step(ser_step(s) + rest, d) == Some((s, ser_step(s).len() as int)),
    decreases s,
{
    let sa = ser_step(s) + rest;
    lemma_ser_step_first(s);
    match s.data {
        StepDataV::Attestation(a) => {
            assert(sa[0] == 0x00);
            assert(sa.skip(1) =~= ser_att(a) + rest);
            lemma_att_roundtrip(a, rest);
            assert(s.output == d);
            assert(s.next =~= Seq::<StepV>::empty());
            assert(s.data == StepDataV::Attestation(a));
            assert(StepV { data: StepDataV::Attestation(a), output: d, next: Seq::<StepV>::empty() }
                =~= s);
        },
        StepDataV::Op(op) => {
            let child = s.next[0];
            assert(sa =~= ser_op(op) + (ser_step(child) + rest));
            lemma_op_roundtrip(op, ser_step(child) + rest);
            let n = ser_op(op).len() as int;
            assert(sa[0] == op_tag(op));
            assert(op_tag(op) != 0x00 && op_tag(op) != 0xff) by {
                match op {
                    OpV::Append(_) => {},
                    OpV::Prepend(_) => {},
                    _ => {},
                }
            }
            assert(s.output == op_apply(op, d));
            assert(sa.skip(n) =~= ser_step(child) + rest);
            lemma_ser_step_first(child);
            assert(child_ok(s.output, child) && step_wf(child) && step_lens_ok(child));
            assert(op_fits(op, d)) by {
                match op {
                    OpV::Hexlify => {
                        assert(s.output.len() == 2 * d.len());
                    },
                    OpV::Append(e) => {
                        assert(s.output.len() == d.len() + e.len());
                    },
                    OpV::Prepend(e) => {
                        assert(s.output.len() == d.len() + e.len());
                    },
                    _ => {},
                }
            }
            lemma_step_roundtrip(child, s.output, rest);
            assert(1 <= n <= sa.len());
            assert(s.next =~= seq![child]);
            assert(StepV { data: StepDataV::Op(op), output: s.output, next: seq![child] } =~= s);
        },
        StepDataV::Fork => {
            assert(s.output == d);
            assert(ser_step(s) == ser_forked(s.next));
            assert(ser_forked(s.next) =~= seq![0xffu8] + ser_fork_tail(s.next));
            assert(sa[0] == 0xff);
            assert(sa.skip(1) =~= ser_fork_tail(s.next) + rest);
            assert(forall|i: int|
                0 <= i < s.next.len() ==> child_ok(d, #[trigger] s.next[i]) && step_wf(s.next[i])
                    && step_lens_ok(s.next[i]));
            lemma_fork_roundtrip(s.next, d, rest);
            assert(StepV { data: StepDataV::Fork, output: d, next: s.next } =~= s);
        },
    }
}

/// Parsing the serialized children of a well-formed fork yields them
/// back and consumes exactly the encoding.
proof fn lemma_fork_roundtrip(cs: Seq<StepV>, d: Seq<u8>, rest: Seq<u8>)
    requires
        cs.len() >= 2,
        forall|i: int|
            0 <= i < cs.len() ==> step_shape_ok(#[trigger] cs[i]) && child_ok(d, cs[i]) && step_wf(
                cs[i],
            ) && step_lens_ok(cs[i]),
        !(cs.last().data is Fork),
    ensures
        spec_parse_fork(ser_fork_tail(cs) + rest, d) == Some((cs, ser_fork_tail(cs).len() as int)),
    decreases cs,
{
    let sa = ser_fork_tail(cs) + rest;
    let c0 = cs[0];
    let tail = cs.drop_first();
    assert(sa =~= ser_step(c0) + (ser_forked(tail) + rest));
    lemma_step_roundtrip(c0, d, ser_forked(tail) + rest);
    let n0 = ser_step(c0).len() as int;
    lemma_ser_step_first(c0);
    if cs.len() == 2 {
        let c1 = cs[1];
        assert(tail =~= seq![c1]);
        assert(ser_forked(tail) == ser_step(c1));
        lemma_ser_step_first(c1);
        assert(cs.last() == c1);
        assert(sa[n0] == ser_step(c1)[0]);
        assert(sa[n0] != 0xff);
        assert(n0 < sa.len());
        assert(sa.skip(n0) =~= ser_step(c1) + rest);
        lemma_step_roundtrip(c1, d, rest);
        assert(seq![c0] + seq![c1] =~= cs);
    } else {
        assert(tail.len() >= 2);
        assert(ser_forked(tail) =~= seq![0xffu8] + ser_fork_tail(tail));
        assert(sa[n0] == 0xff);
        assert(n0 < sa.len());
        assert(sa.skip(n0 + 1) =~= ser_fork_tail(tail) + rest);
        assert(tail.last() == cs.last());
        lemma_fork_roundtrip(tail, d, rest);
        assert(seq![c0] + tail =~= cs);
        assert(ser_fork_tail(cs).len() == n0 + 1 + ser_fork_tail(tail).len());
    }
}

/// Serializing a well-formed detached timestamp file and parsing the
/// bytes back yields the identical file: the same digest type, starting
/// digest, and step tree.
pub proof fn lemma_file_roundtrip(f: FileV)
    requires
        file_shape_ok(f),
    ensures
        ts_wf(f.timestamp) && step_lens_ok(f.timestamp.first_step) ==> spec_parse_file(ser_file(f))
            == Some(f),
{
    if ts_wf(f.timestamp) && step_lens_ok(f.timestamp.first_step) {
        let s = ser_file(f);
        let digest = f.timestamp.start_digest;
        let first = f.timestamp.first_step;
        let dl = digest_len(f.digest_type) as int;
        assert(ser_uint(1nat) =~= seq![1u8]);
        let tail2 = seq![digest_tag(f.digest_type)] + digest + ser_step(first);
        assert(s =~= magic() + seq![1u8] + tail2);
        assert(s.take(31) =~= magic());
        assert(s.skip(31) =~= ser_uint(1nat) + tail2);
        lemma_uint_roundtrip(1nat, tail2, varint_limit());
        let rest = s.skip(32);
        assert(rest =~= tail2);
        assert(rest[0] == digest_tag(f.digest_type));
        assert(rest.subrange(1, 1 + dl) =~= digest);
        assert(rest.skip(1 + dl) =~= ser_step(first) + Seq::<u8>::empty());
        lemma_step_roundtrip(first, digest, Seq::empty());
        lemma_ser_step_first(first);
        assert(rest.len() == 1 + dl + ser_step(first).len());
        match f.digest_type {
            DigestType::Sha1 => {},
            DigestType::Sha256 => {},
            DigestType::Ripemd160 => {},
        }
        assert(spec_parse_file(ser_file(f)) == Some(
            FileV {
                digest_type: f.digest_type,
                timestamp: TimestampV { start_digest: digest, first_step: first },
            },
        ));
        assert(FileV {
            digest_type: f.digest_type,
            timestamp: TimestampV { start_digest: digest, first_step: first },
        } =~= f);
    }
}

/// Appends the canonical encoding of `n` to `out`.
fn write_uint(n: usize, out: &mut Vec<u8>)
    ensures
        final(out)@ == old(out)@ + ser_uint(n as nat),
{
    let mut cur = n;
    while cur >= 128
        invariant
            old(out)@ + ser_uint(n as nat) == out@ + ser_uint(cur as nat),
        decreases cur,
    {
        let b = ((cur % 128) as u8) + 128;
        proof {
            assert(ser_uint(cur as nat) =~= seq![b] + ser_uint((cur / 128) as nat));
            assert(out@ + ser_uint(cur as nat) =~= (out@ + seq![b]) + ser_uint(
                (cur / 128) as nat,
            ));
        }
        out.push(b);
        cur = cur / 128;
    }
    proof {
        assert(ser_uint(cur as nat) =~= seq![cur as u8]);
        assert(out@ + ser_uint(cur as nat) =~= out@.push(cur as u8));
    }
    out.push(cur as u8);
}

/// Appends a copy of `src` to `out`.
fn extend_bytes(src: &Vec<u8>, out: &mut Vec<u8>)
    ensures
        final(out)@ == old(out)@ + src@,
{
    let mut i: usize = 0;
    while i < src.len()
        invariant
            i <= src@.len(),
            out@ == old(out)@ + src@.take(i as int),
        decreases src@.len() - i,
    {
        proof {
            assert(old(out)@ + src@.take(i + 1) =~= (old(out)@ + src@.take(i as int)).push(
                src@[i as int],
            ));
        }
        out.push(src[i]);
        i = i + 1;
    }
    proof {
        assert(src@.take(i as int) =~= src@);
    }
}

/// Appends the length-prefixed form of `b` to `out`.
fn write_bytes(b: &Vec<u8>, out: &mut Vec<u8>)
    ensures
        final(out)@ == old(out)@ + ser_bytes(b@),
{
    write_uint(b.len(), out);
    extend_bytes(b, out);
    proof {
        assert(final(out)@ =~= old(out)@ + ser_bytes(b@));
    }
}

/// The magic bytes as a vector.
fn magic_bytes() -> (r: Vec<u8>)
    ensures
        r@ == magic(),
{
    let r: Vec<u8> = vec![
        0x00u8, 0x4fu8, 0x70u8, 0x65u8, 0x6eu8, 0x54u8, 0x69u8, 0x6du8, 0x65u8, 0x73u8, 0x74u8,
        0x61u8, 0x6du8, 0x70u8, 0x73u8, 0x00u8, 0x00u8, 0x50u8, 0x72u8, 0x6fu8, 0x6fu8, 0x66u8,
        0x00u8, 0xbfu8, 0x89u8, 0xe2u8, 0xe8u8, 0x84u8, 0xe8u8, 0x92u8, 0x94u8,
    ];
    proof {
        assert(r@ =~= magic());
    }
    r
}

/// The Bitcoin attestation tag as a vector.
fn bitcoin_tag_bytes() -> (r: Vec<u8>)
    ensures
        r@ == bitcoin_tag(),
{
    let r: Vec<u8> = vec![0x05u8, 0x88u8, 0x96u8, 0x0du8, 0x73u8, 0xd7u8, 0x19u8, 0x01u8];
    proof {
        assert(r@ =~= bitcoin_tag());
    }
    r
}

/// The pending attestation tag as a vector.
fn pending_tag_bytes() -> (r: Vec<u8>)
    ensures
        r@ == pending_tag(),
{
    let r: Vec<u8> = vec![0x83u8, 0xdfu8, 0xe3u8, 0x0du8, 0x2eu8, 0xf9u8, 0x0cu8, 0x8eu8];
    proof {
        assert(r@ =~= pending_tag());
    }
    r
}

/// Appends the wire form of an attestation to `out`.
fn write_att(a: &Attestation, out: &mut Vec<u8>)
    requires
        att_shape_ok(a@),
    ensures
        final(out)@ == old(out)@ + ser_att(a@),
{
    match a {
        Attestation::Bitcoin { height } => {
            let tag = bitcoin_tag_bytes();
            extend_bytes(&tag, out);
            let mut payload: Vec<u8> = Vec::new();
            write_uint(*height, &mut payload);
            write_bytes(&payload, out);
            proof {
                assert(final(out)@ =~= old(out)@ + ser_att(a@));
            }
        },
        Attestation::Pending { uri } => {
            let tag = pending_tag_bytes();
            extend_bytes(&tag, out);
            let ub = uri_to_bytes(uri);
            let mut payload: Vec<u8> = Vec::new();
            write_uint(ub.len(), &mut payload);
            extend_bytes(&ub, &mut payload);
            write_bytes(&payload, out);
            proof {
                assert(payload@ =~= ser_uint(uri@.len()) + uri_bytes(uri@));
                assert(final(out)@ =~= old(out)@ + ser_att(a@));
            }
        },
        Attestation::Unknown { tag, data } => {
            extend_bytes(tag, out);
            write_bytes(data, out);
            proof {
                assert(final(out)@ =~= old(out)@ + ser_att(a@));
            }
        },
    }
}

/// The ASCII bytes of a well-formed URI string.
fn uri_to_bytes(uri: &String) -> (r: Vec<u8>)
    requires
        uri_ok(uri@),
    ensures
        r@ == uri_bytes(uri@),
{
    let mut out: Vec<u8> = Vec::new();
    let s = uri.as_str();
    let n = s.unicode_len();
    let mut i: usize = 0;
    while i < n
        invariant
            n == s@.len(),
            s@ == uri@,
            uri_ok(uri@),
            i <= n,
            out@.len() == i,
            forall|j: int| 0 <= j < i ==> out@[j] == #[trigger] uri_bytes(uri@)[j],
        decreases n - i,
    {
        let c = s.get_char(i);
        proof {
            assert(uri_char_ok(s@[i as int]));
        }
        let code = c as u32;
        out.push(code as u8);
        proof {
            assert(out@[i as int] == uri_bytes(uri@)[i as int]);
        }
        i = i + 1;
    }
    proof {
        assert(out@ =~= uri_bytes(uri@));
    }
    out
}

/// Appends the wire form of an operation to `out`.
fn write_op(op: &Op, out: &mut Vec<u8>)
    requires
        op_shape_ok(op@),
    ensures
        final(out)@ == old(out)@ + ser_op(op@),
{
    match op {
        Op::Sha1 => out.push(0x02),
        Op::Sha256 => out.push(0x08),
        Op::Ripemd160 => out.push(0x03),
        Op::Hexlify => out.push(0xf3),
        Op::Reverse => out.push(0xf2),
        Op::Append(d) => {
            out.push(0xf0);
            write_bytes(d, out);
        },
        Op::Prepend(d) => {
            out.push(0xf1);
            write_bytes(d, out);
        },
    }
    proof {
        assert(final(out)@ =~= old(out)@ + ser_op(op@));
    }
}

/// Appends the wire form of a step tree to `out`.
fn write_step(s: &Step, out: &mut Vec<u8>)
    requires
        step_shape_ok(step_view(*s)),
    ensures
        final(out)@ == old(out)@ + ser_step(step_view(*s)),
    decreases *s, (s.next@.len() + 1) as nat,
{
    proof {
        lemma_steps_view(s.next@);
    }
    match &s.data {
        StepData::Attestation(a) => {
            out.push(0x00);
            write_att(a, out);
            proof {
                assert(final(out)@ =~= old(out)@ + ser_step(step_view(*s)));
            }
        },
        StepData::Op(op) => {
            write_op(op, out);
            proof {
                assert(s.next@.len() == 1);
                assert(step_view(*s).next[0] == step_view(s.next@[0]));
            }
            write_step(&s.next[0], out);
            proof {
                assert(final(out)@ =~= old(out)@ + ser_step(step_view(*s)));
            }
        },
        StepData::Fork => {
            proof {
                assert(s.next@.len() >= 2);
            }
            write_forked(s, 0, out);
            proof {
                assert(steps_view(s.next@).skip(0) =~= steps_view(s.next@));
            }
        },
    }
}

/// Appends the wire forms of a fork's children from `i` on, separated
/// by `0xff` bytes.
fn write_forked(s: &Step, i: usize, out: &mut Vec<u8>)
    requires
        step_shape_ok(step_view(*s)),
        step_view(*s).data is Fork,
        i < s.next@.len(),
    ensures
        final(out)@ == old(out)@ + ser_forked(steps_view(s.next@).skip(i as int)),
    decreases *s, (s.next@.len() - i) as nat,
{
    proof {
        lemma_steps_view(s.next@);
        assert(step_shape_ok(step_view(*s).next[i as int]));
        assert(step_view(*s).next[i as int] == step_view(s.next@[i as int]));
        assert(decreases_to!(s.next => s.next@));
        assert(decreases_to!(s.next@ => s.next@[i as int]));
    }
    let ghost cs = steps_view(s.next@);
    if i == s.next.len() - 1 {
        write_step(&s.next[i], out);
        proof {
            assert(cs.skip(i as int).len() == 1);
            assert(cs.skip(i as int)[0] == cs[i as int]);
            assert(final(out)@ =~= old(out)@ + ser_forked(cs.skip(i as int)));
        }
    } else {
        out.push(0xff);
        write_step(&s.next[i], out);
        write_forked(s, i + 1, out);
        proof {
            let t = cs.skip(i as int);
            assert(t.len() >= 2);
            assert(t[0] == cs[i as int]);
            assert(t.drop_first() =~= cs.skip(i + 1));
            assert(final(out)@ =~= old(out)@ + ser_forked(t));
        }
    }
}

/// Copies `buf[from..to]` into a fresh vector.
fn copy_range(buf: &Vec<u8>, from: usize, to: usize) -> (r: Vec<u8>)
    requires
        from <= to <= buf@.len(),
    ensures
        r@ == buf@.subrange(from as int, to as int),
{
    let mut out: Vec<u8> = Vec::new();
    let mut i: usize = from;
    while i < to
        invariant
            from <= i <= to <= buf@.len(),
            out@.len() == i - from,
            forall|j: int| 0 <= j < out@.len() ==> out@[j] == buf@[from + j],
        decreases to - i,
    {
        out.push(buf[i]);
        i = i + 1;
    }
    proof {
        assert(out@ =~= buf@.subrange(from as int, to as int));
    }
    out
}

/// Reads a base-128 integer at `pos`, at most `depth` bytes of it.
fn parse_uint(buf: &Vec<u8>, pos: usize, depth: u32) -> (r: Option<(usize, usize)>)
    requires
        pos <= buf@.len(),
    ensures
        match r {
            Some((v, p)) => pos < p <= buf@.len() && spec_parse_uint(
                buf@.skip(pos as int),
                depth as nat,
            ) == Some((v as nat, p - pos)),
            None => spec_parse_uint(buf@.skip(pos as int), depth as nat) is None,
        },
    decreases depth,
{
    let ghost s = buf@.skip(pos as int);
    if depth == 0 {
        return None;
    }
    if pos == buf.len() {
        return None;
    }
    let b = buf[pos];
    proof {
        assert(s[0] == b);
    }
    if b < 128 {
        Some((b as usize, pos + 1))
    } else {
        proof {
            assert(s.skip(1) =~= buf@.skip(pos + 1));
        }
        match parse_uint(buf, pos + 1, depth - 1) {
            None => None,
            Some((v, p)) => {
                let low = (b - 128) as usize;
                if v <= (usize::MAX - low) / 128 {
                    proof {
                        assert(128 * v <= usize::MAX - low) by (nonlinear_arith)
                            requires
                                v <= (usize::MAX - low) / 128,
                                v >= 0,
                        ;
                    }
                    let t = low + 128 * v;
                    Some((t, p))
                } else {
                    proof {
                        assert(128 * v > usize::MAX - low) by (nonlinear_arith)
                            requires
                                v > (usize::MAX - low) / 128,
                                v >= 0,
                        ;
                        assert((low as nat) + 128 * (v as nat) > usize::MAX as nat);
                    }
                    None
                }
            },
        }
    }
}

/// Reads a length-prefixed byte string at `pos` whose length must lie
/// between `min` and `max`.
fn parse_varbytes(buf: &Vec<u8>, pos: usize, min: usize, max: usize) -> (r: Option<
    (Vec<u8>, usize),
>)
    requires
        pos <= buf@.len(),
    ensures
        match r {
            Some((v, p)) => pos < p <= buf@.len() && spec_parse_varbytes(
                buf@.skip(pos as int),
                min as nat,
                max as nat,
            ) == Some((v@, p - pos)) && min <= v@.len() <= max,
            None => spec_parse_varbytes(buf@.skip(pos as int), min as nat, max as nat) is None,
        },
{
    let ghost s = buf@.skip(pos as int);
    match parse_uint(buf, pos, 10) {
        None => None,
        Some((l, p1)) => {
            if l < min || l > max {
                return None;
            }
            if l > buf.len() - p1 {
                proof {
                    assert((p1 - pos) + l > s.len());
                }
                return None;
            }
            let v = copy_range(buf, p1, p1 + l);
            proof {
                assert(s.subrange(p1 - pos, p1 - pos + l) =~= buf@.subrange(
                    p1 as int,
                    p1 + l,
                ));
            }
            Some((v, p1 + l))
        },
    }
}

/// Whether every byte may appear in a pending attestation's URI.
fn all_uri_bytes_ok(ub: &Vec<u8>) -> (r: bool)
    ensures
        r == (forall|j: int| 0 <= j < ub@.len() ==> uri_byte_ok(#[trigger] ub@[j])),
{
    let mut k: usize = 0;
    while k < ub.len()
        invariant
            k <= ub@.len(),
            forall|j: int| 0 <= j < k ==> uri_byte_ok(#[trigger] ub@[j]),
        decreases ub@.len() - k,
    {
        let b = ub[k];
        let ok = (97 <= b && b <= 122) || (65 <= b && b <= 90) || (48 <= b && b <= 57) || b == 46
            || b == 45 || b == 95 || b == 47 || b == 58;
        if !ok {
            return false;
        }
        k = k + 1;
    }
    true
}

/// Reads an attestation at `pos`.
fn parse_att(buf: &Vec<u8>, pos: usize) -> (r: Option<(Attestation, usize)>)
    requires
        pos <= buf@.len(),
    ensures
        match r {
            Some((a, p)) => pos < p <= buf@.len() && spec_parse_att(buf@.skip(pos as int)) == Some(
                (a@, p - pos),
            ) && att_shape_ok(a@),
            None => spec_parse_att(buf@.skip(pos as int)) is None,
        },
{
    let ghost s = buf@.skip(pos as int);
    if buf.len() - pos < 8 {
        return None;
    }
    let tag = copy_range(buf, pos, pos + 8);
    proof {
        assert(tag@ =~= s.take(8));
    }
    match parse_uint(buf, pos + 8, 10) {
        None => {
            proof {
                assert(s.skip(8) =~= buf@.skip(pos + 8));
            }
            None
        },
        Some((plen, p1)) => {
            proof {
                assert(s.skip(8) =~= buf@.skip(pos + 8));
                assert(spec_parse_uint(s.skip(8), varint_limit()) == Some(
                    (plen as nat, p1 - pos - 8),
                ));
                assert(s.skip(8 + (p1 - pos - 8)) =~= buf@.skip(p1 as int));
            }
            let bt = bitcoin_tag_bytes();
            let pt = pending_tag_bytes();
            if crate::op::bytes_eq(&tag, &bt) {
                match parse_uint(buf, p1, 10) {
                    None => None,
                    Some((h, p2)) => Some((Attestation::Bitcoin { height: h }, p2)),
                }
            } else if crate::op::bytes_eq(&tag, &pt) {
                match parse_varbytes(buf, p1, 0, 1000) {
                    None => None,
                    Some((ub, p2)) => {
                        if !all_uri_bytes_ok(&ub) {
                            return None;
                        }
                        let uri = crate::hexs::ascii_to_string(ub);
                        proof {
                            let ubv = spec_parse_varbytes(s.skip(8 + (p1 - pos - 8)), 0, 1000)
                                ->Some_0.0;
                            assert(uri@ =~= ubv.map(|_i: int, b: u8| b as char));
                            assert forall|j: int| 0 <= j < uri@.len() implies uri_char_ok(
                                #[trigger] uri@[j],
                            ) by {
                                assert(uri@[j] == ubv[j] as char);
                                assert(uri_byte_ok(ubv[j]));
                                assert((ubv[j] as char) as u8 == ubv[j]);
                            };
                        }
                        Some((Attestation::Pending { uri }, p2))
                    },
                }
            } else {
                if plen > buf.len() - p1 {
                    proof {
                        assert(plen > buf@.skip(p1 as int).len());
                    }
                    return None;
                }
                let data = copy_range(buf, p1, p1 + plen);
                proof {
                    assert(data@ =~= buf@.skip(p1 as int).take(plen as int));
                    assert(tag@.len() == 8);
                }
                Some((Attestation::Unknown { tag, data }, p1 + plen))
            }
        },
    }
}

/// Reads an operation at `pos` from its one-byte tag.
fn parse_op(buf: &Vec<u8>, pos: usize) -> (r: Option<(Op, usize)>)
    requires
        pos <= buf@.len(),
    ensures
        match r {
            Some((op, p)) => pos < p <= buf@.len() && spec_parse_op(buf@.skip(pos as int)) == Some(
                (op@, p - pos),
            ) && op_shape_ok(op@),
            None => spec_parse_op(buf@.skip(pos as int)) is None,
        },
{
    let ghost s = buf@.skip(pos as int);
    if pos == buf.len() {
        return None;
    }
    let tag = buf[pos];
    proof {
        assert(s[0] == tag);
        assert(s.skip(1) =~= buf@.skip(pos + 1));
    }
    if tag == 0x02 {
        Some((Op::Sha1, pos + 1))
    } else if tag == 0x08 {
        Some((Op::Sha256, pos + 1))
    } else if tag == 0x03 {
        Some((Op::Ripemd160, pos + 1))
    } else if tag == 0xf3 {
        Some((Op::Hexlify, pos + 1))
    } else if tag == 0xf2 {
        Some((Op::Reverse, pos + 1))
    } else if tag == 0xf0 {
        match parse_varbytes(buf, pos + 1, 1, 4096) {
            None => None,
            Some((d, p)) => Some((Op::Append(d), p)),
        }
    } else if tag == 0xf1 {
        match parse_varbytes(buf, pos + 1, 1, 4096) {
            None => None,
            Some((d, p)) => Some((Op::Prepend(d), p)),
        }
    } else {
        None
    }
}

/// Reads one step at `pos`, with `d` the digest entering it. The
/// returned subtree is well-formed by construction: operation outputs
/// are recomputed while reading.
fn parse_step(buf: &Vec<u8>, pos: usize, d: &Vec<u8>) -> (r: Option<(Step, usize)>)
    requires
        pos <= buf@.len(),
    ensures
        match r {
            Some((st, p)) => {
                &&& pos < p <= buf@.len()
                &&& spec_parse_step(buf@.skip(pos as int), d@) == Some(
                    (step_view(st), p - pos),
                )
                &&& step_shape_ok(step_view(st))
                &&& child_ok(d@, step_view(st))
                &&& step_wf(step_view(st))
                &&& (step_view(st).data is Fork <==> buf@[pos as int] == 0xff)
            },
            None => spec_parse_step(buf@.skip(pos as int), d@) is None,
        },
    decreases buf@.len() - pos, 0nat,
{
    let ghost s = buf@.skip(pos as int);
    if pos == buf.len() {
        return None;
    }
    let tag = buf[pos];
    proof {
        assert(s[0] == tag);
        assert(s.skip(1) =~= buf@.skip(pos + 1));
    }
    if tag == 0x00 {
        match parse_att(buf, pos + 1) {
            None => None,
            Some((a, p)) => {
                let st = Step {
                    data: StepData::Attestation(a),
                    output: copy_bytes(d),
                    next: Vec::new(),
                };
                proof {
                    lemma_steps_view(st.next@);
                    assert(step_view(st) =~= StepV {
                        data: StepDataV::Attestation(a@),
                        output: d@,
                        next: Seq::<StepV>::empty(),
                    });
                }
                Some((st, p))
            },
        }
    } else if tag == 0xff {
        match parse_fork(buf, pos + 1, d) {
            None => None,
            Some((children, p)) => {
                let st = Step { data: StepData::Fork, output: copy_bytes(d), next: children };
                proof {
                    assert(step_view(st) =~= StepV {
                        data: StepDataV::Fork,
                        output: d@,
                        next: steps_view(st.next@),
                    });
                    lemma_steps_view(st.next@);
                }
                Some((st, p))
            },
        }
    } else {
        match parse_op(buf, pos) {
            None => None,
            Some((op, n)) => {
                let fits = match &op {
                    Op::Hexlify => d.len() <= usize::MAX / 2,
                    Op::Append(e) => d.len() <= usize::MAX - e.len(),
                    Op::Prepend(e) => d.len() <= usize::MAX - e.len(),
                    _ => true,
                };
                proof {
                    assert(fits == op_fits(op@, d@)) by {
                        match op@ {
                            OpV::Hexlify => {
                                assert(d@.len() <= usize::MAX / 2 <==> 2 * d@.len()
                                    <= usize::MAX);
                            },
                            _ => {},
                        }
                    }
                }
                if !fits {
                    return None;
                }
                let out = op.execute(d);
                proof {
                    assert(s.skip(n - pos) =~= buf@.skip(n as int));
                }
                match parse_step(buf, n, &out) {
                    None => None,
                    Some((c, p)) => {
                        let mut next: Vec<Step> = Vec::new();
                        next.push(c);
                        let ghost gc = step_view(next@[0]);
                        let st = Step { data: StepData::Op(op), output: out, next };
                        proof {
                            lemma_steps_view(st.next@);
                            assert(steps_view(st.next@) =~= seq![gc]);
                            assert(step_view(st) =~= StepV {
                                data: StepDataV::Op(op@),
                                output: op_apply(op@, d@),
                                next: seq![gc],
                            });
                            assert(step_wf(step_view(st)));
                        }
                        Some((st, p))
                    },
                }
            },
        }
    }
}

/// Reads the children of a fork whose first `0xff` has been consumed.
fn parse_fork(buf: &Vec<u8>, pos: usize, d: &Vec<u8>) -> (r: Option<(Vec<Step>, usize)>)
    requires
        pos <= buf@.len(),
    ensures
        match r {
            Some((children, p)) => {
                &&& pos < p <= buf@.len()
                &&& spec_parse_fork(buf@.skip(pos as int), d@) == Some(
                    (steps_view(children@), p - pos),
                )
                &&& steps_view(children@).len() >= 2
                &&& forall|i: int|
                    0 <= i < steps_view(children@).len() ==> step_shape_ok(
                        #[trigger] steps_view(children@)[i],
                    ) && child_ok(d@, steps_view(children@)[i]) && step_wf(
                        steps_view(children@)[i],
                    )
                &&& !(steps_view(children@).last().data is Fork)
            },
            None => spec_parse_fork(buf@.skip(pos as int), d@) is None,
        },
    decreases buf@.len() - pos, 1nat,
{
    let ghost s = buf@.skip(pos as int);
    match parse_step(buf, pos, d) {
        None => None,
        Some((c, p)) => {
            if p >= buf.len() {
                proof {
                    assert(p - pos >= s.len());
                }
                return None;
            }
            let t = buf[p];
            proof {
                assert(s[p - pos] == t);
            }
            if t == 0xff {
                proof {
                    assert(s.skip(p - pos + 1) =~= buf@.skip(p + 1));
                }
                match parse_fork(buf, p + 1, d) {
                    None => None,
                    Some((rest, p2)) => {
                        let mut children: Vec<Step> = Vec::new();
                        children.push(c);
                        let mut tail = rest;
                        children.append(&mut tail);
                        proof {
                            lemma_steps_view(children@);
                            lemma_steps_view(rest@);
                            assert(steps_view(children@) =~= seq![step_view(c)] + steps_view(
                                rest@,
                            ));
                            assert(steps_view(children@).last() == steps_view(rest@).last());
                        }
                        Some((children, p2))
                    },
                }
            } else {
                proof {
                    assert(s.skip(p - pos) =~= buf@.skip(p as int));
                }
                match parse_step(buf, p, d) {
                    None => None,
                    Some((c2, p2)) => {
                        let mut children: Vec<Step> = Vec::new();
                        let ghost gc2 = step_view(c2);
                        children.push(c);
                        children.push(c2);
                        proof {
                            lemma_steps_view(children@);
                            assert(steps_view(children@) =~= seq![step_view(c)] + seq![gc2]);
                            assert(steps_view(children@).last() == gc2);
                        }
                        Some((children, p2))
                    },
                }
            }
        },
    }
}

/// Serializes a timestamp fragment alone, without the detached-file
/// header — the form a calendar sends and receives.
pub fn serialize_timestamp(ts: &Timestamp) -> (r: Vec<u8>)
    requires
        step_shape_ok(ts@.first_step),
    ensures
        r@ == ser_step(ts@.first_step),
{
    let mut out: Vec<u8> = Vec::new();
    write_step(&ts.first_step, &mut out);
    out
}

/// Reads a timestamp fragment whose starting digest is known, as a
/// calendar hands one back; trailing bytes after the tree are ignored.
/// The returned tree is well-formed by construction.
pub fn deserialize_timestamp(buf: &Vec<u8>, digest: Vec<u8>) -> (r: Result<Timestamp, Error>)
    ensures
        match r {
            Ok(ts) => {
                &&& ts@.start_digest == digest@
                &&& match spec_parse_step(buf@, digest@) {
                    Some((st, _)) => st == ts@.first_step,
                    None => false,
                }
                &&& ts_wf(ts@)
                &&& step_shape_ok(ts@.first_step)
            },
            Err(e) => spec_parse_step(buf@, digest@) is None && e is InvalidProof,
        },
{
    proof {
        assert(buf@.skip(0) =~= buf@);
    }
    match parse_step(buf, 0, &digest) {
        None => Err(Error::InvalidProof),
        Some((st, _)) => Ok(Timestamp { start_digest: digest, first_step: st }),
    }
}

/// Whether an attestation has the wire shape.
fn att_shape_check(a: &Attestation) -> (r: bool)
    ensures
        r == att_shape_ok(a@),
{
    match a {
        Attestation::Bitcoin { height: _ } => true,
        Attestation::Pending { uri } => {
            let s = uri.as_str();
            let n = s.unicode_len();
            if n > 1000 {
                return false;
            }
            let mut i: usize = 0;
            while i < n
                invariant
                    n == s@.len(),
                    s@ == uri@,
                    a@ == (AttV::Pending { uri: uri@ }),
                    i <= n,
                    forall|j: int| 0 <= j < i ==> uri_char_ok(#[trigger] s@[j]),
                decreases n - i,
            {
                let c = s.get_char(i);
                let code = c as u32;
                let ok = code < 128 && {
                    let b = code as u8;
                    (97 <= b && b <= 122) || (65 <= b && b <= 90) || (48 <= b && b <= 57) || b == 46
                        || b == 45 || b == 95 || b == 47 || b == 58
                };
                if !ok {
                    proof {
                        assert(!uri_char_ok(s@[i as int]));
                    }
                    return false;
                }
                i = i + 1;
            }
            true
        },
        Attestation::Unknown { tag, data } => {
            if tag.len() != 8 {
                return false;
            }
            let bt = bitcoin_tag_bytes();
            let pt = pending_tag_bytes();
            let r = !crate::op::bytes_eq(tag, &bt) && !crate::op::bytes_eq(tag, &pt);
            proof {
                assert(vstd::std_specs::vec::spec_vec_len(data) == data@.len());
            }
            r
        },
    }
}

/// Whether a step tree has the wire shape, so that it can be written
/// and read back unchanged.
pub fn step_shape_check(s: &Step) -> (r: bool)
    ensures
        r == step_shape_ok(step_view(*s)),
    decreases *s, (s.next@.len() + 1) as nat,
{
    proof {
        lemma_steps_view(s.next@);
    }
    match &s.data {
        StepData::Attestation(a) => s.next.len() == 0 && att_shape_check(a),
        StepData::Op(op) => {
            let data_ok = match op {
                Op::Append(d) => 1 <= d.len() && d.len() <= 4096,
                Op::Prepend(d) => 1 <= d.len() && d.len() <= 4096,
                _ => true,
            };
            s.next.len() == 1 && data_ok && step_shape_check(&s.next[0])
        },
        StepData::Fork => {
            if s.next.len() < 2 {
                return false;
            }
            if matches!(&s.next[s.next.len() - 1].data, StepData::Fork) {
                proof {
                    assert(step_view(*s).next.last() == step_view(
                        s.next@[s.next@.len() - 1],
                    ));
                }
                return false;
            }
            proof {
                assert(step_view(*s).next.last() == step_view(s.next@[s.next@.len() - 1]));
            }
            let mut i: usize = 0;
            while i < s.next.len()
                invariant
                    i <= s.next@.len(),
                    forall|j: int|
                        0 <= j < i ==> step_shape_ok(#[trigger] steps_view(s.next@)[j]),
                    steps_view(s.next@).len() == s.next@.len(),
                    forall|j: int|
                        0 <= j < s.next@.len() ==> steps_view(s.next@)[j] == step_view(
                            #[trigger] s.next@[j],
                        ),
                decreases s.next@.len() - i,
            {
                proof {
                    assert(decreases_to!(s.next => s.next@));
                    assert(decreases_to!(s.next@ => s.next@[i as int]));
                }
                if !step_shape_check(&s.next[i]) {
                    return false;
                }
                i = i + 1;
            }
            true
        },
    }
}

impl DetachedTimestampFile {
    /// Whether this file can be serialized and read back unchanged: the
    /// starting digest has the length its type demands and the tree has
    /// the wire shape.
    pub fn is_serializable(&self) -> (r: bool)
        ensures
            r == file_shape_ok(self@),
    {
        self.timestamp.start_digest.len() == self.digest_type.length() && step_shape_check(
            &self.timestamp.first_step,
        )
    }
}

impl DetachedTimestampFile {
    /// Reads a detached timestamp file from its wire form; fails exactly
    /// on input the format does not describe. The returned tree is
    /// well-formed by construction.
    pub fn from_vec(buf: &Vec<u8>) -> (r: Result<DetachedTimestampFile, Error>)
        ensures
            match r {
                Ok(f) => spec_parse_file(buf@) == Some(f@) && file_shape_ok(f@) && ts_wf(
                    f@.timestamp,
                ),
                Err(e) => spec_parse_file(buf@) is None && e is InvalidProof,
            },
    {
        if buf.len() < 31 {
            return Err(Error::InvalidProof);
        }
        let m = magic_bytes();
        let head = copy_range(buf, 0, 31);
        proof {
            assert(head@ =~= buf@.take(31));
        }
        if !crate::op::bytes_eq(&head, &m) {
            return Err(Error::InvalidProof);
        }
        proof {
            assert(buf@.skip(31) =~= buf@.skip(31int));
        }
        match parse_uint(buf, 31, 10) {
            None => Err(Error::InvalidProof),
            Some((v, p)) => {
                if v != 1 {
                    return Err(Error::InvalidProof);
                }
                proof {
                    assert(buf@.skip(31).skip(p - 31) =~= buf@.skip(p as int));
                }
                let ghost rest = buf@.skip(p as int);
                if p == buf.len() {
                    return Err(Error::InvalidProof);
                }
                let tagb = buf[p];
                proof {
                    assert(rest[0] == tagb);
                }
                match DigestType::from_tag(tagb) {
                    None => Err(Error::InvalidProof),
                    Some(dt) => {
                        let dl = dt.length();
                        if buf.len() - p - 1 < dl {
                            proof {
                                assert(rest.len() < 1 + digest_len(dt));
                            }
                            return Err(Error::InvalidProof);
                        }
                        let digest = copy_range(buf, p + 1, p + 1 + dl);
                        proof {
                            assert(digest@ =~= rest.subrange(1, 1 + digest_len(dt) as int));
                            assert(rest.skip(1 + digest_len(dt) as int) =~= buf@.skip(
                                p + 1 + digest_len(dt),
                            ));
                        }
                        match parse_step(buf, p + 1 + dl, &digest) {
                            None => Err(Error::InvalidProof),
                            Some((st, pend)) => {
                                if pend != buf.len() {
                                    return Err(Error::InvalidProof);
                                }
                                let f = DetachedTimestampFile {
                                    digest_type: dt,
                                    timestamp: Timestamp {
                                        start_digest: digest,
                                        first_step: st,
                                    },
                                };
                                proof {
                                    assert(spec_parse_file(buf@) == Some(f@)) by {
                                        assert(f@ =~= spec_parse_file(buf@)->Some_0);
                                    }
                                }
                                Ok(f)
                            },
                        }
                    },
                }
            },
        }
    }

    /// Serializes the file into the standard detached-proof wire form.
    pub fn to_vec(&self) -> (r: Vec<u8>)
        requires
            file_shape_ok(self@),
        ensures
            r@ == ser_file(self@),
    {
        let mut out = magic_bytes();
        write_uint(1, &mut out);
        out.push(self.digest_type.to_tag());
        extend_bytes(&self.timestamp.start_digest, &mut out);
        write_step(&self.timestamp.first_step, &mut out);
        proof {
            assert(out@ =~= ser_file(self@));
        }
        out
    }
}

} // verus!
