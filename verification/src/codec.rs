//! The binary object format: a flat byte stream of concatenated instruction
//! encodings, one opcode byte followed by the operands, multi-byte fields
//! little-endian. There is no header.

use crate::bytecode::{opcode_of, Inst};
use vstd::prelude::*;

verus! {

/// Why a byte stream is not a program.
#[derive(Clone, Copy, Debug, PartialEq, Eq, Structural)]
pub enum DecodeError {
    /// The stream ends in the middle of an instruction.
    TruncatedBinary,
    /// An opcode byte is outside the nine known opcodes.
    InvalidOpcode,
}

/// Byte `k` (0 = least significant) of a 32-bit value.
pub open spec fn le_byte(x: u32, k: u32) -> u8 {
    ((x >> (8 * k)) & 0xff) as u8
}

/// The 32-bit value whose little-endian bytes are `b0 b1 b2 b3`.
pub open spec fn from_le(b0: u8, b1: u8, b2: u8, b3: u8) -> u32 {
    (b0 as u32) | ((b1 as u32) << 8) | ((b2 as u32) << 16) | ((b3 as u32) << 24)
}

/// The encoding of one instruction.
pub open spec fn encode_inst_spec(inst: Inst) -> Seq<u8> {
    match inst {
        Inst::Mov(a, b) => seq![0u8, a, b],
        Inst::Movi(a, imm) => seq![
            1u8,
            a,
            le_byte(imm, 0),
            le_byte(imm, 1),
            le_byte(imm, 2),
            le_byte(imm, 3),
        ],
        Inst::Ldai(imm) => seq![
            2u8,
            le_byte(imm, 0),
            le_byte(imm, 1),
            le_byte(imm, 2),
            le_byte(imm, 3),
        ],
        Inst::Lda(a) => seq![3u8, a],
        Inst::Sta(a) => seq![4u8, a],
        Inst::Add(a) => seq![5u8, a],
        Inst::Dec(a) => seq![6u8, a],
        Inst::Bne(a, b, target) => seq![
            7u8,
            a,
            b,
            le_byte(target, 0),
            le_byte(target, 1),
            le_byte(target, 2),
            le_byte(target, 3),
        ],
        Inst::Print => seq![8u8],
    }
}

/// The encoding of a program: the encodings of its instructions, in order.
pub open spec fn encode_spec(insts: Seq<Inst>) -> Seq<u8>
    decreases insts.len(),
{
    if insts.len() == 0 {
        Seq::empty()
    } else {
        encode_inst_spec(insts[0]) + encode_spec(insts.skip(1))
    }
}

/// Number of bytes, opcode included, that an instruction with opcode `op`
/// occupies.
pub open spec fn encoded_len(op: u8) -> int {
    if op == 0 {
        3
    } else if op == 1 {
        6
    } else if op == 2 {
        5
    } else if op == 7 {
        7
    } else if op == 8 {
        1
    } else {
        2
    }
}

/// The instruction at the front of `b`, given that `b` holds all its bytes.
pub open spec fn front_inst(b: Seq<u8>) -> Inst {
    let op = b[0];
    if op == 0 {
        Inst::Mov(b[1], b[2])
    } else if op == 1 {
        Inst::Movi(b[1], from_le(b[2], b[3], b[4], b[5]))
    } else if op == 2 {
        Inst::Ldai(from_le(b[1], b[2], b[3], b[4]))
    } else if op == 3 {
        Inst::Lda(b[1])
    } else if op == 4 {
        Inst::Sta(b[1])
    } else if op == 5 {
        Inst::Add(b[1])
    } else if op == 6 {
        Inst::Dec(b[1])
    } else if op == 7 {
        Inst::Bne(b[1], b[2], from_le(b[3], b[4], b[5], b[6]))
    } else {
        Inst::Print
    }
}

/// Decodes the instruction at the front of a non-empty stream, with the
/// number of bytes it occupies. The opcode is judged before the length.
pub open spec fn decode_one(b: Seq<u8>) -> Result<(Inst, int), DecodeError> {
    if b[0] > 8 {
        Err(DecodeError::InvalidOpcode)
    } else if b.len() < encoded_len(b[0]) {
        Err(DecodeError::TruncatedBinary)
    } else {
        Ok((front_inst(b), encoded_len(b[0])))
    }
}

/// Puts `prefix` in front of a decoded program; an error stays as it is.
pub open spec fn prepend(prefix: Seq<Inst>, r: Result<Seq<Inst>, DecodeError>) -> Result<
    Seq<Inst>,
    DecodeError,
> {
    match r {
        Ok(rest) => Ok(prefix + rest),
        Err(e) => Err(e),
    }
}

/// The program that a byte stream denotes, or the first error met when
/// reading it front to back.
pub open spec fn decode_spec(b: Seq<u8>) -> Result<Seq<Inst>, DecodeError>
    decreases b.len(),
{
    if b.len() == 0 {
        Ok(Seq::empty())
    } else {
        match decode_one(b) {
            Err(e) => Err(e),
            Ok((inst, n)) => prepend(seq![inst], decode_spec(b.skip(n))),
        }
    }
}

/// Reassembling the four little-endian bytes of a value gives the value.
pub proof fn lemma_le_round_trip(x: u32)
    ensures
        from_le(le_byte(x, 0), le_byte(x, 1), le_byte(x, 2), le_byte(x, 3)) == x,
{
    assert((((x >> (8 * 0u32)) & 0xff) as u8 as u32) | ((((x >> (8 * 1u32)) & 0xff) as u8 as u32)
        << 8) | ((((x >> (8 * 2u32)) & 0xff) as u8 as u32) << 16) | ((((x >> (8 * 3u32)) & 0xff) as u8 as u32)
        << 24) == x) by (bit_vector);
}

/// An encoded instruction followed by anything decodes, at the front, to
/// that instruction and its length.
pub proof fn lemma_decode_one_encoded(inst: Inst, rest: Seq<u8>)
    ensures
        decode_one(encode_inst_spec(inst) + rest) == Ok::<(Inst, int), DecodeError>(
            (inst, encode_inst_spec(inst).len() as int),
        ),
        encode_inst_spec(inst).len() == encoded_len(opcode_of(inst)),
        (encode_inst_spec(inst) + rest).skip(encode_inst_spec(inst).len() as int) == rest,
{
    let e = encode_inst_spec(inst);
    let b = e + rest;
    assert(b.skip(e.len() as int) =~= rest);
    assert(b[0] == e[0]);
    match inst {
        Inst::Mov(x, y) => {
            assert(b[1] == e[1] && b[2] == e[2]);
        },
        Inst::Movi(x, imm) => {
            lemma_le_round_trip(imm);
            assert(b[1] == e[1] && b[2] == e[2] && b[3] == e[3] && b[4] == e[4] && b[5] == e[5]);
        },
        Inst::Ldai(imm) => {
            lemma_le_round_trip(imm);
            assert(b[1] == e[1] && b[2] == e[2] && b[3] == e[3] && b[4] == e[4]);
        },
        Inst::Lda(x) => {
            assert(b[1] == e[1]);
        },
        Inst::Sta(x) => {
            assert(b[1] == e[1]);
        },
        Inst::Add(x) => {
            assert(b[1] == e[1]);
        },
        Inst::Dec(x) => {
            assert(b[1] == e[1]);
        },
        Inst::Bne(x, y, t) => {
            lemma_le_round_trip(t);
            assert(b[1] == e[1] && b[2] == e[2] && b[3] == e[3] && b[4] == e[4] && b[5] == e[5]
                && b[6] == e[6]);
        },
        Inst::Print => {},
    }
}

/// Round trip: decoding the encoding of any program gives the program back.
pub proof fn lemma_decode_encode(insts: Seq<Inst>)
    ensures
        decode_spec(encode_spec(insts)) == Ok::<Seq<Inst>, DecodeError>(insts),
    decreases insts.len(),
{
    if insts.len() == 0 {
        assert(insts =~= Seq::empty());
    } else {
        let rest = encode_spec(insts.skip(1));
        lemma_decode_one_encoded(insts[0], rest);
        lemma_decode_encode(insts.skip(1));
        assert(seq![insts[0]] + insts.skip(1) =~= insts);
    }
}

/// Encoding is order-preserving concatenation: the encoding of two programs
/// joined is the two encodings joined.
pub proof fn lemma_encode_concat(a: Seq<Inst>, b: Seq<Inst>)
    ensures
        encode_spec(a + b) == encode_spec(a) + encode_spec(b),
    decreases a.len(),
{
    if a.len() == 0 {
        assert(a + b =~= b);
        assert(encode_spec(a) + encode_spec(b) =~= encode_spec(b));
    } else {
        lemma_encode_concat(a.skip(1), b);
        assert((a + b).skip(1) =~= a.skip(1) + b);
        assert((a + b)[0] == a[0]);
        assert(encode_inst_spec(a[0]) + (encode_spec(a.skip(1)) + encode_spec(b)) =~= (
        encode_inst_spec(a[0]) + encode_spec(a.skip(1))) + encode_spec(b));
    }
}

/// Appends the four little-endian bytes of `imm`.
fn write_imm(out: &mut Vec<u8>, imm: u32)
    ensures
        final(out)@ == old(out)@ + seq![
            le_byte(imm, 0),
            le_byte(imm, 1),
            le_byte(imm, 2),
            le_byte(imm, 3),
        ],
{
    let b0: u32 = (imm >> 0) & 0xff;
    let b1: u32 = (imm >> 8) & 0xff;
    let b2: u32 = (imm >> 16) & 0xff;
    let b3: u32 = (imm >> 24) & 0xff;
    assert(b0 <= 0xff && b1 <= 0xff && b2 <= 0xff && b3 <= 0xff && b0 == (imm >> (8 * 0u32)) & 0xff
        && b1 == (imm >> (8 * 1u32)) & 0xff && b2 == (imm >> (8 * 2u32)) & 0xff && b3 == (imm >> (8
        * 3u32)) & 0xff) by (bit_vector)
        requires
            b0 == (imm >> 0) & 0xff,
            b1 == (imm >> 8) & 0xff,
            b2 == (imm >> 16) & 0xff,
            b3 == (imm >> 24) & 0xff,
    ;
    out.push(b0 as u8);
    out.push(b1 as u8);
    out.push(b2 as u8);
    out.push(b3 as u8);
    assert(out@ =~= old(out)@ + seq![
        le_byte(imm, 0),
        le_byte(imm, 1),
        le_byte(imm, 2),
        le_byte(imm, 3),
    ]);
}

/// Appends the encoding of one instruction.
pub fn write_inst(out: &mut Vec<u8>, inst: Inst)
    ensures
        final(out)@ == old(out)@ + encode_inst_spec(inst),
{
    out.push(inst.opcode());
    match inst {
        Inst::Mov(a, b) => {
            out.push(a);
            out.push(b);
        },
        Inst::Movi(a, imm) => {
            out.push(a);
            write_imm(out, imm);
        },
        Inst::Ldai(imm) => {
            write_imm(out, imm);
        },
        Inst::Lda(a) => {
            out.push(a);
        },
        Inst::Sta(a) => {
            out.push(a);
        },
        Inst::Add(a) => {
            out.push(a);
        },
        Inst::Dec(a) => {
            out.push(a);
        },
        Inst::Bne(a, b, target) => {
            out.push(a);
            out.push(b);
            write_imm(out, target);
        },
        Inst::Print => {},
    }
    assert(out@ =~= old(out)@ + encode_inst_spec(inst));
}

/// Encodes a program. Never fails.
pub fn encode(insts: &Vec<Inst>) -> (bytes: Vec<u8>)
    ensures
        bytes@ == encode_spec(insts@),
        decode_spec(bytes@) == Ok::<Seq<Inst>, DecodeError>(insts@),
{
    let mut out: Vec<u8> = Vec::new();
    let mut i: usize = 0;
    while i < insts.len()
        invariant
            i <= insts.len(),
            out@ == encode_spec(insts@.take(i as int)),
        decreases insts.len() - i,
    {
        proof {
            let done = insts@.take(i as int);
            lemma_encode_concat(done, seq![insts@[i as int]]);
            assert(done + seq![insts@[i as int]] =~= insts@.take(i + 1));
            assert(seq![insts@[i as int]].skip(1) =~= Seq::<Inst>::empty());
            assert(encode_spec(seq![insts@[i as int]]) =~= encode_inst_spec(insts@[i as int])) by {
                reveal_with_fuel(encode_spec, 2);
            }
        }
        write_inst(&mut out, insts[i]);
        i += 1;
    }
    proof {
        assert(insts@.take(i as int) =~= insts@);
        lemma_decode_encode(insts@);
    }
    out
}

/// Reads the 32-bit little-endian value at `pos`.
fn read_imm(bytes: &[u8], pos: usize) -> (imm: u32)
    requires
        pos + 4 <= bytes@.len(),
    ensures
        imm == from_le(
            bytes@[pos as int],
            bytes@[pos + 1],
            bytes@[pos + 2],
            bytes@[pos + 3],
        ),
{
    let b0: u32 = bytes[pos] as u32;
    let b1: u32 = bytes[pos + 1] as u32;
    let b2: u32 = bytes[pos + 2] as u32;
    let b3: u32 = bytes[pos + 3] as u32;
    b0 | (b1 << 8) | (b2 << 16) | (b3 << 24)
}

/// Decodes a whole byte stream into a program. Fails on the first
/// instruction that has an unknown opcode or that the stream cuts short.
pub fn decode(bytes: &[u8]) -> (r: Result<Vec<Inst>, DecodeError>)
    ensures
        match r {
            Ok(insts) => decode_spec(bytes@) == Ok::<Seq<Inst>, DecodeError>(insts@),
            Err(e) => decode_spec(bytes@) == Err::<Seq<Inst>, DecodeError>(e),
        },
{
    let mut out: Vec<Inst> = Vec::new();
    let mut pos: usize = 0;
    proof {
        assert(bytes@.skip(0) =~= bytes@);
        match decode_spec(bytes@) {
            Ok(all) => {
                assert(Seq::<Inst>::empty() + all =~= all);
            },
            Err(e) => {},
        }
    }
    while pos < bytes.len()
        invariant
            pos <= bytes@.len(),
            decode_spec(bytes@) == prepend(out@, decode_spec(bytes@.skip(pos as int))),
        decreases bytes@.len() - pos,
    {
        let ghost b = bytes@.skip(pos as int);
        let op: u8 = bytes[pos];
        let left: usize = bytes.len() - pos;
        assert(b.len() == left && b[0] == op);
        if op > 8 {
            return Err(DecodeError::InvalidOpcode);
        }
        let need: usize = if op == 0 {
            3
        } else if op == 1 {
            6
        } else if op == 2 {
            5
        } else if op == 7 {
            7
        } else if op == 8 {
            1
        } else {
            2
        };
        if left < need {
            return Err(DecodeError::TruncatedBinary);
        }
        assert(forall|k: int| 0 <= k < need ==> b[k] == bytes@[pos + k]);
        let inst = if op == 0 {
            Inst::Mov(bytes[pos + 1], bytes[pos + 2])
        } else if op == 1 {
            Inst::Movi(bytes[pos + 1], read_imm(bytes, pos + 2))
        } else if op == 2 {
            Inst::Ldai(read_imm(bytes, pos + 1))
        } else if op == 3 {
            Inst::Lda(bytes[pos + 1])
        } else if op == 4 {
            Inst::Sta(bytes[pos + 1])
        } else if op == 5 {
            Inst::Add(bytes[pos + 1])
        } else if op == 6 {
            Inst::Dec(bytes[pos + 1])
        } else if op == 7 {
            Inst::Bne(bytes[pos + 1], bytes[pos + 2], read_imm(bytes, pos + 3))
        } else {
            Inst::Print
        };
        proof {
            assert(inst == front_inst(b));
            assert(b.skip(need as int) =~= bytes@.skip(pos + need));
            let tail = decode_spec(bytes@.skip(pos + need));
            match tail {
                Ok(rest) => {
                    assert(out@ + (seq![inst] + rest) =~= out@.push(inst) + rest);
                },
                Err(e) => {},
            }
        }
        out.push(inst);
        pos += need;
    }
    proof {
        assert(out@ + Seq::<Inst>::empty() =~= out@);
    }
    Ok(out)
}

} // verus!
