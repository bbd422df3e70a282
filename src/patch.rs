use vstd::prelude::*;

use crate::codec::{
    decode_all, decode_one, encode_all, lemma_decode_one_encoded, op_valid, ops_valid,
    DecodeError, Op, OpModel,
};

verus! {

/// Why a patch could not be applied.
#[derive(Debug, Clone, Copy, PartialEq, Eq, Structural)]
pub enum PatchError {
    /// The opcode stream could not be decoded.
    Malformed(DecodeError),
    /// A `Copy` reaches past the end of the reference buffer.
    OutOfBounds,
}

/// `r` with `prefix` put in front of its bytes, errors kept.
pub open spec fn prepend_bytes(prefix: Seq<u8>, r: Result<Seq<u8>, PatchError>) -> Result<
    Seq<u8>,
    PatchError,
> {
    match r {
        Ok(bytes) => Ok(prefix + bytes),
        Err(e) => Err(e),
    }
}

/// A `Copy` stays inside the reference buffer.
pub open spec fn op_in_bounds(old: Seq<u8>, op: OpModel) -> bool {
    match op {
        OpModel::Copy(offset, length) => offset + length <= old.len(),
        OpModel::Add(_) => true,
    }
}

/// The bytes an operation appends to the output.
pub open spec fn op_output(old: Seq<u8>, op: OpModel) -> Seq<u8> {
    match op {
        OpModel::Copy(offset, length) => old.subrange(offset as int, offset + length),
        OpModel::Add(bytes) => bytes,
    }
}

/// The bytes a sequence of operations produces, in order.
pub open spec fn ops_output(old: Seq<u8>, ops: Seq<OpModel>) -> Seq<u8>
    decreases ops.len(),
{
    if ops.len() == 0 {
        Seq::empty()
    } else {
        op_output(old, ops[0]) + ops_output(old, ops.drop_first())
    }
}

/// Result of applying `patch` to `old`: operations are decoded and carried out one at a time,
/// and the first decoding failure or out-of-bounds `Copy` ends it.
pub open spec fn apply_spec(old: Seq<u8>, patch: Seq<u8>) -> Result<Seq<u8>, PatchError>
    decreases patch.len(),
{
    if patch.len() == 0 {
        Ok(Seq::empty())
    } else {
        match decode_one(patch) {
            Err(e) => Err(PatchError::Malformed(e)),
            Ok((op, n)) => {
                if !op_in_bounds(old, op) {
                    Err(PatchError::OutOfBounds)
                } else {
                    prepend_bytes(op_output(old, op), apply_spec(old, patch.skip(n as int)))
                }
            },
        }
    }
}

/// Applying the wire form of valid, in-bounds operations produces their output.
pub proof fn lemma_apply_encoded(old: Seq<u8>, ops: Seq<OpModel>)
    requires
        ops_valid(ops),
        forall|k: int| 0 <= k < ops.len() ==> op_in_bounds(old, #[trigger] ops[k]),
    ensures
        apply_spec(old, encode_all(ops)) == Ok::<Seq<u8>, PatchError>(ops_output(old, ops)),
    decreases ops.len(),
{
    if ops.len() > 0 {
        let tail = ops.drop_first();
        assert(op_valid(ops[0]) && op_in_bounds(old, ops[0]));
        assert forall|k: int| 0 <= k < tail.len() implies op_valid(#[trigger] tail[k])
            && op_in_bounds(old, tail[k]) by {
            assert(tail[k] == ops[k + 1]);
        }
        lemma_apply_encoded(old, tail);
        lemma_decode_one_encoded(ops[0], encode_all(tail));
    }
}

/// A patch that decodes to operations of which one is a `Copy` past the end of `old` fails with
/// `OutOfBounds`.
pub proof fn lemma_out_of_bounds_copy(old: Seq<u8>, patch: Seq<u8>, k: int)
    requires
        decode_all(patch) is Ok,
        0 <= k < decode_all(patch)->Ok_0.len(),
        !op_in_bounds(old, decode_all(patch)->Ok_0[k]),
    ensures
        apply_spec(old, patch) == Err::<Seq<u8>, PatchError>(PatchError::OutOfBounds),
    decreases patch.len(),
{
    if patch.len() > 0 {
        let (op, n) = decode_one(patch)->Ok_0;
        let rest = patch.skip(n as int);
        let ops = decode_all(patch)->Ok_0;
        if op_in_bounds(old, op) {
            assert(ops[0] == op);
            assert(decode_all(rest)->Ok_0[k - 1] == ops[k]);
            lemma_out_of_bounds_copy(old, rest, k - 1);
        }
    }
}

/// Rebuilds the new buffer from the reference buffer `old` and an opcode stream.
pub fn apply_patch(old: &[u8], patch: &[u8]) -> (r: Result<Vec<u8>, PatchError>)
    ensures
        match r {
            Ok(v) => apply_spec(old@, patch@) == Ok::<Seq<u8>, PatchError>(v@),
            Err(e) => apply_spec(old@, patch@) == Err::<Seq<u8>, PatchError>(e),
        },
{
    let mut rest = patch;
    let mut out: Vec<u8> = Vec::new();
    while rest.len() > 0
        invariant
            apply_spec(old@, patch@) == prepend_bytes(out@, apply_spec(old@, rest@)),
        decreases rest@.len(),
    {
        let (op, next) = match Op::deserialize(rest) {
            Ok(decoded) => decoded,
            Err(e) => {
                return Err(PatchError::Malformed(e));
            },
        };
        let ghost before = out@;
        match op {
            Op::Copy(offset, length) => {
                let start = offset as usize;
                let count = length as usize;
                if count > old.len() || start > old.len() - count {
                    return Err(PatchError::OutOfBounds);
                }
                out.extend_from_slice(&old[start..start + count]);
            },
            Op::Add(bytes) => {
                out.extend_from_slice(bytes);
            },
        }
        proof {
            let added = op_output(old@, op@);
            assert(out@ =~= before + added);
            match apply_spec(old@, next@) {
                Ok(t) => {
                    assert(before + (added + t) =~= before + added + t);
                },
                Err(_) => {},
            }
        }
        rest = next;
    }
    assert(out@ + Seq::<u8>::empty() =~= out@);
    Ok(out)
}

} // verus!
