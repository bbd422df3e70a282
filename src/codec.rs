use vstd::prelude::*;

verus! {

/// Tag byte that opens a `Copy` operation.
pub const TAG_COPY: u8 = 0;

/// Tag byte that opens an `Add` operation.
pub const TAG_ADD: u8 = 1;

/// Why an opcode stream could not be decoded.
#[derive(Debug, Clone, Copy, PartialEq, Eq, Structural)]
pub enum DecodeError {
    /// The leading byte is neither the `Copy` tag nor the `Add` tag.
    InvalidTag,
    /// A declared field or literal runs past the end of the input.
    Truncated,
}

/// Mathematical value of an operation.
pub enum OpModel {
    Copy(u32, u32),
    Add(Seq<u8>),
}

/// One patch operation: copy a range of the reference buffer, or add literal bytes.
#[derive(Debug, PartialEq, Eq)]
pub enum Op<'a> {
    Copy(u32, u32),
    Add(&'a [u8]),
}

/// The four little-endian bytes of `v`.
pub open spec fn le32(v: u32) -> Seq<u8> {
    seq![
        (v & 0xff) as u8,
        ((v >> 8u32) & 0xff) as u8,
        ((v >> 16u32) & 0xff) as u8,
        ((v >> 24u32) & 0xff) as u8,
    ]
}

/// The little-endian `u32` stored in `s[i..i + 4]`.
pub open spec fn read_le32(s: Seq<u8>, i: int) -> u32 {
    (s[i] as u32) | ((s[i + 1] as u32) << 8u32) | ((s[i + 2] as u32) << 16u32) | ((s[i + 3]
        as u32) << 24u32)
}

/// An operation can be encoded: an `Add` literal's length fits in its 4-byte count.
pub open spec fn op_valid(op: OpModel) -> bool {
    match op {
        OpModel::Copy(_, _) => true,
        OpModel::Add(b) => b.len() <= u32::MAX,
    }
}

/// Every operation of the sequence can be encoded.
pub open spec fn ops_valid(ops: Seq<OpModel>) -> bool {
    forall|k: int| 0 <= k < ops.len() ==> op_valid(#[trigger] ops[k])
}

/// Wire form of one operation: tag, then fixed-width little-endian fields.
pub open spec fn encode_op(op: OpModel) -> Seq<u8> {
    match op {
        OpModel::Copy(offset, length) => seq![TAG_COPY] + le32(offset) + le32(length),
        OpModel::Add(bytes) => seq![TAG_ADD] + le32(bytes.len() as u32) + bytes,
    }
}

/// Wire form of a sequence of operations: their encodings back to back.
pub open spec fn encode_all(ops: Seq<OpModel>) -> Seq<u8>
    decreases ops.len(),
{
    if ops.len() == 0 {
        Seq::empty()
    } else {
        encode_op(ops[0]) + encode_all(ops.drop_first())
    }
}

/// Decodes the operation at the front of `s`, with the number of bytes it takes.
pub open spec fn decode_one(s: Seq<u8>) -> Result<(OpModel, nat), DecodeError> {
    if s.len() == 0 || (s[0] != TAG_COPY && s[0] != TAG_ADD) {
        Err(DecodeError::InvalidTag)
    } else if s[0] == TAG_COPY {
        if s.len() < 9 {
            Err(DecodeError::Truncated)
        } else {
            Ok((OpModel::Copy(read_le32(s, 1), read_le32(s, 5)), 9))
        }
    } else if s.len() < 5 {
        Err(DecodeError::Truncated)
    } else {
        let n = read_le32(s, 1) as int;
        if s.len() < 5 + n {
            Err(DecodeError::Truncated)
        } else {
            Ok((OpModel::Add(s.subrange(5, 5 + n)), (5 + n) as nat))
        }
    }
}

/// `r` with `prefix` put in front of its operations, errors kept.
pub open spec fn prepend_ops(prefix: Seq<OpModel>, r: Result<Seq<OpModel>, DecodeError>) -> Result<
    Seq<OpModel>,
    DecodeError,
> {
    match r {
        Ok(ops) => Ok(prefix + ops),
        Err(e) => Err(e),
    }
}

/// Decodes a whole stream: operations until the input is exhausted, or the first error.
pub open spec fn decode_all(s: Seq<u8>) -> Result<Seq<OpModel>, DecodeError>
    decreases s.len(),
{
    if s.len() == 0 {
        Ok(Seq::empty())
    } else {
        match decode_one(s) {
            Err(e) => Err(e),
            Ok((op, n)) => prepend_ops(seq![op], decode_all(s.skip(n as int))),
        }
    }
}

/// Mathematical values of a sequence of operations.
pub open spec fn ops_view<'a>(v: Seq<Op<'a>>) -> Seq<OpModel> {
    v.map_values(|o: Op<'a>| o@)
}

proof fn lemma_le32_round_trip(v: u32) by (bit_vector)
    ensures
        ((v & 0xff) as u8 as u32) | ((((v >> 8u32) & 0xff) as u8 as u32) << 8u32) | ((((v
            >> 16u32) & 0xff) as u8 as u32) << 16u32) | ((((v >> 24u32) & 0xff) as u8 as u32)
            << 24u32) == v,
{
}

/// Reading back the four bytes that `le32` wrote gives the value.
pub proof fn lemma_read_le32(s: Seq<u8>, i: int, v: u32)
    requires
        0 <= i,
        i + 4 <= s.len(),
        s.subrange(i, i + 4) == le32(v),
    ensures
        read_le32(s, i) == v,
{
    assert(s[i] == s.subrange(i, i + 4)[0]);
    assert(s[i + 1] == s.subrange(i, i + 4)[1]);
    assert(s[i + 2] == s.subrange(i, i + 4)[2]);
    assert(s[i + 3] == s.subrange(i, i + 4)[3]);
    lemma_le32_round_trip(v);
}

fn push_le32(out: &mut Vec<u8>, v: u32)
    ensures
        final(out)@ == old(out)@ + le32(v),
{
    out.push((v & 0xff) as u8);
    out.push(((v >> 8u32) & 0xff) as u8);
    out.push(((v >> 16u32) & 0xff) as u8);
    out.push(((v >> 24u32) & 0xff) as u8);
    assert(final(out)@ =~= old(out)@ + le32(v));
}

fn read_le32_at(s: &[u8], i: usize) -> (v: u32)
    requires
        i + 4 <= s@.len(),
    ensures
        v == read_le32(s@, i as int),
{
    (s[i] as u32) | ((s[i + 1] as u32) << 8u32) | ((s[i + 2] as u32) << 16u32) | ((s[i + 3]
        as u32) << 24u32)
}

/// Decoding the wire form of a valid operation, whatever follows it, gives back the operation
/// and the length of its wire form.
pub proof fn lemma_decode_one_encoded(op: OpModel, rest: Seq<u8>)
    requires
        op_valid(op),
    ensures
        decode_one(encode_op(op) + rest) == Ok::<(OpModel, nat), DecodeError>(
            (op, encode_op(op).len()),
        ),
        (encode_op(op) + rest).skip(encode_op(op).len() as int) == rest,
        encode_op(op).len() >= 5,
{
    let e = encode_op(op);
    let s = e + rest;
    match op {
        OpModel::Copy(offset, length) => {
            assert(s.subrange(1, 5) =~= le32(offset));
            assert(s.subrange(5, 9) =~= le32(length));
            lemma_read_le32(s, 1, offset);
            lemma_read_le32(s, 5, length);
        },
        OpModel::Add(bytes) => {
            assert(s.subrange(1, 5) =~= le32(bytes.len() as u32));
            lemma_read_le32(s, 1, bytes.len() as u32);
            assert(s.subrange(5, 5 + bytes.len() as int) =~= bytes);
        },
    }
    assert(s.skip(e.len() as int) =~= rest);
}

/// Decoding the wire form of a valid sequence of operations gives back the sequence.
pub proof fn lemma_decode_encode(ops: Seq<OpModel>)
    requires
        ops_valid(ops),
    ensures
        decode_all(encode_all(ops)) == Ok::<Seq<OpModel>, DecodeError>(ops),
    decreases ops.len(),
{
    if ops.len() > 0 {
        let tail = ops.drop_first();
        assert(op_valid(ops[0]));
        assert(ops_valid(tail)) by {
            assert forall|k: int| 0 <= k < tail.len() implies op_valid(#[trigger] tail[k]) by {
                assert(tail[k] == ops[k + 1]);
            }
        }
        lemma_decode_encode(tail);
        lemma_decode_one_encoded(ops[0], encode_all(tail));
        assert(seq![ops[0]] + tail =~= ops);
    } else {
        assert(ops =~= Seq::<OpModel>::empty());
    }
}

/// The wire form of a non-empty sequence of operations is non-empty.
pub proof fn lemma_encode_all_nonempty(ops: Seq<OpModel>)
    requires
        ops.len() > 0,
    ensures
        encode_all(ops).len() >= 5,
{
    assert(encode_op(ops[0]).len() >= 5);
}

/// Dropping the last byte of the wire form of a valid, non-empty sequence of operations makes
/// decoding fail with `Truncated`.
pub proof fn lemma_drop_last_byte_truncated(ops: Seq<OpModel>)
    requires
        ops_valid(ops),
        ops.len() > 0,
    ensures
        decode_all(encode_all(ops).drop_last()) == Err::<Seq<OpModel>, DecodeError>(
            DecodeError::Truncated,
        ),
    decreases ops.len(),
{
    let first = ops[0];
    let tail = ops.drop_first();
    assert(op_valid(first));
    assert(ops_valid(tail)) by {
        assert forall|k: int| 0 <= k < tail.len() implies op_valid(#[trigger] tail[k]) by {
            assert(tail[k] == ops[k + 1]);
        }
    }
    let e = encode_op(first);
    if tail.len() == 0 {
        assert(encode_all(tail) =~= Seq::<u8>::empty());
        let s = encode_all(ops).drop_last();
        assert(s =~= e.drop_last());
        match first {
            OpModel::Copy(_, _) => {
                assert(s.len() == 8);
                assert(s[0] == TAG_COPY);
            },
            OpModel::Add(bytes) => {
                assert(s[0] == TAG_ADD);
                if bytes.len() > 0 {
                    assert(s.subrange(1, 5) =~= le32(bytes.len() as u32));
                    lemma_read_le32(s, 1, bytes.len() as u32);
                }
            },
        }
    } else {
        lemma_encode_all_nonempty(tail);
        let t = encode_all(tail).drop_last();
        lemma_drop_last_byte_truncated(tail);
        assert(encode_all(ops).drop_last() =~= e + t);
        lemma_decode_one_encoded(first, t);
    }
}

impl<'a> Op<'a> {
    /// Mathematical value of this operation.
    pub open spec fn view(&self) -> OpModel {
        match self {
            Op::Copy(offset, length) => OpModel::Copy(*offset, *length),
            Op::Add(bytes) => OpModel::Add(bytes@),
        }
    }

    /// Appends the wire form of this operation to `out`.
    pub fn serialize_to(&self, out: &mut Vec<u8>)
        requires
            op_valid(self@),
        ensures
            final(out)@ == old(out)@ + encode_op(self@),
    {
        match self {
            Op::Copy(offset, length) => {
                out.push(TAG_COPY);
                push_le32(out, *offset);
                push_le32(out, *length);
                assert(out@ =~= old(out)@ + encode_op(self@));
            },
            Op::Add(bytes) => {
                out.push(TAG_ADD);
                push_le32(out, bytes.len() as u32);
                let ghost mid = out@;
                out.extend_from_slice(bytes);
                assert(out@ =~= mid + bytes@);
                assert(out@ =~= old(out)@ + encode_op(self@));
            },
        }
    }

    /// Decodes one operation from the front of `input`; returns it with the rest of the input.
    pub fn deserialize(input: &'a [u8]) -> (r: Result<(Op<'a>, &'a [u8]), DecodeError>)
        ensures
            match decode_one(input@) {
                Ok((m, n)) => r is Ok && r->Ok_0.0@ == m && r->Ok_0.1@ == input@.skip(n as int),
                Err(e) => r == Err::<(Op<'a>, &'a [u8]), DecodeError>(e),
            },
    {
        let len = input.len();
        if len == 0 {
            return Err(DecodeError::InvalidTag);
        }
        let tag = input[0];
        if tag == TAG_COPY {
            if len < 9 {
                return Err(DecodeError::Truncated);
            }
            let offset = read_le32_at(input, 1);
            let length = read_le32_at(input, 5);
            Ok((Op::Copy(offset, length), &input[9..len]))
        } else if tag == TAG_ADD {
            if len < 5 {
                return Err(DecodeError::Truncated);
            }
            let n = read_le32_at(input, 1) as usize;
            if len - 5 < n {
                return Err(DecodeError::Truncated);
            }
            Ok((Op::Add(&input[5..5 + n]), &input[5 + n..len]))
        } else {
            Err(DecodeError::InvalidTag)
        }
    }

    /// Decodes a whole opcode stream; an empty input gives no operations.
    pub fn deserialize_all(input: &'a [u8]) -> (r: Result<Vec<Op<'a>>, DecodeError>)
        ensures
            match decode_all(input@) {
                Ok(ms) => r is Ok && ops_view(r->Ok_0@) == ms,
                Err(e) => r == Err::<Vec<Op<'a>>, DecodeError>(e),
            },
    {
        let mut rest = input;
        let mut ops: Vec<Op<'a>> = Vec::new();
        while rest.len() > 0
            invariant
                decode_all(input@) == prepend_ops(ops_view(ops@), decode_all(rest@)),
            decreases rest@.len(),
        {
            match Op::deserialize(rest) {
                Err(e) => {
                    return Err(e);
                },
                Ok((op, next)) => {
                    proof {
                        assert(ops_view(ops@.push(op)) =~= ops_view(ops@) + seq![op@]);
                        match decode_all(next@) {
                            Ok(t) => {
                                assert(ops_view(ops@) + (seq![op@] + t) =~= ops_view(ops@)
                                    + seq![op@] + t);
                            },
                            Err(_) => {},
                        }
                    }
                    rest = next;
                    ops.push(op);
                },
            }
        }
        assert(ops_view(ops@) + Seq::<OpModel>::empty() =~= ops_view(ops@));
        Ok(ops)
    }
}

} // verus!
