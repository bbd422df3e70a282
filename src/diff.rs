use vstd::prelude::*;

use crate::codec::{
    decode_all, encode_all, encode_op, lemma_decode_encode, op_valid, ops_valid, DecodeError, Op,
    OpModel,
};
use crate::compare::{
    common_prefix_len, lemma_common_from_props, lemma_common_from_skip, lemma_common_prefix_len,
    simd_memcmp,
};
use crate::index::{build_hash_map, index_entries, lemma_index_upto, window_index};
use crate::patch::{apply_spec, lemma_apply_encoded, op_in_bounds, op_output, ops_output, PatchError};
use crate::window::{lemma_window_key_eq, window_key, window_key_at, WINDOW_SIZE};

verus! {

/// The window of `new` at `i` is found in the index of `old`.
pub open spec fn matches_at(old: Seq<u8>, new: Seq<u8>, i: int) -> bool {
    0 <= i && i + 8 <= new.len() && window_index(old).contains_key(window_key(new, i))
}

/// Where the index of `old` places the window of `new` at `i`.
pub open spec fn match_pos(old: Seq<u8>, new: Seq<u8>, i: int) -> int {
    window_index(old)[window_key(new, i)] as int
}

/// How far the match at `i` extends: the common prefix of `new[i..]` and `old[pos..]`.
pub open spec fn match_len(old: Seq<u8>, new: Seq<u8>, i: int) -> int {
    common_prefix_len(new.skip(i), old.skip(match_pos(old, new, i)))
}

/// The first position at or after `j` where a match starts, or the end of `new`.
pub open spec fn literal_end(old: Seq<u8>, new: Seq<u8>, j: int) -> int
    decreases new.len() - j,
{
    if 0 <= j < new.len() && !matches_at(old, new, j) {
        literal_end(old, new, j + 1)
    } else {
        j
    }
}

/// The operations the greedy matcher emits from position `i` of `new` on: a `Copy` of the
/// longest match where the window at `i` is indexed, else an `Add` of the bytes up to the next
/// position whose window is indexed.
pub open spec fn diff_ops(old: Seq<u8>, new: Seq<u8>, i: int) -> Seq<OpModel>
    decreases new.len() - i,
    when old.len() <= usize::MAX
    via diff_ops_decreases
{
    if i < 0 || i >= new.len() {
        Seq::empty()
    } else if matches_at(old, new, i) {
        let len = match_len(old, new, i);
        seq![OpModel::Copy(match_pos(old, new, i) as u32, len as u32)] + diff_ops(old, new, i + len)
    } else {
        let end = literal_end(old, new, i + 1);
        seq![OpModel::Add(new.subrange(i, end))] + diff_ops(old, new, end)
    }
}

#[via_fn]
proof fn diff_ops_decreases(old: Seq<u8>, new: Seq<u8>, i: int) {
    if 0 <= i < new.len() {
        if matches_at(old, new, i) {
            lemma_match(old, new, i);
        } else {
            lemma_literal_end(old, new, i + 1);
        }
    }
}

/// The patch `make_diff` produces: one `Add` of all of `new` when either buffer is shorter
/// than a window, else the greedy operations encoded back to back.
pub open spec fn diff_spec(old: Seq<u8>, new: Seq<u8>) -> Seq<u8> {
    if new.len() < 8 || old.len() < 8 {
        encode_op(OpModel::Add(new))
    } else {
        encode_all(diff_ops(old, new, 0))
    }
}

/// A match found through the index is a run of at least one window that `old` and `new` share.
pub proof fn lemma_match(old: Seq<u8>, new: Seq<u8>, i: int)
    requires
        old.len() <= usize::MAX,
        matches_at(old, new, i),
    ensures
        0 <= match_pos(old, new, i),
        8 <= match_len(old, new, i) <= new.len() - i,
        match_pos(old, new, i) + match_len(old, new, i) <= old.len(),
        old.subrange(match_pos(old, new, i), match_pos(old, new, i) + match_len(old, new, i))
            == new.subrange(i, i + match_len(old, new, i)),
{
    lemma_index_upto(old, old.len() - 7);
    let p = match_pos(old, new, i);
    let a = new.skip(i);
    let b = old.skip(p);
    lemma_window_key_eq(new, i, old, p);
    assert forall|t: int| 0 <= t < 8 implies a[t] == b[t] by {
        assert(a[t] == new.subrange(i, i + 8)[t]);
        assert(b[t] == old.subrange(p, p + 8)[t]);
    }
    lemma_common_from_skip(a, b, 0, 8);
    lemma_common_from_props(a, b, 8);
    lemma_common_prefix_len(a, b);
    let len = match_len(old, new, i);
    assert(old.subrange(p, p + len) =~= b.subrange(0, len));
    assert(new.subrange(i, i + len) =~= a.subrange(0, len));
}

/// A literal run ends at the first indexed window after its start, or at the end of `new`.
pub proof fn lemma_literal_end(old: Seq<u8>, new: Seq<u8>, j: int)
    requires
        0 <= j <= new.len(),
    ensures
        j <= literal_end(old, new, j) <= new.len(),
        forall|k: int| j <= k < literal_end(old, new, j) ==> !matches_at(old, new, k),
        literal_end(old, new, j) == new.len() || matches_at(old, new, literal_end(old, new, j)),
    decreases new.len() - j,
{
    if j < new.len() && !matches_at(old, new, j) {
        lemma_literal_end(old, new, j + 1);
    }
}

/// Every operation the matcher emits from `i` on can be encoded and stays inside `old`, and
/// together they produce `new[i..]`.
pub proof fn lemma_diff_ops(old: Seq<u8>, new: Seq<u8>, i: int)
    requires
        old.len() <= u32::MAX,
        new.len() <= u32::MAX,
        0 <= i <= new.len(),
    ensures
        ops_valid(diff_ops(old, new, i)),
        forall|k: int|
            0 <= k < diff_ops(old, new, i).len() ==> op_in_bounds(
                old,
                #[trigger] diff_ops(old, new, i)[k],
            ),
        ops_output(old, diff_ops(old, new, i)) == new.subrange(i, new.len() as int),
    decreases new.len() - i,
{
    let ops = diff_ops(old, new, i);
    if i == new.len() {
        assert(new.subrange(i, new.len() as int) =~= Seq::<u8>::empty());
    } else {
        let (first, next) = if matches_at(old, new, i) {
            lemma_match(old, new, i);
            let len = match_len(old, new, i);
            (OpModel::Copy(match_pos(old, new, i) as u32, len as u32), i + len)
        } else {
            lemma_literal_end(old, new, i + 1);
            let end = literal_end(old, new, i + 1);
            (OpModel::Add(new.subrange(i, end)), end)
        };
        let tail = diff_ops(old, new, next);
        assert(ops == seq![first] + tail);
        lemma_diff_ops(old, new, next);
        assert(ops.drop_first() =~= tail);
        assert forall|k: int| 0 <= k < ops.len() implies op_valid(#[trigger] ops[k])
            && op_in_bounds(old, ops[k]) by {
            if k > 0 {
                assert(ops[k] == tail[k - 1]);
            }
        }
        assert(op_output(old, first) =~= new.subrange(i, next));
        assert(new.subrange(i, next) + new.subrange(next, new.len() as int) =~= new.subrange(
            i,
            new.len() as int,
        ));
    }
}

/// Applying the patch made from `old` to `new` gives back `new`.
pub proof fn lemma_round_trip(old: Seq<u8>, new: Seq<u8>)
    requires
        old.len() <= u32::MAX,
        new.len() <= u32::MAX,
    ensures
        apply_spec(old, diff_spec(old, new)) == Ok::<Seq<u8>, PatchError>(new),
{
    if new.len() < 8 || old.len() < 8 {
        let ops = seq![OpModel::Add(new)];
        assert(ops.drop_first() =~= Seq::<OpModel>::empty());
        assert(encode_all(ops.drop_first()) =~= Seq::<u8>::empty());
        assert(ops_output(old, ops.drop_first()) =~= Seq::<u8>::empty());
        assert(encode_all(ops) =~= encode_op(OpModel::Add(new)));
        assert(ops_output(old, ops) =~= new);
        lemma_apply_encoded(old, ops);
    } else {
        lemma_diff_ops(old, new, 0);
        assert(new.subrange(0, new.len() as int) =~= new);
        lemma_apply_encoded(old, diff_ops(old, new, 0));
    }
}

/// When either buffer is shorter than a window, the patch decodes to a single `Add` that holds
/// all of `new`.
pub proof fn lemma_short_input_diff(old: Seq<u8>, new: Seq<u8>)
    requires
        old.len() < 8 || new.len() < 8,
        new.len() <= u32::MAX,
    ensures
        decode_all(diff_spec(old, new)) == Ok::<Seq<OpModel>, DecodeError>(
            seq![OpModel::Add(new)],
        ),
{
    let ops = seq![OpModel::Add(new)];
    assert(ops.drop_first() =~= Seq::<OpModel>::empty());
    assert(encode_all(ops.drop_first()) =~= Seq::<u8>::empty());
    assert(encode_all(ops) =~= diff_spec(old, new));
    assert(ops_valid(ops));
    lemma_decode_encode(ops);
}

/// Diffing a buffer of at least one window against itself gives a single `Copy` of the whole
/// buffer, provided its first window occurs nowhere else in it.
pub proof fn lemma_identity_diff(old: Seq<u8>)
    requires
        8 <= old.len() <= u32::MAX,
        forall|j: int| 0 < j <= old.len() - 8 ==> #[trigger] old.subrange(j, j + 8) != old.subrange(0, 8),
    ensures
        decode_all(diff_spec(old, old)) == Ok::<Seq<OpModel>, DecodeError>(
            seq![OpModel::Copy(0, old.len() as u32)],
        ),
{
    lemma_index_upto(old, old.len() - 7);
    assert(window_index(old).contains_key(window_key(old, 0)));
    let p = match_pos(old, old, 0);
    lemma_window_key_eq(old, p, old, 0);
    assert(p == 0);
    assert(old.skip(0) =~= old);
    lemma_common_from_skip(old, old, 0, old.len() as int);
    assert(match_len(old, old, 0) == old.len());
    let ops = seq![OpModel::Copy(0, old.len() as u32)];
    assert(diff_ops(old, old, old.len() as int) =~= Seq::<OpModel>::empty());
    assert(diff_ops(old, old, 0) =~= ops);
    assert(ops_valid(ops));
    lemma_decode_encode(ops);
}

/// Computes a patch that rebuilds `new` from the reference buffer `old`.
pub fn make_diff(old: &[u8], new: &[u8]) -> (r: Vec<u8>)
    requires
        old@.len() <= u32::MAX,
        new@.len() <= u32::MAX,
    ensures
        r@ == diff_spec(old@, new@),
{
    if new.len() < WINDOW_SIZE || old.len() < WINDOW_SIZE {
        let mut patch: Vec<u8> = Vec::new();
        Op::Add(new).serialize_to(&mut patch);
        return patch;
    }
    let mut patch: Vec<u8> = Vec::with_capacity(512);
    let map = build_hash_map(old);
    let mut i: usize = 0;
    while i < new.len()
        invariant
            i <= new@.len(),
            old@.len() <= u32::MAX,
            new@.len() <= u32::MAX,
            index_entries(map) == window_index(old@),
            diff_spec(old@, new@) == patch@ + encode_all(diff_ops(old@, new@, i as int)),
        decreases new@.len() - i,
    {
        let ghost before = patch@;
        if new.len() - i >= WINDOW_SIZE {
            let key = window_key_at(new, i);
            match map.get(key) {
                Some(pos) => {
                    proof {
                        lemma_match(old@, new@, i as int);
                    }
                    let len = simd_memcmp(&new[i..new.len()], &old[pos..old.len()]);
                    let op = Op::Copy(pos as u32, len as u32);
                    op.serialize_to(&mut patch);
                    proof {
                        let ops = diff_ops(old@, new@, i as int);
                        let tail = diff_ops(old@, new@, i + len);
                        assert(new@.subrange(i as int, new@.len() as int) =~= new@.skip(i as int));
                        assert(old@.subrange(pos as int, old@.len() as int) =~= old@.skip(
                            pos as int,
                        ));
                        assert(ops == seq![op@] + tail);
                        assert(ops.drop_first() =~= tail);
                        assert(before + (encode_op(op@) + encode_all(tail)) =~= before
                            + encode_op(op@) + encode_all(tail));
                    }
                    i += len;
                    continue ;
                },
                None => {},
            }
        }
        let start = i;
        i += 1;
        while i < new.len()
            invariant
                start < i <= new@.len(),
                index_entries(map) == window_index(old@),
                literal_end(old@, new@, start + 1) == literal_end(old@, new@, i as int),
            ensures
                literal_end(old@, new@, start + 1) == i,
            decreases new@.len() - i,
        {
            if new.len() - i >= WINDOW_SIZE {
                if map.contains_key(window_key_at(new, i)) {
                    break;
                }
            }
            i += 1;
        }
        let op = Op::Add(&new[start..i]);
        op.serialize_to(&mut patch);
        proof {
            let ops = diff_ops(old@, new@, start as int);
            let tail = diff_ops(old@, new@, i as int);
            assert(ops == seq![op@] + tail);
            assert(ops.drop_first() =~= tail);
            assert(before + (encode_op(op@) + encode_all(tail)) =~= before + encode_op(op@)
                + encode_all(tail));
        }
    }
    assert(patch@ + Seq::<u8>::empty() =~= patch@);
    patch
}

} // verus!
