use bindiff::compare::{simd_memcmp, simd_memcmp_fallback};
use bindiff::window::window_key_at;
use bindiff::{apply_patch, make_diff, DecodeError, Op, PatchError};

fn encode(ops: &[Op]) -> Vec<u8> {
    let mut out = Vec::new();
    for op in ops {
        op.serialize_to(&mut out);
    }
    out
}

#[test]
fn test() {
    let digits = (0..100).into_iter().collect::<Vec<_>>();
    let tail = vec![0, 1];
    let shifted_digits = digits
        .clone()
        .into_iter()
        .skip(2)
        .chain(tail.iter().copied())
        .collect::<Vec<_>>();
    let baz = b"baz".to_vec();

    let cases: Vec<(Vec<u8>, Vec<u8>, _)> = vec![
        (digits.clone(), digits.clone(), Some(vec![Op::Copy(0, 100)])),
        (
            digits.clone(),
            shifted_digits.clone(),
            Some(vec![Op::Copy(2, 98), Op::Add(tail.as_slice())]),
        ),
        (vec![], vec![1, 2, 3, 4, 5, 6, 7, 8], None),
        (vec![], vec![1, 2, 3], None),
        (vec![], vec![], Some(vec![Op::Add(&[])])),
        (
            vec![1, 2, 3, 4, 5, 6, 7, 8],
            vec![],
            Some(vec![Op::Add(&[])]),
        ),
        (
            b"-foo-bar-hello-world".into(),
            b"hello-world-foo-bar-baz".into(),
            Some(vec![Op::Copy(9, 11), Op::Copy(0, 9), Op::Add(&baz)]),
        ),
        (
            b"just-swaps-with-no-adds".into(),
            b"-with-no-addsjust-swaps".into(),
            Some(vec![Op::Copy(10, 13), Op::Copy(0, 10)]),
        ),
    ];

    for (old, new, expected_ops) in cases {
        let patch = make_diff(&old, &new);
        let ops = Op::deserialize_all(&patch).unwrap();
        if let Some(expected) = expected_ops {
            assert_eq!(ops, expected);
        }
        let patched = apply_patch(&old, &patch).unwrap();
        assert_eq!(&patched, &new);
    }
}

#[test]
fn identical_buffers_give_one_copy() {
    let old: Vec<u8> = (0..100).collect();
    let patch = make_diff(&old, &old);
    assert_eq!(Op::deserialize_all(&patch).unwrap(), vec![Op::Copy(0, 100)]);
    assert_eq!(patch, vec![0, 0, 0, 0, 0, 100, 0, 0, 0]);
}

#[test]
fn rotation_gives_copy_then_add() {
    let old: Vec<u8> = (0..100).collect();
    let mut new: Vec<u8> = (2..100).collect();
    new.extend_from_slice(&[0, 1]);
    let patch = make_diff(&old, &new);
    assert_eq!(
        Op::deserialize_all(&patch).unwrap(),
        vec![Op::Copy(2, 98), Op::Add(&[0, 1])]
    );
    assert_eq!(apply_patch(&old, &patch).unwrap(), new);
}

#[test]
fn reordered_words() {
    let old = b"-foo-bar-hello-world";
    let new = b"hello-world-foo-bar-baz";
    let patch = make_diff(old, new);
    assert_eq!(
        Op::deserialize_all(&patch).unwrap(),
        vec![Op::Copy(9, 11), Op::Copy(0, 9), Op::Add(b"baz")]
    );
    assert_eq!(apply_patch(old, &patch).unwrap(), new.to_vec());
}

#[test]
fn empty_buffers_give_empty_add() {
    let patch = make_diff(&[], &[]);
    assert_eq!(patch, vec![1, 0, 0, 0, 0]);
    assert_eq!(Op::deserialize_all(&patch).unwrap(), vec![Op::Add(&[])]);
    assert_eq!(apply_patch(&[], &patch).unwrap(), Vec::<u8>::new());
}

#[test]
fn short_buffers_give_one_add() {
    let old = b"abcdefghijkl";
    let new = b"abcdefg";
    let patch = make_diff(old, new);
    assert_eq!(Op::deserialize_all(&patch).unwrap(), vec![Op::Add(b"abcdefg")]);
    let patch = make_diff(b"abc", b"abcdefghijkl");
    assert_eq!(
        Op::deserialize_all(&patch).unwrap(),
        vec![Op::Add(b"abcdefghijkl")]
    );
}

#[test]
fn repeated_windows_use_last_occurrence() {
    let old = vec![0u8; 16];
    let patch = make_diff(&old, &old);
    assert_eq!(
        Op::deserialize_all(&patch).unwrap(),
        vec![Op::Copy(8, 8), Op::Copy(8, 8)]
    );
    assert_eq!(apply_patch(&old, &patch).unwrap(), old);
}

#[test]
fn round_trip_on_mixed_content() {
    let old: Vec<u8> = (0..=255u8).cycle().take(1000).collect();
    let mut new = old.clone();
    new[10] = 7;
    new.splice(300..310, vec![9u8; 25]);
    new.truncate(900);
    new.extend_from_slice(b"tail bytes");
    let patch = make_diff(&old, &new);
    assert_eq!(apply_patch(&old, &patch).unwrap(), new);
}

#[test]
fn decode_inverts_encode() {
    let ops = vec![Op::Copy(3, 70000), Op::Add(b"hello"), Op::Add(&[]), Op::Copy(0, 0)];
    let bytes = encode(&ops);
    assert_eq!(bytes.len(), 9 + 10 + 5 + 9);
    assert_eq!(&bytes[0..9], &[0, 3, 0, 0, 0, 0x70, 0x11, 1, 0]);
    assert_eq!(Op::deserialize_all(&bytes).unwrap(), ops);
}

#[test]
fn deserialize_returns_rest() {
    let bytes = [1, 2, 0, 0, 0, b'h', b'i', 9, 9];
    let (op, rest) = Op::deserialize(&bytes).unwrap();
    assert_eq!(op, Op::Add(b"hi"));
    assert_eq!(rest, &[9, 9]);
}

#[test]
fn empty_stream_decodes_to_nothing() {
    assert_eq!(Op::deserialize_all(&[]).unwrap(), Vec::<Op>::new());
}

#[test]
fn dropping_last_byte_is_truncated() {
    let bytes = encode(&[Op::Copy(1, 2), Op::Add(b"literal")]);
    assert_eq!(
        Op::deserialize_all(&bytes[..bytes.len() - 1]),
        Err(DecodeError::Truncated)
    );
    let bytes = encode(&[Op::Add(b"x"), Op::Copy(5, 6)]);
    assert_eq!(
        Op::deserialize_all(&bytes[..bytes.len() - 1]),
        Err(DecodeError::Truncated)
    );
    let bytes = encode(&[Op::Add(&[])]);
    assert_eq!(
        Op::deserialize_all(&bytes[..bytes.len() - 1]),
        Err(DecodeError::Truncated)
    );
}

#[test]
fn invalid_tag_is_rejected() {
    assert_eq!(Op::deserialize_all(&[2, 0, 0]), Err(DecodeError::InvalidTag));
    let mut bytes = encode(&[Op::Copy(0, 1)]);
    bytes.push(0xff);
    assert_eq!(Op::deserialize_all(&bytes), Err(DecodeError::InvalidTag));
}

#[test]
fn truncated_fields_are_rejected() {
    assert_eq!(
        Op::deserialize_all(&[0, 1, 2, 3, 4, 5, 6, 7]),
        Err(DecodeError::Truncated)
    );
    assert_eq!(Op::deserialize_all(&[1, 1, 0]), Err(DecodeError::Truncated));
    assert_eq!(
        Op::deserialize_all(&[1, 3, 0, 0, 0, 7, 7]),
        Err(DecodeError::Truncated)
    );
}

#[test]
fn copy_out_of_bounds_is_rejected() {
    let old = b"0123456789";
    let patch = encode(&[Op::Add(b"ab"), Op::Copy(4, 7)]);
    assert_eq!(apply_patch(old, &patch), Err(PatchError::OutOfBounds));
    let patch = encode(&[Op::Copy(4, 6)]);
    assert_eq!(apply_patch(old, &patch).unwrap(), b"456789".to_vec());
    let patch = encode(&[Op::Copy(u32::MAX, 2)]);
    assert_eq!(apply_patch(old, &patch), Err(PatchError::OutOfBounds));
}

#[test]
fn malformed_patch_is_rejected() {
    assert_eq!(
        apply_patch(b"abc", &[7]),
        Err(PatchError::Malformed(DecodeError::InvalidTag))
    );
    assert_eq!(
        apply_patch(b"abc", &[0, 0, 0]),
        Err(PatchError::Malformed(DecodeError::Truncated))
    );
}

#[test]
fn common_prefix_lengths() {
    let a: Vec<u8> = (0..70).collect();
    let mut b = a.clone();
    b[45] = 0xff;
    assert_eq!(simd_memcmp(&a, &b), 45);
    assert_eq!(simd_memcmp_fallback(&a, &b), 45);
    assert_eq!(simd_memcmp(&a, &a[..20]), 20);
    assert_eq!(simd_memcmp_fallback(&a[..3], &a), 3);
    assert_eq!(simd_memcmp(&a, &[]), 0);
    assert_eq!(simd_memcmp(&[1, 2, 3], &[2, 2, 3]), 0);
    assert_eq!(simd_memcmp(&a, &a), 70);
}

#[test]
fn window_keys_are_little_endian() {
    assert_eq!(window_key_at(&[1, 0, 0, 0, 0, 0, 0, 0], 0), 1);
    assert_eq!(window_key_at(&[9, 0, 1, 0, 0, 0, 0, 0, 0], 1), 256);
    assert_eq!(window_key_at(&[0, 0, 0, 0, 0, 0, 0, 0x80], 0), 0x8000_0000_0000_0000);
}
