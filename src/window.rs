use vstd::prelude::*;

verus! {

/// Length in bytes of a content window.
pub const WINDOW_SIZE: usize = 8;

/// The eight bytes `s[i..i + 8]` read as a little-endian `u64`.
pub open spec fn window_key(s: Seq<u8>, i: int) -> u64 {
    (s[i] as u64) | ((s[i + 1] as u64) << 8u64) | ((s[i + 2] as u64) << 16u64) | ((s[i + 3]
        as u64) << 24u64) | ((s[i + 4] as u64) << 32u64) | ((s[i + 5] as u64) << 40u64) | ((s[i
        + 6] as u64) << 48u64) | ((s[i + 7] as u64) << 56u64)
}

proof fn lemma_pack_injective(
    a0: u8,
    a1: u8,
    a2: u8,
    a3: u8,
    a4: u8,
    a5: u8,
    a6: u8,
    a7: u8,
    b0: u8,
    b1: u8,
    b2: u8,
    b3: u8,
    b4: u8,
    b5: u8,
    b6: u8,
    b7: u8,
) by (bit_vector)
    requires
        (a0 as u64) | ((a1 as u64) << 8u64) | ((a2 as u64) << 16u64) | ((a3 as u64) << 24u64) | ((
        a4 as u64) << 32u64) | ((a5 as u64) << 40u64) | ((a6 as u64) << 48u64) | ((a7 as u64)
            << 56u64) == (b0 as u64) | ((b1 as u64) << 8u64) | ((b2 as u64) << 16u64) | ((b3
            as u64) << 24u64) | ((b4 as u64) << 32u64) | ((b5 as u64) << 40u64) | ((b6 as u64)
            << 48u64) | ((b7 as u64) << 56u64),
    ensures
        a0 == b0 && a1 == b1 && a2 == b2 && a3 == b3 && a4 == b4 && a5 == b5 && a6 == b6 && a7
            == b7,
{
}

/// Two windows have the same key exactly when they hold the same bytes.
pub proof fn lemma_window_key_eq(s: Seq<u8>, i: int, t: Seq<u8>, j: int)
    requires
        0 <= i,
        i + 8 <= s.len(),
        0 <= j,
        j + 8 <= t.len(),
    ensures
        (window_key(s, i) == window_key(t, j)) <==> (s.subrange(i, i + 8) == t.subrange(j, j + 8)),
{
    if window_key(s, i) == window_key(t, j) {
        lemma_pack_injective(
            s[i],
            s[i + 1],
            s[i + 2],
            s[i + 3],
            s[i + 4],
            s[i + 5],
            s[i + 6],
            s[i + 7],
            t[j],
            t[j + 1],
            t[j + 2],
            t[j + 3],
            t[j + 4],
            t[j + 5],
            t[j + 6],
            t[j + 7],
        );
        assert forall|k: int| 0 <= k < 8 implies #[trigger] s[i + k] == t[j + k] by {
            if k == 0 {
            } else if k == 1 {
            } else if k == 2 {
            } else if k == 3 {
            } else if k == 4 {
            } else if k == 5 {
            } else if k == 6 {
            } else {
            }
        }
        assert(s.subrange(i, i + 8) =~= t.subrange(j, j + 8));
    }
    if s.subrange(i, i + 8) == t.subrange(j, j + 8) {
        let a = s.subrange(i, i + 8);
        let b = t.subrange(j, j + 8);
        assert(s[i] == a[0] && t[j] == b[0]);
        assert(s[i + 1] == a[1] && t[j + 1] == b[1]);
        assert(s[i + 2] == a[2] && t[j + 2] == b[2]);
        assert(s[i + 3] == a[3] && t[j + 3] == b[3]);
        assert(s[i + 4] == a[4] && t[j + 4] == b[4]);
        assert(s[i + 5] == a[5] && t[j + 5] == b[5]);
        assert(s[i + 6] == a[6] && t[j + 6] == b[6]);
        assert(s[i + 7] == a[7] && t[j + 7] == b[7]);
    }
}

/// The key of the window that starts at `i`.
pub fn window_key_at(s: &[u8], i: usize) -> (k: u64)
    requires
        i + 8 <= s@.len(),
    ensures
        k == window_key(s@, i as int),
{
    (s[i] as u64) | ((s[i + 1] as u64) << 8u64) | ((s[i + 2] as u64) << 16u64) | ((s[i + 3]
        as u64) << 24u64) | ((s[i + 4] as u64) << 32u64) | ((s[i + 5] as u64) << 40u64) | ((s[i
        + 6] as u64) << 48u64) | ((s[i + 7] as u64) << 56u64)
}

} // verus!
