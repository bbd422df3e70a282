use vstd::prelude::*;

use crate::window::{lemma_window_key_eq, window_key_at};

verus! {

/// Index of the first position at or after `k` where `a` and `b` differ or one of them ends.
pub open spec fn common_from(a: Seq<u8>, b: Seq<u8>, k: int) -> int
    decreases a.len() - k,
{
    if 0 <= k < a.len() && k < b.len() && a[k] == b[k] {
        common_from(a, b, k + 1)
    } else {
        k
    }
}

/// Length of the longest common prefix of `a` and `b`.
pub open spec fn common_prefix_len(a: Seq<u8>, b: Seq<u8>) -> int {
    common_from(a, b, 0)
}

/// Over a stretch where `a` and `b` agree, the scan skips ahead.
pub proof fn lemma_common_from_skip(a: Seq<u8>, b: Seq<u8>, k: int, m: int)
    requires
        0 <= k <= m,
        m <= a.len(),
        m <= b.len(),
        forall|t: int| k <= t < m ==> a[t] == b[t],
    ensures
        common_from(a, b, k) == common_from(a, b, m),
    decreases m - k,
{
    if k < m {
        lemma_common_from_skip(a, b, k + 1, m);
    }
}

/// The common prefix length is the largest `r` up to the shorter length with `a[..r] == b[..r]`.
pub proof fn lemma_common_prefix_len(a: Seq<u8>, b: Seq<u8>)
    ensures
        0 <= common_prefix_len(a, b) <= a.len(),
        common_prefix_len(a, b) <= b.len(),
        a.subrange(0, common_prefix_len(a, b)) == b.subrange(0, common_prefix_len(a, b)),
        common_prefix_len(a, b) == a.len() || common_prefix_len(a, b) == b.len() || a[common_prefix_len(a, b)] != b[common_prefix_len(a, b)],
{
    lemma_common_from_props(a, b, 0);
    let r = common_prefix_len(a, b);
    assert(a.subrange(0, r) =~= b.subrange(0, r));
}

/// The scan from `k` stops within both sequences, after a stretch where they agree, at a
/// difference or at the end of one of them.
pub proof fn lemma_common_from_props(a: Seq<u8>, b: Seq<u8>, k: int)
    requires
        0 <= k <= a.len(),
        k <= b.len(),
    ensures
        k <= common_from(a, b, k) <= a.len(),
        common_from(a, b, k) <= b.len(),
        forall|t: int| k <= t < common_from(a, b, k) ==> a[t] == b[t],
        common_from(a, b, k) == a.len() || common_from(a, b, k) == b.len() || a[common_from(a, b, k)] != b[common_from(a, b, k)],
    decreases a.len() - k,
{
    if k < a.len() && k < b.len() && a[k] == b[k] {
        lemma_common_from_props(a, b, k + 1);
    }
}

/// Length of the common prefix of `a` and `b`, compared one byte at a time.
pub fn simd_memcmp_fallback(a: &[u8], b: &[u8]) -> (r: usize)
    ensures
        r == common_prefix_len(a@, b@),
{
    let len = if a.len() < b.len() {
        a.len()
    } else {
        b.len()
    };
    let mut i: usize = 0;
    while i < len && a[i] == b[i]
        invariant
            i <= len,
            len <= a@.len(),
            len <= b@.len(),
            len == a@.len() || len == b@.len(),
            common_prefix_len(a@, b@) == common_from(a@, b@, i as int),
        decreases len - i,
    {
        i += 1;
    }
    i
}

/// Length of the common prefix of `a` and `b`, compared eight bytes at a time while eight remain,
/// then one byte at a time.
pub fn simd_memcmp(a: &[u8], b: &[u8]) -> (r: usize)
    ensures
        r == common_prefix_len(a@, b@),
{
    let len = if a.len() < b.len() {
        a.len()
    } else {
        b.len()
    };
    let mut i: usize = 0;
    while len - i >= 8
        invariant
            i <= len,
            len <= a@.len(),
            len <= b@.len(),
            len == a@.len() || len == b@.len(),
            common_prefix_len(a@, b@) == common_from(a@, b@, i as int),
        decreases len - i,
    {
        if window_key_at(a, i) != window_key_at(b, i) {
            break;
        }
        proof {
            lemma_window_key_eq(a@, i as int, b@, i as int);
            assert forall|t: int| i <= t < i + 8 implies a@[t] == b@[t] by {
                assert(a@[t] == a@.subrange(i as int, i + 8)[t - i]);
                assert(b@[t] == b@.subrange(i as int, i + 8)[t - i]);
            }
            lemma_common_from_skip(a@, b@, i as int, i + 8);
        }
        i += 8;
    }
    while i < len && a[i] == b[i]
        invariant
            i <= len,
            len <= a@.len(),
            len <= b@.len(),
            len == a@.len() || len == b@.len(),
            common_prefix_len(a@, b@) == common_from(a@, b@, i as int),
        decreases len - i,
    {
        i += 1;
    }
    i
}

} // verus!
