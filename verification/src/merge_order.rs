//! Which key a merge takes next: the smallest, and among equal keys the one
//! that stands first.

use vstd::prelude::*;

verus! {

/// `w` is the first position of the smallest key among `keys[lo..hi]`.
pub open spec fn is_leftmost_min(keys: Seq<u64>, lo: int, hi: int, w: int) -> bool {
    &&& lo <= w < hi
    &&& forall|j: int| lo <= j < hi ==> keys[w] <= #[trigger] keys[j]
    &&& forall|j: int| lo <= j < w ==> keys[w] < #[trigger] keys[j]
}

/// The first position of the smallest key in `keys` (0 when there is none).
pub open spec fn leftmost_min(keys: Seq<u64>) -> int
    decreases keys.len(),
{
    if keys.len() <= 1 {
        0
    } else {
        let m = leftmost_min(keys.drop_last());
        if keys.last() < keys[m] {
            keys.len() - 1
        } else {
            m
        }
    }
}

/// `leftmost_min` is what its name says.
pub proof fn lemma_leftmost_min(keys: Seq<u64>)
    requires
        keys.len() > 0,
    ensures
        is_leftmost_min(keys, 0, keys.len() as int, leftmost_min(keys)),
    decreases keys.len(),
{
    if keys.len() > 1 {
        let front = keys.drop_last();
        lemma_leftmost_min(front);
        let m = leftmost_min(front);
        assert(forall|j: int| 0 <= j < front.len() ==> front[j] == keys[j]);
        assert forall|j: int| 0 <= j < keys.len() implies keys[leftmost_min(keys)] <= #[trigger] keys[j] by {
            if j < front.len() {
                assert(front[m] <= front[j]);
            }
        }
        assert forall|j: int| 0 <= j < leftmost_min(keys) implies keys[leftmost_min(keys)] < #[trigger] keys[j] by {
            assert(front[m] <= front[j]);
            if j < m {
                assert(front[m] < front[j]);
            }
        }
    }
}

/// A run of keys has one leftmost minimum.
pub proof fn lemma_leftmost_min_unique(keys: Seq<u64>, lo: int, hi: int, a: int, b: int)
    requires
        is_leftmost_min(keys, lo, hi, a),
        is_leftmost_min(keys, lo, hi, b),
    ensures
        a == b,
{
    if a < b {
        assert(keys[b] < keys[a]);
        assert(keys[a] <= keys[b]);
    } else if b < a {
        assert(keys[a] < keys[b]);
        assert(keys[b] <= keys[a]);
    }
}

/// The leftmost minimum of two runs that follow one another is the better of
/// their leftmost minima, the left one on a tie.
pub proof fn lemma_join_runs(keys: Seq<u64>, lo: int, mid: int, hi: int, a: int, b: int)
    requires
        is_leftmost_min(keys, lo, mid, a),
        is_leftmost_min(keys, mid, hi, b),
    ensures
        is_leftmost_min(keys, lo, hi, if keys[b] < keys[a] { b } else { a }),
{
    let w = if keys[b] < keys[a] { b } else { a };
    assert forall|j: int| lo <= j < hi implies keys[w] <= #[trigger] keys[j] by {
        if j < mid {
            assert(keys[a] <= keys[j]);
        } else {
            assert(keys[b] <= keys[j]);
        }
    }
    assert forall|j: int| lo <= j < w implies keys[w] < #[trigger] keys[j] by {
        if j < mid {
            assert(keys[a] <= keys[j]);
            if j < a {
                assert(keys[a] < keys[j]);
            }
        } else {
            assert(keys[b] < keys[j]);
        }
    }
}

/// Keys outside a run do not matter to its leftmost minimum.
pub proof fn lemma_run_is_local(keys: Seq<u64>, other: Seq<u64>, lo: int, hi: int, w: int)
    requires
        is_leftmost_min(keys, lo, hi, w),
        forall|j: int| lo <= j < hi ==> keys[j] == other[j],
    ensures
        is_leftmost_min(other, lo, hi, w),
{
    assert forall|j: int| lo <= j < hi implies other[w] <= #[trigger] other[j] by {
        assert(keys[w] <= keys[j]);
    }
    assert forall|j: int| lo <= j < w implies other[w] < #[trigger] other[j] by {
        assert(keys[w] < keys[j]);
    }
}

/// Keys that stand at the front of a longer row whose other keys are all
/// `u64::MAX`: the leftmost minimum of the row is that of the keys, unless
/// it is `u64::MAX` itself.
pub proof fn lemma_padded_min(row: Seq<u64>, keys: Seq<u64>, w: int)
    requires
        keys.len() <= row.len(),
        forall|i: int| 0 <= i < keys.len() ==> row[i] == keys[i],
        forall|i: int| keys.len() <= i < row.len() ==> row[i] == u64::MAX,
        is_leftmost_min(row, 0, row.len() as int, w),
    ensures
        row[w] == u64::MAX ==> keys.len() == 0 || keys[leftmost_min(keys)] == u64::MAX,
        row[w] != u64::MAX ==> w < keys.len() && w == leftmost_min(keys),
{
    if keys.len() > 0 {
        lemma_leftmost_min(keys);
        let m = leftmost_min(keys);
        assert(row[w] <= row[m]);
        if row[w] != u64::MAX {
            assert forall|j: int| 0 <= j < keys.len() implies keys[w] <= #[trigger] keys[j] by {
                assert(row[w] <= row[j]);
            }
            assert forall|j: int| 0 <= j < w implies keys[w] < #[trigger] keys[j] by {
                assert(row[w] < row[j]);
            }
            lemma_leftmost_min_unique(keys, 0, keys.len() as int, w, m);
        }
    }
}

} // verus!
