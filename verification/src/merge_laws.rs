//! What a merge hands out as a whole, and what holds of it.

use vstd::prelude::*;
use vstd::multiset::Multiset;
use vstd::seq_lib::to_multiset_insert;
use crate::merge_order::{leftmost_min, lemma_leftmost_min};
use crate::tournament_tree::{head_key, head_keys, next_input, Mergeable};

verus! {

/// The number of items that a row of inputs holds.
pub open spec fn total_len<T: Mergeable>(streams: Seq<Seq<&T::Data>>) -> nat
    decreases streams.len(),
{
    if streams.len() == 0 {
        0
    } else {
        total_len::<T>(streams.drop_last()) + streams.last().len()
    }
}

/// The items that a row of inputs holds, as a bag.
pub open spec fn bag<T: Mergeable>(streams: Seq<Seq<&T::Data>>) -> Multiset<&T::Data>
    decreases streams.len(),
{
    if streams.len() == 0 {
        Multiset::empty()
    } else {
        bag::<T>(streams.drop_last()).add(streams.last().to_multiset())
    }
}

/// The inputs after the first item of input `w` has been taken.
pub open spec fn advance<T: Mergeable>(streams: Seq<Seq<&T::Data>>, w: int) -> Seq<
    Seq<&T::Data>,
> {
    streams.update(w, streams[w].drop_first())
}

/// Everything that a merge of `streams` hands out, in the order in which it
/// does: always the next item of the input that `next_input` names.
pub open spec fn merged<T: Mergeable>(streams: Seq<Seq<&T::Data>>) -> Seq<&T::Data>
    decreases total_len::<T>(streams),
    via merged_decreases::<T>
{
    match next_input::<T>(streams) {
        Some(w) => seq![streams[w][0]] + merged::<T>(advance::<T>(streams, w)),
        None => Seq::empty(),
    }
}

#[via_fn]
proof fn merged_decreases<T: Mergeable>(streams: Seq<Seq<&T::Data>>) {
    match next_input::<T>(streams) {
        Some(w) => {
            lemma_next_input::<T>(streams);
            lemma_advance_len::<T>(streams, w);
        },
        None => {},
    }
}

/// The input that is taken from has an item, and none has an item with a
/// smaller timestamp; the inputs before it have none with an equal one.
pub proof fn lemma_next_input<T: Mergeable>(streams: Seq<Seq<&T::Data>>)
    ensures
        match next_input::<T>(streams) {
            Some(w) => {
                &&& 0 <= w < streams.len()
                &&& streams[w].len() > 0
                &&& T::timestamp(streams[w][0]) < u64::MAX
                &&& forall|s: int|
                    0 <= s < streams.len() ==> T::timestamp(streams[w][0]) <= #[trigger] head_key::<
                        T,
                    >(streams[s])
                &&& forall|s: int|
                    0 <= s < w ==> T::timestamp(streams[w][0]) < #[trigger] head_key::<T>(
                        streams[s],
                    )
            },
            None => forall|s: int|
                0 <= s < streams.len() ==> #[trigger] head_key::<T>(streams[s]) == u64::MAX,
        },
{
    let keys = head_keys::<T>(streams);
    if keys.len() > 0 {
        lemma_leftmost_min(keys);
        let m = leftmost_min(keys);
        assert forall|s: int| 0 <= s < streams.len() implies keys[m] <= #[trigger] head_key::<T>(
            streams[s],
        ) by {
            assert(keys[m] <= keys[s]);
        }
        assert forall|s: int| 0 <= s < m implies keys[m] < #[trigger] head_key::<T>(streams[s]) by {
            assert(keys[m] < keys[s]);
        }
    }
}

/// Taking an item leaves one item less.
pub proof fn lemma_advance_len<T: Mergeable>(streams: Seq<Seq<&T::Data>>, w: int)
    requires
        0 <= w < streams.len(),
        streams[w].len() > 0,
    ensures
        total_len::<T>(advance::<T>(streams, w)) + 1 == total_len::<T>(streams),
    decreases streams.len(),
{
    let after = advance::<T>(streams, w);
    if w == streams.len() - 1 {
        assert(after.drop_last() =~= streams.drop_last());
    } else {
        lemma_advance_len::<T>(streams.drop_last(), w);
        assert(after.drop_last() =~= advance::<T>(streams.drop_last(), w));
    }
}

/// Taking an item takes it out of the bag.
pub proof fn lemma_advance_bag<T: Mergeable>(streams: Seq<Seq<&T::Data>>, w: int)
    requires
        0 <= w < streams.len(),
        streams[w].len() > 0,
    ensures
        bag::<T>(streams) == bag::<T>(advance::<T>(streams, w)).insert(streams[w][0]),
    decreases streams.len(),
{
    let after = advance::<T>(streams, w);
    if w == streams.len() - 1 {
        assert(after.drop_last() =~= streams.drop_last());
        let rest = streams[w].drop_first();
        to_multiset_insert(rest, 0, streams[w][0]);
        assert(rest.insert(0, streams[w][0]) =~= streams[w]);
        assert(bag::<T>(streams) =~= bag::<T>(after).insert(streams[w][0]));
    } else {
        lemma_advance_bag::<T>(streams.drop_last(), w);
        assert(after.drop_last() =~= advance::<T>(streams.drop_last(), w));
        assert(bag::<T>(streams) =~= bag::<T>(after).insert(streams[w][0]));
    }
}

/// Inputs without items make an empty bag and count nothing.
pub proof fn lemma_all_empty<T: Mergeable>(streams: Seq<Seq<&T::Data>>)
    requires
        forall|s: int| 0 <= s < streams.len() ==> (#[trigger] streams[s]).len() == 0,
    ensures
        bag::<T>(streams) == Multiset::<&T::Data>::empty(),
        total_len::<T>(streams) == 0,
    decreases streams.len(),
{
    if streams.len() > 0 {
        lemma_all_empty::<T>(streams.drop_last());
        assert(streams.last().len() == 0);
        assert(streams.last().to_multiset() =~= Multiset::<&T::Data>::empty()) by {
            streams.last().to_multiset_ensures();
        }
        assert(bag::<T>(streams) =~= Multiset::<&T::Data>::empty());
    }
}

/// The items of `items` come in the order of their timestamps.
pub open spec fn is_sorted<T: Mergeable>(items: Seq<&T::Data>) -> bool {
    forall|i: int, j: int|
        0 <= i <= j < items.len() ==> T::timestamp(#[trigger] items[i]) <= T::timestamp(
            #[trigger] items[j],
        )
}

/// No item of `items` is stamped `u64::MAX`, the key that stands for an
/// input at its end.
pub open spec fn stamps_below_max<T: Mergeable>(items: Seq<&T::Data>) -> bool {
    forall|i: int| 0 <= i < items.len() ==> T::timestamp(#[trigger] items[i]) < u64::MAX
}

/// No item of the inputs is stamped earlier than `floor`.
pub open spec fn none_before<T: Mergeable>(streams: Seq<Seq<&T::Data>>, floor: u64) -> bool {
    forall|s: int, j: int|
        0 <= s < streams.len() && 0 <= j < streams[s].len() ==> floor <= T::timestamp(
            #[trigger] streams[s][j],
        )
}

/// A merge hands out nothing that is stamped earlier than all its inputs.
pub proof fn lemma_merged_none_before<T: Mergeable>(streams: Seq<Seq<&T::Data>>, floor: u64)
    requires
        none_before::<T>(streams, floor),
    ensures
        forall|i: int|
            0 <= i < merged::<T>(streams).len() ==> floor <= T::timestamp(
                #[trigger] merged::<T>(streams)[i],
            ),
    decreases total_len::<T>(streams),
{
    lemma_next_input::<T>(streams);
    match next_input::<T>(streams) {
        Some(w) => {
            let after = advance::<T>(streams, w);
            lemma_advance_len::<T>(streams, w);
            assert(none_before::<T>(after, floor)) by {
                assert forall|s: int, j: int|
                    0 <= s < after.len() && 0 <= j < after[s].len() implies floor <= T::timestamp(
                    #[trigger] after[s][j],
                ) by {
                    if s == w {
                        assert(after[s][j] == streams[s][j + 1]);
                    } else {
                        assert(after[s][j] == streams[s][j]);
                    }
                }
            }
            lemma_merged_none_before::<T>(after, floor);
            let rest = merged::<T>(after);
            assert forall|i: int| 0 <= i < merged::<T>(streams).len() implies floor
                <= T::timestamp(#[trigger] merged::<T>(streams)[i]) by {
                if i == 0 {
                    assert(merged::<T>(streams)[0] == streams[w][0]);
                } else {
                    assert(merged::<T>(streams)[i] == rest[i - 1]);
                }
            }
        },
        None => {},
    }
}

/// Sorted inputs give a sorted merge: where every input hands out its items
/// in the order of their timestamps, so does the merge.
pub proof fn lemma_merged_is_sorted<T: Mergeable>(streams: Seq<Seq<&T::Data>>)
    requires
        forall|s: int| 0 <= s < streams.len() ==> is_sorted::<T>(#[trigger] streams[s]),
    ensures
        is_sorted::<T>(merged::<T>(streams)),
    decreases total_len::<T>(streams),
{
    lemma_next_input::<T>(streams);
    match next_input::<T>(streams) {
        Some(w) => {
            let first = streams[w][0];
            let after = advance::<T>(streams, w);
            lemma_advance_len::<T>(streams, w);
            assert forall|s: int| 0 <= s < after.len() implies is_sorted::<T>(
                #[trigger] after[s],
            ) by {
                assert(is_sorted::<T>(streams[s]));
                if s == w {
                    assert forall|i: int, j: int| 0 <= i <= j < after[s].len() implies T::timestamp(
                        #[trigger] after[s][i],
                    ) <= T::timestamp(#[trigger] after[s][j]) by {
                        assert(after[s][i] == streams[s][i + 1]);
                        assert(after[s][j] == streams[s][j + 1]);
                    }
                }
            }
            assert(none_before::<T>(after, T::timestamp(first))) by {
                assert forall|s: int, j: int|
                    0 <= s < after.len() && 0 <= j < after[s].len() implies T::timestamp(first)
                    <= T::timestamp(#[trigger] after[s][j]) by {
                    assert(is_sorted::<T>(streams[s]));
                    if s == w {
                        assert(after[s][j] == streams[s][j + 1]);
                        assert(T::timestamp(streams[s][0]) <= T::timestamp(streams[s][j + 1]));
                    } else {
                        assert(after[s][j] == streams[s][j]);
                        assert(T::timestamp(first) <= head_key::<T>(streams[s]));
                        assert(T::timestamp(streams[s][0]) <= T::timestamp(streams[s][j]));
                    }
                }
            }
            lemma_merged_none_before::<T>(after, T::timestamp(first));
            lemma_merged_is_sorted::<T>(after);
            let rest = merged::<T>(after);
            let all = merged::<T>(streams);
            assert forall|i: int, j: int| 0 <= i <= j < all.len() implies T::timestamp(
                #[trigger] all[i],
            ) <= T::timestamp(#[trigger] all[j]) by {
                if i == 0 {
                    assert(all[0] == first);
                    if j > 0 {
                        assert(all[j] == rest[j - 1]);
                    }
                } else {
                    assert(all[i] == rest[i - 1]);
                    assert(all[j] == rest[j - 1]);
                }
            }
        },
        None => {},
    }
}

/// A merge hands out what its inputs hold, each item as often as they hold
/// it: the merge is a rearrangement of the inputs laid end to end. This
/// holds where no item is stamped `u64::MAX`, which a merge takes for the
/// end of an input.
pub proof fn lemma_merged_is_permutation<T: Mergeable>(streams: Seq<Seq<&T::Data>>)
    requires
        forall|s: int| 0 <= s < streams.len() ==> stamps_below_max::<T>(#[trigger] streams[s]),
    ensures
        merged::<T>(streams).to_multiset() == bag::<T>(streams),
    decreases total_len::<T>(streams),
{
    lemma_next_input::<T>(streams);
    match next_input::<T>(streams) {
        Some(w) => {
            let after = advance::<T>(streams, w);
            lemma_advance_len::<T>(streams, w);
            lemma_advance_bag::<T>(streams, w);
            assert forall|s: int| 0 <= s < after.len() implies stamps_below_max::<T>(
                #[trigger] after[s],
            ) by {
                assert(stamps_below_max::<T>(streams[s]));
                if s == w {
                    assert forall|i: int| 0 <= i < after[s].len() implies T::timestamp(
                        #[trigger] after[s][i],
                    ) < u64::MAX by {
                        assert(after[s][i] == streams[s][i + 1]);
                    }
                }
            }
            lemma_merged_is_permutation::<T>(after);
            let rest = merged::<T>(after);
            to_multiset_insert(rest, 0, streams[w][0]);
            assert(rest.insert(0, streams[w][0]) =~= merged::<T>(streams));
        },
        None => {
            assert forall|s: int| 0 <= s < streams.len() implies (#[trigger] streams[s]).len()
                == 0 by {
                assert(stamps_below_max::<T>(streams[s]));
                assert(head_key::<T>(streams[s]) == u64::MAX);
                if streams[s].len() > 0 {
                    assert(T::timestamp(streams[s][0]) < u64::MAX);
                }
            }
            lemma_all_empty::<T>(streams);
            assert(merged::<T>(streams).to_multiset() =~= Multiset::<&T::Data>::empty()) by {
                merged::<T>(streams).to_multiset_ensures();
            }
        },
    }
}

/// A merge hands out as many items as its inputs hold. This holds where no
/// item is stamped `u64::MAX`, which a merge takes for the end of an input.
pub proof fn lemma_merged_conserves_count<T: Mergeable>(streams: Seq<Seq<&T::Data>>)
    requires
        forall|s: int| 0 <= s < streams.len() ==> stamps_below_max::<T>(#[trigger] streams[s]),
    ensures
        merged::<T>(streams).len() == total_len::<T>(streams),
    decreases total_len::<T>(streams),
{
    lemma_next_input::<T>(streams);
    match next_input::<T>(streams) {
        Some(w) => {
            let after = advance::<T>(streams, w);
            lemma_advance_len::<T>(streams, w);
            assert forall|s: int| 0 <= s < after.len() implies stamps_below_max::<T>(
                #[trigger] after[s],
            ) by {
                assert(stamps_below_max::<T>(streams[s]));
                if s == w {
                    assert forall|i: int| 0 <= i < after[s].len() implies T::timestamp(
                        #[trigger] after[s][i],
                    ) < u64::MAX by {
                        assert(after[s][i] == streams[s][i + 1]);
                    }
                }
            }
            lemma_merged_conserves_count::<T>(after);
        },
        None => {
            assert forall|s: int| 0 <= s < streams.len() implies (#[trigger] streams[s]).len()
                == 0 by {
                assert(stamps_below_max::<T>(streams[s]));
                assert(head_key::<T>(streams[s]) == u64::MAX);
                if streams[s].len() > 0 {
                    assert(T::timestamp(streams[s][0]) < u64::MAX);
                }
            }
            lemma_all_empty::<T>(streams);
        },
    }
}

/// The inputs that the items of a merge are taken from: for each item of
/// `merged`, in order, the place of its input in the row.
pub open spec fn merged_from<T: Mergeable>(streams: Seq<Seq<&T::Data>>) -> Seq<int>
    decreases total_len::<T>(streams),
    via merged_from_decreases::<T>
{
    match next_input::<T>(streams) {
        Some(w) => seq![w] + merged_from::<T>(advance::<T>(streams, w)),
        None => Seq::empty(),
    }
}

#[via_fn]
proof fn merged_from_decreases<T: Mergeable>(streams: Seq<Seq<&T::Data>>) {
    match next_input::<T>(streams) {
        Some(w) => {
            lemma_next_input::<T>(streams);
            lemma_advance_len::<T>(streams, w);
        },
        None => {},
    }
}

/// What a merge takes from input `s`, in the order in which it takes it.
pub open spec fn taken_from<T: Mergeable>(streams: Seq<Seq<&T::Data>>, s: int) -> Seq<&T::Data>
    decreases total_len::<T>(streams),
    via taken_from_decreases::<T>
{
    match next_input::<T>(streams) {
        Some(w) => if w == s {
            seq![streams[w][0]] + taken_from::<T>(advance::<T>(streams, w), s)
        } else {
            taken_from::<T>(advance::<T>(streams, w), s)
        },
        None => Seq::empty(),
    }
}

#[via_fn]
proof fn taken_from_decreases<T: Mergeable>(streams: Seq<Seq<&T::Data>>, s: int) {
    match next_input::<T>(streams) {
        Some(w) => {
            lemma_next_input::<T>(streams);
            lemma_advance_len::<T>(streams, w);
        },
        None => {},
    }
}

/// Taking an item from a sorted row of inputs leaves a sorted row.
proof fn lemma_advance_sorted<T: Mergeable>(streams: Seq<Seq<&T::Data>>, w: int)
    requires
        0 <= w < streams.len(),
        streams[w].len() > 0,
        forall|s: int| 0 <= s < streams.len() ==> is_sorted::<T>(#[trigger] streams[s]),
    ensures
        forall|s: int|
            0 <= s < streams.len() ==> is_sorted::<T>(#[trigger] advance::<T>(streams, w)[s]),
        forall|j: int|
            0 <= j < streams[w].len() ==> T::timestamp(streams[w][0]) <= T::timestamp(
                #[trigger] streams[w][j],
            ),
{
    let after = advance::<T>(streams, w);
    assert(is_sorted::<T>(streams[w]));
    assert forall|s: int| 0 <= s < streams.len() implies is_sorted::<T>(#[trigger] after[s]) by {
        assert(is_sorted::<T>(streams[s]));
        if s == w {
            assert forall|i: int, j: int| 0 <= i <= j < after[s].len() implies T::timestamp(
                #[trigger] after[s][i],
            ) <= T::timestamp(#[trigger] after[s][j]) by {
                assert(after[s][i] == streams[s][i + 1]);
                assert(after[s][j] == streams[s][j + 1]);
            }
        }
    }
}

/// Each item of a merge has an input that it is taken from.
pub proof fn lemma_merged_from_len<T: Mergeable>(streams: Seq<Seq<&T::Data>>)
    ensures
        merged_from::<T>(streams).len() == merged::<T>(streams).len(),
        forall|i: int|
            0 <= i < merged_from::<T>(streams).len() ==> 0 <= #[trigger] merged_from::<T>(
                streams,
            )[i] < streams.len(),
    decreases total_len::<T>(streams),
{
    lemma_next_input::<T>(streams);
    match next_input::<T>(streams) {
        Some(w) => {
            let after = advance::<T>(streams, w);
            lemma_advance_len::<T>(streams, w);
            lemma_merged_from_len::<T>(after);
            let rest = merged_from::<T>(after);
            assert forall|i: int| 0 <= i < merged_from::<T>(streams).len() implies 0
                <= #[trigger] merged_from::<T>(streams)[i] < streams.len() by {
                if i > 0 {
                    assert(merged_from::<T>(streams)[i] == rest[i - 1]);
                }
            }
        },
        None => {},
    }
}

/// Where the inputs before input `w` hold nothing that is stamped `t` or
/// earlier, a merge takes nothing stamped `t` or earlier from them.
proof fn lemma_late_inputs<T: Mergeable>(streams: Seq<Seq<&T::Data>>, w: int, t: u64)
    requires
        forall|s: int| 0 <= s < streams.len() ==> is_sorted::<T>(#[trigger] streams[s]),
        forall|s: int| 0 <= s < streams.len() && s < w ==> t < #[trigger] head_key::<T>(streams[s]),
        t < u64::MAX,
    ensures
        merged_from::<T>(streams).len() == merged::<T>(streams).len(),
        forall|i: int|
            0 <= i < merged::<T>(streams).len() && merged_from::<T>(streams)[i] < w ==> t
                < T::timestamp(#[trigger] merged::<T>(streams)[i]),
    decreases total_len::<T>(streams),
{
    lemma_next_input::<T>(streams);
    lemma_merged_from_len::<T>(streams);
    match next_input::<T>(streams) {
        Some(v) => {
            let after = advance::<T>(streams, v);
            lemma_advance_len::<T>(streams, v);
            lemma_advance_sorted::<T>(streams, v);
            assert forall|s: int| 0 <= s < after.len() && s < w implies t < #[trigger] head_key::<
                T,
            >(after[s]) by {
                assert(t < head_key::<T>(streams[s]));
                if s == v && after[s].len() > 0 {
                    assert(after[s][0] == streams[s][1]);
                    assert(T::timestamp(streams[s][0]) <= T::timestamp(streams[s][1]));
                }
            }
            lemma_late_inputs::<T>(after, w, t);
            let rest = merged::<T>(after);
            let rest_from = merged_from::<T>(after);
            assert forall|i: int|
                0 <= i < merged::<T>(streams).len() && merged_from::<T>(streams)[i] < w implies t
                < T::timestamp(#[trigger] merged::<T>(streams)[i]) by {
                if i == 0 {
                    assert(merged::<T>(streams)[0] == streams[v][0]);
                    assert(merged_from::<T>(streams)[0] == v);
                    assert(t < head_key::<T>(streams[v]));
                } else {
                    assert(merged::<T>(streams)[i] == rest[i - 1]);
                    assert(merged_from::<T>(streams)[i] == rest_from[i - 1]);
                }
            }
        },
        None => {},
    }
}

/// A merge of sorted inputs is stable: of two items with the same
/// timestamp, the one of the earlier input comes first.
pub proof fn lemma_ties_keep_input_order<T: Mergeable>(streams: Seq<Seq<&T::Data>>)
    requires
        forall|s: int| 0 <= s < streams.len() ==> is_sorted::<T>(#[trigger] streams[s]),
    ensures
        merged_from::<T>(streams).len() == merged::<T>(streams).len(),
        forall|i: int, j: int|
            0 <= i < j < merged::<T>(streams).len() && T::timestamp(merged::<T>(streams)[i])
                == T::timestamp(merged::<T>(streams)[j]) ==> #[trigger] merged_from::<T>(
                streams,
            )[i] <= #[trigger] merged_from::<T>(streams)[j],
    decreases total_len::<T>(streams),
{
    lemma_next_input::<T>(streams);
    lemma_merged_from_len::<T>(streams);
    match next_input::<T>(streams) {
        Some(w) => {
            let first = streams[w][0];
            let after = advance::<T>(streams, w);
            lemma_advance_len::<T>(streams, w);
            lemma_advance_sorted::<T>(streams, w);
            assert forall|s: int| 0 <= s < after.len() && s < w implies T::timestamp(first)
                < #[trigger] head_key::<T>(after[s]) by {
                assert(T::timestamp(first) < head_key::<T>(streams[s]));
            }
            lemma_late_inputs::<T>(after, w, T::timestamp(first));
            lemma_ties_keep_input_order::<T>(after);
            let all = merged::<T>(streams);
            let all_from = merged_from::<T>(streams);
            let rest = merged::<T>(after);
            let rest_from = merged_from::<T>(after);
            assert forall|i: int, j: int|
                0 <= i < j < all.len() && T::timestamp(all[i]) == T::timestamp(
                    all[j],
                ) implies #[trigger] all_from[i] <= #[trigger] all_from[j] by {
                assert(all[j] == rest[j - 1]);
                assert(all_from[j] == rest_from[j - 1]);
                if i == 0 {
                    assert(all[0] == first);
                    assert(all_from[0] == w);
                } else {
                    assert(all[i] == rest[i - 1]);
                    assert(all_from[i] == rest_from[i - 1]);
                }
            }
        },
        None => {},
    }
}

/// A merge keeps the order of each input: what it takes from an input is
/// what the input holds, first to last. This holds where no item is stamped
/// `u64::MAX`, which a merge takes for the end of an input.
pub proof fn lemma_input_order_kept<T: Mergeable>(streams: Seq<Seq<&T::Data>>, s: int)
    requires
        0 <= s < streams.len(),
        forall|r: int| 0 <= r < streams.len() ==> stamps_below_max::<T>(#[trigger] streams[r]),
    ensures
        taken_from::<T>(streams, s) == streams[s],
    decreases total_len::<T>(streams),
{
    lemma_next_input::<T>(streams);
    match next_input::<T>(streams) {
        Some(w) => {
            let after = advance::<T>(streams, w);
            lemma_advance_len::<T>(streams, w);
            assert forall|r: int| 0 <= r < after.len() implies stamps_below_max::<T>(
                #[trigger] after[r],
            ) by {
                assert(stamps_below_max::<T>(streams[r]));
                if r == w {
                    assert forall|i: int| 0 <= i < after[r].len() implies T::timestamp(
                        #[trigger] after[r][i],
                    ) < u64::MAX by {
                        assert(after[r][i] == streams[r][i + 1]);
                    }
                }
            }
            lemma_input_order_kept::<T>(after, s);
            if w == s {
                assert(seq![streams[s][0]] + streams[s].drop_first() =~= streams[s]);
            }
        },
        None => {
            assert(stamps_below_max::<T>(streams[s]));
            assert(head_key::<T>(streams[s]) == u64::MAX);
            if streams[s].len() > 0 {
                assert(T::timestamp(streams[s][0]) < u64::MAX);
            }
            assert(streams[s] =~= Seq::<&T::Data>::empty());
        },
    }
}

} // verus!
