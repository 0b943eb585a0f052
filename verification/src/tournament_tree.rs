//! K-way merge by a tournament tree.
//!
//! The tree keeps, for every input, the key of the item that input would
//! hand out next, and for every inner position the input that wins below
//! it. Taking an item costs one walk from a leaf to the root.

use vstd::prelude::*;
use crate::merge_laws::{advance, merged};
use crate::merge_order::{
    is_leftmost_min, leftmost_min, lemma_join_runs, lemma_padded_min, lemma_run_is_local,
};
use crate::tree_shape::{
    doubles_to, first_leaf, height, leaves_for, lemma_children, lemma_double_more,
    lemma_leaves_for, lemma_level, lemma_level_above, lemma_levels_nest, lemma_one_cover,
    lemma_root, width,
};

verus! {

/// An input of the merge: a finite run of items, each with a timestamp.
pub trait Mergeable {
    type Data: ?Sized;

    /// The items this input has yet to hand out, in order. An implementation
    /// says here what it holds; where it says nothing, nothing is known.
    open spec fn pending(&self) -> Seq<&Self::Data> {
        arbitrary()
    }

    /// The key by which an item is merged. An implementation says here how
    /// an item is stamped; where it says nothing, nothing is known.
    open spec fn timestamp(item: &Self::Data) -> u64 {
        arbitrary()
    }

    /// The timestamp of the next item, or `u64::MAX` when none is left.
    /// Looking changes nothing.
    fn peek_timestamp(&mut self) -> (ts: u64)
        ensures
            final(self).pending() == old(self).pending(),
            old(self).pending().len() == 0 ==> ts == u64::MAX,
            old(self).pending().len() > 0 ==> ts == Self::timestamp(old(self).pending()[0]),
    ;

    /// Hands out the next item, if one is left.
    fn pop(&mut self) -> (item: Option<&Self::Data>)
        ensures
            old(self).pending().len() == 0 ==> item is None
                && final(self).pending() == old(self).pending(),
            old(self).pending().len() > 0 ==> item == Some(old(self).pending()[0])
                && final(self).pending() == old(self).pending().drop_first(),
    ;
}

/// The key that stands for a run of pending items: the timestamp of its
/// first item, `u64::MAX` for an empty run.
pub open spec fn head_key<T: Mergeable>(pending: Seq<&T::Data>) -> u64 {
    if pending.len() == 0 {
        u64::MAX
    } else {
        T::timestamp(pending[0])
    }
}

/// The keys that a row of inputs stands for, one for each.
pub open spec fn head_keys<T: Mergeable>(streams: Seq<Seq<&T::Data>>) -> Seq<u64> {
    Seq::new(streams.len(), |i: int| head_key::<T>(streams[i]))
}

/// The input that a merge takes from next: the first of those whose next
/// item has the smallest timestamp. None when no input has an item left.
pub open spec fn next_input<T: Mergeable>(streams: Seq<Seq<&T::Data>>) -> Option<int> {
    let keys = head_keys::<T>(streams);
    if keys.len() == 0 || keys[leftmost_min(keys)] == u64::MAX {
        None
    } else {
        Some(leftmost_min(keys))
    }
}

/// The keys of `leaves` leaves over a row of inputs: leaf `j` holds the key
/// that input `j` stands for, and `u64::MAX` where there is no input `j`.
pub open spec fn leaf_keys<T: Mergeable>(streams: Seq<Seq<&T::Data>>, leaves: nat) -> Seq<u64> {
    Seq::new(
        leaves,
        |j: int|
            if j < streams.len() {
                head_key::<T>(streams[j])
            } else {
                u64::MAX
            },
    )
}

/// Position `p` of a tree with `k` leaves names the leftmost minimum of the
/// leaves below it.
spec fn position_settled(values: Seq<u64>, nodes: Seq<usize>, p: int) -> bool {
    let k = values.len() as int;
    &&& 0 <= first_leaf(k, p)
    &&& first_leaf(k, p) + width(k, p) <= k
    &&& is_leftmost_min(
        values,
        first_leaf(k, p),
        first_leaf(k, p) + width(k, p),
        nodes[p] as int,
    )
}

/// Leaf `leaf` lies below position `p`.
spec fn covers(k: int, p: int, leaf: int) -> bool {
    first_leaf(k, p) <= leaf < first_leaf(k, p) + width(k, p)
}

/// A merge of inputs. It takes the next item from the input whose next item
/// has the smallest timestamp, from the first such input where several
/// stand equal: items with equal timestamps come out in the order of their
/// inputs.
pub struct Tree<T: Mergeable> {
    needs_updating: bool,
    winning_value_index: usize,
    nodes: Vec<usize>,
    values: Vec<u64>,
    input_streams: Vec<T>,
    // comparisons of two keys that taking items has cost so far
    compared: Ghost<nat>,
    // looks at the next timestamp of an input that taking items has cost so far
    looked: Ghost<nat>,
}

/// The key `challenger` of leaf `challenger_leaf` takes the place of the key
/// `holder` of leaf `holder_leaf`: it is smaller, or equal and further left.
spec fn beats(challenger: u64, challenger_leaf: int, holder: u64, holder_leaf: int) -> bool {
    challenger < holder || (challenger == holder && challenger_leaf < holder_leaf)
}

/// Decides `beats` with one comparison of keys.
fn wins(challenger: u64, challenger_leaf: usize, holder: u64, holder_leaf: usize) -> (b: bool)
    ensures
        b == beats(challenger, challenger_leaf as int, holder, holder_leaf as int),
{
    if challenger_leaf < holder_leaf {
        challenger <= holder
    } else {
        challenger < holder
    }
}

fn sibling(i: usize) -> (s: usize)
    ensures
        s as int == sibling_of(i as int),
{
    assert(i % 2 == 0 ==> (i ^ 1) == i + 1) by (bit_vector);
    assert(i % 2 != 0 ==> (i ^ 1) == i - 1) by (bit_vector);
    i ^ 1
}

/// The other child of the parent of position `i`.
spec fn sibling_of(i: int) -> int {
    if i % 2 == 0 {
        i + 1
    } else {
        i - 1
    }
}

/// The parent of position `i`.
fn half(i: usize) -> (h: usize)
    ensures
        h == i / 2,
{
    assert(i >> 1 == i / 2) by (bit_vector);
    i >> 1
}

/// A leaf below a position lies below its parent and not below its sibling,
/// and the sibling's run of leaves lies within the tree.
proof fn lemma_path(k: int, level: int, child: int, leaf: int)
    requires
        doubles_to(1, k),
        doubles_to(level, k),
        2 <= level <= child < 2 * level,
        covers(k, child, leaf),
    ensures
        level % 2 == 0,
        level <= sibling_of(child) < 2 * level,
        covers(k, child / 2, leaf),
        !covers(k, sibling_of(child), leaf),
        0 <= first_leaf(k, sibling_of(child)),
        first_leaf(k, sibling_of(child)) + width(k, sibling_of(child)) <= k,
{
    lemma_level_above(k, level);
    lemma_children(k, level / 2, child / 2);
    lemma_level(k, level, sibling_of(child));
}

/// One step towards the root: the winner below a position and the winner
/// below its sibling decide the winner below their parent.
proof fn lemma_climb(values: Seq<u64>, level: int, child: int, cand: int, rival: int)
    requires
        doubles_to(1, values.len() as int),
        doubles_to(level, values.len() as int),
        2 <= level <= child < 2 * level,
        is_leftmost_min(
            values,
            first_leaf(values.len() as int, child),
            first_leaf(values.len() as int, child) + width(values.len() as int, child),
            cand,
        ),
        is_leftmost_min(
            values,
            first_leaf(values.len() as int, sibling_of(child)),
            first_leaf(values.len() as int, sibling_of(child)) + width(
                values.len() as int,
                sibling_of(child),
            ),
            rival,
        ),
    ensures
        level % 2 == 0,
        doubles_to(level / 2, values.len() as int),
        doubles_to(1, level / 2),
        level <= sibling_of(child) < 2 * level,
        0 <= first_leaf(values.len() as int, child / 2),
        first_leaf(values.len() as int, child / 2) + width(values.len() as int, child / 2)
            <= values.len(),
        is_leftmost_min(
            values,
            first_leaf(values.len() as int, child / 2),
            first_leaf(values.len() as int, child / 2) + width(values.len() as int, child / 2),
            if beats(values[rival], rival, values[cand], cand) {
                rival
            } else {
                cand
            },
        ),
{
    let k = values.len() as int;
    let parent = child / 2;
    lemma_level_above(k, level);
    lemma_children(k, level / 2, parent);
    lemma_level(k, level / 2, parent);
    if child % 2 == 0 {
        lemma_join_runs(
            values,
            first_leaf(k, child),
            first_leaf(k, child + 1),
            first_leaf(k, child + 1) + width(k, child + 1),
            cand,
            rival,
        );
    } else {
        lemma_join_runs(
            values,
            first_leaf(k, child - 1),
            first_leaf(k, child),
            first_leaf(k, child) + width(k, child),
            rival,
            cand,
        );
    }
}

/// The number of leaves for `n` inputs: the least power of two that holds
/// them, and one leaf where there is no input.
fn leaf_count(n: usize) -> (k: usize)
    requires
        n <= usize::MAX / 2 + 1,
    ensures
        doubles_to(1, k as int),
        n <= k,
        k == leaves_for(n as nat),
{
    let mut k: usize = 1;
    while k < n
        invariant
            n <= usize::MAX / 2 + 1,
            doubles_to(1, k as int),
            k == 1 || k < 2 * n,
        decreases 2 * n - k,
    {
        proof {
            lemma_double_more(1, k as int);
        }
        k = k * 2;
    }
    proof {
        lemma_leaves_for(n as nat, k as int);
    }
    k
}

impl<T: Mergeable> Tree<T> {
    /// Number of leaves of the tree.
    pub closed spec fn leaves(&self) -> nat {
        self.values@.len()
    }

    /// The key stored at each leaf.
    pub closed spec fn keys(&self) -> Seq<u64> {
        self.values@
    }

    /// The leaf that the tree holds to be the winner.
    pub closed spec fn winner(&self) -> int {
        self.winning_value_index as int
    }

    /// The leaf that the root of the tree names. A tree of one leaf has no
    /// inner position: there the root is the leaf.
    pub closed spec fn root(&self) -> int {
        if self.values.len() > 1 {
            self.nodes[1] as int
        } else {
            0
        }
    }

    /// An item was taken from the winner, and its leaf has not been looked
    /// at since: it holds the key of the item that was taken.
    pub closed spec fn awaits_refresh(&self) -> bool {
        self.needs_updating
    }

    /// Comparisons of two keys that taking items has cost since the tree
    /// was built.
    pub closed spec fn compared(&self) -> nat {
        self.compared@
    }

    /// Looks at the next timestamp of an input that taking items has cost
    /// since the tree was built.
    pub closed spec fn looked(&self) -> nat {
        self.looked@
    }

    /// No leaf awaits a refresh, so that every leaf holds the key of its
    /// input, and the root names the stored winner.
    pub open spec fn fresh(&self) -> bool {
        &&& !self.awaits_refresh()
        &&& self.root() == self.winner()
    }

    /// What each input has yet to hand out.
    pub closed spec fn view(&self) -> Seq<Seq<&T::Data>> {
        Seq::new(self.input_streams.len() as nat, |i: int| self.input_streams[i].pending())
    }

    /// The tree is in order: every inner position, the root included, names
    /// the input that wins below it, the root names the stored winner, and
    /// every leaf holds the key of its input, but for the leaf of the input
    /// that was taken from last, which is looked at again before the next
    /// item is taken.
    pub closed spec fn wf(&self) -> bool {
        &&& self.shaped()
        &&& forall|p: int|
            1 <= p < self.values.len() ==> #[trigger] position_settled(
                self.values@,
                self.nodes@,
                p,
            )
        &&& self.values.len() > 1 ==> self.nodes[1] == self.winning_value_index
        &&& is_leftmost_min(
            self.values@,
            0,
            self.values.len() as int,
            self.winning_value_index as int,
        )
        &&& forall|i: int|
            0 <= i < self.input_streams.len() && !(self.needs_updating && i
                == self.winning_value_index) ==> #[trigger] self.values[i]
                == head_key::<T>(self.input_streams[i].pending())
        &&& forall|i: int|
            self.input_streams.len() <= i < self.values.len() ==> #[trigger] self.values[i]
                == u64::MAX
        &&& self.needs_updating ==> self.winning_value_index < self.input_streams.len()
    }

    /// Builds the tree over `input_streams`, looking at what each of them
    /// would hand out first. Nothing is taken from them. The tree gets the
    /// least power of two of leaves that holds the inputs (one leaf where
    /// there is no input), so it holds at most half as many inputs as
    /// `usize` counts, and one more. Every leaf holds the key of its input,
    /// every inner position names the winner below it, and no comparison
    /// or look is counted yet.
    pub fn new(input_streams: Vec<T>) -> (tree: Tree<T>)
        requires
            input_streams.len() <= usize::MAX / 2 + 1,
        ensures
            tree.wf(),
            tree@ == Seq::new(input_streams.len() as nat, |i: int| input_streams[i].pending()),
            tree.leaves() == leaves_for(input_streams.len() as nat),
            tree.fresh(),
            tree.keys() == leaf_keys::<T>(tree@, tree.leaves()),
            is_leftmost_min(tree.keys(), 0, tree.leaves() as int, tree.winner()),
            tree.compared() == 0,
            tree.looked() == 0,
    {
        let n = input_streams.len();
        let n_leaf_nodes = leaf_count(n);
        let ghost k = n_leaf_nodes as int;
        let ghost given = input_streams@;
        let mut values: Vec<u64> = vec![u64::MAX; n_leaf_nodes];
        let mut nodes: Vec<usize> = vec![n_leaf_nodes - 1; n_leaf_nodes];
        let mut streams = input_streams;

        // look at the head of every stream and make it a leaf
        let mut i: usize = 0;
        while i < n
            invariant
                i <= n == streams.len() == given.len(),
                n <= n_leaf_nodes == values.len(),
                forall|j: int|
                    0 <= j < i ==> #[trigger] values[j] == head_key::<T>(streams[j].pending()),
                forall|j: int| i <= j < values.len() ==> #[trigger] values[j] == u64::MAX,
                forall|j: int|
                    0 <= j < n ==> #[trigger] streams[j].pending() == given[j].pending(),
            decreases n - i,
        {
            let value = streams[i].peek_timestamp();
            values[i] = value;
            i += 1;
        }

        if n_leaf_nodes > 1 {
            proof {
                lemma_level_above(k, k);
            }
            // the winner of each pair of leaves goes to their parent
            let mut i: usize = 1;
            while i < n_leaf_nodes
                invariant
                    n_leaf_nodes == k == values.len() == nodes.len(),
                    doubles_to(1, k),
                    doubles_to(k / 2, k),
                    k % 2 == 0,
                    i % 2 == 1,
                    i <= k + 1,
                    forall|p: int|
                        k / 2 <= p < k / 2 + i / 2 ==> #[trigger] position_settled(
                            values@,
                            nodes@,
                            p,
                        ),
                decreases k + 1 - i,
            {
                let winning_value_index = if values[i] < values[i - 1] {
                    i
                } else {
                    i - 1
                };
                let parent = half(n_leaf_nodes) + half(i);
                proof {
                    assert(sibling_of(k + i) == k + i - 1);
                    lemma_climb(values@, k, k + i, i as int, i - 1);
                }
                let ghost nodes_before = nodes@;
                nodes[parent] = winning_value_index;
                proof {
                    assert forall|p: int| k / 2 <= p < k / 2 + (i + 2) / 2 implies #[trigger] position_settled(
                        values@,
                        nodes@,
                        p,
                    ) by {
                        if p != parent {
                            assert(position_settled(values@, nodes_before, p));
                        }
                    }
                }
                i += 2;
            }

            // fill in each level above, one at a time
            let mut level_start = half(half(n_leaf_nodes));
            let ghost mut settled_from = k / 2;
            while level_start > 0
                invariant
                    n_leaf_nodes == k == values.len() == nodes.len(),
                    doubles_to(1, k),
                    doubles_to(settled_from, k),
                    doubles_to(1, settled_from),
                    1 <= settled_from < k,
                    level_start == settled_from / 2,
                    forall|p: int|
                        settled_from <= p < k ==> #[trigger] position_settled(values@, nodes@, p),
                decreases level_start,
            {
                proof {
                    lemma_level_above(k, settled_from);
                    lemma_levels_nest(settled_from, k, k);
                }
                let mut i = level_start;
                while i < 2 * level_start
                    invariant
                        n_leaf_nodes == k == values.len() == nodes.len(),
                        doubles_to(1, k),
                        doubles_to(settled_from, k),
                        doubles_to(level_start as int, k),
                        2 <= settled_from,
                        2 * settled_from <= k,
                        settled_from == 2 * level_start,
                        level_start <= i <= 2 * level_start,
                        forall|p: int|
                            settled_from <= p < k ==> #[trigger] position_settled(
                                values@,
                                nodes@,
                                p,
                            ),
                        forall|p: int|
                            level_start <= p < i ==> #[trigger] position_settled(
                                values@,
                                nodes@,
                                p,
                            ),
                    decreases 2 * level_start - i,
                {
                    proof {
                        assert(position_settled(values@, nodes@, 2 * i));
                        assert(position_settled(values@, nodes@, 2 * i + 1));
                        assert(sibling_of(2 * i) == 2 * i + 1);
                        lemma_children(k, level_start as int, i as int);
                        lemma_climb(
                            values@,
                            settled_from,
                            2 * i,
                            nodes[2 * i] as int,
                            nodes[2 * i + 1] as int,
                        );
                    }
                    let left_child = nodes[2 * i];
                    let right_child = nodes[2 * i + 1];
                    let ghost nodes_before = nodes@;
                    nodes[i] = if values[right_child] < values[left_child] {
                        right_child
                    } else {
                        left_child
                    };
                    proof {
                        assert forall|p: int|
                            settled_from <= p < k || level_start <= p < i + 1 implies #[trigger] position_settled(
                            values@,
                            nodes@,
                            p,
                        ) by {
                            if p != i {
                                assert(position_settled(values@, nodes_before, p));
                            }
                        }
                    }
                    i += 1;
                }
                proof {
                    settled_from = level_start as int;
                }
                level_start = half(level_start);
            }
        }
        let winning_value_index = if n_leaf_nodes > 1 {
            proof {
                lemma_root(k);
                assert(position_settled(values@, nodes@, 1));
            }
            nodes[1]
        } else {
            0
        };
        assert(values@ =~= leaf_keys::<T>(
            Seq::new(n as nat, |i: int| streams[i].pending()),
            n_leaf_nodes as nat,
        ));
        Tree {
            needs_updating: false,
            winning_value_index,
            nodes,
            values,
            input_streams: streams,
            compared: Ghost(0),
            looked: Ghost(0),
        }
    }

    /// As many values as nodes, a power of two of them, and no more inputs
    /// than leaves.
    spec fn shaped(&self) -> bool {
        &&& self.nodes.len() == self.values.len()
        &&& doubles_to(1, self.values.len() as int)
        &&& self.input_streams.len() <= self.values.len()
        &&& self.winning_value_index < self.values.len()
    }

    /// Brings the tree up to date after the key of one leaf has changed:
    /// every position above that leaf gets its winner anew, from the leaf
    /// to the root, where the winner of the whole tree is stored. Keys are
    /// compared once for each level of the tree; the result counts these
    /// comparisons.
    fn update_winner(&mut self, changed_value_index: usize) -> (comparisons: Ghost<nat>)
        requires
            old(self).shaped(),
            changed_value_index < old(self).values.len(),
            forall|p: int|
                1 <= p < old(self).values.len() && !covers(
                    old(self).values.len() as int,
                    p,
                    changed_value_index as int,
                ) ==> #[trigger] position_settled(old(self).values@, old(self).nodes@, p),
        ensures
            final(self).shaped(),
            final(self).values == old(self).values,
            final(self).input_streams == old(self).input_streams,
            final(self).needs_updating == old(self).needs_updating,
            final(self).compared == old(self).compared,
            final(self).looked == old(self).looked,
            forall|p: int|
                1 <= p < final(self).values.len() ==> #[trigger] position_settled(
                    final(self).values@,
                    final(self).nodes@,
                    p,
                ),
            final(self).values.len() > 1 ==> final(self).nodes[1]
                == final(self).winning_value_index,
            is_leftmost_min(
                final(self).values@,
                0,
                final(self).values.len() as int,
                final(self).winning_value_index as int,
            ),
            comparisons@ == height(old(self).leaves() as int),
    {
        let k = self.nodes.len();
        let ghost mut compared: nat = 0;
        if k > 1 {
            let ghost kk = k as int;
            let ghost leaf = changed_value_index as int;
            proof {
                lemma_level_above(kk, kk);
                lemma_root(kk);
            }
            let parent = half(k) + half(changed_value_index);
            // the leaf that changed held the previous winner
            let mut winning_value = self.values[changed_value_index];
            let mut winning_value_index = changed_value_index;
            let sibling_index = sibling(changed_value_index);
            let sibling_value = self.values[sibling_index];
            proof {
                assert(sibling_of(kk + leaf) == kk + sibling_of(leaf));
                assert((kk + leaf) / 2 == parent);
                assert(covers(kk, kk + leaf, leaf));
                lemma_path(kk, kk, kk + leaf, leaf);
                lemma_climb(self.values@, kk, kk + leaf, leaf, sibling_index as int);
            }
            if wins(sibling_value, sibling_index, winning_value, winning_value_index) {
                winning_value = sibling_value;
                winning_value_index = sibling_index;
            }
            proof {
                compared = compared + 1;
            }
            if parent > 1 {
                let ghost nodes_before = self.nodes@;
                self.nodes[parent] = winning_value_index;
                let mut changed_index = parent;
                let ghost mut level = kk / 2;
                proof {
                    assert forall|p: int|
                        2 <= p < kk && (!covers(kk, p, leaf) || p >= level) implies #[trigger] position_settled(
                        self.values@,
                        self.nodes@,
                        p,
                    ) by {
                        if p != parent {
                            if covers(kk, p, leaf) {
                                lemma_one_cover(kk, level, p, parent as int, leaf);
                            }
                            assert(position_settled(self.values@, nodes_before, p));
                        }
                    }
                }
                while changed_index > 3
                    invariant
                        self.shaped(),
                        self.values == old(self).values,
                        self.input_streams == old(self).input_streams,
                        self.needs_updating == old(self).needs_updating,
                        self.compared == old(self).compared,
                        self.looked == old(self).looked,
                        self.values.len() == kk,
                        leaf == changed_value_index,
                        doubles_to(level, kk),
                        doubles_to(1, level),
                        2 <= level <= changed_index < 2 * level,
                        2 * level <= kk,
                        self.nodes.len() == kk,
                        winning_value_index < kk,
                        winning_value == self.values[winning_value_index as int],
                        position_settled(self.values@, self.nodes@, changed_index as int),
                        self.nodes[changed_index as int] == winning_value_index,
                        covers(kk, changed_index as int, leaf),
                        compared + height(level) == height(kk),
                        forall|p: int|
                            2 <= p < kk && (!covers(kk, p, leaf) || p >= level)
                                ==> #[trigger] position_settled(self.values@, self.nodes@, p),
                    decreases changed_index,
                {
                    let parent = half(changed_index);
                    let sibling_position = sibling(changed_index);
                    proof {
                        lemma_level_above(kk, level);
                        lemma_path(kk, level, changed_index as int, leaf);
                        assert(position_settled(self.values@, self.nodes@, sibling_position as int));
                        lemma_climb(
                            self.values@,
                            level,
                            changed_index as int,
                            winning_value_index as int,
                            self.nodes[sibling_position as int] as int,
                        );
                    }
                    let sibling_value_index = self.nodes[sibling_position];
                    let sibling_value = self.values[sibling_value_index];
                    // the winner changes only where the other side is better
                    if wins(sibling_value, sibling_value_index, winning_value, winning_value_index) {
                        winning_value_index = sibling_value_index;
                        winning_value = sibling_value;
                    }
                    proof {
                        compared = compared + 1;
                    }
                    let ghost nodes_before = self.nodes@;
                    self.nodes[parent] = winning_value_index;
                    proof {
                        assert forall|p: int|
                            2 <= p < kk && (!covers(kk, p, leaf) || p >= level / 2) implies #[trigger] position_settled(
                            self.values@,
                            self.nodes@,
                            p,
                        ) by {
                            if p != parent {
                                if p < level && covers(kk, p, leaf) {
                                    lemma_one_cover(kk, level / 2, p, parent as int, leaf);
                                }
                                assert(position_settled(self.values@, nodes_before, p));
                            }
                        }
                        level = level / 2;
                    }
                    changed_index = parent;
                }
                let sibling_position = sibling(changed_index);
                proof {
                    assert(level == 2) by {
                        if level > 2 {
                            lemma_level_above(kk, level);
                        }
                    }
                    lemma_path(kk, level, changed_index as int, leaf);
                    assert(position_settled(self.values@, self.nodes@, sibling_position as int));
                    lemma_climb(
                        self.values@,
                        level,
                        changed_index as int,
                        winning_value_index as int,
                        self.nodes[sibling_position as int] as int,
                    );
                }
                let sibling_value_index = self.nodes[sibling_position];
                let sibling_value = self.values[sibling_value_index];
                if wins(sibling_value, sibling_value_index, winning_value, winning_value_index) {
                    winning_value_index = sibling_value_index;
                }
                proof {
                    compared = compared + 1;
                    assert(height(2) == 1 + height(1));
                }
            } else {
                assert(kk == 2);
                assert(height(2) == 1 + height(1));
            }
            // the root names the winner of the whole tree
            let ghost nodes_before = self.nodes@;
            self.nodes[1] = winning_value_index;
            self.winning_value_index = winning_value_index;
            proof {
                assert forall|p: int| 1 <= p < kk implies #[trigger] position_settled(
                    self.values@,
                    self.nodes@,
                    p,
                ) by {
                    if p != 1 {
                        assert(position_settled(self.values@, nodes_before, p));
                    }
                }
            }
        }
        Ghost(compared)
    }

    /// Takes the next item of the merge: the next item of the input whose
    /// next timestamp is smallest, of the first such input where several
    /// stand equal. None when every input is at its end.
    ///
    /// Where an item was taken before, its input is looked at once, and the
    /// tree is brought up to date with one comparison of two keys for each
    /// level; otherwise no input is looked at and no keys are compared.
    /// After that the leaves hold the keys that the inputs stood for before
    /// this item was taken, and the root and the stored winner name the
    /// input that it was taken from.
    pub fn pop(&mut self) -> (item: Option<&T::Data>)
        requires
            old(self).wf(),
        ensures
            final(self).wf(),
            final(self).leaves() == old(self).leaves(),
            match next_input::<T>(old(self)@) {
                Some(w) => item == Some(old(self)@[w][0])
                    && final(self)@ == advance::<T>(old(self)@, w),
                None => item is None && final(self)@ == old(self)@,
            },
            merged::<T>(old(self)@) == (match item {
                Some(taken) => seq![taken] + merged::<T>(final(self)@),
                None => Seq::empty(),
            }),
            final(self).keys() == leaf_keys::<T>(old(self)@, old(self).leaves()),
            is_leftmost_min(
                final(self).keys(),
                0,
                final(self).leaves() as int,
                final(self).winner(),
            ),
            final(self).root() == final(self).winner(),
            final(self).awaits_refresh() == (old(self).awaits_refresh() || item is Some),
            final(self).compared() == old(self).compared() + (if old(self).awaits_refresh() {
                height(old(self).leaves() as int)
            } else {
                0
            }),
            final(self).looked() == old(self).looked() + (if old(self).awaits_refresh() {
                1nat
            } else {
                0nat
            }),
            old(self).awaits_refresh() ==> 0 <= old(self).winner() < old(self)@.len(),
            item is Some ==> next_input::<T>(old(self)@) == Some(final(self).winner()),
    {
        let ghost streams = self@;
        if self.needs_updating {
            let winner_stream_index = self.winning_value_index;
            let ghost values_before = self.values@;
            let ts = self.input_streams[winner_stream_index].peek_timestamp();
            self.looked = Ghost(self.looked@ + 1);
            self.values[winner_stream_index] = ts;
            proof {
                let k = self.values.len() as int;
                assert forall|p: int|
                    1 <= p < k && !covers(k, p, winner_stream_index as int) implies #[trigger] position_settled(
                    self.values@,
                    self.nodes@,
                    p,
                ) by {
                    assert(position_settled(values_before, self.nodes@, p));
                    lemma_run_is_local(
                        values_before,
                        self.values@,
                        first_leaf(k, p),
                        first_leaf(k, p) + width(k, p),
                        self.nodes[p] as int,
                    );
                }
            }
            let comparisons = self.update_winner(winner_stream_index);
            self.compared = Ghost(self.compared@ + comparisons@);
        }
        proof {
            assert(self@ =~= streams);
            assert forall|i: int| 0 <= i < self.input_streams.len() implies #[trigger] self.values[i]
                == head_keys::<T>(streams)[i] by {
                assert(self.values[i] == head_key::<T>(self.input_streams[i].pending()));
            }
            lemma_padded_min(
                self.values@,
                head_keys::<T>(streams),
                self.winning_value_index as int,
            );
            assert(self.values@ =~= leaf_keys::<T>(streams, self.values@.len()));
            assert(merged::<T>(streams) == (match next_input::<T>(streams) {
                Some(w) => seq![streams[w][0]] + merged::<T>(advance::<T>(streams, w)),
                None => Seq::empty(),
            }));
        }
        if self.values[self.winning_value_index] == u64::MAX {
            None
        } else {
            let winner_stream_index = self.winning_value_index;
            // the winner is looked at again before the next item is taken
            self.needs_updating = true;
            self.input_streams[winner_stream_index].pop()
        }
    }
}

} // verus!
