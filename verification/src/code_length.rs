//! How long the codes of a code tree are: a symbol that occurs more often
//! than another never has the longer code.
use vstd::prelude::*;
use crate::huffman::{Tree, code_of, has_leaf, huffman_tree, is_leaf, join, leaf, leaf_queue, merge_all};
use crate::huffman::{lemma_huffman_tree, lemma_leaf_has_code, lemma_leaf_queue, lemma_place, lemma_rank};
use crate::huffman::{lemma_total_count_fits, lemma_total_weight_first, ordered_by_weight, place, rank};
use crate::huffman::total_weight;
use crate::symbol_map::{lemma_sorted_entries_exist, sorted_entries};

verus! {

/// The tree has a leaf with symbol `c` and weight `w` that lies `depth` turns
/// below its root.
pub open spec fn has_leaf_at(t: Tree, c: char, w: u64, depth: nat) -> bool
    decreases t,
{
    if is_leaf(t) {
        depth == 0 && t.value == (w, Some(c))
    } else {
        let on_left = match t.left {
            Some(l) => has_leaf_at(*l, c, w, (depth - 1) as nat),
            None => false,
        };
        let on_right = match t.right {
            Some(r) => has_leaf_at(*r, c, w, (depth - 1) as nat),
            None => false,
        };
        depth > 0 && (on_left || on_right)
    }
}

/// How many turns the root of the tree at place `i` of the queue lies below
/// the root of the tree that merging makes of the queue.
pub open spec fn root_depth(queue: Seq<Tree>, i: int) -> nat
    decreases queue.len(),
{
    if queue.len() <= 1 {
        0
    } else {
        let joined = join(queue[0], queue[1]);
        let rest = queue.skip(2);
        let at = rank(rest, joined.value.0) as int;
        proof {
            lemma_rank(rest, joined.value.0);
        }
        if i < 2 {
            root_depth(place(rest, joined), at) + 1
        } else if i - 2 < at {
            root_depth(place(rest, joined), i - 2)
        } else {
            root_depth(place(rest, joined), i - 1)
        }
    }
}

/// A leaf at some depth is a leaf.
pub proof fn lemma_leaf_at_is_leaf(t: Tree, c: char, w: u64, depth: nat)
    requires
        has_leaf_at(t, c, w, depth),
    ensures
        has_leaf(t, c, w),
    decreases t,
{
    if !is_leaf(t) {
        match t.left {
            Some(l) => {
                if has_leaf_at(*l, c, w, (depth - 1) as nat) {
                    lemma_leaf_at_is_leaf(*l, c, w, (depth - 1) as nat);
                }
            },
            None => {},
        }
        match t.right {
            Some(r) => {
                if has_leaf_at(*r, c, w, (depth - 1) as nat) {
                    lemma_leaf_at_is_leaf(*r, c, w, (depth - 1) as nat);
                }
            },
            None => {},
        }
    }
}

/// The code of a symbol is as long as one of the symbol's leaves lies deep.
pub proof fn lemma_code_leaf(t: Tree, c: char)
    requires
        code_of(t, c) is Some,
    ensures
        exists|w: u64| has_leaf_at(t, c, w, (code_of(t, c)->0).len()),
    decreases t,
{
    let code = code_of(t, c)->0;
    if is_leaf(t) {
        assert(has_leaf_at(t, c, t.value.0, code.len()));
    } else {
        let on_right = match t.right {
            Some(r) => code_of(*r, c),
            None => None,
        };
        if on_right is Some {
            let r = *(t.right->0);
            lemma_code_leaf(r, c);
            let w = choose|w: u64| has_leaf_at(r, c, w, (code_of(r, c)->0).len());
            assert(has_leaf_at(t, c, w, code.len()));
        } else {
            let l = *(t.left->0);
            lemma_code_leaf(l, c);
            let w = choose|w: u64| has_leaf_at(l, c, w, (code_of(l, c)->0).len());
            assert(has_leaf_at(t, c, w, code.len()));
        }
    }
}

/// A leaf of the merged tree is a leaf of a tree of the queue, and lies as
/// much deeper as that tree's root lies below the root of the merged tree.
pub proof fn lemma_merge_depth(queue: Seq<Tree>, c: char, w: u64, depth: nat)
    requires
        queue.len() >= 1,
        has_leaf_at(merge_all(queue), c, w, depth),
    ensures
        exists|i: int, e: nat|
            0 <= i < queue.len() && #[trigger] has_leaf_at(queue[i], c, w, e) && depth == e
                + root_depth(queue, i),
    decreases queue.len(),
{
    if queue.len() == 1 {
        assert(has_leaf_at(queue[0], c, w, depth) && depth == depth + root_depth(queue, 0));
    } else {
        let joined = join(queue[0], queue[1]);
        let rest = queue.skip(2);
        let at = rank(rest, joined.value.0) as int;
        let next = place(rest, joined);
        lemma_rank(rest, joined.value.0);
        lemma_merge_depth(next, c, w, depth);
        let (k, e) = choose|k: int, e: nat|
            0 <= k < next.len() && #[trigger] has_leaf_at(next[k], c, w, e) && depth == e
                + root_depth(next, k);
        if k == at {
            assert(next[k] == joined);
            let above = (e - 1) as nat;
            if has_leaf_at(queue[0], c, w, above) {
                assert(has_leaf_at(queue[0], c, w, above) && depth == above + root_depth(queue, 0));
            } else {
                assert(has_leaf_at(queue[1], c, w, above) && depth == above + root_depth(queue, 1));
            }
        } else if k < at {
            assert(next[k] == queue[k + 2]);
            assert(has_leaf_at(queue[k + 2], c, w, e) && depth == e + root_depth(queue, k + 2));
        } else {
            assert(next[k] == queue[k + 1]);
            assert(has_leaf_at(queue[k + 1], c, w, e) && depth == e + root_depth(queue, k + 1));
        }
    }
}

/// In a queue ordered by weight a tree never ends up deeper than a tree
/// before it, and a tree that weighs no more than the first two together
/// ends up at most one turn above any tree before it.
pub proof fn lemma_root_depth_order(queue: Seq<Tree>)
    requires
        ordered_by_weight(queue),
        total_weight(queue) <= u64::MAX,
    ensures
        forall|i: int, j: int|
            0 <= i < j < queue.len() ==> root_depth(queue, i) >= root_depth(queue, j),
        forall|i: int, j: int|
            0 <= i < j < queue.len() && queue[j].value.0 <= queue[0].value.0 + queue[1].value.0
                ==> root_depth(queue, i) <= root_depth(queue, j) + 1,
    decreases queue.len(),
{
    if queue.len() >= 2 {
        let joined = join(queue[0], queue[1]);
        let rest = queue.skip(2);
        let at = rank(rest, joined.value.0) as int;
        let next = place(rest, joined);
        lemma_rank(rest, joined.value.0);
        lemma_total_weight_first(queue);
        lemma_total_weight_first(queue.drop_first());
        assert(queue.drop_first().drop_first() =~= rest);
        assert(queue.drop_first()[0] == queue[1]);
        assert(joined.value.0 == queue[0].value.0 + queue[1].value.0);
        assert(ordered_by_weight(rest)) by {
            assert forall|i: int, j: int| 0 <= i < j < rest.len() implies rest[i].value.0
                <= rest[j].value.0 by {
                assert(rest[i] == queue[i + 2] && rest[j] == queue[j + 2]);
            }
        }
        lemma_place(rest, joined);
        lemma_root_depth_order(next);
        // every tree of the next queue weighs at least as much as the second tree
        assert forall|k: int| 0 <= k < next.len() implies queue[1].value.0 <= (
        #[trigger] next[k]).value.0 by {
            if k < at {
                assert(next[k] == queue[k + 2]);
            } else if k > at {
                assert(next[k] == queue[k + 1]);
            }
        }
        assert forall|i: int, j: int| 0 <= i < j < queue.len() implies root_depth(queue, i)
            >= root_depth(queue, j) by {
            if j >= 2 {
                let kj = if j - 2 < at {
                    j - 2
                } else {
                    j - 1
                };
                if i >= 2 {
                    let ki = if i - 2 < at {
                        i - 2
                    } else {
                        i - 1
                    };
                    assert(root_depth(next, ki) >= root_depth(next, kj));
                } else if kj > at {
                    assert(root_depth(next, at) >= root_depth(next, kj));
                } else {
                    assert(next[0].value.0 >= queue[1].value.0);
                    assert(next[1].value.0 >= queue[1].value.0);
                    assert(next[at] == joined);
                    assert(root_depth(next, kj) <= root_depth(next, at) + 1);
                }
            }
        }
        assert forall|i: int, j: int|
            0 <= i < j < queue.len() && queue[j].value.0 <= queue[0].value.0
                + queue[1].value.0 implies root_depth(queue, i) <= root_depth(queue, j) + 1 by {
            if j >= 2 {
                assert(rest[j - 2] == queue[j]);
                if j - 2 >= at {
                    assert(rest[at].value.0 <= rest[j - 2].value.0);
                }
                assert(j - 2 < at);
                if i >= 2 {
                    assert(next[0].value.0 >= queue[1].value.0);
                    assert(next[1].value.0 >= queue[1].value.0);
                    assert(next[j - 2] == queue[j]);
                    assert(root_depth(next, i - 2) <= root_depth(next, j - 2) + 1);
                } else {
                    assert(root_depth(next, j - 2) >= root_depth(next, at));
                }
            }
        }
    }
}

/// The queue of leaves holds leaves only.
pub proof fn lemma_leaf_queue_leaves(entries: Seq<(char, u32)>)
    ensures
        forall|i: int| 0 <= i < leaf_queue(entries).len() ==> is_leaf(#[trigger] leaf_queue(entries)[i]),
    decreases entries.len(),
{
    if entries.len() > 0 {
        let shorter = leaf_queue(entries.drop_last());
        let last = leaf(entries.last().0, entries.last().1);
        let at = rank(shorter, last.value.0) as int;
        lemma_leaf_queue_leaves(entries.drop_last());
        lemma_rank(shorter, last.value.0);
        assert forall|i: int| 0 <= i < leaf_queue(entries).len() implies is_leaf(
            #[trigger] leaf_queue(entries)[i],
        ) by {
            if i < at {
                assert(leaf_queue(entries)[i] == shorter[i]);
            } else if i > at {
                assert(leaf_queue(entries)[i] == shorter[i - 1]);
            }
        }
    }
}

/// A symbol that is counted more often than another has a code that is no
/// longer than the other's.
pub proof fn lemma_frequent_not_longer(table: Map<char, u32>, a: char, b: char)
    requires
        table.dom().finite(),
        table.contains_key(a),
        table.contains_key(b),
        table[a] > table[b],
    ensures
        code_of(huffman_tree(table), a) is Some,
        code_of(huffman_tree(table), b) is Some,
        (code_of(huffman_tree(table), a)->0).len() <= (code_of(huffman_tree(table), b)->0).len(),
{
    let tree = huffman_tree(table);
    let entries = sorted_entries(table);
    let queue = leaf_queue(entries);
    lemma_sorted_entries_exist(table);
    lemma_total_count_fits(entries);
    lemma_leaf_queue(entries);
    lemma_leaf_queue_leaves(entries);
    lemma_huffman_tree(table);
    lemma_root_depth_order(queue);
    lemma_leaf_has_code(tree, a, table[a] as u64);
    lemma_leaf_has_code(tree, b, table[b] as u64);
    let depth_a = (code_of(tree, a)->0).len();
    let depth_b = (code_of(tree, b)->0).len();
    lemma_code_leaf(tree, a);
    lemma_code_leaf(tree, b);
    let wa = choose|w: u64| has_leaf_at(tree, a, w, depth_a);
    let wb = choose|w: u64| has_leaf_at(tree, b, w, depth_b);
    lemma_leaf_at_is_leaf(tree, a, wa, depth_a);
    lemma_leaf_at_is_leaf(tree, b, wb, depth_b);
    assert(wa == table[a] && wb == table[b]);
    lemma_merge_depth(queue, a, wa, depth_a);
    lemma_merge_depth(queue, b, wb, depth_b);
    let (ia, ea) = choose|i: int, e: nat|
        0 <= i < queue.len() && #[trigger] has_leaf_at(queue[i], a, wa, e) && depth_a == e
            + root_depth(queue, i);
    let (ib, eb) = choose|i: int, e: nat|
        0 <= i < queue.len() && #[trigger] has_leaf_at(queue[i], b, wb, e) && depth_b == e
            + root_depth(queue, i);
    assert(is_leaf(queue[ia]) && is_leaf(queue[ib]));
    assert(queue[ia].value.0 == wa && queue[ib].value.0 == wb);
    if ia < ib {
        assert(queue[ia].value.0 <= queue[ib].value.0);
    }
    assert(ib < ia);
    assert(root_depth(queue, ib) >= root_depth(queue, ia));
}

} // verus!
