//! Code trees: how the tree of a table of counts is built, what the codes of
//! its symbols are, and how a table of counts is written as bytes.
use vstd::prelude::*;
use crate::binary_tree::Node;
use crate::symbol_map::{SymbolMap, sorted_entries, strictly_sorted};
use crate::symbol_map::{lemma_entries_map_contains, lemma_entries_map_value, lemma_sorted_entries_exist};
use crate::symbol::{symbol_bytes, write_symbol};
use crate::varint::{varint_bytes, write_varint};

verus! {

/// How often each symbol of a text occurs.
pub type FrequencyTable = SymbolMap<u32>;

/// The code of each symbol: the turns from the root of the code tree to the
/// symbol's leaf, `false` for left and `true` for right.
pub type CodeTable = SymbolMap<Vec<bool>>;

/// A node of a code tree: its weight, and its symbol where it is a leaf.
pub type Tree = Node<(u64, Option<char>)>;

/// The node has no subtree.
pub open spec fn is_leaf(t: Tree) -> bool {
    t.left is None && t.right is None
}

/// The leaf for a symbol that occurs `count` times.
pub open spec fn leaf(symbol: char, count: u32) -> Tree {
    Node { value: (count as u64, Some(symbol)), left: None, right: None }
}

/// The node above `l` and `r`, with `l` on the left.
pub open spec fn join(l: Tree, r: Tree) -> Tree {
    Node {
        value: ((l.value.0 + r.value.0) as u64, None),
        left: Some(Box::new(l)),
        right: Some(Box::new(r)),
    }
}

/// Every leaf carries a symbol, and every other node has two subtrees, no
/// symbol, and the sum of their weights as its weight.
pub open spec fn well_formed(t: Tree) -> bool
    decreases t,
{
    match (t.left, t.right) {
        (None, None) => t.value.1 is Some,
        (Some(l), Some(r)) => {
            &&& t.value.1 is None
            &&& t.value.0 == l.value.0 + r.value.0
            &&& well_formed(*l)
            &&& well_formed(*r)
        },
        _ => false,
    }
}

/// The tree has a leaf with symbol `c` and weight `w`.
pub open spec fn has_leaf(t: Tree, c: char, w: u64) -> bool
    decreases t,
{
    if is_leaf(t) {
        t.value == (w, Some(c))
    } else {
        let on_left = match t.left {
            Some(l) => has_leaf(*l, c, w),
            None => false,
        };
        let on_right = match t.right {
            Some(r) => has_leaf(*r, c, w),
            None => false,
        };
        on_left || on_right
    }
}

/// Some tree of the queue has a leaf with symbol `c` and weight `w`.
pub open spec fn queue_has_leaf(queue: Seq<Tree>, c: char, w: u64) -> bool {
    exists|i: int| 0 <= i < queue.len() && has_leaf(#[trigger] queue[i], c, w)
}

/// Every tree of the queue is well formed.
pub open spec fn queue_well_formed(queue: Seq<Tree>) -> bool {
    forall|i: int| 0 <= i < queue.len() ==> well_formed(#[trigger] queue[i])
}

/// The weights never fall from one tree of the queue to the next.
pub open spec fn ordered_by_weight(queue: Seq<Tree>) -> bool {
    forall|i: int, j: int| 0 <= i < j < queue.len() ==> queue[i].value.0 <= queue[j].value.0
}

/// The sum of the weights of the trees of the queue.
pub open spec fn total_weight(queue: Seq<Tree>) -> nat
    decreases queue.len(),
{
    if queue.len() == 0 {
        0
    } else {
        total_weight(queue.drop_last()) + queue.last().value.0 as nat
    }
}

/// The number of leaves of the tree.
pub open spec fn leaf_count(t: Tree) -> nat
    decreases t,
{
    if is_leaf(t) {
        1
    } else {
        let on_left = match t.left {
            Some(l) => leaf_count(*l),
            None => 0,
        };
        let on_right = match t.right {
            Some(r) => leaf_count(*r),
            None => 0,
        };
        on_left + on_right
    }
}

/// The number of leaves of all trees of the queue.
pub open spec fn queue_leaf_count(queue: Seq<Tree>) -> nat
    decreases queue.len(),
{
    if queue.len() == 0 {
        0
    } else {
        queue_leaf_count(queue.drop_last()) + leaf_count(queue.last())
    }
}

/// The number of trees at the front of the queue whose weight is at most `w`.
pub open spec fn rank(queue: Seq<Tree>, w: u64) -> nat
    decreases queue.len(),
{
    if queue.len() == 0 || queue[0].value.0 > w {
        0
    } else {
        1 + rank(queue.drop_first(), w)
    }
}

/// The queue with `t` put behind the trees at its front that weigh no more
/// than `t`. In a queue ordered by weight that is behind every tree that
/// weighs no more than `t`: of two trees of equal weight the one placed first
/// stays first.
pub open spec fn place(queue: Seq<Tree>, t: Tree) -> Seq<Tree> {
    queue.insert(rank(queue, t.value.0) as int, t)
}

/// The queue of the leaves for the given pairs, each placed in turn.
pub open spec fn leaf_queue(entries: Seq<(char, u32)>) -> Seq<Tree>
    decreases entries.len(),
{
    if entries.len() == 0 {
        Seq::empty()
    } else {
        place(leaf_queue(entries.drop_last()), leaf(entries.last().0, entries.last().1))
    }
}

/// The tree that is left when the first two trees of the queue are joined and
/// the result is placed in the rest, until one tree remains.
pub open spec fn merge_all(queue: Seq<Tree>) -> Tree
    decreases queue.len(),
{
    if queue.len() <= 1 {
        queue[0]
    } else {
        proof {
            lemma_rank(queue.skip(2), join(queue[0], queue[1]).value.0);
        }
        merge_all(place(queue.skip(2), join(queue[0], queue[1])))
    }
}

/// The code tree of a table of counts. The leaves are queued by count, those
/// of equal count by symbol. The two trees at the front, which are the two
/// lightest, are joined, the first on the left, and the new tree is queued
/// behind every tree that weighs no more, until one tree remains.
pub open spec fn huffman_tree(table: Map<char, u32>) -> Tree {
    merge_all(leaf_queue(sorted_entries(table)))
}

/// The sum of the counts of the pairs.
pub open spec fn total_count(entries: Seq<(char, u32)>) -> nat
    decreases entries.len(),
{
    if entries.len() == 0 {
        0
    } else {
        total_count(entries.drop_last()) + entries.last().1 as nat
    }
}

/// What `rank` returns splits the queue: the trees before it weigh at most
/// `w`, and the tree at it, if there is one, weighs more.
pub proof fn lemma_rank(queue: Seq<Tree>, w: u64)
    ensures
        rank(queue, w) <= queue.len(),
        forall|i: int| 0 <= i < rank(queue, w) ==> queue[i].value.0 <= w,
        rank(queue, w) < queue.len() ==> queue[rank(queue, w) as int].value.0 > w,
    decreases queue.len(),
{
    if queue.len() == 0 || queue[0].value.0 > w {
    } else {
        let rest = queue.drop_first();
        lemma_rank(rest, w);
        assert forall|i: int| 0 <= i < rank(queue, w) implies queue[i].value.0 <= w by {
            if i > 0 {
                assert(queue[i] == rest[i - 1]);
            }
        }
        if rank(queue, w) < queue.len() {
            assert(queue[rank(queue, w) as int] == rest[rank(rest, w) as int]);
        }
    }
}

/// Putting a tree into a queue at any place adds its weight to the total.
pub proof fn lemma_total_weight_insert(queue: Seq<Tree>, p: int, t: Tree)
    requires
        0 <= p <= queue.len(),
    ensures
        total_weight(queue.insert(p, t)) == total_weight(queue) + t.value.0,
    decreases queue.len(),
{
    let longer = queue.insert(p, t);
    if p == queue.len() {
        assert(longer.drop_last() =~= queue);
    } else {
        assert(longer.drop_last() =~= queue.drop_last().insert(p, t));
        lemma_total_weight_insert(queue.drop_last(), p, t);
    }
}

/// The total weight of a queue is that of its first tree and of the rest.
pub proof fn lemma_total_weight_first(queue: Seq<Tree>)
    requires
        queue.len() > 0,
    ensures
        total_weight(queue) == queue[0].value.0 + total_weight(queue.drop_first()),
    decreases queue.len(),
{
    if queue.len() == 1 {
        assert(queue.drop_last() =~= queue.drop_first());
    } else {
        lemma_total_weight_first(queue.drop_last());
        assert(queue.drop_last().drop_first() =~= queue.drop_first().drop_last());
    }
}

/// Putting a tree into a queue at any place adds its leaves to the queue's.
pub proof fn lemma_leaf_count_insert(queue: Seq<Tree>, p: int, t: Tree)
    requires
        0 <= p <= queue.len(),
    ensures
        queue_leaf_count(queue.insert(p, t)) == queue_leaf_count(queue) + leaf_count(t),
    decreases queue.len(),
{
    let longer = queue.insert(p, t);
    if p == queue.len() {
        assert(longer.drop_last() =~= queue);
    } else {
        assert(longer.drop_last() =~= queue.drop_last().insert(p, t));
        lemma_leaf_count_insert(queue.drop_last(), p, t);
    }
}

/// The leaves of a queue are those of its first tree and of the rest.
pub proof fn lemma_leaf_count_first(queue: Seq<Tree>)
    requires
        queue.len() > 0,
    ensures
        queue_leaf_count(queue) == leaf_count(queue[0]) + queue_leaf_count(queue.drop_first()),
    decreases queue.len(),
{
    if queue.len() == 1 {
        assert(queue.drop_last() =~= queue.drop_first());
    } else {
        lemma_leaf_count_first(queue.drop_last());
        assert(queue.drop_last().drop_first() =~= queue.drop_first().drop_last());
    }
}

/// Placing a tree keeps what the queue is made of, and its order.
pub proof fn lemma_place(queue: Seq<Tree>, t: Tree)
    ensures
        place(queue, t).len() == queue.len() + 1,
        total_weight(place(queue, t)) == total_weight(queue) + t.value.0,
        queue_leaf_count(place(queue, t)) == queue_leaf_count(queue) + leaf_count(t),
        queue_well_formed(queue) && well_formed(t) ==> queue_well_formed(place(queue, t)),
        ordered_by_weight(queue) ==> ordered_by_weight(place(queue, t)),
        forall|c: char, w: u64| #[trigger]
            queue_has_leaf(place(queue, t), c, w) <==> queue_has_leaf(queue, c, w) || has_leaf(
                t,
                c,
                w,
            ),
{
    let p = rank(queue, t.value.0) as int;
    let longer = place(queue, t);
    lemma_rank(queue, t.value.0);
    lemma_total_weight_insert(queue, p, t);
    lemma_leaf_count_insert(queue, p, t);
    if queue_well_formed(queue) && well_formed(t) {
        assert forall|i: int| 0 <= i < longer.len() implies well_formed(#[trigger] longer[i]) by {
            if i < p {
                assert(longer[i] == queue[i]);
            } else if i > p {
                assert(longer[i] == queue[i - 1]);
            }
        }
    }
    if ordered_by_weight(queue) {
        assert forall|i: int, j: int| 0 <= i < j < longer.len() implies longer[i].value.0
            <= longer[j].value.0 by {
            if p < queue.len() {
                assert(queue[p].value.0 > t.value.0);
            }
            if j > p {
                assert(longer[j] == queue[j - 1]);
            }
        }
    }
    assert forall|c: char, w: u64| #[trigger]
        queue_has_leaf(longer, c, w) <==> queue_has_leaf(queue, c, w) || has_leaf(t, c, w) by {
        if queue_has_leaf(longer, c, w) {
            let i = choose|i: int| 0 <= i < longer.len() && has_leaf(#[trigger] longer[i], c, w);
            if i < p {
                assert(has_leaf(queue[i], c, w));
            } else if i > p {
                assert(has_leaf(queue[i - 1], c, w));
            }
        }
        if queue_has_leaf(queue, c, w) {
            let i = choose|i: int| 0 <= i < queue.len() && has_leaf(#[trigger] queue[i], c, w);
            if i < p {
                assert(has_leaf(longer[i], c, w));
            } else {
                assert(has_leaf(longer[i + 1], c, w));
            }
        }
        if has_leaf(t, c, w) {
            assert(has_leaf(longer[p], c, w));
        }
    }
}

/// In a queue ordered by weight the two trees that are joined next are the
/// two lightest, and the queue is ordered again when their join is placed.
pub proof fn lemma_merge_step(queue: Seq<Tree>)
    requires
        queue.len() >= 2,
        ordered_by_weight(queue),
    ensures
        queue[0].value.0 <= queue[1].value.0,
        forall|i: int| 2 <= i < queue.len() ==> queue[1].value.0 <= (#[trigger] queue[i]).value.0,
        ordered_by_weight(place(queue.skip(2), join(queue[0], queue[1]))),
{
    let rest = queue.skip(2);
    assert(ordered_by_weight(rest)) by {
        assert forall|i: int, j: int| 0 <= i < j < rest.len() implies rest[i].value.0
            <= rest[j].value.0 by {
            assert(rest[i] == queue[i + 2] && rest[j] == queue[j + 2]);
        }
    }
    lemma_place(rest, join(queue[0], queue[1]));
}

/// Some pair of the sequence has the symbol `c` and the count `w`.
pub open spec fn has_pair(entries: Seq<(char, u32)>, c: char, w: u64) -> bool {
    exists|i: int| 0 <= i < entries.len() && (#[trigger] entries[i]).0 == c && entries[i].1 == w
}

/// The queue of leaves is ordered by weight and holds one leaf for each pair.
pub proof fn lemma_leaf_queue(entries: Seq<(char, u32)>)
    ensures
        leaf_queue(entries).len() == entries.len(),
        queue_well_formed(leaf_queue(entries)),
        ordered_by_weight(leaf_queue(entries)),
        total_weight(leaf_queue(entries)) == total_count(entries),
        queue_leaf_count(leaf_queue(entries)) == entries.len(),
        forall|c: char, w: u64| #[trigger]
            queue_has_leaf(leaf_queue(entries), c, w) <==> has_pair(entries, c, w),
    decreases entries.len(),
{
    if entries.len() > 0 {
        let shorter = entries.drop_last();
        let last = entries.last();
        lemma_leaf_queue(shorter);
        lemma_place(leaf_queue(shorter), leaf(last.0, last.1));
        assert forall|c: char, w: u64| #[trigger]
            queue_has_leaf(leaf_queue(entries), c, w) <==> has_pair(entries, c, w) by {
            assert(queue_has_leaf(leaf_queue(shorter), c, w) <==> has_pair(shorter, c, w));
            if has_pair(shorter, c, w) {
                let i = choose|i: int|
                    0 <= i < shorter.len() && (#[trigger] shorter[i]).0 == c && shorter[i].1 == w;
                assert(entries[i] == shorter[i]);
            }
            if has_pair(entries, c, w) {
                let i = choose|i: int|
                    0 <= i < entries.len() && (#[trigger] entries[i]).0 == c && entries[i].1 == w;
                if i < shorter.len() {
                    assert(shorter[i] == entries[i]);
                }
            }
            if has_leaf(leaf(last.0, last.1), c, w) {
                assert(entries[entries.len() - 1] == last);
            }
        }
    } else {
        assert forall|c: char, w: u64| #[trigger]
            queue_has_leaf(leaf_queue(entries), c, w) <==> has_pair(entries, c, w) by {}
    }
}

/// What merging makes of a queue of well-formed trees: one well-formed tree
/// with the leaves of them all, whose weight is the sum of theirs.
pub proof fn lemma_merge_all(queue: Seq<Tree>)
    requires
        queue.len() >= 1,
        queue_well_formed(queue),
        total_weight(queue) <= u64::MAX,
    ensures
        well_formed(merge_all(queue)),
        merge_all(queue).value.0 == total_weight(queue),
        leaf_count(merge_all(queue)) == queue_leaf_count(queue),
        forall|c: char, w: u64| #[trigger]
            has_leaf(merge_all(queue), c, w) <==> queue_has_leaf(queue, c, w),
    decreases queue.len(),
{
    if queue.len() == 1 {
        assert(queue.drop_last() =~= Seq::empty());
        assert(total_weight(queue.drop_last()) == 0);
        assert(queue_leaf_count(queue.drop_last()) == 0);
        assert forall|c: char, w: u64| #[trigger]
            has_leaf(merge_all(queue), c, w) <==> queue_has_leaf(queue, c, w) by {
            if queue_has_leaf(queue, c, w) {
                let i = choose|i: int| 0 <= i < queue.len() && has_leaf(#[trigger] queue[i], c, w);
                assert(i == 0);
            }
            if has_leaf(queue[0], c, w) {
                assert(queue_has_leaf(queue, c, w));
            }
        }
    } else {
        let rest = queue.skip(2);
        let joined = join(queue[0], queue[1]);
        lemma_total_weight_first(queue);
        lemma_total_weight_first(queue.drop_first());
        lemma_leaf_count_first(queue);
        lemma_leaf_count_first(queue.drop_first());
        assert(queue.drop_first().drop_first() =~= rest);
        assert(queue.drop_first()[0] == queue[1]);
        assert(well_formed(queue[0]) && well_formed(queue[1]));
        assert(well_formed(joined));
        assert(queue_well_formed(rest)) by {
            assert forall|i: int| 0 <= i < rest.len() implies well_formed(#[trigger] rest[i]) by {
                assert(rest[i] == queue[i + 2]);
            }
        }
        lemma_place(rest, joined);
        lemma_merge_all(place(rest, joined));
        assert forall|c: char, w: u64| #[trigger]
            has_leaf(merge_all(queue), c, w) <==> queue_has_leaf(queue, c, w) by {
            assert(queue_has_leaf(place(rest, joined), c, w) <==> queue_has_leaf(rest, c, w)
                || has_leaf(joined, c, w));
            assert(has_leaf(joined, c, w) <==> has_leaf(queue[0], c, w) || has_leaf(queue[1], c, w));
            if queue_has_leaf(rest, c, w) {
                let i = choose|i: int| 0 <= i < rest.len() && has_leaf(#[trigger] rest[i], c, w);
                assert(has_leaf(queue[i + 2], c, w));
            }
            if queue_has_leaf(queue, c, w) {
                let i = choose|i: int| 0 <= i < queue.len() && has_leaf(#[trigger] queue[i], c, w);
                if i >= 2 {
                    assert(has_leaf(rest[i - 2], c, w));
                }
            }
            if has_leaf(queue[0], c, w) || has_leaf(queue[1], c, w) {
                assert(queue_has_leaf(queue, c, w));
            }
        }
    }
}

/// The symbol at place `i` of a strictly sorted sequence has a code point of
/// at least `i`.
proof fn lemma_sorted_symbol_floor(entries: Seq<(char, u32)>, i: int)
    requires
        strictly_sorted(entries),
        0 <= i < entries.len(),
    ensures
        (entries[i].0 as u32) >= i,
    decreases i,
{
    if i > 0 {
        lemma_sorted_symbol_floor(entries, i - 1);
        assert((entries[i - 1].0 as u32) < (entries[i].0 as u32));
    }
}

proof fn lemma_total_count_bound(entries: Seq<(char, u32)>)
    ensures
        total_count(entries) <= entries.len() * 0xFFFF_FFFF,
    decreases entries.len(),
{
    if entries.len() > 0 {
        lemma_total_count_bound(entries.drop_last());
    }
}

/// A table of counts has at most one pair for each symbol there is, so that
/// the sum of its counts fits in 64 bits.
pub proof fn lemma_total_count_fits(entries: Seq<(char, u32)>)
    requires
        strictly_sorted(entries),
    ensures
        entries.len() <= 0x11_0000,
        total_count(entries) <= 0x11_0000 * 0xFFFF_FFFF,
{
    if entries.len() > 0 {
        lemma_sorted_symbol_floor(entries, entries.len() - 1);
        vstd::utf8::char_is_scalar(entries[entries.len() - 1].0);
    }
    lemma_total_count_bound(entries);
}

/// The code tree of a table is well formed and weighs the sum of all counts.
/// It has one leaf for each symbol of the table, which weighs the symbol's
/// count, and no other leaf.
pub proof fn lemma_huffman_tree(table: Map<char, u32>)
    requires
        table.dom().finite(),
        table.len() > 0,
    ensures
        well_formed(huffman_tree(table)),
        huffman_tree(table).value.0 == total_count(sorted_entries(table)),
        leaf_count(huffman_tree(table)) == table.len(),
        forall|c: char, w: u64| #[trigger]
            has_leaf(huffman_tree(table), c, w) <==> table.contains_key(c) && table[c] == w,
{
    let entries = sorted_entries(table);
    lemma_sorted_entries_exist(table);
    lemma_total_count_fits(entries);
    lemma_leaf_queue(entries);
    lemma_merge_all(leaf_queue(entries));
    assert forall|c: char, w: u64| #[trigger]
        has_leaf(huffman_tree(table), c, w) <==> table.contains_key(c) && table[c] == w by {
        assert(queue_has_leaf(leaf_queue(entries), c, w) <==> has_pair(entries, c, w));
        lemma_entries_map_contains(entries, c);
        if has_pair(entries, c, w) {
            let i = choose|i: int|
                0 <= i < entries.len() && (#[trigger] entries[i]).0 == c && entries[i].1 == w;
            lemma_entries_map_value(entries, i);
        }
        if table.contains_key(c) && table[c] == w {
            let i = choose|i: int| 0 <= i < entries.len() && (#[trigger] entries[i]).0 == c;
            lemma_entries_map_value(entries, i);
            assert(has_pair(entries, c, w));
        }
    }
}

/// The number of trees at the front of the queue that weigh at most `weight`.
fn queue_rank(queue: &Vec<Tree>, weight: u64) -> (r: usize)
    ensures
        r == rank(queue@, weight),
        r <= queue@.len(),
{
    let mut i: usize = 0;
    proof {
        assert(queue@.skip(0) =~= queue@);
    }
    while i < queue.len() && queue[i].value.0 <= weight
        invariant
            i <= queue@.len(),
            rank(queue@, weight) == i + rank(queue@.skip(i as int), weight),
        decreases queue@.len() - i,
    {
        proof {
            assert(queue@.skip(i as int)[0] == queue@[i as int]);
            assert(queue@.skip(i as int).drop_first() =~= queue@.skip(i + 1));
        }
        i += 1;
    }
    proof {
        if i < queue@.len() {
            assert(queue@.skip(i as int)[0] == queue@[i as int]);
        }
    }
    i
}

/// Builds the code tree of a table of counts.
///
/// The result depends on nothing but the counts: two tables that hold the
/// same counts give the same tree, however they were filled.
pub fn generate_tree(map: &FrequencyTable) -> (tree: Tree)
    requires
        map@.len() > 0,
    ensures
        tree == huffman_tree(map@),
        well_formed(tree),
        forall|c: char, w: u64| #[trigger]
            has_leaf(tree, c, w) <==> map@.contains_key(c) && map@[c] == w,
{
    let n: usize = map.len();
    let ghost entries = sorted_entries(map@);
    proof {
        lemma_sorted_entries_exist(map@);
        lemma_total_count_fits(entries);
    }
    let mut queue: Vec<Tree> = Vec::new();
    let mut i: usize = 0;
    while i < n
        invariant
            i <= n,
            n == entries.len(),
            n == map@.len(),
            entries == sorted_entries(map@),
            queue@ == leaf_queue(entries.take(i as int)),
        decreases n - i,
    {
        let symbol: char = map.key_at(i);
        let count: u32 = *map.value_at(i);
        let at: usize = queue_rank(&queue, count as u64);
        proof {
            assert(entries.take(i + 1).drop_last() =~= entries.take(i as int));
            assert(entries.take(i + 1).last() == entries[i as int]);
        }
        queue.insert(at, Node { value: (count as u64, Some(symbol)), left: None, right: None });
        i += 1;
    }
    proof {
        assert(entries.take(n as int) =~= entries);
        lemma_leaf_queue(entries);
    }
    while queue.len() > 1
        invariant
            queue@.len() >= 1,
            merge_all(queue@) == huffman_tree(map@),
            total_weight(queue@) <= u64::MAX,
        decreases queue@.len(),
    {
        let ghost before = queue@;
        let first = queue.remove(0);
        let second = queue.remove(0);
        proof {
            assert(queue@ =~= before.skip(2));
            lemma_total_weight_first(before);
            lemma_total_weight_first(before.drop_first());
            assert(before.drop_first().drop_first() =~= before.skip(2));
            assert(before.drop_first()[0] == before[1]);
        }
        let weight: u64 = first.value.0 + second.value.0;
        let joined = Node {
            value: (weight, None),
            left: Some(Box::new(first)),
            right: Some(Box::new(second)),
        };
        assert(joined == join(before[0], before[1]));
        let at: usize = queue_rank(&queue, weight);
        proof {
            lemma_place(queue@, joined);
        }
        queue.insert(at, joined);
    }
    proof {
        lemma_huffman_tree(map@);
    }
    queue.remove(0)
}

/// The turns that lead from the root of `t` to its leaf with the symbol `c`:
/// `false` for left, `true` for right. Where several leaves carry the symbol,
/// it is the last of them from the left. A tree that is a single leaf gives
/// its symbol the empty code.
pub open spec fn code_of(t: Tree, c: char) -> Option<Seq<bool>>
    decreases t,
{
    if is_leaf(t) {
        if t.value.1 == Some(c) {
            Some(Seq::empty())
        } else {
            None
        }
    } else {
        let on_left = match t.left {
            Some(l) => code_of(*l, c),
            None => None,
        };
        let on_right = match t.right {
            Some(r) => code_of(*r, c),
            None => None,
        };
        match on_right {
            Some(path) => Some(seq![true] + path),
            None => match on_left {
                Some(path) => Some(seq![false] + path),
                None => None,
            },
        }
    }
}

/// The codes of all symbols of the tree.
pub open spec fn code_map(t: Tree) -> Map<char, Seq<bool>> {
    Map::new(|c: char| code_of(t, c) is Some, |c: char| code_of(t, c)->0)
}

/// What a table of codes holds, each code as a sequence of bits.
pub open spec fn codes_view(codes: Map<char, Vec<bool>>) -> Map<char, Seq<bool>> {
    codes.map_values(|v: Vec<bool>| v@)
}

/// A symbol on a leaf of the tree has a code.
pub proof fn lemma_leaf_has_code(t: Tree, c: char, w: u64)
    requires
        has_leaf(t, c, w),
    ensures
        code_of(t, c) is Some,
    decreases t,
{
    if !is_leaf(t) {
        match t.left {
            Some(l) => {
                if has_leaf(*l, c, w) {
                    lemma_leaf_has_code(*l, c, w);
                }
            },
            None => {},
        }
        match t.right {
            Some(r) => {
                if has_leaf(*r, c, w) {
                    lemma_leaf_has_code(*r, c, w);
                }
            },
            None => {},
        }
    }
}

/// The codes of a tree form a prefix code: the code of one symbol never
/// begins the code of another.
pub proof fn lemma_prefix_free(t: Tree, a: char, b: char)
    requires
        code_of(t, a) is Some,
        code_of(t, b) is Some,
        a != b,
    ensures
        !(code_of(t, a)->0).is_prefix_of(code_of(t, b)->0),
    decreases t,
{
    if !is_leaf(t) {
        let code_a = code_of(t, a)->0;
        let code_b = code_of(t, b)->0;
        let right_a = match t.right {
            Some(r) => code_of(*r, a),
            None => None,
        };
        let right_b = match t.right {
            Some(r) => code_of(*r, b),
            None => None,
        };
        if right_a is Some && right_b is Some {
            let r = t.right->0;
            lemma_prefix_free(*r, a, b);
            if code_a.is_prefix_of(code_b) {
                assert(right_a->0 =~= code_a.subrange(1, code_a.len() as int));
                assert(right_b->0 =~= code_b.subrange(1, code_b.len() as int));
                assert(right_a->0 =~= (right_b->0).subrange(0, (right_a->0).len() as int));
            }
        } else if right_a is None && right_b is None {
            let l = t.left->0;
            lemma_prefix_free(*l, a, b);
            let left_a = code_of(*l, a)->0;
            let left_b = code_of(*l, b)->0;
            if code_a.is_prefix_of(code_b) {
                assert(left_a =~= code_a.subrange(1, code_a.len() as int));
                assert(left_b =~= code_b.subrange(1, code_b.len() as int));
                assert(left_a =~= left_b.subrange(0, left_a.len() as int));
            }
        } else {
            if code_a.is_prefix_of(code_b) {
                assert(code_a[0] == code_b.subrange(0, code_a.len() as int)[0]);
            }
        }
    }
}

/// No code of a tree begins the code of another symbol of the tree.
pub proof fn lemma_code_map_prefix_free(t: Tree)
    ensures
        forall|a: char, b: char|
            code_map(t).contains_key(a) && code_map(t).contains_key(b) && a != b ==> !(
            #[trigger] code_map(t)[a]).is_prefix_of(#[trigger] code_map(t)[b]),
{
    assert forall|a: char, b: char|
        code_map(t).contains_key(a) && code_map(t).contains_key(b) && a != b implies !(
    #[trigger] code_map(t)[a]).is_prefix_of(#[trigger] code_map(t)[b]) by {
        lemma_prefix_free(t, a, b);
    }
}

/// The code tree and the codes depend on the counts alone: two tables that
/// hold the same counts, however and wherever they were filled, have the
/// same tree and the same codes.
pub proof fn lemma_tree_determined(a: FrequencyTable, b: FrequencyTable)
    requires
        a@ == b@,
    ensures
        huffman_tree(a@) == huffman_tree(b@),
        code_map(huffman_tree(a@)) == code_map(huffman_tree(b@)),
{
}

fn copy_bits(bits: &Vec<bool>) -> (copy: Vec<bool>)
    ensures
        copy@ == bits@,
{
    let mut copy: Vec<bool> = Vec::new();
    let mut i: usize = 0;
    while i < bits.len()
        invariant
            i <= bits@.len(),
            copy@ == bits@.take(i as int),
        decreases bits@.len() - i,
    {
        copy.push(bits[i]);
        proof {
            assert(bits@.take(i + 1) =~= bits@.take(i as int).push(bits@[i as int]));
        }
        i += 1;
    }
    proof {
        assert(bits@.take(i as int) =~= bits@);
    }
    copy
}

/// Sets in `map` the code of every symbol of the tree, each behind the turns
/// in `current_array` that led to this tree, whatever `map` held for the
/// symbol before. What `map` holds for other symbols stays.
fn recursive_generate_codes(root: &Tree, current_array: &mut Vec<bool>, map: &mut CodeTable)
    requires
        well_formed(*root),
    ensures
        final(current_array)@ == old(current_array)@,
        forall|c: char|
            code_of(*root, c) is Some ==> #[trigger] final(map)@.contains_key(c) && final(map)@[c]@
                == old(current_array)@ + code_of(*root, c)->0,
        forall|c: char|
            code_of(*root, c) is None ==> (#[trigger] final(map)@.contains_key(c)
                <==> old(map)@.contains_key(c)),
        forall|c: char|
            code_of(*root, c) is None && old(map)@.contains_key(c) ==> #[trigger] final(map)@[c]
                == old(map)@[c],
    decreases *root,
{
    let ghost path = current_array@;
    let ghost before = map@;
    match &root.left {
        Some(node) => {
            current_array.push(false);
            recursive_generate_codes(&**node, current_array, map);
            current_array.pop();
        },
        None => {},
    }
    let ghost middle = map@;
    assert(current_array@ =~= path);
    match &root.right {
        Some(node) => {
            current_array.push(true);
            recursive_generate_codes(&**node, current_array, map);
            current_array.pop();
        },
        None => {},
    }
    assert(current_array@ =~= path);
    if let Some(symbol) = root.value.1 {
        let code = copy_bits(current_array);
        map.insert(symbol, code);
        proof {
            assert(path + Seq::<bool>::empty() =~= path);
        }
    } else {
        proof {
            let l = *(root.left->0);
            let r = *(root.right->0);
            assert forall|c: char| code_of(*root, c) is Some implies #[trigger] map@.contains_key(c)
                && map@[c]@ == path + code_of(*root, c)->0 by {
                if code_of(r, c) is Some {
                    assert(map@.contains_key(c));
                    assert(map@[c]@ == path.push(true) + code_of(r, c)->0);
                    assert(path.push(true) + code_of(r, c)->0 =~= path + (seq![true] + code_of(
                        r,
                        c,
                    )->0));
                } else {
                    assert(middle.contains_key(c));
                    assert(middle[c]@ == path.push(false) + code_of(l, c)->0);
                    assert(map@.contains_key(c));
                    assert(map@[c] == middle[c]);
                    assert(path.push(false) + code_of(l, c)->0 =~= path + (seq![false] + code_of(
                        l,
                        c,
                    )->0));
                }
            }
            assert forall|c: char| code_of(*root, c) is None implies (#[trigger] map@.contains_key(
                c,
            ) <==> before.contains_key(c)) by {
                assert(code_of(l, c) is None && code_of(r, c) is None);
                assert(middle.contains_key(c) <==> before.contains_key(c));
                assert(map@.contains_key(c) <==> middle.contains_key(c));
            }
            assert forall|c: char|
                code_of(*root, c) is None && before.contains_key(c) implies #[trigger] map@[c]
                == before[c] by {
                assert(code_of(l, c) is None && code_of(r, c) is None);
                assert(middle.contains_key(c));
                assert(middle[c] == before[c]);
                assert(map@[c] == middle[c]);
            }
        }
    }
}

/// The table of the codes of all symbols of a code tree.
pub fn generate_codes(root: &Tree) -> (codes: CodeTable)
    requires
        well_formed(*root),
    ensures
        codes_view(codes@) == code_map(*root),
{
    let mut map = CodeTable::new();
    let mut arr: Vec<bool> = Vec::new();
    recursive_generate_codes(root, &mut arr, &mut map);
    proof {
        assert forall|c: char| code_map(*root).contains_key(c) implies #[trigger] codes_view(
            map@,
        ).contains_key(c) && codes_view(map@)[c] == code_map(*root)[c] by {
            assert(map@.contains_key(c));
            assert(map@[c]@ == Seq::<bool>::empty() + code_of(*root, c)->0);
            assert(Seq::<bool>::empty() + code_of(*root, c)->0 =~= code_of(*root, c)->0);
        }
        assert forall|c: char| !code_map(*root).contains_key(c) implies !(#[trigger] codes_view(
            map@,
        ).contains_key(c)) by {
            assert(code_of(*root, c) is None);
            assert(map@.contains_key(c) <==> Map::<char, Vec<bool>>::empty().contains_key(c));
        }
        assert(codes_view(map@) =~= code_map(*root));
    }
    map
}

/// The bytes of a table of counts: for each pair in turn the UTF-8 bytes of
/// the symbol, then the count as an unsigned LEB128 number.
pub open spec fn table_bytes(entries: Seq<(char, u32)>) -> Seq<u8>
    decreases entries.len(),
{
    if entries.len() == 0 {
        Seq::empty()
    } else {
        symbol_bytes(entries[0].0) + varint_bytes(entries[0].1 as nat) + table_bytes(
            entries.drop_first(),
        )
    }
}

/// The bytes of a table of counts, its pairs in increasing order of their
/// symbols.
pub fn save_tree(char_map: FrequencyTable) -> (result: Vec<u8>)
    ensures
        result@ == table_bytes(sorted_entries(char_map@)),
{
    let n: usize = char_map.len();
    let ghost entries = sorted_entries(char_map@);
    let mut result: Vec<u8> = Vec::new();
    let mut i: usize = 0;
    proof {
        assert(entries.skip(0) =~= entries);
    }
    while i < n
        invariant
            i <= n,
            n == entries.len(),
            n == char_map@.len(),
            entries == sorted_entries(char_map@),
            result@ + table_bytes(entries.skip(i as int)) == table_bytes(entries),
        decreases n - i,
    {
        let ghost before = result@;
        let ghost rest = entries.skip(i as int);
        let symbol: char = char_map.key_at(i);
        let count: u32 = *char_map.value_at(i);
        write_symbol(&mut result, symbol);
        write_varint(&mut result, count as u64);
        proof {
            assert(rest[0] == entries[i as int]);
            assert(rest.drop_first() =~= entries.skip(i + 1));
            assert(result@ + table_bytes(entries.skip(i + 1)) =~= before + table_bytes(rest));
        }
        i += 1;
    }
    proof {
        assert(result@ + Seq::<u8>::empty() =~= result@);
    }
    result
}

} // verus!
