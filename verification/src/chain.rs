//! Chains: the sequence of node addresses that a list runs through, from its
//! head sentinel to its tail sentinel, and what each atomic step of the list
//! algorithm does to it.

use crate::heap::Node;
use crate::marked::{is_marked, mark, unmark};
use vstd::prelude::*;

verus! {

/// The key `k` is stored at position `i` of the chain, in a node that is not
/// logically deleted.
pub open spec fn live_at(chain: Seq<usize>, nodes: Map<usize, Node>, i: int, k: u64) -> bool {
    0 < i < chain.len() - 1 && nodes[chain[i]].key == Some(k) && !is_marked(nodes[chain[i]].next)
}

/// The address that the node at position `i` of the chain links to.
pub open spec fn next_at(chain: Seq<usize>, nodes: Map<usize, Node>, i: int) -> usize {
    unmark(nodes[chain[i]].next)
}

/// The chain runs from the head sentinel to the tail sentinel through nodes
/// with strictly increasing keys.
pub open spec fn sorted_between_sentinels(
    chain: Seq<usize>,
    nodes: Map<usize, Node>,
    head: usize,
    tail: usize,
) -> bool {
    &&& chain.len() >= 2
    &&& chain[0] == head
    &&& chain[chain.len() - 1] == tail
    &&& forall|i: int| 0 <= i < chain.len() ==> nodes.contains_key(#[trigger] chain[i])
    &&& forall|i: int|
        0 <= i < chain.len() - 1 ==> #[trigger] next_at(chain, nodes, i) == chain[i + 1]
    &&& nodes[head].key is None
    &&& !is_marked(nodes[head].next)
    &&& nodes[tail].key is None
    &&& nodes[tail].next == 0
    &&& forall|i: int| 0 < i < chain.len() - 1 ==> nodes[#[trigger] chain[i]].key is Some
    &&& forall|i: int, j: int|
        0 < i < j < chain.len() - 1 ==> nodes[#[trigger] chain[i]].key->0 < nodes[
            #[trigger] chain[j]].key->0
    &&& forall|i: int, j: int|
        0 <= i < j < chain.len() ==> #[trigger] chain[i] != #[trigger] chain[j]
}

/// The contents of a chain: each key of a node that is not logically deleted,
/// with the value in that node's cell.
pub open spec fn chain_view<V>(chain: Seq<usize>, nodes: Map<usize, Node>, cells: Map<usize, V>)
    -> Map<u64, V> {
    Map::new(
        |k: u64| exists|i: int| live_at(chain, nodes, i, k),
        |k: u64| cells[nodes[chain[choose|i: int| live_at(chain, nodes, i, k)]].val],
    )
}

/// A key that is live at position `i` is in the contents, with the value of
/// the cell of the node there.
pub proof fn lemma_view_at<V>(
    chain: Seq<usize>,
    nodes: Map<usize, Node>,
    cells: Map<usize, V>,
    head: usize,
    tail: usize,
    i: int,
    k: u64,
)
    requires
        sorted_between_sentinels(chain, nodes, head, tail),
        live_at(chain, nodes, i, k),
    ensures
        chain_view(chain, nodes, cells).contains_key(k),
        chain_view(chain, nodes, cells)[k] == cells[nodes[chain[i]].val],
{
    let j = choose|j: int| live_at(chain, nodes, j, k);
    if j < i {
        assert(nodes[chain[j]].key->0 < nodes[chain[i]].key->0);
    } else if i < j {
        assert(nodes[chain[i]].key->0 < nodes[chain[j]].key->0);
    }
}

/// A key that lies strictly between the keys at two neighbouring positions,
/// or equals that of a logically deleted right neighbour, is not in the
/// contents.
pub proof fn lemma_view_gap<V>(
    chain: Seq<usize>,
    nodes: Map<usize, Node>,
    cells: Map<usize, V>,
    head: usize,
    tail: usize,
    j: int,
    k: u64,
)
    requires
        sorted_between_sentinels(chain, nodes, head, tail),
        0 <= j < chain.len() - 1,
        j > 0 ==> nodes[chain[j]].key->0 < k,
        j + 1 < chain.len() - 1 ==> k <= nodes[chain[j + 1]].key->0,
        !live_at(chain, nodes, j + 1, k),
    ensures
        !chain_view(chain, nodes, cells).contains_key(k),
{
    if exists|i: int| live_at(chain, nodes, i, k) {
        let i = choose|i: int| live_at(chain, nodes, i, k);
        if i < j {
            assert(nodes[chain[i]].key->0 < nodes[chain[j]].key->0);
        } else if i > j + 1 {
            assert(nodes[chain[j + 1]].key->0 < nodes[chain[i]].key->0);
        }
    }
}

/// The chain without the positions strictly between `l` and `r`.
pub open spec fn cut_chain(chain: Seq<usize>, l: int, r: int) -> Seq<usize> {
    chain.subrange(0, l + 1) + chain.subrange(r, chain.len() as int)
}

/// The nodes after the node at `at` was given `word` as its link word.
pub open spec fn with_next(nodes: Map<usize, Node>, at: usize, word: usize) -> Map<usize, Node> {
    nodes.insert(at, (Node { key: nodes[at].key, val: nodes[at].val, next: word }))
}

/// Cutting the positions strictly between `l` and `r` out of a sorted chain,
/// by storing the address at `r` in the node at `l`, leaves the chain sorted.
pub proof fn lemma_prune_sorted(
    chain: Seq<usize>,
    nodes: Map<usize, Node>,
    head: usize,
    tail: usize,
    l: int,
    r: int,
)
    requires
        sorted_between_sentinels(chain, nodes, head, tail),
        0 <= l,
        l + 1 < r < chain.len(),
        !is_marked(nodes[chain[l]].next),
    ensures
        sorted_between_sentinels(
            cut_chain(chain, l, r),
            with_next(nodes, chain[l], chain[r]),
            head,
            tail,
        ),
{
    let after = cut_chain(chain, l, r);
    let d = r - l - 1;
    let left = chain[l];
    let relinked = with_next(nodes, left, chain[r]);
    assert(after.len() == chain.len() - d);
    assert forall|i: int| 0 <= i < after.len() implies #[trigger] after[i] == chain[if i <= l {
        i
    } else {
        i + d
    }] by {}
    assert(next_at(chain, nodes, r - 1) == chain[r]);
    assert(unmark(chain[r]) == chain[r]);
    assert forall|i: int| 0 <= i < chain.len() && i != l implies relinked[#[trigger] chain[i]]
        == nodes[chain[i]] by {
        if i < l {
            assert(chain[i] != chain[l]);
        } else {
            assert(chain[l] != chain[i]);
        }
    }
    assert(relinked[left].key == nodes[left].key);
    assert(relinked[left].next == chain[r]);
    assert forall|i: int| 0 <= i < after.len() - 1 implies #[trigger] next_at(
        after,
        relinked,
        i,
    ) == after[i + 1] by {
        if i < l {
            assert(after[i] == chain[i]);
            assert(after[i + 1] == chain[i + 1]);
            assert(next_at(chain, nodes, i) == chain[i + 1]);
        } else if i == l {
            assert(after[i + 1] == chain[r]);
        } else {
            assert(after[i] == chain[i + d]);
            assert(after[i + 1] == chain[i + d + 1]);
            assert(next_at(chain, nodes, i + d) == chain[i + d + 1]);
        }
    }
    assert forall|i: int| 0 <= i < after.len() implies relinked.contains_key(
        #[trigger] after[i],
    ) by {
        assert(nodes.contains_key(chain[if i <= l {
            i
        } else {
            i + d
        }]));
    }
    assert forall|i: int| 0 < i < after.len() - 1 implies relinked[#[trigger] after[i]].key
        is Some by {
        let i0 = if i <= l {
            i
        } else {
            i + d
        };
        assert(nodes[chain[i0]].key is Some);
    }
    assert forall|i: int, j: int| 0 < i < j < after.len() - 1 implies relinked[
        #[trigger] after[i]].key->0 < relinked[#[trigger] after[j]].key->0 by {
        let i0 = if i <= l {
            i
        } else {
            i + d
        };
        let j0 = if j <= l {
            j
        } else {
            j + d
        };
        assert(nodes[chain[i0]].key->0 < nodes[chain[j0]].key->0);
    }
    assert forall|i: int, j: int| 0 <= i < j < after.len() implies #[trigger] after[i]
        != #[trigger] after[j] by {
        let i0 = if i <= l {
            i
        } else {
            i + d
        };
        let j0 = if j <= l {
            j
        } else {
            j + d
        };
        assert(chain[i0] != chain[j0]);
    }
    assert(after[0] == chain[0]);
    assert(after[after.len() - 1] == chain[chain.len() - 1]);
    if l > 0 {
        assert(chain[0] != chain[l]);
    }
    assert(chain[l] != chain[chain.len() - 1]);
}

/// Cutting a run of logically deleted nodes out of a chain leaves its
/// contents as they were.
pub proof fn lemma_prune_view<V>(
    chain: Seq<usize>,
    nodes: Map<usize, Node>,
    cells: Map<usize, V>,
    head: usize,
    tail: usize,
    l: int,
    r: int,
)
    requires
        sorted_between_sentinels(chain, nodes, head, tail),
        sorted_between_sentinels(
            cut_chain(chain, l, r),
            with_next(nodes, chain[l], chain[r]),
            head,
            tail,
        ),
        0 <= l,
        l + 1 < r < chain.len(),
        !is_marked(nodes[chain[l]].next),
        forall|m: int| l < m < r ==> is_marked(nodes[#[trigger] chain[m]].next),
    ensures
        chain_view(cut_chain(chain, l, r), with_next(nodes, chain[l], chain[r]), cells)
            == chain_view(chain, nodes, cells),
{
    let after = cut_chain(chain, l, r);
    let d = r - l - 1;
    let left = chain[l];
    let relinked = with_next(nodes, left, chain[r]);
    assert(after.len() == chain.len() - d);
    assert(next_at(chain, nodes, r - 1) == chain[r]);
    assert(unmark(chain[r]) == chain[r]);
    assert forall|i: int, k: u64| live_at(chain, nodes, i, k) implies live_at(
        after,
        relinked,
        if i <= l {
            i
        } else {
            i - d
        },
        k,
    ) && relinked[chain[i]].val == nodes[chain[i]].val && after[if i <= l {
        i
    } else {
        i - d
    }] == chain[i] by {
        assert(!(l < i < r)) by {
            if l < i < r {
                assert(is_marked(nodes[chain[i]].next));
            }
        }
        if i > l {
            assert(after[i - d] == chain[i]);
            assert(chain[l] != chain[i]);
        } else {
            assert(after[i] == chain[i]);
            if i < l {
                assert(chain[i] != chain[l]);
            }
        }
    }
    assert forall|i: int, k: u64| live_at(after, relinked, i, k) implies live_at(
        chain,
        nodes,
        if i <= l {
            i
        } else {
            i + d
        },
        k,
    ) by {
        if i > l {
            assert(after[i] == chain[i + d]);
            assert(chain[l] != chain[i + d]);
        } else {
            assert(after[i] == chain[i]);
            if i < l {
                assert(chain[i] != chain[l]);
            }
        }
    }
    let before_view = chain_view(chain, nodes, cells);
    let after_view = chain_view(after, relinked, cells);
    assert forall|k: u64| before_view.contains_key(k) implies #[trigger] after_view.contains_key(
        k,
    ) && after_view[k] == before_view[k] by {
        let i = choose|i: int| live_at(chain, nodes, i, k);
        let i1 = if i <= l {
            i
        } else {
            i - d
        };
        assert(live_at(after, relinked, i1, k));
        lemma_view_at(chain, nodes, cells, head, tail, i, k);
        lemma_view_at(after, relinked, cells, head, tail, i1, k);
    }
    assert forall|k: u64| #[trigger] after_view.contains_key(k) implies before_view.contains_key(
        k,
    ) by {
        let i = choose|i: int| live_at(after, relinked, i, k);
        assert(live_at(chain, nodes, if i <= l {
            i
        } else {
            i + d
        }, k));
    }
    assert(after_view =~= before_view);
}

/// Cutting the run of logically deleted nodes that lies strictly between
/// positions `l` and `r` out of a sorted chain, by storing the address at `r`
/// in the node at `l`, leaves the chain sorted and its contents as they were.
pub proof fn lemma_prune<V>(
    chain: Seq<usize>,
    nodes: Map<usize, Node>,
    cells: Map<usize, V>,
    head: usize,
    tail: usize,
    l: int,
    r: int,
)
    requires
        sorted_between_sentinels(chain, nodes, head, tail),
        0 <= l,
        l + 1 < r < chain.len(),
        !is_marked(nodes[chain[l]].next),
        forall|m: int| l < m < r ==> is_marked(nodes[#[trigger] chain[m]].next),
    ensures
        sorted_between_sentinels(
            cut_chain(chain, l, r),
            with_next(nodes, chain[l], chain[r]),
            head,
            tail,
        ),
        chain_view(cut_chain(chain, l, r), with_next(nodes, chain[l], chain[r]), cells)
            == chain_view(chain, nodes, cells),
{
    lemma_prune_sorted(chain, nodes, head, tail, l, r);
    lemma_prune_view(chain, nodes, cells, head, tail, l, r);
}

/// `left` and `right` are neighbours at positions `j` and `j + 1` of the
/// chain, `left` links to `right` with an unmarked word, every key up to `left`
/// is below `key`, and `right` is the tail sentinel or a node that is not
/// logically deleted and whose key is at least `key`.
pub open spec fn is_place(
    chain: Seq<usize>,
    nodes: Map<usize, Node>,
    key: u64,
    left: usize,
    right: usize,
    j: int,
) -> bool {
    &&& 0 <= j < chain.len() - 1
    &&& left == chain[j]
    &&& right == chain[j + 1]
    &&& nodes[left].next == right
    &&& j > 0 ==> nodes[left].key->0 < key
    &&& j + 1 < chain.len() - 1 ==> !is_marked(nodes[right].next) && key <= nodes[right].key->0
}

/// `after` is `before` without the run of logically deleted nodes that
/// followed position `j`.
pub open spec fn is_pruned(
    before: Seq<usize>,
    after: Seq<usize>,
    nodes: Map<usize, Node>,
    j: int,
) -> bool {
    let n = before.len() - after.len();
    &&& 0 <= n
    &&& 0 <= j
    &&& j + 1 + n <= before.len()
    &&& after == cut_chain(before, j, j + 1 + n)
    &&& forall|m: int| j < m < j + 1 + n ==> is_marked(nodes[#[trigger] before[m]].next)
}

/// Linking a new node between the neighbours at positions `j` and `j + 1`,
/// by storing its address in the node at `j`, leaves the chain sorted.
pub proof fn lemma_link_sorted(
    chain: Seq<usize>,
    nodes: Map<usize, Node>,
    head: usize,
    tail: usize,
    j: int,
    new: usize,
    key: u64,
)
    requires
        sorted_between_sentinels(chain, nodes, head, tail),
        0 <= j < chain.len() - 1,
        nodes[chain[j]].next == chain[j + 1],
        j > 0 ==> nodes[chain[j]].key->0 < key,
        j + 1 < chain.len() - 1 ==> key < nodes[chain[j + 1]].key->0,
        nodes.contains_key(new),
        new % 2 == 0,
        forall|i: int| 0 <= i < chain.len() ==> #[trigger] chain[i] != new,
        nodes[new].key == Some(key),
        nodes[new].next == chain[j + 1],
    ensures
        sorted_between_sentinels(
            chain.insert(j + 1, new),
            with_next(nodes, chain[j], new),
            head,
            tail,
        ),
{
    let after = chain.insert(j + 1, new);
    let left = chain[j];
    let linked = with_next(nodes, left, new);
    assert(after.len() == chain.len() + 1);
    assert(after[j + 1] == new);
    assert forall|i: int| 0 <= i < after.len() && i != j + 1 implies #[trigger] after[i]
        == chain[if i <= j {
        i
    } else {
        i - 1
    }] by {}
    assert(next_at(chain, nodes, j) == chain[j + 1]);
    assert(unmark(chain[j + 1]) == chain[j + 1]);
    assert(unmark(new) == new);
    assert(chain[j] != new);
    assert(linked[new] == nodes[new]);
    assert forall|i: int| 0 <= i < chain.len() && i != j implies linked[#[trigger] chain[i]]
        == nodes[chain[i]] by {
        if i < j {
            assert(chain[i] != chain[j]);
        } else {
            assert(chain[j] != chain[i]);
        }
    }
    assert forall|i: int| 0 <= i < after.len() - 1 implies #[trigger] next_at(after, linked, i)
        == after[i + 1] by {
        if i < j {
            assert(after[i] == chain[i]);
            assert(after[i + 1] == chain[i + 1]);
            assert(next_at(chain, nodes, i) == chain[i + 1]);
        } else if i == j {
            assert(after[i] == chain[j]);
        } else if i == j + 1 {
            assert(after[i + 1] == chain[j + 1]);
        } else {
            assert(after[i] == chain[i - 1]);
            assert(after[i + 1] == chain[i]);
            assert(next_at(chain, nodes, i - 1) == chain[i]);
        }
    }
    assert forall|i: int| 0 <= i < after.len() implies linked.contains_key(#[trigger] after[i]) by {
        if i != j + 1 {
            assert(nodes.contains_key(chain[if i <= j {
                i
            } else {
                i - 1
            }]));
        }
    }
    assert forall|i: int| 0 < i < after.len() - 1 implies linked[#[trigger] after[i]].key
        is Some by {
        if i != j + 1 {
            let i0 = if i <= j {
                i
            } else {
                i - 1
            };
            assert(nodes[chain[i0]].key is Some);
        }
    }
    assert forall|a: int, b: int| 0 < a < b < after.len() - 1 implies linked[
        #[trigger] after[a]].key->0 < linked[#[trigger] after[b]].key->0 by {
        let a0 = if a <= j {
            a
        } else {
            a - 1
        };
        let b0 = if b <= j {
            b
        } else {
            b - 1
        };
        if a == j + 1 {
            assert(after[b] == chain[b0]);
            if b0 > j + 1 {
                assert(nodes[chain[j + 1]].key->0 < nodes[chain[b0]].key->0);
            }
        } else if b == j + 1 {
            assert(after[a] == chain[a0]);
            if a0 < j {
                assert(nodes[chain[a0]].key->0 < nodes[chain[j]].key->0);
            }
        } else {
            assert(nodes[chain[a0]].key->0 < nodes[chain[b0]].key->0);
        }
    }
    assert forall|a: int, b: int| 0 <= a < b < after.len() implies #[trigger] after[a]
        != #[trigger] after[b] by {
        let a0 = if a <= j {
            a
        } else {
            a - 1
        };
        let b0 = if b <= j {
            b
        } else {
            b - 1
        };
        if a == j + 1 {
            assert(chain[b0] != new);
        } else if b == j + 1 {
            assert(chain[a0] != new);
        } else {
            assert(chain[a0] != chain[b0]);
        }
    }
    assert(after[0] == chain[0]);
    assert(after[after.len() - 1] == chain[chain.len() - 1]);
    if j > 0 {
        assert(chain[0] != chain[j]);
    }
    assert(chain[j] != chain[chain.len() - 1]);
}

/// Linking a new node into a chain adds the node's key, with the value of
/// its cell, to the contents.
pub proof fn lemma_link_view<V>(
    chain: Seq<usize>,
    nodes: Map<usize, Node>,
    cells: Map<usize, V>,
    head: usize,
    tail: usize,
    j: int,
    new: usize,
    key: u64,
)
    requires
        sorted_between_sentinels(chain, nodes, head, tail),
        sorted_between_sentinels(
            chain.insert(j + 1, new),
            with_next(nodes, chain[j], new),
            head,
            tail,
        ),
        0 <= j < chain.len() - 1,
        nodes[chain[j]].next == chain[j + 1],
        nodes.contains_key(new),
        new % 2 == 0,
        forall|i: int| 0 <= i < chain.len() ==> #[trigger] chain[i] != new,
        nodes[new].key == Some(key),
        nodes[new].next == chain[j + 1],
    ensures
        chain_view(chain.insert(j + 1, new), with_next(nodes, chain[j], new), cells) == chain_view(
            chain,
            nodes,
            cells,
        ).insert(key, cells[nodes[new].val]),
{
    let after = chain.insert(j + 1, new);
    let left = chain[j];
    let linked = with_next(nodes, left, new);
    assert(after[j + 1] == new);
    assert(next_at(chain, nodes, j) == chain[j + 1]);
    assert(unmark(chain[j + 1]) == chain[j + 1]);
    assert(chain[j] != new);
    assert(linked[new] == nodes[new]);
    let before_view = chain_view(chain, nodes, cells);
    let after_view = chain_view(after, linked, cells);
    let value = cells[nodes[new].val];
    assert(live_at(after, linked, j + 1, key));
    lemma_view_at(after, linked, cells, head, tail, j + 1, key);
    assert forall|i: int, k: u64| live_at(chain, nodes, i, k) implies live_at(
        after,
        linked,
        if i <= j {
            i
        } else {
            i + 1
        },
        k,
    ) && linked[chain[i]].val == nodes[chain[i]].val && after[if i <= j {
        i
    } else {
        i + 1
    }] == chain[i] by {
        if i < j {
            assert(chain[i] != chain[j]);
        } else if j < i {
            assert(chain[j] != chain[i]);
        }
    }
    assert forall|i: int, k: u64| live_at(after, linked, i, k) && i != j + 1 implies live_at(
        chain,
        nodes,
        if i <= j {
            i
        } else {
            i - 1
        },
        k,
    ) by {
        let i0 = if i <= j {
            i
        } else {
            i - 1
        };
        assert(after[i] == chain[i0]);
        if i0 < j {
            assert(chain[i0] != chain[j]);
        } else if j < i0 {
            assert(chain[j] != chain[i0]);
        }
    }
    assert forall|k: u64| before_view.contains_key(k) && k != key implies #[trigger] after_view.contains_key(
        k,
    ) && after_view[k] == before_view[k] by {
        let i = choose|i: int| live_at(chain, nodes, i, k);
        let i1 = if i <= j {
            i
        } else {
            i + 1
        };
        assert(live_at(after, linked, i1, k));
        lemma_view_at(chain, nodes, cells, head, tail, i, k);
        lemma_view_at(after, linked, cells, head, tail, i1, k);
    }
    assert forall|k: u64| #[trigger] after_view.contains_key(k) && k != key implies before_view.contains_key(
        k,
    ) by {
        let i = choose|i: int| live_at(after, linked, i, k);
        if i == j + 1 {
            assert(linked[after[i]].key == Some(key));
        } else {
            assert(live_at(chain, nodes, if i <= j {
                i
            } else {
                i - 1
            }, k));
        }
    }
    assert(after_view =~= before_view.insert(key, value));
}

/// Linking a new node between the neighbours at positions `j` and `j + 1`,
/// by storing its address in the node at `j`, leaves the chain sorted and adds
/// the node's key, with the value of its cell, to the contents.
pub proof fn lemma_link<V>(
    chain: Seq<usize>,
    nodes: Map<usize, Node>,
    cells: Map<usize, V>,
    head: usize,
    tail: usize,
    j: int,
    new: usize,
    key: u64,
)
    requires
        sorted_between_sentinels(chain, nodes, head, tail),
        0 <= j < chain.len() - 1,
        nodes[chain[j]].next == chain[j + 1],
        j > 0 ==> nodes[chain[j]].key->0 < key,
        j + 1 < chain.len() - 1 ==> key < nodes[chain[j + 1]].key->0,
        nodes.contains_key(new),
        new % 2 == 0,
        forall|i: int| 0 <= i < chain.len() ==> #[trigger] chain[i] != new,
        nodes[new].key == Some(key),
        nodes[new].next == chain[j + 1],
    ensures
        sorted_between_sentinels(
            chain.insert(j + 1, new),
            with_next(nodes, chain[j], new),
            head,
            tail,
        ),
        chain_view(chain.insert(j + 1, new), with_next(nodes, chain[j], new), cells) == chain_view(
            chain,
            nodes,
            cells,
        ).insert(key, cells[nodes[new].val]),
{
    lemma_link_sorted(chain, nodes, head, tail, j, new, key);
    lemma_link_view(chain, nodes, cells, head, tail, j, new, key);
}

/// Storing another cell address in the live node at position `p` leaves the
/// chain sorted and maps the node's key to the value of that cell.
pub proof fn lemma_swap_val<V>(
    chain: Seq<usize>,
    nodes: Map<usize, Node>,
    cells: Map<usize, V>,
    head: usize,
    tail: usize,
    p: int,
    key: u64,
    cell: usize,
)
    requires
        sorted_between_sentinels(chain, nodes, head, tail),
        live_at(chain, nodes, p, key),
    ensures
        sorted_between_sentinels(
            chain,
            nodes.insert(
                chain[p],
                (Node { key: nodes[chain[p]].key, val: cell, next: nodes[chain[p]].next }),
            ),
            head,
            tail,
        ),
        chain_view(
            chain,
            nodes.insert(
                chain[p],
                (Node { key: nodes[chain[p]].key, val: cell, next: nodes[chain[p]].next }),
            ),
            cells,
        ) == chain_view(chain, nodes, cells).insert(key, cells[cell]),
{
    let at = chain[p];
    let swapped = nodes.insert(
        at,
        (Node { key: nodes[at].key, val: cell, next: nodes[at].next }),
    );
    assert forall|i: int| 0 <= i < chain.len() implies swapped[#[trigger] chain[i]].key
        == nodes[chain[i]].key && swapped[chain[i]].next == nodes[chain[i]].next && (i != p
        ==> swapped[chain[i]].val == nodes[chain[i]].val) by {
        if i < p {
            assert(chain[i] != chain[p]);
        } else if p < i {
            assert(chain[p] != chain[i]);
        }
    }
    assert forall|i: int| 0 <= i < chain.len() - 1 implies #[trigger] next_at(chain, swapped, i)
        == chain[i + 1] by {
        assert(next_at(chain, nodes, i) == chain[i + 1]);
    }
    assert(chain[0] == head && chain[chain.len() - 1] == tail);
    assert(sorted_between_sentinels(chain, swapped, head, tail));
    let before_view = chain_view(chain, nodes, cells);
    let after_view = chain_view(chain, swapped, cells);
    assert(live_at(chain, swapped, p, key));
    lemma_view_at(chain, swapped, cells, head, tail, p, key);
    assert forall|k: u64| before_view.contains_key(k) && k != key implies #[trigger] after_view.contains_key(
        k,
    ) && after_view[k] == before_view[k] by {
        let i = choose|i: int| live_at(chain, nodes, i, k);
        assert(live_at(chain, swapped, i, k));
        lemma_view_at(chain, nodes, cells, head, tail, i, k);
        lemma_view_at(chain, swapped, cells, head, tail, i, k);
    }
    assert forall|k: u64| #[trigger] after_view.contains_key(k) && k != key implies before_view.contains_key(
        k,
    ) by {
        let i = choose|i: int| live_at(chain, swapped, i, k);
        assert(live_at(chain, nodes, i, k));
    }
    assert(after_view =~= before_view.insert(key, cells[cell]));
}

/// Marking the link word of the live node at position `p` leaves the chain
/// sorted and removes the node's key from the contents.
pub proof fn lemma_mark<V>(
    chain: Seq<usize>,
    nodes: Map<usize, Node>,
    cells: Map<usize, V>,
    head: usize,
    tail: usize,
    p: int,
    key: u64,
)
    requires
        sorted_between_sentinels(chain, nodes, head, tail),
        live_at(chain, nodes, p, key),
    ensures
        sorted_between_sentinels(
            chain,
            nodes.insert(
                chain[p],
                (Node {
                    key: nodes[chain[p]].key,
                    val: nodes[chain[p]].val,
                    next: mark(nodes[chain[p]].next),
                }),
            ),
            head,
            tail,
        ),
        chain_view(
            chain,
            nodes.insert(
                chain[p],
                (Node {
                    key: nodes[chain[p]].key,
                    val: nodes[chain[p]].val,
                    next: mark(nodes[chain[p]].next),
                }),
            ),
            cells,
        ) == chain_view(chain, nodes, cells).remove(key),
{
    let at = chain[p];
    let marked = nodes.insert(
        at,
        (Node { key: nodes[at].key, val: nodes[at].val, next: mark(nodes[at].next) }),
    );
    assert forall|i: int| 0 <= i < chain.len() implies marked[#[trigger] chain[i]].key
        == nodes[chain[i]].key && marked[chain[i]].val == nodes[chain[i]].val && (i != p
        ==> marked[chain[i]].next == nodes[chain[i]].next) by {
        if i < p {
            assert(chain[i] != chain[p]);
        } else if p < i {
            assert(chain[p] != chain[i]);
        }
    }
    assert forall|i: int| 0 <= i < chain.len() - 1 implies #[trigger] next_at(chain, marked, i)
        == chain[i + 1] by {
        assert(next_at(chain, nodes, i) == chain[i + 1]);
    }
    assert(chain[0] == head && chain[chain.len() - 1] == tail);
    assert(chain[0] != chain[p]);
    assert(chain[p] != chain[chain.len() - 1]);
    assert(sorted_between_sentinels(chain, marked, head, tail));
    let before_view = chain_view(chain, nodes, cells);
    let after_view = chain_view(chain, marked, cells);
    assert forall|k: u64| before_view.contains_key(k) && k != key implies #[trigger] after_view.contains_key(
        k,
    ) && after_view[k] == before_view[k] by {
        let i = choose|i: int| live_at(chain, nodes, i, k);
        assert(live_at(chain, marked, i, k));
        lemma_view_at(chain, nodes, cells, head, tail, i, k);
        lemma_view_at(chain, marked, cells, head, tail, i, k);
    }
    assert forall|k: u64| #[trigger] after_view.contains_key(k) implies before_view.contains_key(
        k,
    ) && k != key by {
        let i = choose|i: int| live_at(chain, marked, i, k);
        assert(live_at(chain, nodes, i, k));
        if i < p {
            assert(nodes[chain[i]].key->0 < nodes[chain[p]].key->0);
        } else if p < i {
            assert(nodes[chain[p]].key->0 < nodes[chain[i]].key->0);
        }
    }
    assert(after_view =~= before_view.remove(key));
}

/// A chain stays sorted, and keeps its contents, when every node on it and
/// the cell of every keyed node on it are as before.
pub proof fn lemma_agree<V>(
    chain: Seq<usize>,
    nodes: Map<usize, Node>,
    cells: Map<usize, V>,
    nodes2: Map<usize, Node>,
    cells2: Map<usize, V>,
    head: usize,
    tail: usize,
)
    requires
        sorted_between_sentinels(chain, nodes, head, tail),
        forall|i: int|
            0 <= i < chain.len() ==> nodes2.contains_key(#[trigger] chain[i]) && nodes2[chain[i]]
                == nodes[chain[i]],
        forall|i: int|
            0 < i < chain.len() - 1 ==> cells2[nodes[#[trigger] chain[i]].val]
                == cells[nodes[chain[i]].val],
    ensures
        sorted_between_sentinels(chain, nodes2, head, tail),
        chain_view(chain, nodes2, cells2) == chain_view(chain, nodes, cells),
{
    assert(chain[0] == head && chain[chain.len() - 1] == tail);
    assert forall|i: int| 0 <= i < chain.len() - 1 implies #[trigger] next_at(chain, nodes2, i)
        == chain[i + 1] by {
        assert(next_at(chain, nodes, i) == chain[i + 1]);
    }
    let before_view = chain_view(chain, nodes, cells);
    let after_view = chain_view(chain, nodes2, cells2);
    assert forall|k: u64| before_view.contains_key(k) implies #[trigger] after_view.contains_key(k)
        && after_view[k] == before_view[k] by {
        let i = choose|i: int| live_at(chain, nodes, i, k);
        assert(live_at(chain, nodes2, i, k));
        lemma_view_at(chain, nodes, cells, head, tail, i, k);
        lemma_view_at(chain, nodes2, cells2, head, tail, i, k);
    }
    assert forall|k: u64| #[trigger] after_view.contains_key(k) implies before_view.contains_key(
        k,
    ) by {
        let i = choose|i: int| live_at(chain, nodes2, i, k);
        assert(live_at(chain, nodes, i, k));
    }
    assert(after_view =~= before_view);
}

/// The place of `key` in a chain: position `l` holds the last node before
/// the key that is not logically deleted, position `r` holds the first such
/// node at or after the key, or the tail sentinel, and every node strictly
/// between the two is logically deleted.
pub open spec fn is_gap(
    chain: Seq<usize>,
    nodes: Map<usize, Node>,
    key: u64,
    l: int,
    r: int,
) -> bool {
    &&& 0 <= l < r < chain.len()
    &&& !is_marked(nodes[chain[l]].next)
    &&& l > 0 ==> nodes[chain[l]].key->0 < key
    &&& forall|m: int| l < m < r ==> is_marked(nodes[#[trigger] chain[m]].next)
    &&& r < chain.len() - 1 ==> !is_marked(nodes[chain[r]].next) && key <= nodes[chain[r]].key->0
}

/// The node at position `i` of the chain carries `k`, logically deleted or
/// not.
pub open spec fn key_at(chain: Seq<usize>, nodes: Map<usize, Node>, i: int, k: u64) -> bool {
    0 < i < chain.len() - 1 && nodes[chain[i]].key == Some(k)
}

/// The keys of all nodes of a chain, logically deleted or not.
pub open spec fn chain_keys(chain: Seq<usize>, nodes: Map<usize, Node>) -> Set<u64> {
    Set::new(|k: u64| exists|i: int| key_at(chain, nodes, i, k))
}

/// No node of the chain is logically deleted.
pub open spec fn chain_clean(chain: Seq<usize>, nodes: Map<usize, Node>) -> bool {
    forall|i: int| 0 <= i < chain.len() ==> !is_marked(nodes[#[trigger] chain[i]].next)
}

/// A chain has a gap for a key at one pair of positions only.
pub proof fn lemma_gap_unique(
    chain: Seq<usize>,
    nodes: Map<usize, Node>,
    head: usize,
    tail: usize,
    key: u64,
    l: int,
    r: int,
    l2: int,
    r2: int,
)
    requires
        sorted_between_sentinels(chain, nodes, head, tail),
        is_gap(chain, nodes, key, l, r),
        is_gap(chain, nodes, key, l2, r2),
    ensures
        l == l2,
        r == r2,
{
    if r < r2 {
        if r <= l2 {
            if r < l2 {
                assert(nodes[chain[r]].key->0 < nodes[chain[l2]].key->0);
            }
        } else {
            assert(is_marked(nodes[chain[r]].next));
        }
    } else if r2 < r {
        if r2 <= l {
            if r2 < l {
                assert(nodes[chain[r2]].key->0 < nodes[chain[l]].key->0);
            }
        } else {
            assert(is_marked(nodes[chain[r2]].next));
        }
    }
    if l < l2 {
        assert(is_marked(nodes[chain[l2]].next));
    } else if l2 < l {
        assert(is_marked(nodes[chain[l]].next));
    }
}

/// Cutting positions out of a chain adds no key, and leaves no logically
/// deleted node if there was none outside what was cut.
pub proof fn lemma_prune_keys(
    chain: Seq<usize>,
    nodes: Map<usize, Node>,
    head: usize,
    tail: usize,
    l: int,
    r: int,
)
    requires
        sorted_between_sentinels(chain, nodes, head, tail),
        0 <= l,
        l + 1 < r < chain.len(),
    ensures
        chain_keys(cut_chain(chain, l, r), with_next(nodes, chain[l], chain[r])).subset_of(
            chain_keys(chain, nodes),
        ),
        (forall|x: int|
            0 <= x < chain.len() && !(l < x < r) ==> !is_marked(nodes[#[trigger] chain[x]].next))
            ==> chain_clean(cut_chain(chain, l, r), with_next(nodes, chain[l], chain[r])),
{
    let after = cut_chain(chain, l, r);
    let d = r - l - 1;
    let relinked = with_next(nodes, chain[l], chain[r]);
    assert(next_at(chain, nodes, r - 1) == chain[r]);
    assert(unmark(chain[r]) == chain[r]);
    assert forall|i: int| 0 <= i < after.len() implies (#[trigger] after[i]) == chain[if i <= l {
        i
    } else {
        i + d
    }] && relinked[after[i]].key == nodes[after[i]].key && (i != l ==> relinked[after[i]]
        == nodes[after[i]]) by {
        let i0 = if i <= l {
            i
        } else {
            i + d
        };
        if i0 < l {
            assert(chain[i0] != chain[l]);
        } else if l < i0 {
            assert(chain[l] != chain[i0]);
        }
    }
    assert forall|k: u64| chain_keys(after, relinked).contains(k) implies chain_keys(
        chain,
        nodes,
    ).contains(k) by {
        let i = choose|i: int| key_at(after, relinked, i, k);
        let i0 = if i <= l {
            i
        } else {
            i + d
        };
        assert(after[i] == chain[i0]);
        assert(key_at(chain, nodes, i0, k));
    }
    if forall|x: int|
        0 <= x < chain.len() && !(l < x < r) ==> !is_marked(nodes[#[trigger] chain[x]].next) {
        assert forall|i: int| 0 <= i < after.len() implies !is_marked(
            relinked[#[trigger] after[i]].next,
        ) by {
            let i0 = if i <= l {
                i
            } else {
                i + d
            };
            assert(after[i] == chain[i0]);
            if i != l {
                assert(!is_marked(nodes[chain[i0]].next));
            }
        }
    }
}

/// Linking a new node into a chain adds the node's key to the keys of the
/// chain and brings in no logically deleted node.
pub proof fn lemma_link_keys(
    chain: Seq<usize>,
    nodes: Map<usize, Node>,
    head: usize,
    tail: usize,
    j: int,
    new: usize,
    key: u64,
)
    requires
        sorted_between_sentinels(chain, nodes, head, tail),
        0 <= j < chain.len() - 1,
        nodes.contains_key(new),
        new % 2 == 0,
        forall|i: int| 0 <= i < chain.len() ==> #[trigger] chain[i] != new,
        nodes[new].key == Some(key),
        nodes[new].next == chain[j + 1],
    ensures
        chain_keys(chain.insert(j + 1, new), with_next(nodes, chain[j], new)) == chain_keys(
            chain,
            nodes,
        ).insert(key),
        chain_clean(chain, nodes) ==> chain_clean(
            chain.insert(j + 1, new),
            with_next(nodes, chain[j], new),
        ),
{
    let after = chain.insert(j + 1, new);
    let linked = with_next(nodes, chain[j], new);
    assert(next_at(chain, nodes, j) == chain[j + 1]);
    assert(unmark(chain[j + 1]) == chain[j + 1]);
    assert(after[j + 1] == new);
    assert(chain[j] != new);
    assert forall|i: int| 0 <= i < after.len() && i != j + 1 implies (#[trigger] after[i])
        == chain[if i <= j {
        i
    } else {
        i - 1
    }] && linked[after[i]].key == nodes[after[i]].key && (i != j ==> linked[after[i]]
        == nodes[after[i]]) by {
        let i0 = if i <= j {
            i
        } else {
            i - 1
        };
        if i0 < j {
            assert(chain[i0] != chain[j]);
        } else if j < i0 {
            assert(chain[j] != chain[i0]);
        }
    }
    assert forall|k: u64| chain_keys(after, linked).contains(k) implies chain_keys(
        chain,
        nodes,
    ).insert(key).contains(k) by {
        let i = choose|i: int| key_at(after, linked, i, k);
        if i != j + 1 {
            let i0 = if i <= j {
                i
            } else {
                i - 1
            };
            assert(after[i] == chain[i0]);
            assert(key_at(chain, nodes, i0, k));
        }
    }
    assert forall|k: u64| chain_keys(chain, nodes).insert(key).contains(k) implies chain_keys(
        after,
        linked,
    ).contains(k) by {
        if k == key {
            assert(key_at(after, linked, j + 1, k));
        } else {
            let i = choose|i: int| key_at(chain, nodes, i, k);
            let i1 = if i <= j {
                i
            } else {
                i + 1
            };
            assert(after[i1] == chain[i]);
            assert(key_at(after, linked, i1, k));
        }
    }
    assert(chain_keys(after, linked) =~= chain_keys(chain, nodes).insert(key));
    if chain_clean(chain, nodes) {
        assert forall|i: int| 0 <= i < after.len() implies !is_marked(
            linked[#[trigger] after[i]].next,
        ) by {
            if i == j + 1 {
            } else if i == j {
                assert(after[i] == chain[j]);
            } else {
                let i0 = if i <= j {
                    i
                } else {
                    i - 1
                };
                assert(after[i] == chain[i0]);
                assert(!is_marked(nodes[chain[i0]].next));
            }
        }
    }
}

/// A chain keeps its keys when every node on it keeps its key, and stays
/// free of logically deleted nodes when every node keeps its link word.
pub proof fn lemma_same_keys(chain: Seq<usize>, nodes: Map<usize, Node>, nodes2: Map<usize, Node>)
    requires
        forall|i: int|
            0 <= i < chain.len() ==> nodes2[#[trigger] chain[i]].key == nodes[chain[i]].key,
    ensures
        chain_keys(chain, nodes2) == chain_keys(chain, nodes),
        (forall|i: int|
            0 <= i < chain.len() ==> nodes2[#[trigger] chain[i]].next == nodes[chain[i]].next)
            ==> chain_clean(chain, nodes2) == chain_clean(chain, nodes),
{
    assert forall|k: u64| chain_keys(chain, nodes2).contains(k) == chain_keys(
        chain,
        nodes,
    ).contains(k) by {
        if chain_keys(chain, nodes2).contains(k) {
            let i = choose|i: int| key_at(chain, nodes2, i, k);
            assert(key_at(chain, nodes, i, k));
        }
        if chain_keys(chain, nodes).contains(k) {
            let i = choose|i: int| key_at(chain, nodes, i, k);
            assert(key_at(chain, nodes2, i, k));
        }
    }
    assert(chain_keys(chain, nodes2) =~= chain_keys(chain, nodes));
    if forall|i: int|
        0 <= i < chain.len() ==> nodes2[#[trigger] chain[i]].next == nodes[chain[i]].next {
        if chain_clean(chain, nodes) {
            assert forall|i: int| 0 <= i < chain.len() implies !is_marked(
                nodes2[#[trigger] chain[i]].next,
            ) by {
                assert(!is_marked(nodes[chain[i]].next));
            }
        }
        if chain_clean(chain, nodes2) {
            assert forall|i: int| 0 <= i < chain.len() implies !is_marked(
                nodes[#[trigger] chain[i]].next,
            ) by {
                assert(!is_marked(nodes2[chain[i]].next));
            }
        }
    }
}

/// What a search for `key` does to a chain: the logically deleted nodes in
/// the gap for the key, and `extra` more nodes from the right end of the gap
/// on, have left the chain and stand at the end of the retired nodes.
pub open spec fn cut_at_gap(
    chain: Seq<usize>,
    chain2: Seq<usize>,
    nodes: Map<usize, Node>,
    key: u64,
    retired: Seq<usize>,
    retired2: Seq<usize>,
    extra: int,
) -> bool {
    exists|l: int, r: int|
        {
            &&& #[trigger] is_gap(chain, nodes, key, l, r)
            &&& r + extra <= chain.len()
            &&& chain2 == cut_chain(chain, l, r + extra)
            &&& retired2 == retired + chain.subrange(l + 1, r + extra)
        }
}

/// What an insertion of an absent `key` does to a chain: the logically
/// deleted nodes in the gap for the key have left the chain and stand at the
/// end of the retired nodes, and the node at `new` stands in the gap.
pub open spec fn linked_at_gap(
    chain: Seq<usize>,
    chain2: Seq<usize>,
    nodes: Map<usize, Node>,
    key: u64,
    retired: Seq<usize>,
    retired2: Seq<usize>,
    new: usize,
) -> bool {
    exists|l: int, r: int|
        {
            &&& #[trigger] is_gap(chain, nodes, key, l, r)
            &&& chain2 == cut_chain(chain, l, r).insert(l + 1, new)
            &&& retired2 == retired + chain.subrange(l + 1, r)
        }
}

} // verus!
