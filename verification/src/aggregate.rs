//! Putting finished chunks together: by chunk index, whatever the order
//! in which they came in.

use vstd::prelude::*;
use crate::chunk::Chunk;

verus! {

/// Whether the chunk at position `p` goes before the chunk at position `q`:
/// the smaller index first, and of two chunks with one index the one that
/// came in first.
pub open spec fn precedes(chunks: Seq<Chunk>, p: int, q: int) -> bool {
    chunks[p].index < chunks[q].index || (chunks[p].index == chunks[q].index && p < q)
}

/// Whether `order` arranges the first `n` positions of `chunks` so that
/// each occurs and each goes before all that follow it.
pub open spec fn arranges(chunks: Seq<Chunk>, n: int, order: Seq<int>) -> bool {
    &&& order.len() == n
    &&& forall|i: int| 0 <= i < n ==> 0 <= #[trigger] order[i] < n
    &&& forall|p: int| 0 <= p < n ==> #[trigger] order.contains(p)
    &&& forall|i: int, j: int|
        0 <= i < j < n ==> precedes(chunks, #[trigger] order[i], #[trigger] order[j])
}

/// The positions of `chunks` in ascending order of chunk index.
pub open spec fn index_order(chunks: Seq<Chunk>) -> Seq<int> {
    choose|order: Seq<int>| arranges(chunks, chunks.len() as int, order)
}

/// The buffers of the chunks at the positions that `order` lists, one
/// behind the other.
pub open spec fn buffers_in_order(chunks: Seq<Chunk>, order: Seq<int>) -> Seq<u8>
    decreases order.len(),
{
    if order.len() == 0 {
        Seq::empty()
    } else {
        buffers_in_order(chunks, order.drop_last()) + chunks[order.last()].buffer@
    }
}

/// The buffers of `chunks`, one behind the other in ascending order of
/// chunk index.
pub open spec fn merged(chunks: Seq<Chunk>) -> Seq<u8> {
    buffers_in_order(chunks, index_order(chunks))
}

/// The positions that a vector of positions holds.
spec fn positions(order: Seq<usize>) -> Seq<int> {
    order.map_values(|p: usize| p as int)
}

/// Two arrangements agree in their first `k` places.
proof fn lemma_agree_below(chunks: Seq<Chunk>, n: int, a: Seq<int>, b: Seq<int>, k: int)
    requires
        arranges(chunks, n, a),
        arranges(chunks, n, b),
        0 <= k <= n,
    ensures
        forall|i: int| 0 <= i < k ==> a[i] == b[i],
    decreases k,
{
    if k > 0 {
        lemma_agree_below(chunks, n, a, b, k - 1);
        let i = k - 1;
        let p = a[i];
        let q = b[i];
        assert(b.contains(p));
        let at_b = choose|m: int| 0 <= m < b.len() && b[m] == p;
        assert(a.contains(q));
        let at_a = choose|m: int| 0 <= m < a.len() && a[m] == q;
        if at_b < i {
            assert(precedes(chunks, a[at_b], a[i]));
        }
        if at_a < i {
            assert(precedes(chunks, b[at_a], b[i]));
        }
        if at_b > i {
            assert(precedes(chunks, b[i], b[at_b]));
            if at_a > i {
                assert(precedes(chunks, a[i], a[at_a]));
            }
        }
    }
}

/// Only one arrangement puts the chunks in ascending order of index.
pub proof fn lemma_arrangement_unique(chunks: Seq<Chunk>, n: int, a: Seq<int>, b: Seq<int>)
    requires
        arranges(chunks, n, a),
        arranges(chunks, n, b),
    ensures
        a == b,
{
    lemma_agree_below(chunks, n, a, b, n);
    assert(a =~= b);
}

/// Putting the next position in at its insertion point gives an
/// arrangement of one position more.
proof fn lemma_insert_keeps_order(chunks: Seq<Chunk>, order: Seq<int>, at: int)
    requires
        order.len() < chunks.len(),
        arranges(chunks, order.len() as int, order),
        0 <= at <= order.len(),
        forall|i: int|
            at <= i < order.len() ==> chunks[#[trigger] order[i]].index
                > chunks[order.len() as int].index,
        at > 0 ==> chunks[order[at - 1]].index <= chunks[order.len() as int].index,
    ensures
        arranges(chunks, order.len() as int + 1, order.insert(at, order.len() as int)),
{
    let n = order.len() as int;
    let next = order.insert(at, n);
    assert forall|p: int| 0 <= p < n + 1 implies #[trigger] next.contains(p) by {
        if p == n {
            assert(next[at] == p);
        } else {
            assert(order.contains(p));
            let m = choose|m: int| 0 <= m < order.len() && order[m] == p;
            if m < at {
                assert(next[m] == p);
            } else {
                assert(next[m + 1] == p);
            }
        }
    }
    assert forall|i: int, j: int| 0 <= i < j < n + 1 implies precedes(
        chunks,
        #[trigger] next[i],
        #[trigger] next[j],
    ) by {
        if j < at {
            assert(precedes(chunks, order[i], order[j]));
        } else if j == at {
            if i < at - 1 {
                assert(precedes(chunks, order[i], order[at - 1]));
            }
            assert(order[i] < n);
        } else if i < at {
            assert(precedes(chunks, order[i], order[j - 1]));
        } else if i == at {
            assert(chunks[order[j - 1]].index > chunks[n].index);
        } else {
            assert(precedes(chunks, order[i - 1], order[j - 1]));
        }
    }
}

/// Where the next position goes in: behind the last chunk whose index is
/// not larger.
proof fn insertion_point(chunks: Seq<Chunk>, order: Seq<int>, from: int) -> (at: int)
    requires
        order.len() < chunks.len(),
        0 <= from <= order.len(),
        forall|i: int|
            from <= i < order.len() ==> chunks[#[trigger] order[i]].index
                > chunks[order.len() as int].index,
    ensures
        0 <= at <= from,
        forall|i: int|
            at <= i < order.len() ==> chunks[#[trigger] order[i]].index
                > chunks[order.len() as int].index,
        at > 0 ==> chunks[order[at - 1]].index <= chunks[order.len() as int].index,
    decreases from,
{
    if from > 0 && chunks[order[from - 1]].index > chunks[order.len() as int].index {
        insertion_point(chunks, order, from - 1)
    } else {
        from
    }
}

/// An arrangement of the first `n` positions, built by insertion.
proof fn arrangement_of_first(chunks: Seq<Chunk>, n: int) -> (order: Seq<int>)
    requires
        0 <= n <= chunks.len(),
    ensures
        arranges(chunks, n, order),
    decreases n,
{
    if n == 0 {
        Seq::empty()
    } else {
        let before = arrangement_of_first(chunks, n - 1);
        let at = insertion_point(chunks, before, n - 1);
        lemma_insert_keeps_order(chunks, before, at);
        before.insert(at, n - 1)
    }
}

/// Every sequence of chunks can be put in ascending order of index, so
/// `index_order` is that arrangement.
pub proof fn lemma_index_order_arranges(chunks: Seq<Chunk>)
    ensures
        arranges(chunks, chunks.len() as int, index_order(chunks)),
{
    let order = arrangement_of_first(chunks, chunks.len() as int);
    assert(arranges(chunks, chunks.len() as int, order));
}

/// Finds the positions of `chunks` in ascending order of chunk index.
fn sort_positions(chunks: &Vec<Chunk>) -> (order: Vec<usize>)
    ensures
        positions(order@) == index_order(chunks@),
{
    let n: usize = chunks.len();
    let mut order: Vec<usize> = Vec::new();
    let mut k: usize = 0;
    while k < n
        invariant
            n == chunks@.len(),
            k <= n,
            arranges(chunks@, k as int, positions(order@)),
            forall|i: int| 0 <= i < order@.len() ==> #[trigger] order@[i] < k,
        decreases n - k,
    {
        let mut at: usize = k;
        while at > 0 && chunks[order[at - 1]].index > chunks[k].index
            invariant
                n == chunks@.len(),
                k < n,
                at <= k,
                arranges(chunks@, k as int, positions(order@)),
                forall|i: int| 0 <= i < order@.len() ==> #[trigger] order@[i] < k,
                forall|i: int|
                    at <= i < k ==> chunks@[#[trigger] positions(order@)[i]].index
                        > chunks@[k as int].index,
            decreases at,
        {
            at -= 1;
        }
        proof {
            lemma_insert_keeps_order(chunks@, positions(order@), at as int);
            assert(positions(order@.insert(at as int, k)) =~= positions(order@).insert(
                at as int,
                k as int,
            ));
        }
        order.insert(at, k);
        k += 1;
    }
    proof {
        lemma_index_order_arranges(chunks@);
        lemma_arrangement_unique(chunks@, n as int, positions(order@), index_order(chunks@));
    }
    order
}

/// Sorts the chunks by index and puts their buffers one behind the other.
pub fn assemble(chunks: Vec<Chunk>) -> (pixels: Vec<u8>)
    ensures
        pixels@ == merged(chunks@),
{
    let order = sort_positions(&chunks);
    let mut pixels: Vec<u8> = Vec::new();
    let mut i: usize = 0;
    proof {
        lemma_index_order_arranges(chunks@);
    }
    while i < order.len()
        invariant
            i <= order@.len(),
            positions(order@) == index_order(chunks@),
            arranges(chunks@, chunks@.len() as int, index_order(chunks@)),
            pixels@ == buffers_in_order(chunks@, index_order(chunks@).take(i as int)),
        decreases order@.len() - i,
    {
        let ghost before = index_order(chunks@).take(i as int);
        let ghost after = index_order(chunks@).take(i + 1);
        assert(positions(order@)[i as int] == order@[i as int]);
        assert(after.drop_last() == before);
        let chunk = &chunks[order[i]];
        pixels.extend_from_slice(chunk.buffer.as_slice());
        assert(pixels@ == buffers_in_order(chunks@, before) + chunk.buffer@);
        i += 1;
    }
    assert(index_order(chunks@).take(i as int) == index_order(chunks@));
    pixels
}

} // verus!
