//! The abstract state of an arena: the free list in link order and the live
//! allocations keyed by the offset handed to their owner, with the transitions
//! that `alloc` and `free` make on it.
use vstd::prelude::*;
use vstd::arithmetic::power2::is_pow2;
use crate::layout::{HEADER_SIZE, WORD_SIZE, needed, user_offset, lemma_placement};

verus! {

/// A run of arena bytes `[start, start + size)`.
pub struct Block {
    pub start: nat,
    pub size: nat,
}

/// A live allocation: the whole block it occupies and the byte count requested.
pub struct Grant {
    pub block: Block,
    pub len: nat,
}

/// The arena as its owner sees it.
pub struct HeapModel {
    pub arena_len: nat,
    pub free: Seq<Block>,
    pub live: Map<nat, Grant>,
}

impl Block {
    pub open spec fn end(self) -> nat {
        self.start + self.size
    }

    /// Word-aligned, large enough for a header, inside an arena of `arena_len` bytes.
    pub open spec fn well_placed(self, arena_len: nat) -> bool {
        &&& self.start % (WORD_SIZE as nat) == 0
        &&& self.size >= HEADER_SIZE
        &&& self.end() <= arena_len
    }
}

/// Two runs of bytes share none.
pub open spec fn disjoint(a: Block, b: Block) -> bool {
    a.end() <= b.start || b.end() <= a.start
}

/// A request of `size` bytes aligned to `align` can be served from `b`.
pub open spec fn fits(b: Block, size: nat, align: nat) -> bool {
    needed(b.start, size, align) <= b.size
}

/// `i` is the first block of the free list that can serve the request.
pub open spec fn is_first_fit(free: Seq<Block>, i: int, size: nat, align: nat) -> bool {
    &&& 0 <= i < free.len()
    &&& fits(free[i], size, align)
    &&& forall|j: int| 0 <= j < i ==> !fits(#[trigger] free[j], size, align)
}

/// Total bytes of a list of blocks.
pub open spec fn total_size(blocks: Seq<Block>) -> nat
    decreases blocks.len(),
{
    if blocks.len() == 0 {
        0
    } else {
        blocks.last().size + total_size(blocks.drop_last())
    }
}

impl Grant {
    /// The user range `[p, p + len)` lies in the block, behind its header.
    pub open spec fn well_placed(self, p: nat, arena_len: nat) -> bool {
        &&& self.block.well_placed(arena_len)
        &&& p % (WORD_SIZE as nat) == 0
        &&& self.block.start + HEADER_SIZE <= p
        &&& p + self.len <= self.block.end()
    }
}

impl HeapModel {
    /// A fresh arena: one free block spanning all of it.
    pub open spec fn initial(arena_len: nat) -> HeapModel {
        HeapModel {
            arena_len,
            free: seq![Block { start: 0, size: arena_len }],
            live: Map::empty(),
        }
    }

    /// Every block is well placed and no two blocks, free or live, overlap.
    pub open spec fn valid(self) -> bool {
        &&& forall|i: int| 0 <= i < self.free.len() ==> (#[trigger] self.free[i]).well_placed(self.arena_len)
        &&& forall|p: nat| self.live.contains_key(p) ==> (#[trigger] self.live[p]).well_placed(p, self.arena_len)
        &&& forall|i: int, j: int|
            0 <= i < self.free.len() && 0 <= j < self.free.len() && i != j
                ==> disjoint(#[trigger] self.free[i], #[trigger] self.free[j])
        &&& forall|i: int, p: nat|
            0 <= i < self.free.len() && self.live.contains_key(p)
                ==> disjoint(#[trigger] self.free[i], #[trigger] self.live[p].block)
        &&& forall|p: nat, q: nat|
            self.live.contains_key(p) && self.live.contains_key(q) && p != q
                ==> disjoint(#[trigger] self.live[p].block, #[trigger] self.live[q].block)
    }

    /// Serve a request from free block `i`. The block is split when what is
    /// left over can hold a header and more; otherwise it is handed out whole.
    pub open spec fn take(self, i: int, size: nat, align: nat) -> (HeapModel, nat) {
        let b = self.free[i];
        let need = needed(b.start, size, align);
        let p = user_offset(b.start, align);
        if b.size - need <= HEADER_SIZE {
            (
                HeapModel {
                    arena_len: self.arena_len,
                    free: self.free.remove(i),
                    live: self.live.insert(p, Grant { block: b, len: size }),
                },
                p,
            )
        } else {
            (
                HeapModel {
                    arena_len: self.arena_len,
                    free: self.free.update(i, Block { start: b.start + need, size: (b.size - need) as nat }),
                    live: self.live.insert(p, Grant { block: Block { start: b.start, size: need }, len: size }),
                },
                p,
            )
        }
    }

    /// First-fit allocation: the new state and the user offset, or `None` when
    /// no free block can serve the request.
    pub open spec fn allocate(self, size: nat, align: nat) -> Option<(HeapModel, nat)> {
        if exists|i: int| is_first_fit(self.free, i, size, align) {
            let i = choose|i: int| is_first_fit(self.free, i, size, align);
            Some(self.take(i, size, align))
        } else {
            None
        }
    }

    /// Return the block of the allocation at `p` to the head of the free list.
    pub open spec fn free_at(self, p: nat) -> HeapModel {
        HeapModel {
            arena_len: self.arena_len,
            free: seq![self.live[p].block] + self.free,
            live: self.live.remove(p),
        }
    }
}

/// At most one index is the first fit.
pub proof fn lemma_first_fit_unique(free: Seq<Block>, i: int, j: int, size: nat, align: nat)
    requires
        is_first_fit(free, i, size, align),
        is_first_fit(free, j, size, align),
    ensures
        i == j,
{
    if i < j {
        assert(!fits(free[i], size, align));
    } else if j < i {
        assert(!fits(free[j], size, align));
    }
}

/// The first fit, once found, is what `allocate` takes.
pub proof fn lemma_alloc_takes_first_fit(m: HeapModel, i: int, size: nat, align: nat)
    requires
        is_first_fit(m.free, i, size, align),
    ensures
        m.allocate(size, align) == Some(m.take(i, size, align)),
{
    let k = choose|k: int| is_first_fit(m.free, k, size, align);
    lemma_first_fit_unique(m.free, i, k, size, align);
}

/// When no free block fits, `allocate` has nothing to give.
pub proof fn lemma_alloc_none(m: HeapModel, size: nat, align: nat)
    requires
        forall|j: int| 0 <= j < m.free.len() ==> !fits(#[trigger] m.free[j], size, align),
    ensures
        m.allocate(size, align) is None,
{
}

/// The new free block and the granted block of a split both lie inside the old block.
proof fn lemma_inside_disjoint(inner: Block, outer: Block, other: Block)
    requires
        outer.start <= inner.start,
        inner.end() <= outer.end(),
        disjoint(outer, other),
    ensures
        disjoint(inner, other),
        disjoint(other, inner),
{
}

/// Serving a request from a fitting free block keeps the state valid, and the
/// offset handed out is aligned, in the arena, and not already live.
pub proof fn lemma_take_valid(m: HeapModel, i: int, size: nat, align: nat)
    requires
        m.valid(),
        is_pow2(align as int),
        0 <= i < m.free.len(),
        fits(m.free[i], size, align),
    ensures
        m.take(i, size, align).0.valid(),
        m.take(i, size, align).0.arena_len == m.arena_len,
        !m.live.contains_key(m.take(i, size, align).1),
        m.take(i, size, align).1 % align == 0,
        m.take(i, size, align).1 + size <= m.arena_len,
{
    let b = m.free[i];
    let need = needed(b.start, size, align);
    let p = user_offset(b.start, align);
    lemma_placement(b.start, size, align);
    let (m2, q) = m.take(i, size, align);
    assert(q == p);
    // p lies in b, so no live block holds it
    if m.live.contains_key(p) {
        let g = m.live[p];
        assert(disjoint(m.free[i], g.block));
        assert(false);
    }
    if b.size - need <= HEADER_SIZE {
        let g = Grant { block: b, len: size };
        assert(m2.free == m.free.remove(i));
        m.free.remove_ensures(i);
        assert(g.well_placed(p, m.arena_len));
        assert forall|x: int| 0 <= x < m2.free.len() implies (#[trigger] m2.free[x]).well_placed(m2.arena_len) by {
            if x < i {
                assert(m2.free[x] == m.free[x]);
            } else {
                assert(m2.free[x] == m.free[x + 1]);
            }
        }
        assert forall|x: int, y: int|
            0 <= x < m2.free.len() && 0 <= y < m2.free.len() && x != y
                implies disjoint(#[trigger] m2.free[x], #[trigger] m2.free[y]) by {
            let x1 = if x < i { x } else { x + 1 };
            let y1 = if y < i { y } else { y + 1 };
            assert(m2.free[x] == m.free[x1]);
            assert(m2.free[y] == m.free[y1]);
        }
        assert forall|x: int, r: nat|
            0 <= x < m2.free.len() && m2.live.contains_key(r)
                implies disjoint(#[trigger] m2.free[x], #[trigger] m2.live[r].block) by {
            let x1 = if x < i { x } else { x + 1 };
            assert(m2.free[x] == m.free[x1]);
            if r != p {
                assert(m2.live[r] == m.live[r]);
            } else {
                assert(disjoint(m.free[x1], m.free[i]));
            }
        }
        assert forall|r: nat, s: nat|
            m2.live.contains_key(r) && m2.live.contains_key(s) && r != s
                implies disjoint(#[trigger] m2.live[r].block, #[trigger] m2.live[s].block) by {
            if r == p {
                assert(disjoint(m.free[i], m.live[s].block));
            } else if s == p {
                assert(disjoint(m.free[i], m.live[r].block));
            }
        }
        assert forall|r: nat| m2.live.contains_key(r) implies (#[trigger] m2.live[r]).well_placed(r, m2.arena_len) by {
            if r != p {
                assert(m2.live[r] == m.live[r]);
            }
        }
    } else {
        let nb = Block { start: b.start + need, size: (b.size - need) as nat };
        let gb = Block { start: b.start, size: need };
        let g = Grant { block: gb, len: size };
        assert(m2.free == m.free.update(i, nb));
        assert(nb.well_placed(m.arena_len));
        assert(g.well_placed(p, m.arena_len));
        assert forall|x: int| 0 <= x < m2.free.len() implies (#[trigger] m2.free[x]).well_placed(m2.arena_len) by {
            if x != i {
                assert(m2.free[x] == m.free[x]);
            }
        }
        assert forall|x: int, y: int|
            0 <= x < m2.free.len() && 0 <= y < m2.free.len() && x != y
                implies disjoint(#[trigger] m2.free[x], #[trigger] m2.free[y]) by {
            if x == i {
                assert(disjoint(m.free[i], m.free[y]));
                lemma_inside_disjoint(nb, b, m.free[y]);
            } else if y == i {
                assert(disjoint(m.free[i], m.free[x]));
                lemma_inside_disjoint(nb, b, m.free[x]);
            }
        }
        assert forall|x: int, r: nat|
            0 <= x < m2.free.len() && m2.live.contains_key(r)
                implies disjoint(#[trigger] m2.free[x], #[trigger] m2.live[r].block) by {
            if r != p {
                assert(m2.live[r] == m.live[r]);
                if x == i {
                    assert(disjoint(m.free[i], m.live[r].block));
                    lemma_inside_disjoint(nb, b, m.live[r].block);
                }
            } else {
                if x != i {
                    assert(disjoint(m.free[x], m.free[i]));
                    lemma_inside_disjoint(gb, b, m.free[x]);
                }
            }
        }
        assert forall|r: nat, s: nat|
            m2.live.contains_key(r) && m2.live.contains_key(s) && r != s
                implies disjoint(#[trigger] m2.live[r].block, #[trigger] m2.live[s].block) by {
            if r == p {
                assert(disjoint(m.free[i], m.live[s].block));
                lemma_inside_disjoint(gb, b, m.live[s].block);
            } else if s == p {
                assert(disjoint(m.free[i], m.live[r].block));
                lemma_inside_disjoint(gb, b, m.live[r].block);
            }
        }
        assert forall|r: nat| m2.live.contains_key(r) implies (#[trigger] m2.live[r]).well_placed(r, m2.arena_len) by {
            if r != p {
                assert(m2.live[r] == m.live[r]);
            }
        }
    }
}

/// Returning a live allocation to the free list keeps the state valid.
pub proof fn lemma_free_valid(m: HeapModel, p: nat)
    requires
        m.valid(),
        m.live.contains_key(p),
    ensures
        m.free_at(p).valid(),
        m.free_at(p).arena_len == m.arena_len,
{
    let m2 = m.free_at(p);
    let g = m.live[p];
    assert forall|x: int| 0 <= x < m2.free.len() implies (#[trigger] m2.free[x]).well_placed(m2.arena_len) by {
        if x > 0 {
            assert(m2.free[x] == m.free[x - 1]);
        }
    }
    assert forall|x: int, y: int|
        0 <= x < m2.free.len() && 0 <= y < m2.free.len() && x != y
            implies disjoint(#[trigger] m2.free[x], #[trigger] m2.free[y]) by {
        if x == 0 {
            assert(m2.free[y] == m.free[y - 1]);
            assert(disjoint(m.free[y - 1], g.block));
        } else if y == 0 {
            assert(m2.free[x] == m.free[x - 1]);
            assert(disjoint(m.free[x - 1], g.block));
        } else {
            assert(m2.free[x] == m.free[x - 1]);
            assert(m2.free[y] == m.free[y - 1]);
        }
    }
    assert forall|x: int, r: nat|
        0 <= x < m2.free.len() && m2.live.contains_key(r)
            implies disjoint(#[trigger] m2.free[x], #[trigger] m2.live[r].block) by {
        assert(m2.live[r] == m.live[r]);
        if x == 0 {
            assert(disjoint(m.live[p].block, m.live[r].block));
        } else {
            assert(m2.free[x] == m.free[x - 1]);
        }
    }
}

/// A block of a list is no larger than the list's total.
proof fn lemma_block_le_total(blocks: Seq<Block>, i: int)
    requires
        0 <= i < blocks.len(),
    ensures
        blocks[i].size <= total_size(blocks),
    decreases blocks.len(),
{
    if i < blocks.len() - 1 {
        lemma_block_le_total(blocks.drop_last(), i);
    }
}

/// Whatever `allocate` hands out is a multiple of the requested alignment,
/// ends inside the arena, and leaves a valid state.
pub proof fn lemma_alloc_aligned(m: HeapModel, size: nat, align: nat)
    requires
        m.valid(),
        is_pow2(align as int),
    ensures
        m.allocate(size, align) matches Some((m2, p)) ==> {
            &&& p % align == 0
            &&& p + size <= m.arena_len
            &&& m2.valid()
        },
{
    if exists|i: int| is_first_fit(m.free, i, size, align) {
        let i = choose|i: int| is_first_fit(m.free, i, size, align);
        lemma_take_valid(m, i, size, align);
    }
}

/// A request that some free block can serve succeeds, at an offset aligned
/// as requested, inside the arena.
pub proof fn lemma_alloc_when_some_block_fits(m: HeapModel, i: int, size: nat, align: nat)
    requires
        m.valid(),
        is_pow2(align as int),
        0 <= i < m.free.len(),
        fits(m.free[i], size, align),
    ensures
        m.allocate(size, align) matches Some((m2, p)) && p % align == 0 && p + size <= m.arena_len
            && m2.valid(),
{
    let k = first_fit_below(m.free, i, size, align);
    lemma_alloc_takes_first_fit(m, k, size, align);
    lemma_take_valid(m, k, size, align);
}

/// The first block up to `i` that fits, when block `i` does.
proof fn first_fit_below(free: Seq<Block>, i: int, size: nat, align: nat) -> (k: int)
    requires
        0 <= i < free.len(),
        fits(free[i], size, align),
    ensures
        is_first_fit(free, k, size, align),
    decreases i,
{
    if forall|j: int| 0 <= j < i ==> !fits(#[trigger] free[j], size, align) {
        i
    } else {
        let j = choose|j: int| 0 <= j < i && fits(#[trigger] free[j], size, align);
        first_fit_below(free, j, size, align)
    }
}

/// Once an allocation is freed, any request that its block could serve
/// succeeds, at an offset aligned as requested.
pub proof fn lemma_alloc_after_free(m: HeapModel, p: nat, size: nat, align: nat)
    requires
        m.valid(),
        m.live.contains_key(p),
        is_pow2(align as int),
        fits(m.live[p].block, size, align),
    ensures
        m.free_at(p).allocate(size, align) matches Some((m2, q)) && q % align == 0 && m2.valid(),
{
    let m1 = m.free_at(p);
    lemma_free_valid(m, p);
    assert(is_first_fit(m1.free, 0, size, align));
    lemma_alloc_takes_first_fit(m1, 0, size, align);
    lemma_take_valid(m1, 0, size, align);
}

/// Freed blocks are reused last-in, first-out: after freeing `a` and then `b`,
/// a request that `b`'s block can serve is served from that block.
pub proof fn lemma_free_list_lifo(m: HeapModel, a: nat, b: nat, size: nat, align: nat)
    requires
        m.valid(),
        m.live.contains_key(a),
        m.live.contains_key(b),
        a != b,
        is_pow2(align as int),
        fits(m.live[b].block, size, align),
    ensures
        m.free_at(a).free_at(b).allocate(size, align) matches Some((m2, q)) && q == user_offset(
            m.live[b].block.start,
            align,
        ) && m2.live[q].block.start == m.live[b].block.start,
{
    let m1 = m.free_at(a);
    lemma_free_valid(m, a);
    assert(m1.live[b] == m.live[b]);
    let m2 = m1.free_at(b);
    lemma_free_valid(m1, b);
    assert(m2.free[0] == m.live[b].block);
    assert(is_first_fit(m2.free, 0, size, align));
    lemma_alloc_takes_first_fit(m2, 0, size, align);
}

/// The user ranges of two live allocations share no byte.
pub proof fn lemma_no_overlap(m: HeapModel, p: nat, q: nat)
    requires
        m.valid(),
        m.live.contains_key(p),
        m.live.contains_key(q),
        p != q,
    ensures
        p + m.live[p].len <= q || q + m.live[q].len <= p,
{
    assert(disjoint(m.live[p].block, m.live[q].block));
    assert(m.live[p].well_placed(p, m.arena_len));
    assert(m.live[q].well_placed(q, m.arena_len));
}

/// A request whose data and header together exceed all the free bytes fails.
pub proof fn lemma_exhaustion(m: HeapModel, size: nat, align: nat)
    requires
        size + HEADER_SIZE > total_size(m.free),
    ensures
        m.allocate(size, align) is None,
{
    assert forall|j: int| 0 <= j < m.free.len() implies !fits(#[trigger] m.free[j], size, align) by {
        lemma_block_le_total(m.free, j);
    }
}

/// Replacing one block of a list changes the total by the difference in size.
proof fn lemma_total_update(blocks: Seq<Block>, i: int, b: Block)
    requires
        0 <= i < blocks.len(),
    ensures
        total_size(blocks.update(i, b)) + blocks[i].size == total_size(blocks) + b.size,
    decreases blocks.len(),
{
    let u = blocks.update(i, b);
    if i == blocks.len() - 1 {
        assert(u.drop_last() =~= blocks.drop_last());
    } else {
        assert(u.drop_last() =~= blocks.drop_last().update(i, b));
        lemma_total_update(blocks.drop_last(), i, b);
    }
}

/// Removing one block of a list lowers the total by its size.
proof fn lemma_total_remove(blocks: Seq<Block>, i: int)
    requires
        0 <= i < blocks.len(),
    ensures
        total_size(blocks.remove(i)) + blocks[i].size == total_size(blocks),
    decreases blocks.len(),
{
    let r = blocks.remove(i);
    if i == blocks.len() - 1 {
        assert(r =~= blocks.drop_last());
    } else {
        assert(r.drop_last() =~= blocks.drop_last().remove(i));
        lemma_total_remove(blocks.drop_last(), i);
    }
}

/// A block put in front of a list adds its size to the total.
proof fn lemma_total_prepend(b: Block, blocks: Seq<Block>)
    ensures
        total_size(seq![b] + blocks) == b.size + total_size(blocks),
    decreases blocks.len(),
{
    let c = seq![b] + blocks;
    if blocks.len() == 0 {
        assert(c.drop_last() =~= Seq::<Block>::empty());
        assert(total_size(c.drop_last()) == 0);
        assert(total_size(blocks) == 0);
    } else {
        assert(c.drop_last() =~= seq![b] + blocks.drop_last());
        assert(c.last() == blocks.last());
        lemma_total_prepend(b, blocks.drop_last());
    }
}

/// An allocation takes its whole block, header and padding included, out of
/// the free bytes.
pub proof fn lemma_alloc_consumes_free_bytes(m: HeapModel, size: nat, align: nat)
    requires
        m.valid(),
        is_pow2(align as int),
    ensures
        m.allocate(size, align) matches Some((m2, p)) ==> {
            &&& total_size(m2.free) + m2.live[p].block.size == total_size(m.free)
            &&& m2.live[p].block.size >= size + HEADER_SIZE
        },
{
    if exists|i: int| is_first_fit(m.free, i, size, align) {
        let i = choose|i: int| is_first_fit(m.free, i, size, align);
        let b = m.free[i];
        let need = needed(b.start, size, align);
        lemma_placement(b.start, size, align);
        if b.size - need <= HEADER_SIZE {
            lemma_total_remove(m.free, i);
        } else {
            lemma_total_update(m.free, i, Block { start: b.start + need, size: (b.size - need) as nat });
        }
    }
}

/// Freeing an allocation gives its whole block back to the free bytes.
pub proof fn lemma_free_returns_bytes(m: HeapModel, p: nat)
    requires
        m.live.contains_key(p),
    ensures
        total_size(m.free_at(p).free) == total_size(m.free) + m.live[p].block.size,
{
    lemma_total_prepend(m.live[p].block, m.free);
}

/// A fresh arena's free bytes are the whole arena.
pub proof fn lemma_initial_free_bytes(arena_len: nat)
    ensures
        total_size(HeapModel::initial(arena_len).free) == arena_len,
        arena_len >= HEADER_SIZE ==> HeapModel::initial(arena_len).valid(),
{
    let f = HeapModel::initial(arena_len).free;
    assert(f.drop_last() =~= Seq::<Block>::empty());
    assert(total_size(f.drop_last()) == 0);
}

/// The block of a non-empty list that starts last.
proof fn last_starting(blocks: Seq<Block>) -> (k: int)
    requires
        blocks.len() > 0,
    ensures
        0 <= k < blocks.len(),
        forall|j: int| 0 <= j < blocks.len() ==> (#[trigger] blocks[j]).start <= blocks[k].start,
    decreases blocks.len(),
{
    if blocks.len() == 1 {
        0
    } else {
        let k0 = last_starting(blocks.drop_last());
        assert forall|j: int| 0 <= j < blocks.len() - 1 implies (#[trigger] blocks[j]).start
            <= blocks[k0].start by {
            assert(blocks[j] == blocks.drop_last()[j]);
        }
        if blocks.last().start > blocks[k0].start {
            blocks.len() - 1
        } else {
            k0
        }
    }
}

/// Pairwise disjoint blocks of at least a header's size, all ending by `limit`,
/// add up to at most `limit` bytes.
proof fn lemma_disjoint_total(blocks: Seq<Block>, limit: nat)
    requires
        forall|i: int| 0 <= i < blocks.len() ==> (#[trigger] blocks[i]).end() <= limit,
        forall|i: int| 0 <= i < blocks.len() ==> (#[trigger] blocks[i]).size >= HEADER_SIZE,
        forall|i: int, j: int|
            0 <= i < blocks.len() && 0 <= j < blocks.len() && i != j ==> disjoint(
                #[trigger] blocks[i],
                #[trigger] blocks[j],
            ),
    ensures
        total_size(blocks) <= limit,
    decreases blocks.len(),
{
    if blocks.len() == 0 {
    } else {
        let k = last_starting(blocks);
        let b = blocks[k];
        let rest = blocks.remove(k);
        blocks.remove_ensures(k);
        assert forall|i: int| 0 <= i < rest.len() implies (#[trigger] rest[i]).end() <= b.start by {
            let i1 = if i < k { i } else { i + 1 };
            assert(rest[i] == blocks[i1]);
            assert(disjoint(blocks[i1], b));
            assert(blocks[i1].start <= b.start);
        }
        assert forall|i: int, j: int|
            0 <= i < rest.len() && 0 <= j < rest.len() && i != j implies disjoint(
                #[trigger] rest[i],
                #[trigger] rest[j],
            ) by {
            let i1 = if i < k { i } else { i + 1 };
            let j1 = if j < k { j } else { j + 1 };
            assert(rest[i] == blocks[i1]);
            assert(rest[j] == blocks[j1]);
        }
        assert forall|i: int| 0 <= i < rest.len() implies (#[trigger] rest[i]).size >= HEADER_SIZE by {
            let i1 = if i < k { i } else { i + 1 };
            assert(rest[i] == blocks[i1]);
        }
        lemma_disjoint_total(rest, b.start);
        lemma_total_remove(blocks, k);
    }
}

/// The free bytes of a valid state never exceed the arena.
pub proof fn lemma_free_bytes_within_arena(m: HeapModel)
    requires
        m.valid(),
    ensures
        total_size(m.free) <= m.arena_len,
{
    lemma_disjoint_total(m.free, m.arena_len);
}

/// A prefix of a list has no more bytes than the list.
pub proof fn lemma_total_prefix(blocks: Seq<Block>, k: int)
    requires
        0 <= k <= blocks.len(),
    ensures
        total_size(blocks.take(k)) <= total_size(blocks),
    decreases blocks.len(),
{
    if k < blocks.len() {
        assert(blocks.drop_last().take(k) =~= blocks.take(k));
        lemma_total_prefix(blocks.drop_last(), k);
    } else {
        assert(blocks.take(k) =~= blocks);
    }
}

/// A request whose data and header together exceed the arena fails, whatever
/// has been allocated and freed before.
pub proof fn lemma_request_beyond_arena_fails(m: HeapModel, size: nat, align: nat)
    requires
        m.valid(),
        size + HEADER_SIZE > m.arena_len,
    ensures
        m.allocate(size, align) is None,
{
    lemma_free_bytes_within_arena(m);
    lemma_exhaustion(m, size, align);
}

} // verus!
