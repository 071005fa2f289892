//! The allocator. The arena is held as machine words; offsets handed out are
//! byte offsets from the arena start. Every header lives in the arena: a free
//! block starts with its size and the offset of the next free block, an
//! allocated block has its size and its own start offset right before the
//! user data.
use vstd::prelude::*;
use vstd::arithmetic::power2::is_pow2;
use crate::layout::{
    HEADER_SIZE,
    WORD_SIZE,
    effective_align,
    end_pad,
    front_pad,
    needed,
    user_offset,
    lemma_effective_align,
    lemma_placement,
};
use crate::heap::{
    Block,
    total_size,
    disjoint,
    HeapModel,
    fits,
    is_first_fit,
    lemma_alloc_none,
    lemma_alloc_takes_first_fit,
    lemma_free_valid,
    lemma_free_bytes_within_arena,
    lemma_take_valid,
    lemma_total_prefix,
};

verus! {

/// The link word of the last free block.
pub const NO_NEXT: u64 = 0xffff_ffff_ffff_ffff;

/// Why an allocator could not be built or a request could not be served.
#[derive(Debug, Clone, Copy, PartialEq, Eq, Structural)]
pub enum AllocError {
    /// The arena cannot hold even one block header.
    ArenaTooSmall,
    /// No free block is large enough for the request.
    OutOfMemory,
}

/// The free list as a diagnostic walk finds it.
pub struct FreeReport {
    /// Size in bytes of each free run, in list order.
    pub runs: Vec<usize>,
    /// Sum of the run sizes.
    pub total: usize,
}

/// A first-fit, free-list allocator over a fixed arena.
pub struct Manager {
    words: Vec<u64>,
    arena_len: usize,
    head: Option<usize>,
    model: Ghost<HeapModel>,
}

/// Index of the arena word holding byte offset `o`.
pub open spec fn word_index(o: nat) -> int {
    o as int / WORD_SIZE as int
}

/// What the link word of free block `i` holds.
pub open spec fn link_word(free: Seq<Block>, i: int) -> u64 {
    if i + 1 < free.len() {
        free[i + 1].start as u64
    } else {
        NO_NEXT
    }
}

/// The header of free block `i` is in the arena words.
pub open spec fn free_header_ok(words: Seq<u64>, free: Seq<Block>, i: int) -> bool {
    &&& words[word_index(free[i].start)] == free[i].size
    &&& words[word_index(free[i].start) + 1] == link_word(free, i)
}

/// The header of the allocation at `p` is in the arena words.
pub open spec fn live_header_ok(words: Seq<u64>, m: HeapModel, p: nat) -> bool {
    &&& words[word_index(p) - 2] == m.live[p].block.size
    &&& words[word_index(p) - 1] == m.live[p].block.start
}

/// Every header of the abstract state is in the arena words.
pub open spec fn headers_ok(words: Seq<u64>, m: HeapModel) -> bool {
    &&& forall|i: int| 0 <= i < m.free.len() ==> #[trigger] free_header_ok(words, m.free, i)
    &&& forall|p: nat| m.live.contains_key(p) ==> #[trigger] live_header_ok(words, m, p)
}

/// The link word of the block before free block `i` now holds `target`.
pub open spec fn relink(words: Seq<u64>, free: Seq<Block>, i: int, target: u64) -> Seq<u64> {
    if i == 0 {
        words
    } else {
        words.update(word_index(free[i - 1].start) + 1, target)
    }
}

impl View for Manager {
    type V = HeapModel;

    closed spec fn view(&self) -> HeapModel {
        self.model@
    }
}

impl Manager {
    /// The arena words agree with the abstract state, and that state is valid.
    pub closed spec fn wf(&self) -> bool {
        let m = self.model@;
        &&& m.valid()
        &&& m.arena_len == self.arena_len
        &&& HEADER_SIZE < self.arena_len <= isize::MAX
        &&& self.words@.len() * WORD_SIZE >= self.arena_len
        &&& self.head == if m.free.len() == 0 {
            None::<usize>
        } else {
            Some(m.free[0].start as usize)
        }
        &&& headers_ok(self.words@, m)
    }

    /// An allocator over a fresh arena of `arena_len` bytes: one free block
    /// spanning the whole arena.
    pub fn new(arena_len: usize) -> (r: Result<Manager, AllocError>)
        requires
            arena_len <= isize::MAX,
        ensures
            arena_len <= HEADER_SIZE ==> r == Err::<Manager, AllocError>(AllocError::ArenaTooSmall),
            arena_len > HEADER_SIZE ==> (r matches Ok(m) && m.wf() && m@ == HeapModel::initial(arena_len as nat)),
    {
        if arena_len <= HEADER_SIZE {
            return Err(AllocError::ArenaTooSmall);
        }
        let n: usize = arena_len / WORD_SIZE + if arena_len % WORD_SIZE == 0 { 0 } else { 1 };
        let mut words: Vec<u64> = Vec::with_capacity(n);
        while words.len() < n
            invariant
                words@.len() <= n,
            decreases n - words@.len(),
        {
            words.push(0);
        }
        words.set(0, arena_len as u64);
        words.set(1, NO_NEXT);
        let m = Manager {
            words,
            arena_len,
            head: Some(0),
            model: Ghost(HeapModel::initial(arena_len as nat)),
        };
        proof {
            let hm = m.model@;
            assert(hm.free[0] == Block { start: 0, size: arena_len as nat });
            assert(free_header_ok(m.words@, hm.free, 0));
        }
        Ok(m)
    }

    /// A well-formed allocator's abstract state is valid.
    pub proof fn lemma_model_valid(&self)
        requires
            self.wf(),
        ensures
            self@.valid(),
            self@.arena_len > HEADER_SIZE,
    {
    }

    /// Length of the arena in bytes.
    pub fn arena_len(&self) -> (r: usize)
        requires
            self.wf(),
        ensures
            r == self@.arena_len,
    {
        self.arena_len
    }

    /// Walk the free list for the first block that can serve the request:
    /// its start, the start of the block before it, and its place in the list.
    fn find_first_fit(&self, size: usize, align: usize) -> (r: Option<(usize, Option<usize>, Ghost<int>)>)
        requires
            self.wf(),
            is_pow2(align as int),
        ensures
            r is None ==> forall|j: int|
                0 <= j < self@.free.len() ==> !fits(#[trigger] self@.free[j], size as nat, align as nat),
            r matches Some((cur, prev, i)) ==> {
                &&& is_first_fit(self@.free, i@, size as nat, align as nat)
                &&& cur == self@.free[i@].start
                &&& prev == if i@ == 0 {
                    None::<usize>
                } else {
                    Some(self@.free[i@ - 1].start as usize)
                }
            },
    {
        let eff = if align < WORD_SIZE { WORD_SIZE } else { align };
        let mut prev: Option<usize> = None;
        let mut cursor: Option<usize> = self.head;
        let ghost mut k: int = 0;
        loop
            invariant
                self.wf(),
                is_pow2(align as int),
                eff == effective_align(align as nat),
                0 <= k <= self@.free.len(),
                cursor == if k < self@.free.len() {
                    Some(self@.free[k].start as usize)
                } else {
                    None::<usize>
                },
                prev == if k == 0 {
                    None::<usize>
                } else {
                    Some(self@.free[k - 1].start as usize)
                },
                forall|j: int| 0 <= j < k ==> !fits(#[trigger] self@.free[j], size as nat, align as nat),
            decreases self@.free.len() - k,
        {
            match cursor {
                None => {
                    return None;
                },
                Some(cur) => {
                    let ghost b = self@.free[k];
                    proof {
                        assert(free_header_ok(self.words@, self@.free, k));
                        assert(b.well_placed(self.arena_len as nat));
                    }
                    let bsize = self.words[cur / WORD_SIZE] as usize;
                    if needed_in(cur, bsize, size, align, eff).is_some() {
                        return Some((cur, prev, Ghost(k)));
                    }
                    let link = self.words[cur / WORD_SIZE + 1];
                    prev = Some(cur);
                    if link == NO_NEXT {
                        cursor = None;
                    } else {
                        proof {
                            assert(self@.free[k + 1].well_placed(self.arena_len as nat));
                        }
                        cursor = Some(link as usize);
                    }
                    proof {
                        k = k + 1;
                    }
                },
            }
        }
    }
}

/// Bytes a block at `start` of `bsize` bytes must give to serve the request,
/// with the offset of the user data, or `None` when the block is too small.
fn needed_in(start: usize, bsize: usize, size: usize, align: usize, eff: usize) -> (r: Option<(usize, usize)>)
    requires
        is_pow2(align as int),
        eff == effective_align(align as nat),
        start + bsize <= isize::MAX,
        start % WORD_SIZE == 0,
    ensures
        r is Some <==> fits(Block { start: start as nat, size: bsize as nat }, size as nat, align as nat),
        r matches Some((n, p)) ==> n == needed(start as nat, size as nat, align as nat) && p == user_offset(
            start as nat,
            align as nat,
        ),
{
    proof {
        lemma_effective_align(align as nat);
        lemma_placement(start as nat, size as nat, align as nat);
    }
    let rem = (start + HEADER_SIZE) % eff;
    let fp = if rem == 0 { 0 } else { eff - rem };
    assert(fp == front_pad(start as nat, eff as nat));
    let tail = (WORD_SIZE - size % WORD_SIZE) % WORD_SIZE;
    assert(tail == end_pad(size as nat));
    if fp > bsize {
        return None;
    }
    let r1 = bsize - fp;
    if r1 < HEADER_SIZE {
        return None;
    }
    let r2 = r1 - HEADER_SIZE;
    if size > r2 {
        return None;
    }
    let r3 = r2 - size;
    if tail > r3 {
        return None;
    }
    Some((fp + HEADER_SIZE + size + tail, start + fp + HEADER_SIZE))
}

/// After a block is handed out whole, the arena words describe the new state.
proof fn lemma_headers_take_whole(w0: Seq<u64>, w1: Seq<u64>, m: HeapModel, i: int, size: nat, align: nat)
    requires
        m.valid(),
        headers_ok(w0, m),
        w0.len() * WORD_SIZE >= m.arena_len,
        m.arena_len <= isize::MAX,
        is_pow2(align as int),
        0 <= i < m.free.len(),
        fits(m.free[i], size, align),
        m.free[i].size - needed(m.free[i].start, size, align) <= HEADER_SIZE,
        w1 == relink(
            w0.update(word_index(user_offset(m.free[i].start, align)) - 2, m.free[i].size as u64).update(
                word_index(user_offset(m.free[i].start, align)) - 1,
                m.free[i].start as u64,
            ),
            m.free,
            i,
            link_word(m.free, i),
        ),
    ensures
        headers_ok(w1, m.take(i, size, align).0),
{
    let b = m.free[i];
    let p = user_offset(b.start, align);
    lemma_placement(b.start, size, align);
    lemma_take_valid(m, i, size, align);
    let m2 = m.take(i, size, align).0;
    m.free.remove_ensures(i);
    let hw = word_index(p) - 2;
    assert forall|x: int| 0 <= x < m2.free.len() implies #[trigger] free_header_ok(w1, m2.free, x) by {
        let x1 = if x < i { x } else { x + 1 };
        assert(free_header_ok(w0, m.free, x1));
        assert(m2.free[x] == m.free[x1]);
        assert(disjoint(m.free[x1], b));
        assert(m.free[x1].well_placed(m.arena_len));
        if i > 0 && x1 != i - 1 {
            assert(disjoint(m.free[x1], m.free[i - 1]));
        }
        if x + 1 < m2.free.len() {
            let y1 = if x + 1 < i { x + 1 } else { x + 2 };
            assert(m2.free[x + 1] == m.free[y1]);
        }
    }
    assert forall|r: nat| m2.live.contains_key(r) implies #[trigger] live_header_ok(w1, m2, r) by {
        if r != p {
            assert(live_header_ok(w0, m, r));
            assert(m2.live[r] == m.live[r]);
            assert(disjoint(b, m.live[r].block));
            assert(m.live[r].well_placed(r, m.arena_len));
            if i > 0 {
                assert(disjoint(m.free[i - 1], m.live[r].block));
                assert(m.free[i - 1].well_placed(m.arena_len));
            }
        } else {
            if i > 0 {
                assert(disjoint(m.free[i - 1], b));
                assert(m.free[i - 1].well_placed(m.arena_len));
            }
        }
    }
}

/// After a block is split, the arena words describe the new state.
proof fn lemma_headers_take_split(w0: Seq<u64>, w1: Seq<u64>, m: HeapModel, i: int, size: nat, align: nat)
    requires
        m.valid(),
        headers_ok(w0, m),
        w0.len() * WORD_SIZE >= m.arena_len,
        m.arena_len <= isize::MAX,
        is_pow2(align as int),
        0 <= i < m.free.len(),
        fits(m.free[i], size, align),
        m.free[i].size - needed(m.free[i].start, size, align) > HEADER_SIZE,
        w1 == relink(
            w0.update(
                word_index(m.free[i].start + needed(m.free[i].start, size, align)),
                (m.free[i].size - needed(m.free[i].start, size, align)) as u64,
            ).update(
                word_index(m.free[i].start + needed(m.free[i].start, size, align)) + 1,
                link_word(m.free, i),
            ).update(
                word_index(user_offset(m.free[i].start, align)) - 2,
                needed(m.free[i].start, size, align) as u64,
            ).update(word_index(user_offset(m.free[i].start, align)) - 1, m.free[i].start as u64),
            m.free,
            i,
            (m.free[i].start + needed(m.free[i].start, size, align)) as u64,
        ),
    ensures
        headers_ok(w1, m.take(i, size, align).0),
{
    let b = m.free[i];
    let need = needed(b.start, size, align);
    let p = user_offset(b.start, align);
    lemma_placement(b.start, size, align);
    lemma_take_valid(m, i, size, align);
    let m2 = m.take(i, size, align).0;
    let nb = Block { start: b.start + need, size: (b.size - need) as nat };
    assert(m2.free[i] == nb);
    assert forall|x: int| 0 <= x < m2.free.len() implies #[trigger] free_header_ok(w1, m2.free, x) by {
        if x != i {
            assert(free_header_ok(w0, m.free, x));
            assert(m2.free[x] == m.free[x]);
            assert(disjoint(m.free[x], b));
            assert(m.free[x].well_placed(m.arena_len));
            if i > 0 && x != i - 1 {
                assert(disjoint(m.free[x], m.free[i - 1]));
            }
        } else {
            if i > 0 {
                assert(disjoint(m.free[i - 1], b));
                assert(m.free[i - 1].well_placed(m.arena_len));
            }
        }
        if x + 1 < m2.free.len() && x + 1 != i {
            assert(m2.free[x + 1] == m.free[x + 1]);
        }
    }
    assert forall|r: nat| m2.live.contains_key(r) implies #[trigger] live_header_ok(w1, m2, r) by {
        if r != p {
            assert(live_header_ok(w0, m, r));
            assert(m2.live[r] == m.live[r]);
            assert(disjoint(b, m.live[r].block));
            assert(m.live[r].well_placed(r, m.arena_len));
            if i > 0 {
                assert(disjoint(m.free[i - 1], m.live[r].block));
                assert(m.free[i - 1].well_placed(m.arena_len));
            }
        } else {
            if i > 0 {
                assert(disjoint(m.free[i - 1], b));
                assert(m.free[i - 1].well_placed(m.arena_len));
            }
        }
    }
}

/// After a block is pushed on the free list, the arena words describe the new state.
proof fn lemma_headers_free(w0: Seq<u64>, w1: Seq<u64>, m: HeapModel, p: nat)
    requires
        m.valid(),
        headers_ok(w0, m),
        w0.len() * WORD_SIZE >= m.arena_len,
        m.arena_len <= isize::MAX,
        m.live.contains_key(p),
        w1 == w0.update(word_index(m.live[p].block.start), m.live[p].block.size as u64).update(
            word_index(m.live[p].block.start) + 1,
            if m.free.len() == 0 {
                NO_NEXT
            } else {
                m.free[0].start as u64
            },
        ),
    ensures
        headers_ok(w1, m.free_at(p)),
{
    let g = m.live[p];
    lemma_free_valid(m, p);
    let m2 = m.free_at(p);
    assert(g.well_placed(p, m.arena_len));
    assert forall|x: int| 0 <= x < m2.free.len() implies #[trigger] free_header_ok(w1, m2.free, x) by {
        if x > 0 {
            assert(m2.free[x] == m.free[x - 1]);
            assert(free_header_ok(w0, m.free, x - 1));
            assert(disjoint(m.free[x - 1], g.block));
            assert(m.free[x - 1].well_placed(m.arena_len));
            if x + 1 < m2.free.len() {
                assert(m2.free[x + 1] == m.free[x]);
            }
        } else {
            if m2.free.len() > 1 {
                assert(m2.free[1] == m.free[0]);
            }
        }
    }
    assert forall|r: nat| m2.live.contains_key(r) implies #[trigger] live_header_ok(w1, m2, r) by {
        assert(live_header_ok(w0, m, r));
        assert(m2.live[r] == m.live[r]);
        assert(disjoint(g.block, m.live[r].block));
        assert(m.live[r].well_placed(r, m.arena_len));
    }
}

impl Manager {
    /// Serve the request from free block `i`, which starts at `cur` and follows
    /// the block at `prev`: write the allocated header, and either unlink the
    /// block or put the rest of it in its place in the list.
    fn take_block(&mut self, cur: usize, prev: Option<usize>, gi: Ghost<int>, size: usize, alignment: usize) -> (r: usize)
        requires
            old(self).wf(),
            is_pow2(alignment as int),
            0 <= gi@ < old(self)@.free.len(),
            fits(old(self)@.free[gi@], size as nat, alignment as nat),
            cur == old(self)@.free[gi@].start,
            prev == if gi@ == 0 {
                None::<usize>
            } else {
                Some(old(self)@.free[gi@ - 1].start as usize)
            },
        ensures
            final(self).wf(),
            final(self)@ == old(self)@.take(gi@, size as nat, alignment as nat).0,
            r == old(self)@.take(gi@, size as nat, alignment as nat).1,
    {
        let ghost i = gi@;
        let ghost m0 = self@;
        let ghost w0 = self.words@;
        let ghost b = m0.free[i];
        proof {
            lemma_take_valid(m0, i, size as nat, alignment as nat);
            lemma_placement(b.start, size as nat, alignment as nat);
            assert(free_header_ok(w0, m0.free, i));
            assert(b.well_placed(m0.arena_len));
            if i > 0 {
                assert(m0.free[i - 1].well_placed(m0.arena_len));
            }
            if i + 1 < m0.free.len() {
                assert(m0.free[i + 1].well_placed(m0.arena_len));
            }
        }
        let eff = if alignment < WORD_SIZE { WORD_SIZE } else { alignment };
        let bsize = self.words[cur / WORD_SIZE] as usize;
        let link = self.words[cur / WORD_SIZE + 1];
        let (need, p) = match needed_in(cur, bsize, size, alignment, eff) {
            Some(np) => np,
            None => {
                // the block fits, so this cannot happen
                proof {
                    assert(false);
                }
                return 0;
            },
        };
        let h = (p - HEADER_SIZE) / WORD_SIZE;
        if bsize - need <= HEADER_SIZE {
            self.words.set(h, bsize as u64);
            self.words.set(h + 1, cur as u64);
            match prev {
                None => {
                    self.head = if link == NO_NEXT { None } else { Some(link as usize) };
                },
                Some(pv) => {
                    self.words.set(pv / WORD_SIZE + 1, link);
                },
            }
            proof {
                lemma_headers_take_whole(w0, self.words@, m0, i, size as nat, alignment as nat);
            }
        } else {
            let nb = cur + need;
            self.words.set(nb / WORD_SIZE, (bsize - need) as u64);
            self.words.set(nb / WORD_SIZE + 1, link);
            self.words.set(h, need as u64);
            self.words.set(h + 1, cur as u64);
            match prev {
                None => {
                    self.head = Some(nb);
                },
                Some(pv) => {
                    self.words.set(pv / WORD_SIZE + 1, nb as u64);
                },
            }
            proof {
                lemma_headers_take_split(w0, self.words@, m0, i, size as nat, alignment as nat);
            }
        }
        self.model = Ghost(m0.take(i, size as nat, alignment as nat).0);
        p
    }
}

/// Serve `size` bytes aligned to `alignment` from the first free block that can
/// hold them. The block is split when the rest can still host a header and
/// more; otherwise it is handed out whole. Returns the offset of the user data.
pub fn my_alloc(m: &mut Manager, size: usize, alignment: usize) -> (r: Result<usize, AllocError>)
    requires
        old(m).wf(),
        is_pow2(alignment as int),
    ensures
        final(m).wf(),
        match old(m)@.allocate(size as nat, alignment as nat) {
            None => r == Err::<usize, AllocError>(AllocError::OutOfMemory) && final(m)@ == old(m)@,
            Some((m2, p)) => r == Ok::<usize, AllocError>(p as usize) && final(m)@ == m2,
        },
        r matches Ok(p) ==> {
            &&& p % alignment == 0
            &&& p + size <= old(m)@.arena_len
            &&& !old(m)@.live.contains_key(p as nat)
            &&& final(m)@.live.contains_key(p as nat)
            &&& final(m)@.live[p as nat].len == size
            &&& forall|q: nat| #[trigger] old(m)@.live.contains_key(q) ==> final(m)@.live.contains_key(q)
                && final(m)@.live[q] == old(m)@.live[q]
        },
{
    let found = m.find_first_fit(size, alignment);
    match found {
        None => {
            proof {
                lemma_alloc_none(m@, size as nat, alignment as nat);
            }
            Err(AllocError::OutOfMemory)
        },
        Some((cur, prev, gi)) => {
            proof {
                lemma_alloc_takes_first_fit(m@, gi@, size as nat, alignment as nat);
                lemma_take_valid(m@, gi@, size as nat, alignment as nat);
            }
            let p = m.take_block(cur, prev, gi, size, alignment);
            Ok(p)
        },
    }
}

/// Give the allocation at `ptr` back: its block goes to the head of the free
/// list, found through the header in front of the user data.
pub fn my_free(m: &mut Manager, ptr: usize)
    requires
        old(m).wf(),
        old(m)@.live.contains_key(ptr as nat),
    ensures
        final(m).wf(),
        final(m)@ == old(m)@.free_at(ptr as nat),
{
    let ghost m0 = m@;
    let ghost w0 = m.words@;
    let ghost g = m0.live[ptr as nat];
    proof {
        assert(live_header_ok(w0, m0, ptr as nat));
        assert(g.well_placed(ptr as nat, m0.arena_len));
        lemma_free_valid(m0, ptr as nat);
        if m0.free.len() > 0 {
            assert(m0.free[0].well_placed(m0.arena_len));
        }
    }
    let start = m.words[ptr / WORD_SIZE - 1] as usize;
    let size = m.words[ptr / WORD_SIZE - 2];
    let link = match m.head {
        None => NO_NEXT,
        Some(hd) => hd as u64,
    };
    m.words.set(start / WORD_SIZE, size);
    m.words.set(start / WORD_SIZE + 1, link);
    m.head = Some(start);
    proof {
        lemma_headers_free(w0, m.words@, m0, ptr as nat);
    }
    m.model = Ghost(m0.free_at(ptr as nat));
}

/// Walk the free list without changing it: the size of every free run in
/// list order, and their total.
pub fn debug_free(m: &Manager) -> (r: FreeReport)
    requires
        m.wf(),
    ensures
        r.runs@.len() == m@.free.len(),
        forall|i: int| 0 <= i < m@.free.len() ==> r.runs@[i] == #[trigger] m@.free[i].size,
        r.total == total_size(m@.free),
{
    let mut runs: Vec<usize> = Vec::new();
    let mut total: usize = 0;
    let mut cursor: Option<usize> = m.head;
    let ghost free = m@.free;
    let ghost mut k: int = 0;
    loop
        invariant
            m.wf(),
            free == m@.free,
            0 <= k <= free.len(),
            cursor == if k < free.len() {
                Some(free[k].start as usize)
            } else {
                None::<usize>
            },
            runs@.len() == k,
            forall|i: int| 0 <= i < k ==> runs@[i] == #[trigger] free[i].size,
            total == total_size(free.take(k)),
        decreases free.len() - k,
    {
        match cursor {
            None => {
                proof {
                    assert(free.take(k) =~= free);
                }
                return FreeReport { runs, total };
            },
            Some(cur) => {
                proof {
                    assert(free_header_ok(m.words@, free, k));
                    assert(free[k].well_placed(m.arena_len as nat));
                    if k + 1 < free.len() {
                        assert(free[k + 1].well_placed(m.arena_len as nat));
                    }
                    assert(free.take(k + 1).drop_last() =~= free.take(k));
                    lemma_free_bytes_within_arena(m@);
                    lemma_total_prefix(free, k + 1);
                }
                let size = m.words[cur / WORD_SIZE] as usize;
                runs.push(size);
                total = total + size;
                let link = m.words[cur / WORD_SIZE + 1];
                cursor = if link == NO_NEXT { None } else { Some(link as usize) };
                proof {
                    k = k + 1;
                }
            },
        }
    }
}

} // verus!
