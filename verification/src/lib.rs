//! A bump-pointer arena that never frees.
//!
//! The arena satisfies many small allocation requests out of large
//! pre-reserved chunks. Allocation only ever advances a used-length counter
//! inside the most recently created chunk, or starts a brand-new chunk; no
//! allocation is ever reclaimed individually. Tearing the arena down hands
//! its chunks over to a store that is never freed, so every region the arena
//! ever handed out stays addressable for the rest of the process.
//!
//! A region is identified by a [`Handle`]: the index of the chunk it was
//! carved from, the byte offset of its start inside that chunk, and its
//! length. A chunk never moves and never shrinks while the arena is live, so
//! a handle stays good from the moment it is returned.

use vstd::prelude::*;

verus! {

/// Marker for types that are eligible to be placed in an arena.
///
/// The tag carries no data and no behavior; it exists so that code outside
/// this crate can gate, at compile time, which types may be constructed in
/// memory obtained from [`Arena::allocate`]. The arena itself never consults
/// it.
pub trait ArenaAllocated {}

/// The fixed reserved capacity of every chunk, in bytes (1 MiB).
pub const CHUNK_SIZE: usize = 0x10_0000;

/// A region handed out by [`Arena::allocate`]: `size` bytes starting at byte
/// `offset` of chunk number `chunk`.
#[derive(Clone, Copy, Debug, PartialEq, Eq, Structural)]
pub struct Handle {
    /// Index of the chunk the region was carved from, in creation order.
    pub chunk: usize,
    /// Byte offset of the region's first byte inside that chunk.
    pub offset: usize,
    /// Length of the region in bytes.
    pub size: usize,
}

/// A sequence of `n` zero bytes: the initial contents of a freshly carved
/// region.
pub open spec fn zero_bytes(n: int) -> Seq<u8> {
    Seq::new(n as nat, |i: int| 0u8)
}

/// Every chunk's used length stays within the reserved capacity.
pub open spec fn chunks_wf(cs: Seq<Seq<u8>>) -> bool {
    forall|c: int| 0 <= c < cs.len() ==> (#[trigger] cs[c]).len() <= CHUNK_SIZE
}

/// Whether a request of `size` bytes fits in the room remaining at the tail
/// of the last chunk. False on an arena with no chunks.
pub open spec fn fits_last(cs: Seq<Seq<u8>>, size: int) -> bool {
    cs.len() > 0 && cs.last().len() + size <= CHUNK_SIZE
}

/// Whether `h` denotes a region that lies inside the used part of one of the
/// chunks `cs`.
pub open spec fn handle_in(cs: Seq<Seq<u8>>, h: Handle) -> bool {
    &&& h.chunk < cs.len()
    &&& h.offset + h.size <= cs[h.chunk as int].len()
}

/// The effect of one allocation of `size` bytes on the chunks of an arena:
/// either the request fits the last chunk and is carved from its tail, or a
/// brand-new chunk is created and the request is carved from its start.
/// `pre` and `post` are the chunks before and after; `h` is the handle
/// returned. The relation pins `post` and `h` completely.
pub open spec fn alloc_step(pre: Seq<Seq<u8>>, size: int, post: Seq<Seq<u8>>, h: Handle) -> bool {
    &&& h.size == size
    &&& if fits_last(pre, size) {
        &&& h.chunk == pre.len() - 1
        &&& h.offset == pre.last().len()
        &&& post == pre.update(pre.len() - 1, pre.last() + zero_bytes(size))
    } else {
        &&& h.chunk == pre.len()
        &&& h.offset == 0
        &&& post == pre.push(zero_bytes(size))
    }
}

/// A pool that hands out byte regions from pre-reserved chunks and never
/// reclaims them.
///
/// Viewed as a sequence of chunks, each chunk being the bytes allocated from
/// it so far (its used part). The reserved-but-unused tail of a chunk is a
/// resource-level detail with no observable content and is not part of the
/// view; [`CHUNK_SIZE`] bounds every chunk's used length instead.
pub struct Arena {
    chunks: Vec<Vec<u8>>,
}

impl View for Arena {
    type V = Seq<Seq<u8>>;

    closed spec fn view(&self) -> Seq<Seq<u8>> {
        Seq::new(self.chunks@.len(), |i: int| self.chunks@[i]@)
    }
}

impl Arena {
    /// The arena's invariant: no chunk's used length exceeds the reserved
    /// capacity.
    pub open spec fn wf(self) -> bool {
        chunks_wf(self@)
    }

    /// Creates an empty arena with no chunks.
    pub fn new() -> (a: Arena)
        ensures
            a.wf(),
            a@ == Seq::<Seq<u8>>::empty(),
    {
        let a = Arena { chunks: Vec::new() };
        proof {
            assert(a@ =~= Seq::<Seq<u8>>::empty());
        }
        a
    }

    /// Carves `size` bytes from the tail of a chunk: the region starts at the
    /// old used length, and the used length advances by `size`. The
    /// precondition is the bookkeeping invariant that the new used length
    /// stays within the reserved capacity.
    fn allocate_from(v: &mut Vec<u8>, size: usize) -> (offset: usize)
        requires
            old(v)@.len() + size <= CHUNK_SIZE,
        ensures
            offset == old(v)@.len(),
            final(v)@ == old(v)@ + zero_bytes(size as int),
    {
        let offset: usize = v.len();
        let ghost orig: Seq<u8> = v@;
        let mut i: usize = 0;
        while i < size
            invariant
                i <= size,
                v@ == orig + zero_bytes(i as int),
            decreases size - i,
        {
            v.push(0u8);
            i = i + 1;
            proof {
                assert(v@ =~= orig + zero_bytes(i as int));
            }
        }
        offset
    }

    /// Allocates a writable region of `size` bytes, with no alignment
    /// guarantee beyond raw byte placement.
    ///
    /// If the last chunk has room, the region is carved back-to-back from its
    /// tail; otherwise a brand-new chunk of the fixed reserved capacity is
    /// appended and the region is carved from its start. Either way exactly
    /// one chunk's used length advances, no chunk is removed, and no byte
    /// already handed out changes: [`alloc_step`] pins the new state and the
    /// returned handle completely. A request as large as a whole chunk is a
    /// caller error and is ruled out by the precondition.
    pub fn allocate(&mut self, size: usize) -> (h: Handle)
        requires
            old(self).wf(),
            size < CHUNK_SIZE,
        ensures
            final(self).wf(),
            alloc_step(old(self)@, size as int, final(self)@, h),
            handle_in(final(self)@, h),
            h.size == size,
    {
        let ghost pre: Seq<Seq<u8>> = self@;
        let n: usize = self.chunks.len();
        if n > 0 {
            let last_len: usize = self.chunks[n - 1].len();
            proof {
                assert(pre[n - 1].len() <= CHUNK_SIZE);
            }
            if size <= CHUNK_SIZE - last_len {
                let offset: usize = Self::allocate_from(&mut self.chunks[n - 1], size);
                proof {
                    assert(fits_last(pre, size as int));
                    assert(self@ =~= pre.update(n - 1, pre.last() + zero_bytes(size as int)));
                }
                return Handle { chunk: n - 1, offset, size };
            }
        }
        let mut v: Vec<u8> = Vec::new();
        let offset: usize = Self::allocate_from(&mut v, size);
        self.chunks.push(v);
        proof {
            assert(!fits_last(pre, size as int));
            assert(self@ =~= pre.push(zero_bytes(size as int)));
        }
        Handle { chunk: n, offset, size }
    }

    /// Allocates like [`Arena::allocate`], but answers an oversized request
    /// (one of a whole chunk or more, which `allocate` does not admit) with
    /// `None` and leaves the arena untouched, instead of failing.
    pub fn try_allocate(&mut self, size: usize) -> (r: Option<Handle>)
        requires
            old(self).wf(),
        ensures
            final(self).wf(),
            size < CHUNK_SIZE ==> (r matches Some(h) && alloc_step(
                old(self)@,
                size as int,
                final(self)@,
                h,
            ) && handle_in(final(self)@, h)),
            size >= CHUNK_SIZE ==> r is None && final(self)@ == old(self)@,
    {
        if size < CHUNK_SIZE {
            Some(self.allocate(size))
        } else {
            None
        }
    }

    /// Reads byte `i` of the region `h`.
    pub fn read(&self, h: Handle, i: usize) -> (b: u8)
        requires
            handle_in(self@, h),
            i < h.size,
        ensures
            b == self@[h.chunk as int][h.offset + i],
    {
        let chunk: &Vec<u8> = &self.chunks[h.chunk];
        proof {
            assert(chunk.len() <= usize::MAX);
        }
        chunk[h.offset + i]
    }

    /// Writes `b` to byte `i` of the region `h`. Only that one byte of that
    /// one chunk changes.
    pub fn write(&mut self, h: Handle, i: usize, b: u8)
        requires
            old(self).wf(),
            handle_in(old(self)@, h),
            i < h.size,
        ensures
            final(self).wf(),
            final(self)@ == old(self)@.update(
                h.chunk as int,
                old(self)@[h.chunk as int].update(h.offset + i, b),
            ),
    {
        let ghost pre: Seq<Seq<u8>> = self@;
        let chunk: &mut Vec<u8> = &mut self.chunks[h.chunk];
        proof {
            assert(chunk.len() <= usize::MAX);
        }
        chunk.set(h.offset + i, b);
        proof {
            assert(self@ =~= pre.update(
                h.chunk as int,
                pre[h.chunk as int].update(h.offset + i, b),
            ));
        }
    }

    /// The number of chunks created so far.
    pub fn num_chunks(&self) -> (n: usize)
        ensures
            n == self@.len(),
    {
        self.chunks.len()
    }

    /// The used length of chunk `c`: how many bytes have been carved from it.
    pub fn chunk_len(&self, c: usize) -> (n: usize)
        requires
            c < self@.len(),
        ensures
            n == self@[c as int].len(),
    {
        self.chunks[c].len()
    }

    /// Tears the arena down: each chunk, holding exactly its used bytes, is
    /// handed over byte for byte to a [`LeakedStore`] that is never freed.
    /// The operation is one-way: the arena is consumed, it accepts no further
    /// allocation, and every region it ever handed out stays readable and
    /// writable through the store at its original place.
    pub fn teardown(self) -> (s: LeakedStore)
        ensures
            s@ == self@,
    {
        let s = LeakedStore { chunks: self.chunks };
        proof {
            assert(s@ =~= self@);
        }
        s
    }
}

/// The chunks abandoned by [`Arena::teardown`], trimmed to their used
/// lengths and kept for the rest of the process.
///
/// The store offers no further allocation; it exists so that every region an
/// arena ever handed out stays readable and writable at its original place
/// after the arena itself is gone. Viewed, like the arena, as the sequence of
/// its chunks' bytes.
pub struct LeakedStore {
    chunks: Vec<Vec<u8>>,
}

impl View for LeakedStore {
    type V = Seq<Seq<u8>>;

    closed spec fn view(&self) -> Seq<Seq<u8>> {
        Seq::new(self.chunks@.len(), |i: int| self.chunks@[i]@)
    }
}

impl LeakedStore {
    /// The number of chunks the arena abandoned.
    pub fn num_chunks(&self) -> (n: usize)
        ensures
            n == self@.len(),
    {
        self.chunks.len()
    }

    /// The trimmed length of chunk `c`: exactly the bytes the arena carved
    /// from it.
    pub fn chunk_len(&self, c: usize) -> (n: usize)
        requires
            c < self@.len(),
        ensures
            n == self@[c as int].len(),
    {
        self.chunks[c].len()
    }

    /// Reads byte `i` of the region `h`, exactly as [`Arena::read`] did
    /// before the teardown.
    pub fn read(&self, h: Handle, i: usize) -> (b: u8)
        requires
            handle_in(self@, h),
            i < h.size,
        ensures
            b == self@[h.chunk as int][h.offset + i],
    {
        let chunk: &Vec<u8> = &self.chunks[h.chunk];
        proof {
            assert(chunk.len() <= usize::MAX);
        }
        chunk[h.offset + i]
    }

    /// Writes `b` to byte `i` of the region `h`. Only that one byte of that
    /// one chunk changes.
    pub fn write(&mut self, h: Handle, i: usize, b: u8)
        requires
            handle_in(old(self)@, h),
            i < h.size,
        ensures
            final(self)@ == old(self)@.update(
                h.chunk as int,
                old(self)@[h.chunk as int].update(h.offset + i, b),
            ),
    {
        let ghost pre: Seq<Seq<u8>> = self@;
        let chunk: &mut Vec<u8> = &mut self.chunks[h.chunk];
        proof {
            assert(chunk.len() <= usize::MAX);
        }
        chunk.set(h.offset + i, b);
        proof {
            assert(self@ =~= pre.update(
                h.chunk as int,
                pre[h.chunk as int].update(h.offset + i, b),
            ));
        }
    }
}

/// The sum of a sequence of request sizes.
pub open spec fn sum(sizes: Seq<int>) -> int
    decreases sizes.len(),
{
    if sizes.len() == 0 {
        0
    } else {
        sum(sizes.drop_last()) + sizes.last()
    }
}

/// A run of the arena: `states` are the chunks before and after each of the
/// requests `sizes` (so `states[k]` precedes the `k`-th request), each
/// request is in the range `allocate` admits, and `handles[k]` is the handle
/// the `k`-th request returned.
pub open spec fn trace_ok(states: Seq<Seq<Seq<u8>>>, sizes: Seq<int>, handles: Seq<Handle>) -> bool {
    &&& states.len() == sizes.len() + 1
    &&& handles.len() == sizes.len()
    &&& forall|k: int| 0 <= k < sizes.len() ==> 0 <= #[trigger] sizes[k] < CHUNK_SIZE
    &&& forall|k: int|
        0 <= k < sizes.len() ==> alloc_step(states[k], sizes[k], states[k + 1], #[trigger] handles[k])
}

/// What a single allocation leaves in place: chunks are never removed, no
/// chunk shrinks, chunks other than the handle's keep their bytes, and the
/// returned region ends exactly at its chunk's new used length.
pub proof fn lemma_step_frame(pre: Seq<Seq<u8>>, size: int, post: Seq<Seq<u8>>, h: Handle)
    requires
        alloc_step(pre, size, post, h),
        0 <= size,
    ensures
        pre.len() <= post.len() <= pre.len() + 1,
        h.chunk < post.len(),
        forall|c: int| 0 <= c < pre.len() && c != h.chunk ==> post[c] == #[trigger] pre[c],
        forall|c: int| 0 <= c < pre.len() ==> (#[trigger] pre[c]).len() <= post[c].len(),
        h.offset + h.size == post[h.chunk as int].len(),
        h.offset == if h.chunk < pre.len() {
            pre[h.chunk as int].len() as int
        } else {
            0
        },
        handle_in(post, h),
{
}

/// One allocation of an admissible size preserves the arena invariant.
pub proof fn lemma_step_wf(pre: Seq<Seq<u8>>, size: int, post: Seq<Seq<u8>>, h: Handle)
    requires
        alloc_step(pre, size, post, h),
        0 <= size < CHUNK_SIZE,
        chunks_wf(pre),
    ensures
        chunks_wf(post),
{
}

/// Along a run, chunks are only ever appended and each chunk's used length
/// only grows.
pub proof fn lemma_trace_monotone(
    states: Seq<Seq<Seq<u8>>>,
    sizes: Seq<int>,
    handles: Seq<Handle>,
    k: int,
    l: int,
)
    requires
        trace_ok(states, sizes, handles),
        0 <= k <= l <= sizes.len(),
    ensures
        states[k].len() <= states[l].len(),
        forall|c: int|
            0 <= c < states[k].len() ==> (#[trigger] states[k][c]).len() <= states[l][c].len(),
    decreases l - k,
{
    if k < l {
        lemma_trace_monotone(states, sizes, handles, k, l - 1);
        lemma_step_frame(states[l - 1], sizes[l - 1], states[l], handles[l - 1]);
    }
}

/// Every state of a run that starts from an empty arena satisfies the arena
/// invariant.
pub proof fn lemma_trace_wf(states: Seq<Seq<Seq<u8>>>, sizes: Seq<int>, handles: Seq<Handle>, k: int)
    requires
        trace_ok(states, sizes, handles),
        states[0].len() == 0,
        0 <= k <= sizes.len(),
    ensures
        chunks_wf(states[k]),
    decreases k,
{
    if k == 0 {
        assert(chunks_wf(states[0]));
    } else {
        lemma_trace_wf(states, sizes, handles, k - 1);
        lemma_step_wf(states[k - 1], sizes[k - 1], states[k], handles[k - 1]);
    }
}

/// Stability: a region valid before a later allocation is still valid after
/// it, and none of its bytes changed. Allocation never moves or disturbs
/// what was already handed out.
pub proof fn lemma_handles_stay_valid(
    pre: Seq<Seq<u8>>,
    size: int,
    post: Seq<Seq<u8>>,
    h_new: Handle,
    h: Handle,
)
    requires
        alloc_step(pre, size, post, h_new),
        0 <= size,
        handle_in(pre, h),
    ensures
        handle_in(post, h),
        forall|j: int|
            h.offset <= j < h.offset + h.size
                ==> post[h.chunk as int][j] == #[trigger] pre[h.chunk as int][j],
{
    lemma_step_frame(pre, size, post, h_new);
}

/// Overflow starts a fresh chunk: when the request does not fit in the last
/// chunk's remaining room, the region lands at offset 0 of a brand-new chunk
/// appended after all existing ones, and every old chunk keeps its bytes.
pub proof fn lemma_overflow_new_chunk(pre: Seq<Seq<u8>>, size: int, post: Seq<Seq<u8>>, h: Handle)
    requires
        alloc_step(pre, size, post, h),
        pre.len() > 0,
        size > CHUNK_SIZE - pre.last().len(),
    ensures
        h.chunk == pre.len(),
        h.offset == 0,
        post.len() == pre.len() + 1,
        forall|c: int| 0 <= c < pre.len() ==> post[c] == #[trigger] pre[c],
{
}

/// Post-teardown validity: a region valid against the arena's chunks is
/// valid against the chunks the teardown leaked, with every one of its bytes
/// unchanged. With [`Arena::teardown`]'s contract (the store's view equals
/// the arena's), every handle the arena ever returned stays readable and
/// writable through the store.
pub proof fn lemma_post_teardown_validity(
    arena_chunks: Seq<Seq<u8>>,
    leaked: Seq<Seq<u8>>,
    h: Handle,
)
    requires
        leaked == arena_chunks,
        handle_in(arena_chunks, h),
    ensures
        handle_in(leaked, h),
        forall|j: int|
            h.offset <= j < h.offset + h.size
                ==> leaked[h.chunk as int][j] == #[trigger] arena_chunks[h.chunk as int][j],
{
}

/// Non-overlap: two allocations carved from the same chunk occupy disjoint
/// byte ranges; the earlier one ends at or before the later one begins.
pub proof fn lemma_non_overlap(
    states: Seq<Seq<Seq<u8>>>,
    sizes: Seq<int>,
    handles: Seq<Handle>,
    k: int,
    l: int,
)
    requires
        trace_ok(states, sizes, handles),
        0 <= k < l < handles.len(),
        handles[k].chunk == handles[l].chunk,
    ensures
        handles[k].offset + handles[k].size <= handles[l].offset,
{
    lemma_step_frame(states[k], sizes[k], states[k + 1], handles[k]);
    lemma_step_frame(states[l], sizes[l], states[l + 1], handles[l]);
    lemma_trace_monotone(states, sizes, handles, k + 1, l);
}

/// Taking one more size adds exactly that size to the running sum.
pub proof fn lemma_sum_take_succ(sizes: Seq<int>, k: int)
    requires
        0 <= k < sizes.len(),
    ensures
        sum(sizes.take(k + 1)) == sum(sizes.take(k)) + sizes[k],
{
    assert(sizes.take(k + 1).drop_last() =~= sizes.take(k));
    assert(sizes.take(k + 1).last() == sizes[k]);
}

/// With no negative sizes, a prefix of the requests never sums to more than
/// all of them.
pub proof fn lemma_sum_take_le(sizes: Seq<int>, k: int)
    requires
        0 <= k <= sizes.len(),
        forall|i: int| 0 <= i < sizes.len() ==> #[trigger] sizes[i] >= 0,
    ensures
        sum(sizes.take(k)) <= sum(sizes),
    decreases sizes.len() - k,
{
    if k == sizes.len() {
        assert(sizes.take(k) =~= sizes);
    } else {
        lemma_sum_take_succ(sizes, k);
        lemma_sum_take_le(sizes, k + 1);
    }
}

/// Induction step for contiguity: while the requests sum to at most one
/// chunk, the run from an empty arena keeps exactly one chunk, used up to
/// the running sum, and each handle records the sum of the sizes before it.
proof fn lemma_contiguity_aux(
    states: Seq<Seq<Seq<u8>>>,
    sizes: Seq<int>,
    handles: Seq<Handle>,
    k: int,
)
    requires
        trace_ok(states, sizes, handles),
        states[0].len() == 0,
        sum(sizes) <= CHUNK_SIZE,
        1 <= k <= sizes.len(),
    ensures
        states[k].len() == 1,
        states[k][0].len() == sum(sizes.take(k)),
        handles[k - 1].chunk == 0,
        handles[k - 1].offset == sum(sizes.take(k - 1)),
    decreases k,
{
    lemma_sum_take_succ(sizes, k - 1);
    lemma_sum_take_le(sizes, k);
    assert(alloc_step(states[k - 1], sizes[k - 1], states[k], handles[k - 1]));
    if k == 1 {
        assert(sizes.take(0) =~= Seq::<int>::empty());
        assert(sum(sizes.take(0)) == 0);
        assert(!fits_last(states[0], sizes[0]));
        assert(states[1] == states[0].push(zero_bytes(sizes[0])));
    } else {
        lemma_contiguity_aux(states, sizes, handles, k - 1);
        assert(states[k - 1].last() == states[k - 1][0]);
        assert(fits_last(states[k - 1], sizes[k - 1]));
    }
}

/// Contiguity: starting from an empty arena, as long as the requested sizes
/// sum to at most one chunk, every allocation lands in the first chunk and
/// the `k`-th region begins exactly at the sum of the preceding sizes — the
/// regions sit back-to-back with zero padding.
pub proof fn lemma_contiguity(states: Seq<Seq<Seq<u8>>>, sizes: Seq<int>, handles: Seq<Handle>)
    requires
        trace_ok(states, sizes, handles),
        states[0].len() == 0,
        sum(sizes) <= CHUNK_SIZE,
    ensures
        forall|k: int| 0 <= k < handles.len() ==> (#[trigger] handles[k]).chunk == 0,
        forall|k: int|
            0 <= k < handles.len() ==> (#[trigger] handles[k]).offset == sum(sizes.take(k)),
{
    assert forall|k: int| 0 <= k < handles.len() implies (#[trigger] handles[k]).chunk == 0
        && handles[k].offset == sum(sizes.take(k)) by {
        lemma_contiguity_aux(states, sizes, handles, k + 1);
    }
}

/// The total of the request sizes that were satisfied out of chunk `c`
/// during a run.
pub open spec fn allocated_into(sizes: Seq<int>, handles: Seq<Handle>, c: int) -> int
    decreases sizes.len(),
{
    if sizes.len() == 0 || handles.len() == 0 {
        0
    } else {
        allocated_into(sizes.drop_last(), handles.drop_last(), c) + if handles.last().chunk == c {
            sizes.last()
        } else {
            0
        }
    }
}

/// Chunk-capacity bound: over a run from an empty arena, the sizes carved
/// out of any one chunk account exactly for that chunk's used length, which
/// never exceeds [`CHUNK_SIZE`]; a chunk that was never created received
/// nothing.
pub proof fn lemma_chunk_capacity_bound(
    states: Seq<Seq<Seq<u8>>>,
    sizes: Seq<int>,
    handles: Seq<Handle>,
    c: int,
)
    requires
        trace_ok(states, sizes, handles),
        states[0].len() == 0,
        0 <= c,
    ensures
        c < states.last().len() ==> allocated_into(sizes, handles, c) == states.last()[c].len(),
        c < states.last().len() ==> states.last()[c].len() <= CHUNK_SIZE,
        c >= states.last().len() ==> allocated_into(sizes, handles, c) == 0,
    decreases sizes.len(),
{
    if sizes.len() == 0 {
        assert(states.last() == states[0]);
    } else {
        let states2 = states.drop_last();
        let sizes2 = sizes.drop_last();
        let handles2 = handles.drop_last();
        assert(trace_ok(states2, sizes2, handles2)) by {
            assert forall|k: int| 0 <= k < sizes2.len() implies 0 <= #[trigger] sizes2[k]
                < CHUNK_SIZE by {
                assert(sizes2[k] == sizes[k]);
            }
            assert forall|k: int|
                0 <= k < sizes2.len() implies alloc_step(
                states2[k],
                sizes2[k],
                states2[k + 1],
                #[trigger] handles2[k],
            ) by {
                assert(handles2[k] == handles[k]);
                assert(alloc_step(states[k], sizes[k], states[k + 1], handles[k]));
                assert(states2[k] == states[k]);
                assert(states2[k + 1] == states[k + 1]);
            }
        }
        assert(states2[0] == states[0]);
        lemma_chunk_capacity_bound(states2, sizes2, handles2, c);
        let n = sizes.len() - 1;
        let pre = states[n];
        let post = states[n + 1];
        let h = handles[n];
        assert(states2.last() == pre);
        assert(states.last() == post);
        assert(0 <= sizes[n] < CHUNK_SIZE);
        assert(alloc_step(pre, sizes[n], post, h));
        lemma_step_frame(pre, sizes[n], post, h);
        lemma_trace_wf(states, sizes, handles, n + 1);
        assert(allocated_into(sizes, handles, c) == allocated_into(sizes2, handles2, c) + if h.chunk
            == c {
            sizes[n]
        } else {
            0
        });
        if h.chunk == c {
            if fits_last(pre, sizes[n]) {
                assert(post[c].len() == pre[c].len() + sizes[n]);
            } else {
                assert(post[c].len() == sizes[n]);
            }
        } else {
            if c < post.len() {
                if c < pre.len() {
                    assert(post[c] == pre[c]);
                } else {
                    assert(false);
                }
            }
        }
    }
}

} // verus!
