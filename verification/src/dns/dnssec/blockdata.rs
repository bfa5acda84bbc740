//! Byte strings kept in blocks of a fixed size, so that keys and signatures of any length do not
//! fragment the heap.
use vstd::prelude::*;
use vstd::slice::slice_subrange;
use crate::text::{dec, message2};

verus! {

/// The number of bytes in a block.
pub const BLOCK_SIZE: usize = 40;

/// Failures of block data operations.
#[derive(Debug)]
pub enum BlockDataError {
    /// Memory for blocks could not be had.
    AllocationFailed,
    /// The chain holds less than a caller claims.
    ChainTooShort,
    /// A length makes no sense for the operation.
    InvalidLength(String),
}

/// The number of blocks that `n` bytes take up.
pub open spec fn blocks_for(n: nat) -> nat {
    (n + 39) / 40
}

/// The first `n` bytes of a chain of blocks.
spec fn flat(blocks: Seq<[u8; 40]>, n: nat) -> Seq<u8> {
    Seq::new(n, |i: int| blocks[i / 40]@[i % 40])
}

/// A byte string in blocks.
#[derive(Debug)]
pub struct BlockData {
    blocks: Vec<[u8; 40]>,
    total_len: usize,
}

impl View for BlockData {
    type V = Seq<u8>;

    closed spec fn view(&self) -> Seq<u8> {
        flat(self.blocks@, self.total_len as nat)
    }
}

impl BlockData {
    #[verifier::type_invariant]
    closed spec fn inv(self) -> bool {
        self.blocks@.len() == blocks_for(self.total_len as nat)
    }

    /// The block data that holds `data`.
    pub fn new(data: &[u8]) -> (r: Self)
        ensures
            r@ == data@,
    {
        let mut blocks: Vec<[u8; 40]> = Vec::new();
        let total_len: usize = data.len();
        add_blocks(&mut blocks, 0, data, 0);
        let r = BlockData { blocks, total_len };
        assert(r@ =~= data@);
        r
    }

    /// The bytes, in one piece.
    pub fn retrieve(&self) -> (r: Vec<u8>)
        ensures
            r@ == self@,
    {
        proof {
            use_type_invariant(self);
        }
        let mut r: Vec<u8> = Vec::new();
        let mut i: usize = 0;
        while i < self.total_len
            invariant
                i <= self.total_len,
                self.blocks@.len() == blocks_for(self.total_len as nat),
                r@ =~= self@.take(i as int),
            decreases self.total_len - i,
        {
            let block = &self.blocks[i / 40];
            r.push(block[i % 40]);
            i = i + 1;
        }
        assert(r@ =~= self@);
        r
    }

    /// Appends bytes: the room left in the last block is filled first.
    pub fn expand(&mut self, additional_data: &[u8]) -> (r: Result<(), BlockDataError>)
        requires
            old(self)@.len() + additional_data@.len() <= usize::MAX,
        ensures
            r is Ok,
            final(self)@ == old(self)@ + additional_data@,
    {
        proof {
            use_type_invariant(&*self);
        }
        let ghost start = self@;
        let n: usize = additional_data.len();
        let used: usize = self.total_len % 40;
        let room: usize = if used == 0 {
            0
        } else {
            40 - used
        };
        let fill: usize = if room < n {
            room
        } else {
            n
        };
        let mut whole = BlockData { blocks: Vec::new(), total_len: 0 };
        std::mem::swap(self, &mut whole);
        let total: usize = whole.total_len;
        let mut blocks = whole.blocks;
        let ghost old_blocks = blocks@;
        if fill > 0 {
            let last: usize = blocks.len() - 1;
            let mut block: [u8; 40] = blocks[last];
            let ghost old_block = block@;
            let mut j: usize = 0;
            while j < fill
                invariant
                    j <= fill,
                    used + fill <= 40,
                    fill <= additional_data@.len(),
                    forall|k: int| 0 <= k < used ==> block@[k] == old_block[k],
                    forall|k: int| 0 <= k < j ==> block@[used + k] == additional_data@[k],
                decreases fill - j,
            {
                block[used + j] = additional_data[j];
                j = j + 1;
            }
            blocks.set(last, block);
            proof {
                let all = start + additional_data@.take(fill as int);
                assert(total == 40 * last + used);
                assert forall|i: int| 0 <= i < all.len() implies flat(
                    blocks@,
                    (total + fill) as nat,
                )[i] == all[i] by {
                    if i < total {
                        assert(flat(old_blocks, total as nat)[i] == start[i]);
                        if i / 40 == last {
                            assert(i % 40 < used);
                        }
                    } else {
                        assert(i / 40 == last && i % 40 == used + (i - total));
                    }
                }
                assert(flat(blocks@, (total + fill) as nat) =~= all);
            }
        }
        assert(flat(blocks@, (total + fill) as nat) =~= start + additional_data@.take(fill as int));
        if fill < n {
            add_blocks(&mut blocks, total + fill, additional_data, fill);
        }
        *self = BlockData { blocks, total_len: total + n };
        assert(self@ =~= start + additional_data@);
        Ok(())
    }

    /// The number of bytes.
    pub fn len(&self) -> (r: usize)
        ensures
            r == self@.len(),
    {
        self.total_len
    }

    /// True when there are no bytes.
    pub fn is_empty(&self) -> (r: bool)
        ensures
            r == (self@.len() == 0),
    {
        self.total_len == 0
    }

    /// The number of blocks: no more than the bytes need.
    pub fn block_count(&self) -> (r: usize)
        ensures
            r == blocks_for(self@.len()),
    {
        proof {
            use_type_invariant(self);
        }
        self.blocks.len()
    }

    /// The bytes without a copy, where they lie in a single block.
    pub fn as_bytes(&self) -> (r: Option<&[u8]>)
        ensures
            r is Some <==> 0 < self@.len() <= BLOCK_SIZE,
            r matches Some(b) ==> b@ == self@,
    {
        proof {
            use_type_invariant(self);
        }
        if self.blocks.len() == 1 {
            let bytes = slice_subrange(self.blocks[0].as_slice(), 0, self.total_len);
            assert(bytes@ =~= self@);
            Some(bytes)
        } else {
            None
        }
    }
}

/// Appends the bytes of `data` from `from` on to a chain of `total` bytes whose last block is full.
fn add_blocks(blocks: &mut Vec<[u8; 40]>, total: usize, data: &[u8], from: usize)
    requires
        total % 40 == 0,
        old(blocks)@.len() == blocks_for(total as nat),
        from <= data@.len(),
        total + data@.len() - from <= usize::MAX,
    ensures
        final(blocks)@.len() == blocks_for((total + data@.len() - from) as nat),
        flat(final(blocks)@, (total + data@.len() - from) as nat) == flat(
            old(blocks)@,
            total as nat,
        ) + data@.skip(from as int),
{
    let ghost start = flat(blocks@, total as nat);
    let n: usize = data.len();
    let mut at: usize = from;
    assert(start + data@.subrange(from as int, at as int) =~= start);
    while at < n
        invariant
            from <= at <= n == data@.len(),
            total % 40 == 0,
            start.len() == total,
            at < n ==> (at - from) % 40 == 0,
            total + n - from <= usize::MAX,
            blocks@.len() == blocks_for((total + (at - from)) as nat),
            flat(blocks@, (total + (at - from)) as nat) == start + data@.subrange(
                from as int,
                at as int,
            ),
        decreases n - at,
    {
        let count: usize = if n - at < 40 {
            n - at
        } else {
            40
        };
        let mut block: [u8; 40] = [0u8; 40];
        let mut j: usize = 0;
        while j < count
            invariant
                j <= count <= 40,
                at + count <= n == data@.len(),
                forall|k: int| 0 <= k < j ==> block@[k] == data@[at + k],
            decreases count - j,
        {
            block[j] = data[at + j];
            j = j + 1;
        }
        let ghost before = blocks@;
        blocks.push(block);
        proof {
            let done = (total + (at - from)) as nat;
            let all = start + data@.subrange(from as int, at + count);
            assert(before.len() * 40 == done);
            assert forall|i: int| 0 <= i < all.len() implies flat(blocks@, done + count as nat)[i]
                == all[i] by {
                if i < done {
                    assert(i / 40 < before.len());
                    assert(flat(before, done)[i] == (start + data@.subrange(
                        from as int,
                        at as int,
                    ))[i]);
                } else {
                    assert(i / 40 == before.len() && i % 40 == i - done);
                }
            }
            assert(flat(blocks@, done + count as nat) =~= all);
        }
        at = at + count;
    }
    assert(data@.subrange(from as int, at as int) =~= data@.skip(from as int));
}

impl Clone for BlockData {
    fn clone(&self) -> (r: Self)
        ensures
            r@ == self@,
    {
        let bytes = self.retrieve();
        BlockData::new(bytes.as_slice())
    }
}

/// How many blocks are and were in use.
#[derive(Debug, Clone)]
pub struct BlockDataStats {
    current_count: usize,
    high_water_mark: usize,
    total_allocated: usize,
}

/// What block statistics say.
pub ghost struct StatsModel {
    pub current: nat,
    pub peak: nat,
    pub total: nat,
}

impl StatsModel {
    /// The statistics after some more blocks are allocated. The cumulative counter wraps around.
    pub open spec fn grown(self, count: usize) -> StatsModel {
        StatsModel {
            current: self.current + count as nat,
            peak: if count > 0 && self.current + count > self.peak {
                self.current + count as nat
            } else {
                self.peak
            },
            total: ((self.total + count) % (usize::MAX + 1)) as nat,
        }
    }

    /// The statistics after some blocks are freed. The counter wraps around below zero.
    pub open spec fn shrunk(self, count: usize) -> StatsModel {
        StatsModel {
            current: if count <= self.current {
                (self.current - count) as nat
            } else {
                (self.current - count + usize::MAX + 1) as nat
            },
            ..self
        }
    }
}

/// Allocating blocks adds them to those in use and to those ever allocated, and the peak is the
/// largest number that was in use; freeing as many again takes them out of use and changes nothing
/// else.
pub proof fn law_statistics(s: StatsModel, count: usize)
    requires
        s.current <= s.peak,
        s.total + count <= usize::MAX,
        s.current + count <= usize::MAX,
    ensures
        s.grown(count).current == s.current + count,
        s.grown(count).total == s.total + count,
        s.grown(count).peak >= s.grown(count).current,
        s.grown(count).peak >= s.peak,
        s.grown(count).peak == s.peak || s.grown(count).peak == s.current + count,
        s.grown(count).shrunk(count).current == s.current,
        s.grown(count).shrunk(count).peak == s.grown(count).peak,
        s.grown(count).shrunk(count).total == s.total + count,
{
    vstd::arithmetic::div_mod::lemma_small_mod(s.total + count as nat, (usize::MAX + 1) as nat);
}

/// Blocks are of 40 bytes: as many as are needed, and none for nothing.
pub proof fn law_blocks(n: nat)
    ensures
        blocks_for(0) == 0,
        n > 0 ==> 40 * (blocks_for(n) - 1) < n <= 40 * blocks_for(n),
{
}

impl View for BlockDataStats {
    type V = StatsModel;

    closed spec fn view(&self) -> StatsModel {
        StatsModel {
            current: self.current_count as nat,
            peak: self.high_water_mark as nat,
            total: self.total_allocated as nat,
        }
    }
}

impl BlockDataStats {
    /// Statistics with every counter at zero.
    pub fn new() -> (r: Self)
        ensures
            r@ == (StatsModel { current: 0, peak: 0, total: 0 }),
    {
        BlockDataStats { current_count: 0, high_water_mark: 0, total_allocated: 0 }
    }

    /// The number of blocks in use.
    pub fn current_count(&self) -> (r: usize)
        ensures
            r == self@.current,
    {
        self.current_count
    }

    /// The largest number of blocks that were in use at once.
    pub fn high_water_mark(&self) -> (r: usize)
        ensures
            r == self@.peak,
    {
        self.high_water_mark
    }

    /// The number of blocks that were ever allocated.
    pub fn total_allocated(&self) -> (r: usize)
        ensures
            r == self@.total,
    {
        self.total_allocated
    }

    /// The bytes in use.
    pub fn current_bytes(&self) -> (r: usize)
        requires
            self@.current * BLOCK_SIZE <= usize::MAX,
        ensures
            r == self@.current * BLOCK_SIZE,
    {
        self.current_count * BLOCK_SIZE
    }

    /// The most bytes that were in use at once.
    pub fn hwm_bytes(&self) -> (r: usize)
        requires
            self@.peak * BLOCK_SIZE <= usize::MAX,
        ensures
            r == self@.peak * BLOCK_SIZE,
    {
        self.high_water_mark * BLOCK_SIZE
    }

    /// The bytes that were ever allocated.
    pub fn allocated_bytes(&self) -> (r: usize)
        requires
            self@.total * BLOCK_SIZE <= usize::MAX,
        ensures
            r == self@.total * BLOCK_SIZE,
    {
        self.total_allocated * BLOCK_SIZE
    }

    /// Counts newly allocated blocks. The cumulative counter wraps around.
    pub fn increment(&mut self, count: usize)
        requires
            old(self)@.current + count <= usize::MAX,
        ensures
            final(self)@ == old(self)@.grown(count),
    {
        let now: usize = self.current_count + count;
        self.current_count = now;
        if count > 0 && now > self.high_water_mark {
            self.high_water_mark = now;
        }
        self.total_allocated = self.total_allocated.wrapping_add(count);
    }

    /// Counts freed blocks. The counter wraps around below zero.
    pub fn decrement(&mut self, count: usize)
        ensures
            final(self)@ == old(self)@.shrunk(count),
    {
        self.current_count = self.current_count.wrapping_sub(count);
    }

    /// A report for people.
    pub fn report(&self) -> (r: String)
        requires
            self@.current * BLOCK_SIZE <= usize::MAX,
            self@.peak * BLOCK_SIZE <= usize::MAX,
            self@.total * BLOCK_SIZE <= usize::MAX,
        ensures
            r@ == "pool memory in use "@ + dec(self@.current * 40) + ", max "@ + dec(
                self@.peak * 40,
            ) + ", allocated "@ + dec(self@.total * 40),
    {
        let total = crate::text::decimal(self.allocated_bytes() as u64);
        message2(
            "pool memory in use ",
            self.current_bytes() as u64,
            ", max ",
            self.hwm_bytes() as u64,
            ", allocated ",
        ).concat(total.as_str())
    }
}

} // verus!
