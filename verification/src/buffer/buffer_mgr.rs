use vstd::prelude::*;
use crate::buffer::buffer::{flush_lsn, flushed_data, flushed_log, Buffer, BufferView};
use crate::file::block_id::{BlockId, BlockIdView};
use crate::file::codec::zeros;
use crate::file::file_mgr::{
    block_at, blocks_of, grown, lemma_grown_block_at, lemma_touched_block_at,
    lemma_written_block_at, touched, Disk,
};
use crate::logging::format::views;
use crate::logging::log_iterator::LogIterator;
use crate::logging::log_mgr::{appended, forced_log, lemma_forced_twice, LogMgr};

verus! {

/// The index that stands for "no buffer" in a [`BufferRes`].
pub const NO_BUFFER: usize = 1000000;

/// The longest that a request for a buffer waits, in milliseconds.
pub const MAX_TIME: u64 = 10000;

/// The result of a search of the pool: whether a buffer was found, and its index,
/// or [`NO_BUFFER`].
pub struct BufferRes {
    pub found: bool,
    pub idx: usize,
}

/// Whether a buffer of `pool` is assigned to the block `blk`.
pub open spec fn holds(pool: Seq<BufferView>, blk: BlockIdView) -> bool {
    exists|i: int| 0 <= i < pool.len() && (#[trigger] pool[i]).blk == Some(blk)
}

/// The index of a buffer of `pool` that is assigned to the block `blk`.
pub open spec fn slot_of(pool: Seq<BufferView>, blk: BlockIdView) -> int {
    choose|i: int| 0 <= i < pool.len() && (#[trigger] pool[i]).blk == Some(blk)
}

/// The number of buffers of `pool` that nobody has pinned.
pub open spec fn unpinned(pool: Seq<BufferView>) -> nat
    decreases pool.len(),
{
    if pool.len() == 0 {
        0
    } else {
        unpinned(pool.drop_last()) + if pool.last().pins <= 0 {
            1nat
        } else {
            0nat
        }
    }
}

/// Whether `i` is the first buffer of `pool` that nobody has pinned.
pub open spec fn is_first_unpinned(pool: Seq<BufferView>, i: int) -> bool {
    &&& 0 <= i < pool.len()
    &&& pool[i].pins <= 0
    &&& forall|j: int| 0 <= j < i ==> (#[trigger] pool[j]).pins > 0
}

/// The index of the first buffer of `pool` that nobody has pinned.
pub open spec fn first_unpinned(pool: Seq<BufferView>) -> int {
    choose|i: int| is_first_unpinned(pool, i)
}

/// There is one first unpinned buffer at most.
pub proof fn lemma_first_unpinned(pool: Seq<BufferView>, i: int)
    requires
        is_first_unpinned(pool, i),
    ensures
        first_unpinned(pool) == i,
        !all_pinned(pool),
{
    let j = first_unpinned(pool);
    if j < i {
        assert(pool[j].pins > 0);
    }
    if i < j {
        assert(pool[i].pins > 0);
    }
}

/// The buffer that an attempt to pin the block `blk` in `pool` gives: the one that
/// holds the block, else the first that nobody has pinned, else none.
pub open spec fn pin_slot(pool: Seq<BufferView>, blk: BlockIdView) -> Option<usize> {
    if holds(pool, blk) {
        Some(slot_of(pool, blk) as usize)
    } else if !all_pinned(pool) {
        Some(first_unpinned(pool) as usize)
    } else {
        None
    }
}

/// Whether every buffer of `pool` is pinned.
pub open spec fn all_pinned(pool: Seq<BufferView>) -> bool {
    forall|j: int| 0 <= j < pool.len() ==> (#[trigger] pool[j]).pins > 0
}

/// No two buffers of `pool` are assigned to the same block.
pub open spec fn distinct_blocks(pool: Seq<BufferView>) -> bool {
    forall|i: int, j: int|
        0 <= i < j < pool.len() && (#[trigger] pool[i]).blk is Some ==> pool[i].blk != (
        #[trigger] pool[j]).blk
}

/// What the block `blk` holds as far as the users of a pool can tell: the page of
/// the buffer that is assigned to it or, where there is none, what the store has.
pub open spec fn value_in(pool: Seq<BufferView>, data: Disk, bs: nat, blk: BlockIdView) -> Seq<u8> {
    if holds(pool, blk) {
        pool[slot_of(pool, blk)].contents
    } else {
        block_at(data, blk.file_name, blk.blk_num, bs)
    }
}

/// The buffer `b` with one pin more.
pub open spec fn pinned_again(b: BufferView) -> BufferView {
    BufferView { pins: b.pins + 1, ..b }
}

/// The buffer `b` with one pin less.
pub open spec fn unpinned_once(b: BufferView) -> BufferView {
    BufferView { pins: b.pins - 1, ..b }
}

/// The buffer `b` after it has been written out, assigned to the block `blk` with
/// the bytes `contents`, and pinned once.
pub open spec fn reassigned(b: BufferView, blk: BlockIdView, contents: Seq<u8>) -> BufferView {
    BufferView { contents, blk: Some(blk), pins: 1, tx_num: -1, lsn: b.lsn }
}

/// Whether the consistency of a pool holds of the buffer `b`, over the files
/// `data` with blocks of `bs` bytes and the log in the file `log_name`.
pub open spec fn buffer_ok(b: BufferView, data: Disk, bs: nat, log_name: Seq<char>) -> bool {
    &&& b.contents.len() == bs
    &&& 0 <= b.pins
    &&& b.pins > 0 ==> b.blk is Some
    &&& b.tx_num >= 0 ==> b.blk is Some
    &&& b.blk is Some ==> b.blk.unwrap().file_name != log_name && b.blk.unwrap().blk_num
        < usize::MAX
    &&& b.blk is Some && b.tx_num < 0 ==> block_at(
        data,
        b.blk.unwrap().file_name,
        b.blk.unwrap().blk_num,
        bs,
    ) == b.contents
}

/// Where no two buffers hold the same block, the buffer found with a block is the
/// one that holds it.
pub proof fn lemma_slot_unique(pool: Seq<BufferView>, blk: BlockIdView, i: int)
    requires
        distinct_blocks(pool),
        0 <= i < pool.len(),
        pool[i].blk == Some(blk),
    ensures
        holds(pool, blk),
        slot_of(pool, blk) == i,
{
    let j = slot_of(pool, blk);
    if i < j {
        assert(pool[i].blk != pool[j].blk);
    }
    if j < i {
        assert(pool[j].blk != pool[i].blk);
    }
}

/// The files after the buffer `victim` has been written out over `data`.
pub open spec fn written_out(victim: BufferView, data: Disk, bs: nat) -> Disk {
    if victim.tx_num >= 0 {
        crate::file::file_mgr::written(
            data,
            victim.blk.unwrap().file_name,
            victim.blk.unwrap().blk_num,
            bs,
            victim.contents,
        )
    } else {
        data
    }
}

/// Replacing an unpinned buffer, written out first, by the image of a block that
/// no buffer held keeps the pool consistent and changes what no block holds.
pub proof fn lemma_replaced(
    pool: Seq<BufferView>,
    data: Disk,
    bs: nat,
    log_name: Seq<char>,
    i: int,
    blk: BlockIdView,
    after: Disk,
    new_pool: Seq<BufferView>,
)
    requires
        distinct_blocks(pool),
        forall|j: int| 0 <= j < pool.len() ==> buffer_ok(#[trigger] pool[j], data, bs, log_name),
        0 <= i < pool.len(),
        !holds(pool, blk),
        blk.file_name != log_name,
        blk.blk_num < usize::MAX,
        after == touched(written_out(pool[i], data, bs), blk.file_name, blk.blk_num, bs),
        new_pool == pool.update(
            i,
            reassigned(pool[i], blk, block_at(after, blk.file_name, blk.blk_num, bs)),
        ),
        new_pool[i].contents.len() == bs,
    ensures
        distinct_blocks(new_pool),
        forall|j: int| 0 <= j < new_pool.len() ==> buffer_ok(#[trigger] new_pool[j], after, bs, log_name),
        forall|b: BlockIdView| #[trigger]
            value_in(new_pool, after, bs, b) == value_in(pool, data, bs, b),
{
    let victim = pool[i];
    let flushed = written_out(victim, data, bs);
    let fresh = reassigned(victim, blk, block_at(after, blk.file_name, blk.blk_num, bs));
    lemma_touched_block_at(flushed, blk.file_name, blk.blk_num, bs);
    if victim.tx_num >= 0 {
        lemma_written_block_at(
            data,
            victim.blk.unwrap().file_name,
            victim.blk.unwrap().blk_num,
            bs,
            victim.contents,
        );
    }
    assert(buffer_ok(pool[i], data, bs, log_name));
    assert forall|j: int, k: int|
        0 <= j < k < new_pool.len() && (#[trigger] new_pool[j]).blk is Some implies new_pool[j].blk
        != (#[trigger] new_pool[k]).blk by {
        if j != i && k != i {
            assert(pool[j].blk != pool[k].blk);
        } else if j == i {
            assert(pool[k].blk != Some(blk));
        } else {
            assert(pool[j].blk != Some(blk));
        }
    }
    if fresh.contents.len() == bs {
        assert forall|j: int| 0 <= j < new_pool.len() implies buffer_ok(
            #[trigger] new_pool[j],
            after,
            bs,
            log_name,
        ) by {
            if j != i {
                assert(buffer_ok(pool[j], data, bs, log_name));
                if pool[j].blk is Some && victim.blk is Some {
                    if j < i {
                        assert(pool[j].blk != pool[i].blk);
                    } else {
                        assert(pool[i].blk != pool[j].blk);
                    }
                }
            }
        }
    }
    assert forall|b: BlockIdView| #[trigger]
        value_in(new_pool, after, bs, b) == value_in(pool, data, bs, b) by {
        if holds(new_pool, b) {
            let j = slot_of(new_pool, b);
            lemma_slot_unique(new_pool, b, j);
            if j != i {
                assert(pool[j].blk == Some(b));
                lemma_slot_unique(pool, b, j);
            } else {
                assert(b == blk);
            }
        } else {
            if holds(pool, b) {
                let j = slot_of(pool, b);
                if j != i {
                    assert(new_pool[j].blk == Some(b));
                    assert(false);
                }
                lemma_slot_unique(pool, b, i);
            } else {
                if victim.blk is Some {
                    assert(victim.blk != Some(b));
                }
            }
        }
    }
}

/// Whether a request that began at `start_time` has, at `now`, waited for more
/// than `max_time`.
pub open spec fn waited_too_long(start_time: u64, now: u64, max_time: u64) -> bool {
    now - start_time > max_time
}

/// The message of the abort that ends a wait for a buffer.
pub open spec fn buffer_abort_message() -> Seq<char> {
    "BufferAbortException"@
}

/// A change of the pin count of one buffer changes the number of unpinned buffers
/// by at most one.
pub proof fn lemma_unpinned_update(pool: Seq<BufferView>, i: int, b: BufferView)
    requires
        0 <= i < pool.len(),
    ensures
        unpinned(pool.update(i, b)) == unpinned(pool) - (if pool[i].pins <= 0 {
            1int
        } else {
            0int
        }) + (if b.pins <= 0 {
            1int
        } else {
            0int
        }),
    decreases pool.len(),
{
    if i == pool.len() - 1 {
        assert(pool.update(i, b).drop_last() =~= pool.drop_last());
    } else {
        assert(pool.update(i, b).drop_last() =~= pool.drop_last().update(i, b));
        lemma_unpinned_update(pool.drop_last(), i, b);
    }
}

/// The sum of the pins of the buffers of `pool`.
pub open spec fn outstanding_pins(pool: Seq<BufferView>) -> int
    decreases pool.len(),
{
    if pool.len() == 0 {
        0
    } else {
        outstanding_pins(pool.drop_last()) + pool.last().pins
    }
}

/// Where no buffer is pinned more than once, the unpinned buffers are those that
/// the pins leave over.
pub proof fn lemma_unpinned_single_pins(pool: Seq<BufferView>)
    requires
        forall|i: int| 0 <= i < pool.len() ==> 0 <= (#[trigger] pool[i]).pins <= 1,
    ensures
        unpinned(pool) == pool.len() - outstanding_pins(pool),
    decreases pool.len(),
{
    if pool.len() > 0 {
        assert forall|i: int| 0 <= i < pool.drop_last().len() implies 0 <= (
        #[trigger] pool.drop_last()[i]).pins <= 1 by {
            assert(pool.drop_last()[i] == pool[i]);
        }
        lemma_unpinned_single_pins(pool.drop_last());
        assert(0 <= pool[pool.len() - 1].pins <= 1);
    }
}

/// There are no more unpinned buffers than buffers, and none where all are pinned.
pub proof fn lemma_unpinned_bounds(pool: Seq<BufferView>)
    ensures
        unpinned(pool) <= pool.len(),
        all_pinned(pool) <==> unpinned(pool) == 0,
    decreases pool.len(),
{
    if pool.len() > 0 {
        lemma_unpinned_bounds(pool.drop_last());
        if all_pinned(pool) {
            assert forall|j: int| 0 <= j < pool.drop_last().len() implies (
            #[trigger] pool.drop_last()[j]).pins > 0 by {
                assert(pool.drop_last()[j] == pool[j]);
            }
        }
        if unpinned(pool) == 0 {
            assert forall|j: int| 0 <= j < pool.len() implies (#[trigger] pool[j]).pins > 0 by {
                if j < pool.len() - 1 {
                    assert(pool.drop_last()[j] == pool[j]);
                }
            }
        }
    }
}

/// The buffer `b` after it has been written out: no transaction has changed it.
pub open spec fn cleaned_one(b: BufferView) -> BufferView {
    BufferView { tx_num: -1, ..b }
}

/// The pool after the buffers that the transaction `tx_num` has changed have been
/// written out.
pub open spec fn cleaned(pool: Seq<BufferView>, tx_num: int) -> Seq<BufferView> {
    Seq::new(
        pool.len(),
        |i: int|
            if pool[i].tx_num == tx_num {
                cleaned_one(pool[i])
            } else {
                pool[i]
            },
    )
}

/// The files after those of the first `n` buffers of `pool` that the transaction
/// `tx_num` has changed have been written out over `data`, in the order of the
/// pool.
pub open spec fn data_after_flush(
    pool: Seq<BufferView>,
    data: Disk,
    bs: nat,
    tx_num: int,
    n: int,
) -> Disk
    decreases n,
{
    if n <= 0 {
        data
    } else if pool[n - 1].tx_num == tx_num {
        written_out(pool[n - 1], data_after_flush(pool, data, bs, tx_num, n - 1), bs)
    } else {
        data_after_flush(pool, data, bs, tx_num, n - 1)
    }
}

/// The latest log record of a change that the transaction `tx_num` has made to one
/// of the first `n` buffers of `pool`; -1 where it has changed none of them.
pub open spec fn lsn_to_force(pool: Seq<BufferView>, tx_num: int, n: int) -> int
    decreases n,
{
    if n <= 0 {
        -1
    } else {
        let before = lsn_to_force(pool, tx_num, n - 1);
        if pool[n - 1].tx_num == tx_num && flush_lsn(pool[n - 1]) > before {
            flush_lsn(pool[n - 1])
        } else {
            before
        }
    }
}

/// Writing one buffer out keeps the pool consistent and changes what no block
/// holds.
pub proof fn lemma_written_out(
    pool: Seq<BufferView>,
    data: Disk,
    bs: nat,
    log_name: Seq<char>,
    i: int,
)
    requires
        distinct_blocks(pool),
        forall|j: int| 0 <= j < pool.len() ==> buffer_ok(#[trigger] pool[j], data, bs, log_name),
        0 <= i < pool.len(),
    ensures
        distinct_blocks(pool.update(i, cleaned_one(pool[i]))),
        forall|j: int|
            0 <= j < pool.len() ==> buffer_ok(
                #[trigger] pool.update(i, cleaned_one(pool[i]))[j],
                written_out(pool[i], data, bs),
                bs,
                log_name,
            ),
        forall|b: BlockIdView| #[trigger]
            value_in(pool.update(i, cleaned_one(pool[i])), written_out(pool[i], data, bs), bs, b)
                == value_in(pool, data, bs, b),
        unpinned(pool.update(i, cleaned_one(pool[i]))) == unpinned(pool),
{
    let new_pool = pool.update(i, cleaned_one(pool[i]));
    let after = written_out(pool[i], data, bs);
    lemma_unpinned_update(pool, i, cleaned_one(pool[i]));
    assert(buffer_ok(pool[i], data, bs, log_name));
    if pool[i].tx_num >= 0 {
        lemma_written_block_at(
            data,
            pool[i].blk.unwrap().file_name,
            pool[i].blk.unwrap().blk_num,
            bs,
            pool[i].contents,
        );
    }
    assert forall|j: int, k: int|
        0 <= j < k < new_pool.len() && (#[trigger] new_pool[j]).blk is Some implies new_pool[j].blk
        != (#[trigger] new_pool[k]).blk by {
        assert(pool[j].blk != pool[k].blk);
    }
    assert forall|j: int| 0 <= j < pool.len() implies buffer_ok(
        #[trigger] new_pool[j],
        after,
        bs,
        log_name,
    ) by {
        assert(buffer_ok(pool[j], data, bs, log_name));
        if j != i && pool[j].blk is Some && pool[i].blk is Some {
            if j < i {
                assert(pool[j].blk != pool[i].blk);
            } else {
                assert(pool[i].blk != pool[j].blk);
            }
        }
    }
    assert forall|b: BlockIdView| #[trigger]
        value_in(new_pool, after, bs, b) == value_in(pool, data, bs, b) by {
        if holds(new_pool, b) {
            let j = slot_of(new_pool, b);
            assert(pool[j].blk == Some(b));
            lemma_slot_unique(pool, b, j);
        } else if holds(pool, b) {
            let j = slot_of(pool, b);
            assert(new_pool[j].blk == Some(b));
        } else {
            if pool[i].blk is Some {
                assert(pool[i].blk != Some(b));
            }
        }
    }
}

/// What one attempt to pin the block `blk` does to a pool and gives back. A buffer
/// that holds the block is pinned once more. Else the first unpinned buffer is
/// written out, assigned to the block, filled from the store and pinned. Where
/// every buffer is pinned, nothing changes and no buffer is given.
pub open spec fn pin_attempt(
    before: &BufferMgr,
    after: &BufferMgr,
    blk: BlockIdView,
    r: Option<usize>,
) -> bool {
    let pool = before.pool();
    if holds(pool, blk) {
        let i = slot_of(pool, blk);
        &&& r == Some(i as usize)
        &&& after.pool() == pool.update(i, pinned_again(pool[i]))
        &&& after.log() == before.log()
    } else if !all_pinned(pool) {
        &&& r is Some
        &&& is_first_unpinned(pool, r.unwrap() as int)
        &&& flushed_log(before.log(), after.log(), pool[r.unwrap() as int])
        &&& after.data() == touched(
            flushed_data(before.log(), pool[r.unwrap() as int]),
            blk.file_name,
            blk.blk_num,
            before.log().bs(),
        )
        &&& after.pool() == pool.update(
            r.unwrap() as int,
            reassigned(
                pool[r.unwrap() as int],
                blk,
                block_at(after.data(), blk.file_name, blk.blk_num, before.log().bs()),
            ),
        )
    } else {
        &&& r is None
        &&& after.pool() == pool
        &&& after.log() == before.log()
    }
}

/// Whether the block `blk` can be pinned in `pool`: the buffer that holds it, if
/// any, can count one pin more.
pub open spec fn can_pin(pool: Seq<BufferView>, blk: BlockIdView) -> bool {
    holds(pool, blk) ==> pool[slot_of(pool, blk)].pins < i32::MAX
}

/// The fixed pool of buffers. It owns the log manager, and through it the block
/// store.
pub struct BufferMgr {
    lm: LogMgr,
    buffer_pool: Vec<Buffer>,
    available_num: i32,
    max_time: u64,
    next_tx_num: i32,
}

impl BufferMgr {
    /// The buffers of the pool, by index.
    pub closed spec fn pool(&self) -> Seq<BufferView> {
        Seq::new(self.buffer_pool@.len(), |i: int| self.buffer_pool@[i]@)
    }

    /// The log manager of the pool.
    pub closed spec fn log(&self) -> &LogMgr {
        &self.lm
    }

    /// The number that [`Self::available`] gives.
    pub closed spec fn avail(&self) -> int {
        self.available_num as int
    }

    /// The longest that a request for a buffer waits, in milliseconds.
    pub closed spec fn max_wait(&self) -> u64 {
        self.max_time
    }

    /// The number of the transaction that was begun last.
    pub closed spec fn last_tx(&self) -> int {
        self.next_tx_num as int
    }

    /// The files of the store other than the log.
    pub open spec fn data(&self) -> Disk {
        self.log().data()
    }

    /// What the block `blk` holds as far as the users of the pool can tell: the
    /// page of the buffer that is assigned to it or, where there is none, what the
    /// store has.
    pub open spec fn block_value(&self, blk: BlockIdView) -> Seq<u8> {
        value_in(self.pool(), self.data(), self.log().bs(), blk)
    }

    /// Whether the pool is consistent.
    pub closed spec fn wf(&self) -> bool {
        &&& self.lm.wf()
        &&& self.buffer_pool@.len() <= i32::MAX
        &&& self.available_num == unpinned(self.pool())
        &&& distinct_blocks(self.pool())
        &&& forall|i: int|
            0 <= i < self.buffer_pool@.len() ==> (#[trigger] self.buffer_pool@[i]).wf()
        &&& forall|i: int|
            0 <= i < self.pool().len() ==> buffer_ok(
                #[trigger] self.pool()[i],
                self.lm.data(),
                self.lm.bs(),
                self.lm.log_name(),
            )
    }

    /// What holds of every consistent pool: the log manager is consistent, no two
    /// buffers are assigned to the same block, a pinned or changed buffer is
    /// assigned to a block of a file other than the log, an unchanged buffer holds
    /// what the store has, and the number of available buffers is the number of
    /// unpinned ones.
    pub proof fn lemma_wf(&self)
        requires
            self.wf(),
        ensures
            self.log().wf(),
            self.pool().len() <= i32::MAX,
            self.avail() == unpinned(self.pool()),
            self.avail() == self.pool().len() - (self.pool().len() - unpinned(self.pool())),
            0 <= self.avail() <= self.pool().len(),
            distinct_blocks(self.pool()),
            forall|i: int|
                0 <= i < self.pool().len() ==> buffer_ok(
                    #[trigger] self.pool()[i],
                    self.data(),
                    self.log().bs(),
                    self.log().log_name(),
                ),
    {
        lemma_unpinned_bounds(self.pool());
    }

    /// The number of available buffers of a consistent pool is never negative, and
    /// is the number of unpinned buffers. Where every pinned block is pinned once,
    /// as after pins and unpins of distinct blocks, it is the size of the pool less
    /// the number of pins that are outstanding.
    pub proof fn lemma_available(&self)
        requires
            self.wf(),
        ensures
            0 <= self.avail() <= self.pool().len(),
            self.avail() == unpinned(self.pool()),
            (forall|i: int| 0 <= i < self.pool().len() ==> (#[trigger] self.pool()[i]).pins <= 1)
                ==> self.avail() == self.pool().len() - outstanding_pins(self.pool()),
    {
        self.lemma_wf();
        if forall|i: int| 0 <= i < self.pool().len() ==> (#[trigger] self.pool()[i]).pins <= 1 {
            assert forall|i: int| 0 <= i < self.pool().len() implies 0 <= (
            #[trigger] self.pool()[i]).pins <= 1 by {
                assert(buffer_ok(
                    self.pool()[i],
                    self.data(),
                    self.log().bs(),
                    self.log().log_name(),
                ));
            }
            lemma_unpinned_single_pins(self.pool());
        }
    }

    /// An attempt to pin a block changes what no block holds.
    pub proof fn lemma_pin_keeps_values(&self, after: &BufferMgr, blk: BlockIdView)
        requires
            self.wf(),
            self.log().is_data_block(blk),
            pin_attempt(self, after, blk, pin_slot(self.pool(), blk)),
        ensures
            forall|b: BlockIdView| #[trigger] after.block_value(b) == self.block_value(b),
    {
        let pool = self.pool();
        self.lemma_wf();
        if holds(pool, blk) {
            let i = slot_of(pool, blk);
            assert forall|b: BlockIdView| #[trigger]
                after.block_value(b) == self.block_value(b) by {
                if holds(after.pool(), b) {
                    let j = slot_of(after.pool(), b);
                    assert(pool[j].blk == Some(b));
                    lemma_slot_unique(pool, b, j);
                    assert forall|x: int, y: int|
                        0 <= x < y < after.pool().len() && (#[trigger] after.pool()[x]).blk is Some implies after.pool()[x].blk
                        != (#[trigger] after.pool()[y]).blk by {
                        assert(pool[x].blk != pool[y].blk);
                    }
                    lemma_slot_unique(after.pool(), b, j);
                } else if holds(pool, b) {
                    let j = slot_of(pool, b);
                    assert(after.pool()[j].blk == Some(b));
                }
            }
        } else if !all_pinned(pool) {
            let i = first_unpinned(pool);
            lemma_first_unpinned(pool, pin_slot(pool, blk).unwrap() as int);
            self.log().lemma_wf();
            assert(buffer_ok(pool[i], self.data(), self.log().bs(), self.log().log_name()));
            lemma_touched_block_at(
                written_out(pool[i], self.data(), self.log().bs()),
                blk.file_name,
                blk.blk_num,
                self.log().bs(),
            );
            self.lemma_block_len(after, blk);
            lemma_replaced(
                pool,
                self.data(),
                self.log().bs(),
                self.log().log_name(),
                i,
                blk,
                after.data(),
                after.pool(),
            );
        }
    }

    /// The block that an attempt to pin has read from the store has the block
    /// size.
    proof fn lemma_block_len(&self, after: &BufferMgr, blk: BlockIdView)
        requires
            self.wf(),
            self.log().is_data_block(blk),
            !holds(self.pool(), blk),
            !all_pinned(self.pool()),
            pin_attempt(self, after, blk, pin_slot(self.pool(), blk)),
        ensures
            block_at(after.data(), blk.file_name, blk.blk_num, self.log().bs()).len()
                == self.log().bs(),
    {
        self.log().lemma_wf();
        after.log().lemma_data_block_len(blk);
    }

    /// In a consistent pool the buffer found at `i` with the block `blk` is the one
    /// that holds the block.
    pub proof fn lemma_slot(&self, blk: BlockIdView, i: int)
        requires
            self.wf(),
            0 <= i < self.pool().len(),
            self.pool()[i].blk == Some(blk),
        ensures
            holds(self.pool(), blk),
            slot_of(self.pool(), blk) == i,
            self.block_value(blk) == self.pool()[i].contents,
    {
        lemma_slot_unique(self.pool(), blk, i);
    }

    /// A pool of `buffer_size` buffers over the log manager `lm`.
    pub fn new(lm: LogMgr, buffer_size: usize) -> (bm: Self)
        requires
            lm.wf(),
            buffer_size <= i32::MAX,
        ensures
            bm.wf(),
            *bm.log() == lm,
            bm.pool() == Seq::new(
                buffer_size as nat,
                |i: int|
                    BufferView { contents: zeros(lm.bs()), blk: None, pins: 0, tx_num: -1, lsn: -1 },
            ),
            bm.avail() == buffer_size,
            bm.max_wait() == MAX_TIME,
            bm.last_tx() == 0,
    {
        let mut buffer_pool: Vec<Buffer> = Vec::new();
        let mut i: usize = 0;
        let ghost fresh = BufferView {
            contents: zeros(lm.bs()),
            blk: None,
            pins: 0,
            tx_num: -1,
            lsn: -1,
        };
        while i < buffer_size
            invariant
                i <= buffer_size,
                buffer_pool@.len() == i,
                forall|j: int| 0 <= j < i ==> (#[trigger] buffer_pool@[j]).wf() && buffer_pool@[j]@ == fresh,
                fresh == (BufferView {
                    contents: zeros(lm.bs()),
                    blk: None,
                    pins: 0,
                    tx_num: -1,
                    lsn: -1,
                }),
                unpinned(Seq::new(i as nat, |k: int| fresh)) == i,
            decreases buffer_size - i,
        {
            buffer_pool.push(Buffer::new(&lm));
            proof {
                let longer = Seq::new((i + 1) as nat, |k: int| fresh);
                assert(longer.drop_last() =~= Seq::new(i as nat, |k: int| fresh));
            }
            i = i + 1;
        }
        let bm = BufferMgr {
            lm,
            buffer_pool,
            available_num: buffer_size as i32,
            max_time: MAX_TIME,
            next_tx_num: 0,
        };
        proof {
            assert(bm.pool() =~= Seq::new(buffer_size as nat, |k: int| fresh));
        }
        bm
    }

    /// The number of buffers that nobody has pinned.
    pub fn available(&self) -> (n: i32)
        ensures
            n == self.avail(),
            self.wf() ==> n == unpinned(self.pool()) && 0 <= n <= self.pool().len(),
    {
        proof {
            lemma_unpinned_bounds(self.pool());
        }
        self.available_num
    }

    /// The number of buffers of the pool.
    pub fn pool_size(&self) -> (n: usize)
        ensures
            n == self.pool().len(),
    {
        self.buffer_pool.len()
    }

    /// The buffer at index `idx`.
    pub fn buffer(&self, idx: usize) -> (buffer: &Buffer)
        requires
            idx < self.pool().len(),
        ensures
            buffer@ == self.pool()[idx as int],
            self.wf() ==> buffer.wf(),
    {
        &self.buffer_pool[idx]
    }

    /// The log manager.
    pub fn log_mgr(&self) -> (lm: &LogMgr)
        ensures
            lm == self.log(),
    {
        &self.lm
    }

    /// Whether a request that began at `start_time` has waited too long at `now`:
    /// both are times in milliseconds.
    pub fn wait_too_long(&self, start_time: u64, now: u64) -> (too_long: bool)
        ensures
            too_long == waited_too_long(start_time, now, self.max_wait()),
    {
        now > start_time && now - start_time > self.max_time
    }

    /// Tries once to pin the block `blk`, and gives the index of its buffer.
    pub fn try_to_pin(&mut self, blk: &BlockId) -> (r: Option<usize>)
        requires
            old(self).wf(),
            old(self).log().is_data_block(blk@),
            can_pin(old(self).pool(), blk@),
        ensures
            final(self).wf(),
            r == pin_slot(old(self).pool(), blk@),
            pin_attempt(old(self), final(self), blk@, r),
            final(self).max_wait() == old(self).max_wait(),
            final(self).last_tx() == old(self).last_tx(),
            forall|b: BlockIdView| #[trigger] final(self).block_value(b) == old(self).block_value(b),
            r matches Some(i) ==> i < final(self).pool().len() && final(self).pool()[i as int].blk
                == Some(blk@) && final(self).pool()[i as int].pins > 0,
    {
        let ghost pool = self.pool();
        let res = self.find_existing_buffer(blk);
        if res.found {
            let i = res.idx;
            if !self.buffer_pool[i].is_pinned() {
                proof {
                    lemma_unpinned_bounds(pool);
                }
                self.available_num = self.available_num - 1;
            }
            self.buffer_pool[i].pin();
            proof {
                assert(self.pool() =~= pool.update(i as int, pinned_again(pool[i as int])));
                lemma_unpinned_update(pool, i as int, pinned_again(pool[i as int]));
                assert forall|j: int| 0 <= j < self.pool().len() implies buffer_ok(
                    #[trigger] self.pool()[j],
                    self.lm.data(),
                    self.lm.bs(),
                    self.lm.log_name(),
                ) by {
                    assert(buffer_ok(pool[j], self.lm.data(), self.lm.bs(), self.lm.log_name()));
                }
                assert forall|j: int, k: int|
                    0 <= j < k < self.pool().len() && (#[trigger] self.pool()[j]).blk is Some implies self.pool()[j].blk
                    != (#[trigger] self.pool()[k]).blk by {
                    assert(pool[j].blk != pool[k].blk);
                }
                assert forall|b: BlockIdView| #[trigger]
                    self.block_value(b) == old(self).block_value(b) by {
                    if holds(self.pool(), b) {
                        let j = slot_of(self.pool(), b);
                        assert(pool[j].blk == Some(b));
                        lemma_slot_unique(pool, b, j);
                    } else if holds(pool, b) {
                        let j = slot_of(pool, b);
                        assert(self.pool()[j].blk == Some(b));
                    }
                }
            }
            Some(i)
        } else {
            let res = self.choose_unpinned_buffer();
            if res.found {
                let i = res.idx;
                proof {
                    lemma_first_unpinned(pool, i as int);
                    lemma_unpinned_bounds(pool);
                    assert(buffer_ok(pool[i as int], self.lm.data(), self.lm.bs(), self.lm.log_name()));
                    lemma_touched_block_at(
                        flushed_data(&self.lm, pool[i as int]),
                        blk@.file_name,
                        blk@.blk_num,
                        self.lm.bs(),
                    );
                }
                self.buffer_pool[i].assign_to_block(&mut self.lm, blk);
                self.available_num = self.available_num - 1;
                self.buffer_pool[i].pin();
                proof {
                    let fresh = reassigned(
                        pool[i as int],
                        blk@,
                        block_at(self.lm.data(), blk@.file_name, blk@.blk_num, self.lm.bs()),
                    );
                    assert(self.pool() =~= pool.update(i as int, fresh));
                    lemma_unpinned_update(pool, i as int, fresh);
                    let data = old(self).lm.data();
                    let bs = self.lm.bs();
                    assert(flushed_data(&old(self).lm, pool[i as int]) == written_out(
                        pool[i as int],
                        data,
                        bs,
                    ));
                    lemma_replaced(
                        pool,
                        data,
                        bs,
                        self.lm.log_name(),
                        i as int,
                        blk@,
                        self.lm.data(),
                        self.pool(),
                    );
                }
                Some(i)
            } else {
                None
            }
        }
    }

    /// One step of a request to pin the block `blk` that began at `start_time`,
    /// taken at `now`: the index of the buffer where one could be pinned; nothing
    /// where the caller is to wait and ask again; the abort where every buffer is
    /// pinned and the request has waited too long.
    pub fn pin(&mut self, blk: &BlockId, start_time: u64, now: u64) -> (r: Result<
        Option<usize>,
        String,
    >)
        requires
            old(self).wf(),
            old(self).log().is_data_block(blk@),
            can_pin(old(self).pool(), blk@),
        ensures
            final(self).wf(),
            final(self).max_wait() == old(self).max_wait(),
            final(self).last_tx() == old(self).last_tx(),
            forall|b: BlockIdView| #[trigger] final(self).block_value(b) == old(self).block_value(b),
            match r {
                Ok(slot) => slot == pin_slot(old(self).pool(), blk@) && pin_attempt(
                    old(self),
                    final(self),
                    blk@,
                    slot,
                ) && (slot is None ==> !waited_too_long(start_time, now, old(self).max_wait())),
                Err(message) => {
                    &&& pin_slot(old(self).pool(), blk@) is None
                    &&& pin_attempt(old(self), final(self), blk@, None)
                    &&& waited_too_long(start_time, now, old(self).max_wait())
                    &&& message@ == buffer_abort_message()
                },
            },
            r matches Ok(Some(i)) ==> i < final(self).pool().len() && final(self).pool()[i as int].blk
                == Some(blk@) && final(self).pool()[i as int].pins > 0,
    {
        match self.try_to_pin(blk) {
            Some(i) => Ok(Some(i)),
            None => {
                if self.wait_too_long(start_time, now) {
                    Err("BufferAbortException".to_string())
                } else {
                    Ok(None)
                }
            },
        }
    }

    /// Takes one pin off the buffer at index `idx`.
    pub fn unpin(&mut self, idx: usize)
        requires
            old(self).wf(),
            idx < old(self).pool().len(),
            old(self).pool()[idx as int].pins > 0,
        ensures
            final(self).wf(),
            final(self).pool() == old(self).pool().update(
                idx as int,
                unpinned_once(old(self).pool()[idx as int]),
            ),
            final(self).log() == old(self).log(),
            final(self).max_wait() == old(self).max_wait(),
            final(self).last_tx() == old(self).last_tx(),
            final(self).avail() == old(self).avail() + if old(self).pool()[idx as int].pins == 1 {
                1int
            } else {
                0int
            },
            old(self).pool()[idx as int].pins > 1 ==> final(self).pool()[idx as int].pins > 0
                && final(self).avail() == old(self).avail(),
            forall|b: BlockIdView| #[trigger] final(self).block_value(b) == old(self).block_value(b),
    {
        let ghost pool = self.pool();
        self.buffer_pool[idx].unpin();
        if !self.buffer_pool[idx].is_pinned() {
            proof {
                lemma_unpinned_bounds(pool.update(idx as int, unpinned_once(pool[idx as int])));
                lemma_unpinned_update(pool, idx as int, unpinned_once(pool[idx as int]));
            }
            self.available_num = self.available_num + 1;
        }
        proof {
            assert(self.pool() =~= pool.update(idx as int, unpinned_once(pool[idx as int])));
            lemma_unpinned_update(pool, idx as int, unpinned_once(pool[idx as int]));
            assert forall|j: int| 0 <= j < self.pool().len() implies buffer_ok(
                #[trigger] self.pool()[j],
                self.lm.data(),
                self.lm.bs(),
                self.lm.log_name(),
            ) by {
                assert(buffer_ok(pool[j], self.lm.data(), self.lm.bs(), self.lm.log_name()));
            }
            assert forall|j: int, k: int|
                0 <= j < k < self.pool().len() && (#[trigger] self.pool()[j]).blk is Some implies self.pool()[j].blk
                != (#[trigger] self.pool()[k]).blk by {
                assert(pool[j].blk != pool[k].blk);
            }
            assert forall|b: BlockIdView| #[trigger]
                self.block_value(b) == old(self).block_value(b) by {
                if holds(self.pool(), b) {
                    let j = slot_of(self.pool(), b);
                    assert(pool[j].blk == Some(b));
                    lemma_slot_unique(pool, b, j);
                } else if holds(pool, b) {
                    let j = slot_of(pool, b);
                    assert(self.pool()[j].blk == Some(b));
                }
            }
        }
    }

    /// Writes the buffer at index `idx` out, as [`Buffer::flush`] does.
    pub fn flush_at(&mut self, idx: usize)
        requires
            old(self).wf(),
            idx < old(self).pool().len(),
        ensures
            final(self).wf(),
            final(self).pool() == old(self).pool().update(
                idx as int,
                cleaned_one(old(self).pool()[idx as int]),
            ),
            flushed_log(old(self).log(), final(self).log(), old(self).pool()[idx as int]),
            final(self).data() == written_out(
                old(self).pool()[idx as int],
                old(self).data(),
                old(self).log().bs(),
            ),
            final(self).avail() == old(self).avail(),
            final(self).max_wait() == old(self).max_wait(),
            final(self).last_tx() == old(self).last_tx(),
            forall|b: BlockIdView| #[trigger] final(self).block_value(b) == old(self).block_value(b),
    {
        let ghost pool = self.pool();
        proof {
            assert(buffer_ok(pool[idx as int], self.lm.data(), self.lm.bs(), self.lm.log_name()));
            lemma_written_out(pool, self.lm.data(), self.lm.bs(), self.lm.log_name(), idx as int);
        }
        self.buffer_pool[idx].flush(&mut self.lm);
        proof {
            assert(self.pool() =~= pool.update(idx as int, cleaned_one(pool[idx as int])));
            assert(flushed_data(&old(self).lm, pool[idx as int]) == written_out(
                pool[idx as int],
                old(self).lm.data(),
                self.lm.bs(),
            ));
        }
    }

    /// Writes out every buffer that the transaction `tx_num` has changed.
    pub fn flush_all(&mut self, tx_num: i32)
        requires
            old(self).wf(),
        ensures
            final(self).wf(),
            final(self).pool() == cleaned(old(self).pool(), tx_num as int),
            forced_log(
                old(self).log(),
                final(self).log(),
                lsn_to_force(old(self).pool(), tx_num as int, old(self).pool().len() as int),
            ),
            final(self).data() == data_after_flush(
                old(self).pool(),
                old(self).data(),
                old(self).log().bs(),
                tx_num as int,
                old(self).pool().len() as int,
            ),
            final(self).avail() == old(self).avail(),
            final(self).max_wait() == old(self).max_wait(),
            final(self).last_tx() == old(self).last_tx(),
            forall|b: BlockIdView| #[trigger] final(self).block_value(b) == old(self).block_value(b),
    {
        let ghost pool = self.pool();
        let ghost data = self.data();
        let ghost bs = self.lm.bs();
        let mut i: usize = 0;
        proof {
            self.lm.lemma_wf();
            assert(self.pool() =~= Seq::new(
                pool.len(),
                |j: int|
                    if j < 0 && pool[j].tx_num == tx_num {
                        cleaned_one(pool[j])
                    } else {
                        pool[j]
                    },
            ));
        }
        while i < self.buffer_pool.len()
            invariant
                self.wf(),
                old(self).wf(),
                pool == old(self).pool(),
                data == old(self).data(),
                bs == old(self).log().bs(),
                i <= pool.len(),
                self.pool() == Seq::new(
                    pool.len(),
                    |j: int|
                        if j < i && pool[j].tx_num == tx_num {
                            cleaned_one(pool[j])
                        } else {
                            pool[j]
                        },
                ),
                forced_log(old(self).log(), self.log(), lsn_to_force(pool, tx_num as int, i as int)),
                self.data() == data_after_flush(pool, data, bs, tx_num as int, i as int),
                self.avail() == old(self).avail(),
                self.max_wait() == old(self).max_wait(),
                self.last_tx() == old(self).last_tx(),
                forall|b: BlockIdView| #[trigger] self.block_value(b) == old(self).block_value(b),
            decreases pool.len() - i,
        {
            let ghost before = *self;
            if self.buffer_pool[i].modifying_tx() == tx_num {
                self.flush_at(i);
                proof {
                    lemma_forced_twice(
                        old(self).log(),
                        before.log(),
                        self.log(),
                        lsn_to_force(pool, tx_num as int, i as int),
                        flush_lsn(pool[i as int]),
                    );
                }
            }
            proof {
                assert(self.pool() =~= Seq::new(
                    pool.len(),
                    |j: int|
                        if j < i + 1 && pool[j].tx_num == tx_num {
                            cleaned_one(pool[j])
                        } else {
                            pool[j]
                        },
                ));
            }
            i = i + 1;
        }
        proof {
            assert(self.pool() =~= cleaned(pool, tx_num as int));
        }
    }

    /// Replaces the page of the buffer at index `idx`, which is assigned to a
    /// block, and notes that the transaction `tx_num` has changed it, with the log
    /// record `lsn` where `lsn` is not negative.
    pub fn write_page(&mut self, idx: usize, page: crate::file::page::Page, tx_num: i32, lsn: i64)
        requires
            old(self).wf(),
            idx < old(self).pool().len(),
            old(self).pool()[idx as int].blk is Some,
            page.wf(),
            page@.len() == old(self).log().bs(),
            tx_num >= 0,
        ensures
            final(self).wf(),
            final(self).pool() == old(self).pool().update(
                idx as int,
                (BufferView {
                    contents: page@,
                    tx_num: tx_num as int,
                    lsn: if lsn >= 0 {
                        lsn as int
                    } else {
                        old(self).pool()[idx as int].lsn
                    },
                    ..old(self).pool()[idx as int]
                }),
            ),
            final(self).log() == old(self).log(),
            final(self).avail() == old(self).avail(),
            final(self).max_wait() == old(self).max_wait(),
            final(self).last_tx() == old(self).last_tx(),
            forall|b: BlockIdView| #[trigger]
                final(self).block_value(b) == if Some(b) == old(self).pool()[idx as int].blk {
                    page@
                } else {
                    old(self).block_value(b)
                },
    {
        let ghost pool = self.pool();
        self.buffer_pool[idx].set_contents(page);
        self.buffer_pool[idx].set_modified(tx_num, lsn);
        proof {
            let changed = self.pool()[idx as int];
            assert(self.pool() =~= pool.update(idx as int, changed));
            lemma_unpinned_update(pool, idx as int, changed);
            assert forall|j: int| 0 <= j < self.pool().len() implies buffer_ok(
                #[trigger] self.pool()[j],
                self.lm.data(),
                self.lm.bs(),
                self.lm.log_name(),
            ) by {
                assert(buffer_ok(pool[j], self.lm.data(), self.lm.bs(), self.lm.log_name()));
            }
            assert forall|j: int, k: int|
                0 <= j < k < self.pool().len() && (#[trigger] self.pool()[j]).blk is Some implies self.pool()[j].blk
                != (#[trigger] self.pool()[k]).blk by {
                assert(pool[j].blk != pool[k].blk);
            }
            assert forall|b: BlockIdView| #[trigger]
                self.block_value(b) == if Some(b) == pool[idx as int].blk {
                    page@
                } else {
                    old(self).block_value(b)
                } by {
                if holds(self.pool(), b) {
                    let j = slot_of(self.pool(), b);
                    assert(pool[j].blk == Some(b));
                    lemma_slot_unique(pool, b, j);
                    lemma_slot_unique(self.pool(), b, j);
                    if Some(b) == pool[idx as int].blk {
                        lemma_slot_unique(pool, b, idx as int);
                    }
                } else if holds(pool, b) {
                    let j = slot_of(pool, b);
                    assert(self.pool()[j].blk == Some(b));
                }
            }
        }
    }

    /// Adds the record `rec` to the log, as [`LogMgr::append`] does.
    pub fn append_log(&mut self, rec: Vec<u8>) -> (lsn: i64)
        requires
            old(self).wf(),
            old(self).log().can_append(rec@.len()),
        ensures
            final(self).wf(),
            appended(old(self).log(), final(self).log(), rec@, lsn as int),
            final(self).pool() == old(self).pool(),
            final(self).avail() == old(self).avail(),
            final(self).max_wait() == old(self).max_wait(),
            final(self).last_tx() == old(self).last_tx(),
            forall|b: BlockIdView| #[trigger] final(self).block_value(b) == old(self).block_value(b),
    {
        let ghost pool = self.pool();
        let lsn = self.lm.append(rec);
        proof {
            assert(self.pool() =~= pool);
        }
        lsn
    }

    /// Forces the log up to the record `lsn`, as [`LogMgr::flush_with_lsn`] does.
    pub fn flush_log(&mut self, lsn: i64)
        requires
            old(self).wf(),
        ensures
            final(self).wf(),
            forced_log(old(self).log(), final(self).log(), lsn as int),
            final(self).data() == old(self).data(),
            final(self).pool() == old(self).pool(),
            final(self).avail() == old(self).avail(),
            final(self).max_wait() == old(self).max_wait(),
            final(self).last_tx() == old(self).last_tx(),
            forall|b: BlockIdView| #[trigger] final(self).block_value(b) == old(self).block_value(b),
    {
        let ghost pool = self.pool();
        self.lm.flush_with_lsn(lsn);
        proof {
            assert(self.pool() =~= pool);
        }
    }

    /// A cursor over the log at its newest record, as [`LogMgr::iterator`] gives.
    pub fn log_iterator(&mut self) -> (it: LogIterator)
        requires
            old(self).wf(),
        ensures
            final(self).wf(),
            forced_log(old(self).log(), final(self).log(), old(self).log().latest()),
            final(self).data() == old(self).data(),
            final(self).pool() == old(self).pool(),
            final(self).avail() == old(self).avail(),
            final(self).max_wait() == old(self).max_wait(),
            final(self).last_tx() == old(self).last_tx(),
            forall|b: BlockIdView| #[trigger] final(self).block_value(b) == old(self).block_value(b),
            it.wf(final(self).log().disk()),
            it.remaining(final(self).log().disk()) == final(self).log().records().reverse(),
    {
        let ghost pool = self.pool();
        let it = self.lm.iterator();
        proof {
            assert(self.pool() =~= pool);
        }
        it
    }

    /// Every record of the log, the newest first, as
    /// [`LogMgr::newest_first_records`] gives them.
    pub fn log_records(&mut self) -> (recs: Vec<Vec<u8>>)
        requires
            old(self).wf(),
        ensures
            final(self).wf(),
            forced_log(old(self).log(), final(self).log(), old(self).log().latest()),
            final(self).data() == old(self).data(),
            final(self).pool() == old(self).pool(),
            final(self).avail() == old(self).avail(),
            final(self).max_wait() == old(self).max_wait(),
            final(self).last_tx() == old(self).last_tx(),
            forall|b: BlockIdView| #[trigger] final(self).block_value(b) == old(self).block_value(b),
            views(recs@) == old(self).log().records().reverse(),
    {
        let ghost pool = self.pool();
        let recs = self.lm.newest_first_records();
        proof {
            assert(self.pool() =~= pool);
        }
        recs
    }

    /// Adds a zero block to the file `file_name`, as [`LogMgr::append_block`] does.
    pub fn append_block(&mut self, file_name: &String) -> (blk: BlockId)
        requires
            old(self).wf(),
            file_name@ != old(self).log().log_name(),
            blocks_of(old(self).data(), file_name@).len() < usize::MAX,
        ensures
            final(self).wf(),
            final(self).log().same_log(old(self).log()),
            final(self).data() == grown(old(self).data(), file_name@, old(self).log().bs()),
            blk@.file_name == file_name@,
            blk@.blk_num == blocks_of(old(self).data(), file_name@).len(),
            final(self).pool() == old(self).pool(),
            final(self).avail() == old(self).avail(),
            final(self).max_wait() == old(self).max_wait(),
            final(self).last_tx() == old(self).last_tx(),
            forall|b: BlockIdView| #[trigger] final(self).block_value(b) == old(self).block_value(b),
    {
        let ghost pool = self.pool();
        proof {
            lemma_grown_block_at(self.lm.data(), file_name@, self.lm.bs());
        }
        let blk = self.lm.append_block(file_name);
        proof {
            assert(self.pool() =~= pool);
            assert forall|j: int| 0 <= j < self.pool().len() implies buffer_ok(
                #[trigger] self.pool()[j],
                self.lm.data(),
                self.lm.bs(),
                self.lm.log_name(),
            ) by {
                assert(buffer_ok(pool[j], old(self).lm.data(), self.lm.bs(), self.lm.log_name()));
            }
        }
        blk
    }

    /// The number of blocks of the file `file_name` in the store.
    pub fn length(&self, file_name: &String) -> (n: u64)
        requires
            self.wf(),
        ensures
            n == blocks_of(self.log().disk(), file_name@).len(),
    {
        self.lm.length(file_name)
    }

    /// The size of a block.
    pub fn block_size(&self) -> (n: u64)
        ensures
            n == self.log().bs(),
            n <= usize::MAX,
    {
        self.lm.block_size()
    }

    /// Begins a transaction: gives the number after that of the last one.
    pub fn next_tx_num(&mut self) -> (tx_num: i32)
        requires
            old(self).last_tx() < i32::MAX,
        ensures
            tx_num == old(self).last_tx() + 1,
            final(self).last_tx() == tx_num,
            final(self).wf() == old(self).wf(),
            final(self).pool() == old(self).pool(),
            final(self).log() == old(self).log(),
            final(self).avail() == old(self).avail(),
            final(self).max_wait() == old(self).max_wait(),
    {
        self.next_tx_num = self.next_tx_num + 1;
        self.next_tx_num
    }

    /// Looks for the buffer that is assigned to the block `blk`.
    pub fn find_existing_buffer(&self, blk: &BlockId) -> (res: BufferRes)
        requires
            self.wf(),
        ensures
            res.found == holds(self.pool(), blk@),
            res.found ==> res.idx == slot_of(self.pool(), blk@) && res.idx < self.pool().len()
                && self.pool()[res.idx as int].blk == Some(blk@),
            !res.found ==> res.idx == NO_BUFFER,
    {
        let mut i: usize = 0;
        while i < self.buffer_pool.len()
            invariant
                self.wf(),
                i <= self.buffer_pool@.len(),
                forall|j: int| 0 <= j < i ==> (#[trigger] self.pool()[j]).blk != Some(blk@),
            decreases self.buffer_pool@.len() - i,
        {
            let found = match self.buffer_pool[i].block() {
                Some(b) => b.equals(blk),
                None => false,
            };
            assert(found == (self.pool()[i as int].blk == Some(blk@)));
            if found {
                proof {
                    self.lemma_slot(blk@, i as int);
                }
                return BufferRes { found: true, idx: i };
            }
            i = i + 1;
        }
        BufferRes { found: false, idx: NO_BUFFER }
    }

    /// Looks for the first buffer that nobody has pinned.
    pub fn choose_unpinned_buffer(&self) -> (res: BufferRes)
        ensures
            res.found == !all_pinned(self.pool()),
            res.found ==> is_first_unpinned(self.pool(), res.idx as int),
            !res.found ==> res.idx == NO_BUFFER,
    {
        let mut i: usize = 0;
        while i < self.buffer_pool.len()
            invariant
                i <= self.buffer_pool@.len(),
                forall|j: int| 0 <= j < i ==> (#[trigger] self.pool()[j]).pins > 0,
            decreases self.buffer_pool@.len() - i,
        {
            if !self.buffer_pool[i].is_pinned() {
                assert(self.pool()[i as int].pins <= 0);
                return BufferRes { found: true, idx: i };
            }
            i = i + 1;
        }
        BufferRes { found: false, idx: NO_BUFFER }
    }
}

} // verus!
