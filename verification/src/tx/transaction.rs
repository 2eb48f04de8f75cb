use vstd::prelude::*;
use vstd::utf8::encode_utf8;
use crate::buffer::buffer::BufferView;
use crate::buffer::buffer_mgr::{
    all_pinned, buffer_abort_message, can_pin, cleaned, data_after_flush, first_unpinned, holds,
    pin_attempt, pin_slot, slot_of, waited_too_long, BufferMgr,
};
use crate::file::block_id::{BlockId, BlockIdView};
use crate::file::byte_buffer::string_bytes;
use crate::file::codec::{be_u32, be_u64, lemma_u64_round_trip, overwrite, u64_be_bytes};
use crate::file::file_mgr::{block_at, blocks_of, grown};
use crate::file::page::{has_string, string_at, Page};
use crate::logging::format::views;
use crate::logging::log_mgr::{appended, log_kept};
use crate::tx::buffer_list::{occurrences, released_pool, BufferList};
use crate::tx::concurrency::concurrency_mgr::{s_lock_step, x_lock_step, ConcurrencyMgr};
use crate::tx::concurrency::lock_table::{lock_abort_message, released, LockTable};
use crate::tx::recovery::set_int_record::offset_of;
use crate::tx::recovery::undo::{blocked, blocks, in_reach, undo_bytes, undo_target, undone};
use crate::tx::recovery::commit_record::{commit_payload, lemma_commit_payload, CommitRecord};
use crate::tx::recovery::set_int_record::{
    can_name, header_len, lemma_set_int_payload, set_int_payload, SetIntRecord, SetIntView,
};
use crate::tx::recovery::set_string_record::{
    lemma_set_string_payload, set_string_len, set_string_payload, SetStringRecord, SetStringView,
};

verus! {

/// What a change of the bytes from `at` on of the block `blk` to `bytes`, made by
/// the transaction `tx_num` with the log record `lsn` (negative where the change is
/// not logged), does to the pool: the page of the buffer of the block is changed,
/// and the buffer notes the transaction and the record.
pub open spec fn block_changed(
    before: &BufferMgr,
    after: &BufferMgr,
    tx_num: int,
    blk: BlockIdView,
    at: int,
    bytes: Seq<u8>,
    lsn: int,
) -> bool {
    let i = slot_of(before.pool(), blk);
    let b = before.pool()[i];
    &&& after.wf()
    &&& after.pool() == before.pool().update(
        i,
        (BufferView {
            contents: overwrite(b.contents, at, bytes),
            tx_num,
            lsn: if lsn >= 0 {
                lsn
            } else {
                b.lsn
            },
            ..b
        }),
    )
    &&& after.avail() == before.avail()
    &&& after.max_wait() == before.max_wait()
    &&& after.last_tx() == before.last_tx()
    &&& after.data() == before.data()
    &&& forall|other: BlockIdView| #[trigger]
        after.block_value(other) == if other == blk {
            overwrite(before.block_value(other), at, bytes)
        } else {
            before.block_value(other)
        }
}

/// The record that the transaction `tx_num` writes before it changes the number at
/// `offset` in the block `blk`, whose bytes are `value`.
pub open spec fn int_undo_record(tx_num: int, blk: BlockIdView, offset: u64, value: Seq<u8>) -> Seq<u8> {
    set_int_payload(
        SetIntView {
            tx_num: tx_num as i32,
            blk,
            offset,
            val: be_u64(value.subrange(offset as int, offset + 8)),
        },
    )
}

/// The record that the transaction `tx_num` writes before it changes the string
/// at `offset` in the block `blk`, whose bytes are `value`.
pub open spec fn string_undo_record(
    tx_num: int,
    blk: BlockIdView,
    offset: u64,
    value: Seq<u8>,
) -> Seq<u8> {
    set_string_payload(
        SetStringView { tx_num: tx_num as i32, blk, offset, val: string_at(value, offset as int) },
    )
}

/// What a change of the bytes from `offset` on of the block `blk` to `bytes` does
/// to the pool and the log where the transaction `tx_num` makes it: where
/// `undo_record` is given, that record is added to the log first, and the buffer
/// notes its number.
pub open spec fn change_made(
    before: &BufferMgr,
    after: &BufferMgr,
    tx_num: int,
    blk: BlockIdView,
    offset: u64,
    bytes: Seq<u8>,
    undo_record: Option<Seq<u8>>,
) -> bool {
    match undo_record {
        Some(rec) => {
            &&& block_changed(
                before,
                after,
                tx_num,
                blk,
                offset as int,
                bytes,
                before.log().latest() + 1,
            )
            &&& appended(before.log(), after.log(), rec, before.log().latest() + 1)
        },
        None => {
            &&& block_changed(before, after, tx_num, blk, offset as int, bytes, -1)
            &&& after.log() == before.log()
        },
    }
}

/// What one step of undoing a change does: the block `blk` is pinned, the bytes
/// from `at` on in it are set back to `bytes` under an exclusive lock and without
/// a log record, and the pin is taken off again. Where no buffer can be had, or
/// the lock is not granted, nothing is set back, and the result says whether the
/// caller is to wait or to abort.
pub open spec fn undo_step(
    tx0: &Transaction,
    tx1: &Transaction,
    bm0: &BufferMgr,
    bm1: &BufferMgr,
    lt0: &LockTable,
    lt1: &LockTable,
    blk: BlockIdView,
    at: int,
    bytes: Seq<u8>,
    start_time: u64,
    now: u64,
    r: Result<bool, String>,
) -> bool {
    &&& bm1.wf()
    &&& lt1.wf()
    &&& tx1.wf(bm1.pool())
    &&& tx1.num() == tx0.num()
    &&& bm1.max_wait() == bm0.max_wait()
    &&& bm1.last_tx() == bm0.last_tx()
    &&& lt1.max_wait() == lt0.max_wait()
    &&& log_kept(bm0.log(), bm1.log())
    &&& pins_kept(bm0.pool(), bm1.pool())
    &&& forall|b: BlockIdView| #[trigger] tx1.pin_count(b) == tx0.pin_count(b)
    &&& forall|b: BlockIdView| #[trigger]
        bm1.block_value(b) == if b == blk && r == Ok::<bool, String>(true) {
            overwrite(bm0.block_value(b), at, bytes)
        } else {
            bm0.block_value(b)
        }
    &&& if pin_slot(bm0.pool(), blk) is None {
        &&& tx1.locks() == tx0.locks()
        &&& forall|b: BlockIdView| #[trigger] lt1.val(b) == lt0.val(b)
        &&& if waited_too_long(start_time, now, bm0.max_wait()) {
            r matches Err(message) && message@ == buffer_abort_message()
        } else {
            r == Ok::<bool, String>(false)
        }
    } else {
        x_lock_step(
            tx0.locks(),
            tx1.locks(),
            lt0,
            lt1,
            blk,
            now - start_time > lt0.max_wait(),
            r,
        )
    }
}

/// Whether the buffers of `after` have the pins of those of `before`, the pinned
/// ones their blocks too, and all of them where every buffer is pinned.
pub open spec fn pins_kept(before: Seq<BufferView>, after: Seq<BufferView>) -> bool {
    &&& after.len() == before.len()
    &&& forall|i: int| 0 <= i < before.len() ==> (#[trigger] after[i]).pins == before[i].pins
    &&& forall|i: int|
        0 <= i < before.len() && (before[i].pins > 0 || all_pinned(before)) ==> (
        #[trigger] after[i]).blk == before[i].blk
}

/// What handling one log record `rec` in a rollback does: where the transaction
/// undoes the record, one step of undoing it; else nothing.
pub open spec fn record_step(
    tx0: &Transaction,
    tx1: &Transaction,
    bm0: &BufferMgr,
    bm1: &BufferMgr,
    lt0: &LockTable,
    lt1: &LockTable,
    rec: Seq<u8>,
    start_time: u64,
    now: u64,
    r: Result<bool, String>,
) -> bool {
    match undo_target(rec, tx0.num(), bm0.log().bs(), bm0.log().log_name()) {
        Some(blk) => undo_step(
            tx0,
            tx1,
            bm0,
            bm1,
            lt0,
            lt1,
            blk,
            offset_of(rec) as int,
            undo_bytes(rec),
            start_time,
            now,
            r,
        ),
        None => r == Ok::<bool, String>(true) && tx1 == tx0 && bm1 == bm0 && lt1 == lt0,
    }
}

/// How far a rollback has come after `k` records of `recs`, from the transaction
/// `tx0`, the pool `bm0` and the lock table `lt0`: the records were undone in
/// their order, the log and the pins are as they were, and the transaction has
/// its locks and those that undoing took.
pub open spec fn undo_progress(
    tx0: &Transaction,
    tx: &Transaction,
    bm0: &BufferMgr,
    bm: &BufferMgr,
    lt0: &LockTable,
    lt: &LockTable,
    recs: Seq<Seq<u8>>,
    k: int,
) -> bool {
    &&& bm.wf()
    &&& lt.wf()
    &&& tx.wf(bm.pool())
    &&& tx.num() == tx0.num()
    &&& bm.max_wait() == bm0.max_wait()
    &&& bm.last_tx() == bm0.last_tx()
    &&& lt.max_wait() == lt0.max_wait()
    &&& log_kept(bm0.log(), bm.log())
    &&& pins_kept(bm0.pool(), bm.pool())
    &&& forall|b: BlockIdView| #[trigger] tx.pin_count(b) == tx0.pin_count(b)
    &&& forall|b: BlockIdView| #[trigger]
        bm.block_value(b) == undone(
            recs,
            k,
            tx0.num(),
            bm0.log().bs(),
            bm0.log().log_name(),
            b,
            bm0.block_value(b),
        )
    &&& forall|b: BlockIdView| #[trigger]
        tx0.locks().contains_key(b) ==> tx.locks().contains_key(b)
    &&& forall|b: BlockIdView| #[trigger]
        lt.val(b) == lt0.val(b) + if tx.locks().contains_key(b) && !tx0.locks().contains_key(b) {
            1int
        } else {
            0int
        }
    &&& forall|b: BlockIdView| #[trigger]
        tx.locks().contains_key(b) && !tx0.locks().contains_key(b) ==> lt0.val(b) >= 0
}

/// Whether a rollback over `recs` stops at the record `k`: it is the first that
/// cannot be undone at once.
pub open spec fn stops_at(
    recs: Seq<Seq<u8>>,
    k: int,
    tx_num: int,
    bs: nat,
    log_name: Seq<char>,
    pool: Seq<BufferView>,
    locks: Map<BlockIdView, bool>,
    lock_tbl: &LockTable,
) -> bool {
    &&& 0 <= k < recs.len()
    &&& blocks(recs[k], tx_num, bs, log_name, pool, locks, lock_tbl)
    &&& !blocked(recs, k, tx_num, bs, log_name, pool, locks, lock_tbl)
}

/// What a rollback that stops at the block `blk` gives: the caller is to wait
/// or, where the request has waited too long, to abort, for want of a buffer
/// where none can be had for the block, else for want of the lock.
pub open spec fn wait_or_abort(
    pool: Seq<BufferView>,
    blk: BlockIdView,
    start_time: u64,
    now: u64,
    buffer_wait: u64,
    lock_wait: u64,
    r: Result<bool, String>,
) -> bool {
    if pin_slot(pool, blk) is None {
        if waited_too_long(start_time, now, buffer_wait) {
            r matches Err(message) && message@ == buffer_abort_message()
        } else {
            r == Ok::<bool, String>(false)
        }
    } else {
        if now - start_time > lock_wait {
            r matches Err(message) && message@ == lock_abort_message()
        } else {
            r == Ok::<bool, String>(false)
        }
    }
}

/// Buffers that keep their pins give the same answer to a request to pin.
proof fn lemma_pin_slot_kept(before: Seq<BufferView>, after: Seq<BufferView>, blk: BlockIdView)
    requires
        pins_kept(before, after),
    ensures
        pin_slot(after, blk) is None <==> pin_slot(before, blk) is None,
{
    if all_pinned(before) {
        assert forall|j: int| 0 <= j < after.len() implies (#[trigger] after[j]).pins > 0 by {
            assert(before[j].pins > 0);
        }
        if holds(before, blk) {
            let i = slot_of(before, blk);
            assert(after[i].blk == Some(blk));
        }
        if holds(after, blk) {
            let i = slot_of(after, blk);
            assert(after[i].blk == before[i].blk);
            assert(before[i].blk == Some(blk));
        }
    } else {
        let j = choose|j: int| 0 <= j < before.len() && !((#[trigger] before[j]).pins > 0);
        assert(after[j].pins == before[j].pins);
    }
}

proof fn lemma_pins_kept_twice(
    before: Seq<BufferView>,
    between: Seq<BufferView>,
    after: Seq<BufferView>,
)
    requires
        pins_kept(before, between),
        pins_kept(between, after),
    ensures
        pins_kept(before, after),
{
    assert forall|i: int| 0 <= i < before.len() implies (#[trigger] after[i]).pins
        == before[i].pins by {
        assert(between[i].pins == before[i].pins);
    }
    if all_pinned(before) {
        assert forall|j: int| 0 <= j < between.len() implies (#[trigger] between[j]).pins > 0 by {
            assert(before[j].pins > 0);
        }
    }
    assert forall|i: int|
        0 <= i < before.len() && (before[i].pins > 0 || all_pinned(before)) implies (
    #[trigger] after[i]).blk == before[i].blk by {
        assert(between[i].pins == before[i].pins);
        assert(between[i].blk == before[i].blk);
    }
}

/// One more record handled: the rollback has come one record further, or it
/// stops at this record.
proof fn lemma_undo_progress(
    tx0: &Transaction,
    tx: &Transaction,
    tx1: &Transaction,
    bm0: &BufferMgr,
    bm: &BufferMgr,
    bm1: &BufferMgr,
    lt0: &LockTable,
    lt: &LockTable,
    lt1: &LockTable,
    recs: Seq<Seq<u8>>,
    k: int,
    start_time: u64,
    now: u64,
    r: Result<bool, String>,
)
    requires
        0 <= k < recs.len(),
        undo_progress(tx0, tx, bm0, bm, lt0, lt, recs, k),
        record_step(tx, tx1, bm, bm1, lt, lt1, recs[k], start_time, now, r),
    ensures
        r == Ok::<bool, String>(true) ==> undo_progress(tx0, tx1, bm0, bm1, lt0, lt1, recs, k + 1)
            && !blocks(
            recs[k],
            tx0.num(),
            bm0.log().bs(),
            bm0.log().log_name(),
            bm0.pool(),
            tx0.locks(),
            lt0,
        ),
        r != Ok::<bool, String>(true) ==> undo_progress(tx0, tx1, bm0, bm1, lt0, lt1, recs, k)
            && blocks(
            recs[k],
            tx0.num(),
            bm0.log().bs(),
            bm0.log().log_name(),
            bm0.pool(),
            tx0.locks(),
            lt0,
        ) && wait_or_abort(
            bm0.pool(),
            undo_target(recs[k], tx0.num(), bm0.log().bs(), bm0.log().log_name()).unwrap(),
            start_time,
            now,
            bm0.max_wait(),
            lt0.max_wait(),
            r,
        ),
{
    let num = tx0.num();
    let bs = bm0.log().bs();
    let log_name = bm0.log().log_name();
    match undo_target(recs[k], num, bs, log_name) {
        Some(blk) => {
            lemma_pin_slot_kept(bm0.pool(), bm.pool(), blk);
            lemma_pins_kept_twice(bm0.pool(), bm.pool(), bm1.pool());
            assert forall|b: BlockIdView| #[trigger]
                lt1.val(b) == lt0.val(b) + if tx1.locks().contains_key(b) && !tx0.locks().contains_key(
                    b,
                ) {
                    1int
                } else {
                    0int
                } by {
                assert(lt.val(b) == lt0.val(b) + if tx.locks().contains_key(b)
                    && !tx0.locks().contains_key(b) {
                    1int
                } else {
                    0int
                });
            }
            assert forall|b: BlockIdView| #[trigger]
                tx0.locks().contains_key(b) implies tx1.locks().contains_key(b) by {
                assert(tx.locks().contains_key(b));
            }
            assert forall|b: BlockIdView| #[trigger]
                tx1.locks().contains_key(b) && !tx0.locks().contains_key(b) implies lt0.val(b)
                >= 0 by {
                if tx.locks().contains_key(b) {
                } else {
                    assert(lt.val(b) == lt0.val(b) + if tx.locks().contains_key(b)
                        && !tx0.locks().contains_key(b) {
                        1int
                    } else {
                        0int
                    });
                }
            }
            assert(lt.val(blk) == lt0.val(blk) + if tx.locks().contains_key(blk)
                && !tx0.locks().contains_key(blk) {
                1int
            } else {
                0int
            });
            assert forall|b: BlockIdView| #[trigger] tx1.pin_count(b) == tx0.pin_count(b) by {
                assert(tx.pin_count(b) == tx0.pin_count(b));
            }
            if r == Ok::<bool, String>(true) {
                assert forall|b: BlockIdView| #[trigger]
                    bm1.block_value(b) == undone(recs, k + 1, num, bs, log_name, b, bm0.block_value(b)) by {
                    assert(bm.block_value(b) == undone(recs, k, num, bs, log_name, b, bm0.block_value(b)));
                }
            } else {
                assert forall|b: BlockIdView| #[trigger]
                    bm1.block_value(b) == undone(recs, k, num, bs, log_name, b, bm0.block_value(b)) by {
                    assert(bm.block_value(b) == undone(recs, k, num, bs, log_name, b, bm0.block_value(b)));
                }
            }
        },
        None => {
            assert forall|b: BlockIdView| #[trigger]
                bm1.block_value(b) == undone(recs, k + 1, num, bs, log_name, b, bm0.block_value(b)) by {
                assert(bm.block_value(b) == undone(recs, k, num, bs, log_name, b, bm0.block_value(b)));
            }
        },
    }
}

/// What the commit of the transaction `tx_num`, which has the pins `pins`, does to
/// the pool, the store and the log: the buffers that the transaction has changed
/// are written out, the commit record is added to the log and the log is forced,
/// and the pins are taken off. What the blocks hold stays, and the store holds
/// what the transaction has changed.
pub open spec fn committed(
    tx_num: int,
    pins: Seq<BlockIdView>,
    before: &BufferMgr,
    after: &BufferMgr,
) -> bool {
    &&& after.wf()
    &&& after.pool() == released_pool(cleaned(before.pool(), tx_num), pins)
    &&& after.data() == data_after_flush(
        before.pool(),
        before.data(),
        before.log().bs(),
        tx_num,
        before.pool().len() as int,
    )
    &&& after.max_wait() == before.max_wait()
    &&& after.last_tx() == before.last_tx()
    &&& after.log().bs() == before.log().bs()
    &&& after.log().log_name() == before.log().log_name()
    &&& after.log().records() == before.log().records().push(commit_payload(tx_num as i32))
    &&& after.log().latest() == before.log().latest() + 1
    &&& after.log().last_saved() == after.log().latest()
    &&& after.log().saved_records() == after.log().records()
    &&& forall|b: BlockIdView| #[trigger] after.block_value(b) == before.block_value(b)
    &&& forall|i: int|
        0 <= i < before.pool().len() && (#[trigger] before.pool()[i]).tx_num == tx_num ==> block_at(
            after.data(),
            before.pool()[i].blk.unwrap().file_name,
            before.pool()[i].blk.unwrap().blk_num,
            before.log().bs(),
        ) == before.pool()[i].contents
}

/// Commit durability. After the commit of a transaction, the store holds what
/// each block that the transaction has changed held at the commit, and the block
/// goes on holding it for every reader when the pool is used for other blocks:
/// `bm0` is the pool at the commit, `bm1` the pool after it, and `bm2` the pool
/// after a later attempt to pin the block `other`.
pub proof fn lemma_commit_is_durable(
    tx_num: int,
    pins: Seq<BlockIdView>,
    bm0: &BufferMgr,
    bm1: &BufferMgr,
    bm2: &BufferMgr,
    i: int,
    other: BlockIdView,
)
    requires
        bm0.wf(),
        tx_num >= 0,
        committed(tx_num, pins, bm0, bm1),
        0 <= i < bm0.pool().len(),
        bm0.pool()[i].tx_num == tx_num,
        bm1.log().is_data_block(other),
        pin_attempt(bm1, bm2, other, pin_slot(bm1.pool(), other)),
    ensures
        bm0.pool()[i].blk is Some,
        block_at(
            bm1.data(),
            bm0.pool()[i].blk.unwrap().file_name,
            bm0.pool()[i].blk.unwrap().blk_num,
            bm0.log().bs(),
        ) == bm0.block_value(bm0.pool()[i].blk.unwrap()),
        bm1.block_value(bm0.pool()[i].blk.unwrap()) == bm0.block_value(bm0.pool()[i].blk.unwrap()),
        bm2.block_value(bm0.pool()[i].blk.unwrap()) == bm0.block_value(bm0.pool()[i].blk.unwrap()),
{
    bm0.lemma_wf();
    let b = bm0.pool()[i];
    assert(crate::buffer::buffer_mgr::buffer_ok(
        b,
        bm0.data(),
        bm0.log().bs(),
        bm0.log().log_name(),
    ));
    bm0.lemma_slot(b.blk.unwrap(), i);
    bm1.lemma_pin_keeps_values(bm2, other);
}

/// What changes of the block `blk` that the transaction `tx_num` has made without
/// log records come to: the page of the buffer of the block holds `contents`, and
/// the buffer notes the transaction.
pub open spec fn block_rewritten(
    before: &BufferMgr,
    after: &BufferMgr,
    tx_num: int,
    blk: BlockIdView,
    contents: Seq<u8>,
) -> bool {
    let i = slot_of(before.pool(), blk);
    &&& after.wf()
    &&& after.pool() == before.pool().update(
        i,
        (BufferView { contents, tx_num, ..before.pool()[i] }),
    )
    &&& after.log() == before.log()
    &&& after.avail() == before.avail()
    &&& after.max_wait() == before.max_wait()
    &&& after.last_tx() == before.last_tx()
    &&& forall|other: BlockIdView| #[trigger]
        after.block_value(other) == if other == blk {
            contents
        } else {
            before.block_value(other)
        }
}

/// One change without a log record rewrites the block.
pub proof fn lemma_rewritten_once(
    before: &BufferMgr,
    after: &BufferMgr,
    tx_num: int,
    blk: BlockIdView,
    offset: u64,
    bytes: Seq<u8>,
)
    requires
        before.wf(),
        holds(before.pool(), blk),
        change_made(before, after, tx_num, blk, offset, bytes, None),
    ensures
        block_rewritten(
            before,
            after,
            tx_num,
            blk,
            overwrite(before.block_value(blk), offset as int, bytes),
        ),
{
    before.lemma_slot(blk, slot_of(before.pool(), blk));
}

/// One more change without a log record rewrites the block further.
pub proof fn lemma_rewritten_again(
    before: &BufferMgr,
    between: &BufferMgr,
    after: &BufferMgr,
    tx_num: int,
    blk: BlockIdView,
    contents: Seq<u8>,
    offset: u64,
    bytes: Seq<u8>,
)
    requires
        before.wf(),
        holds(before.pool(), blk),
        block_rewritten(before, between, tx_num, blk, contents),
        change_made(between, after, tx_num, blk, offset, bytes, None),
    ensures
        block_rewritten(before, after, tx_num, blk, overwrite(contents, offset as int, bytes)),
{
    let i = slot_of(before.pool(), blk);
    between.lemma_wf();
    assert(between.pool()[i].blk == Some(blk));
    between.lemma_slot(blk, i);
    assert(after.pool() =~= before.pool().update(
        i,
        (BufferView {
            contents: overwrite(contents, offset as int, bytes),
            tx_num,
            ..before.pool()[i]
        }),
    ));
}

/// What a step of a request that may have to wait says of itself to a caller that
/// only asks whether it is done.
pub open spec fn done_of<T>(r: Result<Option<T>, String>) -> Result<bool, String> {
    match r {
        Ok(Some(_)) => Ok(true),
        Ok(None) => Ok(false),
        Err(message) => Err(message),
    }
}

/// An attempt to pin that gave no buffer has changed nothing.
proof fn lemma_not_pinned(bm0: &BufferMgr, bm1: &BufferMgr, blk: BlockIdView)
    requires
        bm0.wf(),
        bm1.wf(),
        pin_attempt(bm0, bm1, blk, None),
        pin_slot(bm0.pool(), blk) is None,
    ensures
        log_kept(bm0.log(), bm1.log()),
        pins_kept(bm0.pool(), bm1.pool()),
{
    bm0.lemma_wf();
}

/// A pin, a change or none of the pinned block, and an unpin leave every buffer
/// with the pins that it had, and the log with the records that it had.
proof fn lemma_pinned_and_back(
    bm0: &BufferMgr,
    pinned: &BufferMgr,
    written: &BufferMgr,
    bm1: &BufferMgr,
    blk: BlockIdView,
)
    requires
        bm0.wf(),
        pinned.wf(),
        written.wf(),
        bm1.wf(),
        pin_slot(bm0.pool(), blk) is Some,
        pin_attempt(bm0, pinned, blk, pin_slot(bm0.pool(), blk)),
        written.log() == pinned.log(),
        written.pool().len() == pinned.pool().len(),
        forall|i: int|
            0 <= i < pinned.pool().len() ==> (#[trigger] written.pool()[i]).pins == pinned.pool()[i].pins
                && written.pool()[i].blk == pinned.pool()[i].blk,
        holds(written.pool(), blk),
        bm1.pool() == written.pool().update(
            slot_of(written.pool(), blk),
            crate::buffer::buffer_mgr::unpinned_once(written.pool()[slot_of(written.pool(), blk)]),
        ),
        bm1.log() == written.log(),
    ensures
        log_kept(bm0.log(), bm1.log()),
        pins_kept(bm0.pool(), bm1.pool()),
{
    bm0.lemma_wf();
    pinned.lemma_wf();
    written.lemma_wf();
    let pool = bm0.pool();
    let i = pin_slot(pool, blk).unwrap() as int;
    if !holds(pool, blk) {
        crate::buffer::buffer_mgr::lemma_first_unpinned(pool, first_unpinned(pool));
        assert(crate::buffer::buffer_mgr::is_first_unpinned(pool, i));
        assert(crate::buffer::buffer_mgr::buffer_ok(
            pool[i],
            bm0.data(),
            bm0.log().bs(),
            bm0.log().log_name(),
        ));
    }
    assert(pinned.pool()[i].blk == Some(blk));
    assert(written.pool()[i].blk == Some(blk));
    crate::buffer::buffer_mgr::lemma_slot_unique(written.pool(), blk, i);
    assert forall|j: int| 0 <= j < pool.len() implies (#[trigger] bm1.pool()[j]).pins
        == pool[j].pins by {
        assert(written.pool()[j].pins == pinned.pool()[j].pins);
    }
    assert forall|j: int|
        0 <= j < pool.len() && (pool[j].pins > 0 || all_pinned(pool)) implies (
    #[trigger] bm1.pool()[j]).blk == pool[j].blk by {
        assert(written.pool()[j].blk == pinned.pool()[j].blk);
        if j == i && !holds(pool, blk) {
            assert(pool[i].pins <= 0);
            assert(!all_pinned(pool));
        }
    }
}

/// One unit of work on the database. It reads and changes blocks that it has
/// pinned, under locks that it keeps until it ends.
pub struct Transaction {
    tx_num: i32,
    concurrency_mgr: ConcurrencyMgr,
    my_buffers: BufferList,
    ended: bool,
}

impl Transaction {
    /// The number of the transaction.
    pub closed spec fn num(&self) -> int {
        self.tx_num as int
    }

    /// The locks of the transaction: for each block that it holds a lock on,
    /// whether the lock is exclusive.
    pub closed spec fn locks(&self) -> Map<BlockIdView, bool> {
        self.concurrency_mgr@
    }

    /// The pins of the transaction.
    pub closed spec fn pins(&self) -> Seq<BlockIdView> {
        self.my_buffers.pins()
    }

    /// How many pins the transaction has on the block `blk`.
    pub open spec fn pin_count(&self, blk: BlockIdView) -> nat {
        occurrences(self.pins(), blk)
    }

    /// Whether the transaction has pinned the block `blk`.
    pub open spec fn has_pinned(&self, blk: BlockIdView) -> bool {
        self.pin_count(blk) > 0
    }

    /// Whether the transaction has ended, with a commit or with a rollback. A
    /// transaction that has ended is not used again.
    pub closed spec fn ended(&self) -> bool {
        self.ended
    }

    /// Whether the transaction is open and consistent with the pool `pool`: each
    /// block that it has pinned lies in a buffer of the pool, which has at least
    /// the pins of the transaction.
    pub closed spec fn wf(&self, pool: Seq<BufferView>) -> bool {
        &&& !self.ended
        &&& self.tx_num >= 0
        &&& self.concurrency_mgr.wf()
        &&& self.my_buffers.wf(pool)
    }

    /// A block that a consistent transaction has pinned lies in a buffer, which
    /// has at least the pins of the transaction.
    pub proof fn lemma_pinned(&self, pool: Seq<BufferView>, blk: BlockIdView)
        requires
            self.wf(pool),
            crate::buffer::buffer_mgr::distinct_blocks(pool),
            self.has_pinned(blk),
        ensures
            holds(pool, blk),
            self.pin_count(blk) <= pool[slot_of(pool, blk)].pins,
            self.num() >= 0,
    {
        self.my_buffers.lemma_wf(pool);
        assert(self.my_buffers.buffers().contains_key(blk));
        let i = self.my_buffers.buffers()[blk] as int;
        crate::buffer::buffer_mgr::lemma_slot_unique(pool, blk, i);
    }

    /// Begins a transaction: it gets the number after that of the last one, and
    /// has neither locks nor pins.
    pub fn new(bm: &mut BufferMgr) -> (tx: Self)
        requires
            0 <= old(bm).last_tx() < i32::MAX,
        ensures
            tx.num() == old(bm).last_tx() + 1,
            final(bm).last_tx() == tx.num(),
            final(bm).wf() == old(bm).wf(),
            final(bm).pool() == old(bm).pool(),
            final(bm).log() == old(bm).log(),
            final(bm).avail() == old(bm).avail(),
            final(bm).max_wait() == old(bm).max_wait(),
            tx.locks() == Map::<BlockIdView, bool>::empty(),
            tx.pins() == Seq::<BlockIdView>::empty(),
            !tx.ended(),
            forall|pool: Seq<BufferView>| #[trigger] tx.wf(pool),
    {
        let tx_num = bm.next_tx_num();
        Transaction {
            tx_num,
            concurrency_mgr: ConcurrencyMgr::new(),
            my_buffers: BufferList::new(),
            ended: false,
        }
    }

    /// The number of the transaction.
    pub fn tx_num(&self) -> (n: i32)
        ensures
            n == self.num(),
    {
        self.tx_num
    }

    /// One step of a request to pin the block `blk` that began at `start_time`,
    /// taken at `now`: whether the block was pinned or the caller is to wait and
    /// ask again, or the abort where no buffer is free and the request has waited
    /// too long.
    pub fn pin(&mut self, bm: &mut BufferMgr, blk: &BlockId, start_time: u64, now: u64) -> (r: Result<
        bool,
        String,
    >)
        requires
            old(bm).wf(),
            old(self).wf(old(bm).pool()),
            old(bm).log().is_data_block(blk@),
            can_pin(old(bm).pool(), blk@),
        ensures
            final(bm).wf(),
            final(self).wf(final(bm).pool()),
            final(self).num() == old(self).num(),
            final(self).locks() == old(self).locks(),
            final(bm).max_wait() == old(bm).max_wait(),
            final(bm).last_tx() == old(bm).last_tx(),
            log_kept(old(bm).log(), final(bm).log()),
            forall|b: BlockIdView| #[trigger] final(bm).block_value(b) == old(bm).block_value(b),
            pin_attempt(
                old(bm),
                final(bm),
                blk@,
                if r == Ok::<bool, String>(true) {
                    pin_slot(old(bm).pool(), blk@)
                } else {
                    None
                },
            ),
            match r {
                Ok(done) => {
                    &&& done == pin_slot(old(bm).pool(), blk@) is Some
                    &&& !done ==> !waited_too_long(start_time, now, old(bm).max_wait())
                },
                Err(message) => {
                    &&& pin_slot(old(bm).pool(), blk@) is None
                    &&& waited_too_long(start_time, now, old(bm).max_wait())
                    &&& message@ == buffer_abort_message()
                },
            },
            forall|b: BlockIdView| #[trigger]
                final(self).pin_count(b) == old(self).pin_count(b) + if b == blk@ && r == Ok::<
                    bool,
                    String,
                >(true) {
                    1nat
                } else {
                    0nat
                },
    {
        let ghost my_pins = self.pins();
        let r = self.my_buffers.pin(bm, blk, start_time, now);
        proof {
            old(bm).lemma_wf();
            bm.lemma_wf();
            assert forall|b: BlockIdView| #[trigger]
                self.pin_count(b) == old(self).pin_count(b) + if b == blk@ && r == Ok::<
                    bool,
                    String,
                >(true) {
                    1nat
                } else {
                    0nat
                } by {
                crate::tx::buffer_list::lemma_occurrences_push(my_pins, blk@, b);
            }
        }
        r
    }

    /// Takes one pin of the transaction off the block `blk`, which it has pinned.
    pub fn unpin(&mut self, bm: &mut BufferMgr, blk: &BlockId)
        requires
            old(bm).wf(),
            old(self).wf(old(bm).pool()),
            old(self).has_pinned(blk@),
        ensures
            final(bm).wf(),
            final(self).wf(final(bm).pool()),
            final(self).num() == old(self).num(),
            final(self).locks() == old(self).locks(),
            final(bm).pool() == old(bm).pool().update(
                slot_of(old(bm).pool(), blk@),
                crate::buffer::buffer_mgr::unpinned_once(
                    old(bm).pool()[slot_of(old(bm).pool(), blk@)],
                ),
            ),
            final(bm).log() == old(bm).log(),
            final(bm).max_wait() == old(bm).max_wait(),
            final(bm).last_tx() == old(bm).last_tx(),
            forall|b: BlockIdView| #[trigger] final(bm).block_value(b) == old(bm).block_value(b),
            forall|b: BlockIdView| #[trigger]
                final(self).pin_count(b) == old(self).pin_count(b) - if b == blk@ {
                    1int
                } else {
                    0int
                },
    {
        proof {
            self.my_buffers.lemma_wf(bm.pool());
            bm.lemma_wf();
            let i = self.my_buffers.buffers()[blk@] as int;
            crate::buffer::buffer_mgr::lemma_slot_unique(bm.pool(), blk@, i);
        }
        self.my_buffers.unpin(bm, blk);
    }

    /// Whether the transaction has ended.
    pub fn is_ended(&self) -> (ended: bool)
        ensures
            ended == self.ended(),
    {
        self.ended
    }

    /// Whether the transaction has pinned the block `blk`.
    pub fn is_pinned(&self, bm: &BufferMgr, blk: &BlockId) -> (pinned: bool)
        requires
            self.wf(bm.pool()),
        ensures
            pinned == self.has_pinned(blk@),
    {
        proof {
            self.my_buffers.lemma_wf(bm.pool());
        }
        self.my_buffers.get_buffer(blk).is_some()
    }

    /// Whether the transaction holds a lock on the block `blk`.
    pub fn has_lock(&self, bm: &BufferMgr, blk: &BlockId) -> (held: bool)
        requires
            self.wf(bm.pool()),
        ensures
            held == self.locks().contains_key(blk@),
    {
        self.concurrency_mgr.has_lock(blk)
    }

    /// The index of the buffer of the block `blk`, which the transaction has
    /// pinned.
    fn slot(&self, bm: &BufferMgr, blk: &BlockId) -> (idx: usize)
        requires
            bm.wf(),
            self.wf(bm.pool()),
            self.has_pinned(blk@),
        ensures
            idx == slot_of(bm.pool(), blk@),
            idx < bm.pool().len(),
            holds(bm.pool(), blk@),
            bm.pool()[idx as int].blk == Some(blk@),
            bm.pool()[idx as int].contents == bm.block_value(blk@),
            bm.pool()[idx as int].contents.len() == bm.log().bs(),
            bm.log().bs() <= usize::MAX,
    {
        proof {
            self.my_buffers.lemma_wf(bm.pool());
            self.my_buffers.lemma_buffers_wf(bm.pool());
            bm.lemma_wf();
            bm.log().lemma_wf();
            let i = self.my_buffers.buffers()[blk@] as int;
            bm.lemma_slot(blk@, i);
        }
        match self.my_buffers.get_buffer(blk) {
            Some(idx) => idx,
            None => 0,
        }
    }

    /// One step of a request to read the 64-bit number at `offset` in the block
    /// `blk`, which the transaction has pinned: a step of a request for a shared
    /// lock on the block and, where the lock is granted, the number.
    pub fn get_int(
        &mut self,
        bm: &BufferMgr,
        lock_tbl: &mut LockTable,
        blk: &BlockId,
        offset: u64,
        start_time: u64,
        now: u64,
    ) -> (r: Result<Option<u64>, String>)
        requires
            bm.wf(),
            old(self).wf(bm.pool()),
            old(lock_tbl).wf(),
            !old(self).locks().contains_key(blk@) ==> old(lock_tbl).val(blk@) < i64::MAX,
            old(self).has_pinned(blk@),
            offset + 8 <= bm.log().bs(),
        ensures
            final(self).wf(bm.pool()),
            final(lock_tbl).wf(),
            final(lock_tbl).max_wait() == old(lock_tbl).max_wait(),
            final(self).num() == old(self).num(),
            final(self).pins() == old(self).pins(),
            s_lock_step(
                old(self).locks(),
                final(self).locks(),
                old(lock_tbl),
                final(lock_tbl),
                blk@,
                now - start_time > old(lock_tbl).max_wait(),
                done_of(r),
            ),
            r matches Ok(Some(n)) ==> n == be_u64(
                bm.block_value(blk@).subrange(offset as int, offset + 8),
            ),
    {
        match self.concurrency_mgr.s_lock(lock_tbl, blk, start_time, now) {
            Ok(true) => {
                let idx = self.slot(bm, blk);
                let mut page = bm.buffer(idx).contents();
                Ok(Some(page.get_u64(offset as usize)))
            },
            Ok(false) => Ok(None),
            Err(message) => Err(message),
        }
    }

    /// One step of a request to read the 32-bit number at `offset` in the block
    /// `blk`, which the transaction has pinned.
    pub fn get_int_u32(
        &mut self,
        bm: &BufferMgr,
        lock_tbl: &mut LockTable,
        blk: &BlockId,
        offset: u64,
        start_time: u64,
        now: u64,
    ) -> (r: Result<Option<u32>, String>)
        requires
            bm.wf(),
            old(self).wf(bm.pool()),
            old(lock_tbl).wf(),
            !old(self).locks().contains_key(blk@) ==> old(lock_tbl).val(blk@) < i64::MAX,
            old(self).has_pinned(blk@),
            offset + 4 <= bm.log().bs(),
        ensures
            final(self).wf(bm.pool()),
            final(lock_tbl).wf(),
            final(lock_tbl).max_wait() == old(lock_tbl).max_wait(),
            final(self).num() == old(self).num(),
            final(self).pins() == old(self).pins(),
            s_lock_step(
                old(self).locks(),
                final(self).locks(),
                old(lock_tbl),
                final(lock_tbl),
                blk@,
                now - start_time > old(lock_tbl).max_wait(),
                done_of(r),
            ),
            r matches Ok(Some(n)) ==> n == be_u32(
                bm.block_value(blk@).subrange(offset as int, offset + 4),
            ),
    {
        match self.concurrency_mgr.s_lock(lock_tbl, blk, start_time, now) {
            Ok(true) => {
                let idx = self.slot(bm, blk);
                let mut page = bm.buffer(idx).contents();
                Ok(Some(page.get_u32(offset as usize)))
            },
            Ok(false) => Ok(None),
            Err(message) => Err(message),
        }
    }

    /// One step of a request to read the string at `offset` in the block `blk`,
    /// which the transaction has pinned: a step of a request for a shared lock on
    /// the block and, where the lock is granted, the string.
    pub fn get_string(
        &mut self,
        bm: &BufferMgr,
        lock_tbl: &mut LockTable,
        blk: &BlockId,
        offset: u64,
        start_time: u64,
        now: u64,
    ) -> (r: Result<Option<String>, String>)
        requires
            bm.wf(),
            old(self).wf(bm.pool()),
            old(lock_tbl).wf(),
            !old(self).locks().contains_key(blk@) ==> old(lock_tbl).val(blk@) < i64::MAX,
            old(self).has_pinned(blk@),
            has_string(bm.block_value(blk@), offset as int),
        ensures
            final(self).wf(bm.pool()),
            final(lock_tbl).wf(),
            final(lock_tbl).max_wait() == old(lock_tbl).max_wait(),
            final(self).num() == old(self).num(),
            final(self).pins() == old(self).pins(),
            s_lock_step(
                old(self).locks(),
                final(self).locks(),
                old(lock_tbl),
                final(lock_tbl),
                blk@,
                now - start_time > old(lock_tbl).max_wait(),
                done_of(r),
            ),
            r matches Ok(Some(s)) ==> s@ == string_at(bm.block_value(blk@), offset as int),
    {
        match self.concurrency_mgr.s_lock(lock_tbl, blk, start_time, now) {
            Ok(true) => {
                let idx = self.slot(bm, blk);
                let mut page = bm.buffer(idx).contents();
                Ok(Some(page.get_string(offset as usize)))
            },
            Ok(false) => Ok(None),
            Err(message) => Err(message),
        }
    }

    /// One step of a request to write the 64-bit number `val` at `offset` in the
    /// block `blk`, which the transaction has pinned: a step of a request for an
    /// exclusive lock on the block and, where the lock is granted, the change.
    /// Where `ok_to_log` is set, a record of the number that was there is added to
    /// the log before.
    pub fn set_int(
        &mut self,
        bm: &mut BufferMgr,
        lock_tbl: &mut LockTable,
        blk: &BlockId,
        offset: u64,
        val: u64,
        ok_to_log: bool,
        start_time: u64,
        now: u64,
    ) -> (r: Result<bool, String>)
        requires
            old(bm).wf(),
            old(self).wf(old(bm).pool()),
            old(lock_tbl).wf(),
            !old(self).locks().contains_key(blk@) ==> old(lock_tbl).val(blk@) < i64::MAX,
            old(self).has_pinned(blk@),
            offset + 8 <= old(bm).log().bs(),
            ok_to_log ==> can_name(blk@) && old(bm).log().can_append(
                header_len(blk@.file_name) + 8,
            ),
        ensures
            final(bm).wf(),
            final(self).wf(final(bm).pool()),
            final(lock_tbl).wf(),
            final(lock_tbl).max_wait() == old(lock_tbl).max_wait(),
            final(self).num() == old(self).num(),
            final(self).pins() == old(self).pins(),
            x_lock_step(
                old(self).locks(),
                final(self).locks(),
                old(lock_tbl),
                final(lock_tbl),
                blk@,
                now - start_time > old(lock_tbl).max_wait(),
                r,
            ),
            r == Ok::<bool, String>(true) ==> change_made(
                old(bm),
                final(bm),
                old(self).num(),
                blk@,
                offset,
                u64_be_bytes(val),
                if ok_to_log {
                    Some(int_undo_record(old(self).num(), blk@, offset, old(bm).block_value(blk@)))
                } else {
                    None
                },
            ),
            r != Ok::<bool, String>(true) ==> *final(bm) == *old(bm),
    {
        match self.concurrency_mgr.x_lock(lock_tbl, blk, start_time, now) {
            Ok(true) => {
                let idx = self.slot(bm, blk);
                let mut page = bm.buffer(idx).contents();
                let mut lsn: i64 = -1;
                if ok_to_log {
                    let old_val = page.get_u64(offset as usize);
                    proof {
                        lemma_set_int_payload(
                            SetIntView { tx_num: self.tx_num, blk: blk@, offset, val: old_val },
                        );
                    }
                    let rec = SetIntRecord::encode(self.tx_num, blk, offset, old_val);
                    lsn = bm.append_log(rec);
                }
                proof {
                    lemma_u64_round_trip(val);
                }
                page.set_u64(offset as usize, val);
                bm.write_page(idx, page, self.tx_num, lsn);
                proof {
                    self.my_buffers.lemma_wf_kept(old(bm).pool(), bm.pool());
                }
                Ok(true)
            },
            Ok(false) => Ok(false),
            Err(message) => Err(message),
        }
    }

    /// One step of a request to write the string `val` at `offset` in the block
    /// `blk`, which the transaction has pinned: a step of a request for an
    /// exclusive lock on the block and, where the lock is granted, the change.
    /// Where `ok_to_log` is set, a record of the string that was there is added to
    /// the log before.
    pub fn set_string(
        &mut self,
        bm: &mut BufferMgr,
        lock_tbl: &mut LockTable,
        blk: &BlockId,
        offset: u64,
        val: String,
        ok_to_log: bool,
        start_time: u64,
        now: u64,
    ) -> (r: Result<bool, String>)
        requires
            old(bm).wf(),
            old(self).wf(old(bm).pool()),
            old(lock_tbl).wf(),
            !old(self).locks().contains_key(blk@) ==> old(lock_tbl).val(blk@) < i64::MAX,
            old(self).has_pinned(blk@),
            offset + 4 + encode_utf8(val@).len() <= old(bm).log().bs(),
            encode_utf8(val@).len() <= u32::MAX,
            ok_to_log ==> {
                &&& can_name(blk@)
                &&& has_string(old(bm).block_value(blk@), offset as int)
                &&& old(bm).log().can_append(
                    set_string_len(
                        (SetStringView {
                            tx_num: 0,
                            blk: blk@,
                            offset,
                            val: string_at(old(bm).block_value(blk@), offset as int),
                        }),
                    ),
                )
            },
        ensures
            final(bm).wf(),
            final(self).wf(final(bm).pool()),
            final(lock_tbl).wf(),
            final(lock_tbl).max_wait() == old(lock_tbl).max_wait(),
            final(self).num() == old(self).num(),
            final(self).pins() == old(self).pins(),
            x_lock_step(
                old(self).locks(),
                final(self).locks(),
                old(lock_tbl),
                final(lock_tbl),
                blk@,
                now - start_time > old(lock_tbl).max_wait(),
                r,
            ),
            r == Ok::<bool, String>(true) ==> change_made(
                old(bm),
                final(bm),
                old(self).num(),
                blk@,
                offset,
                string_bytes(val@),
                if ok_to_log {
                    Some(string_undo_record(old(self).num(), blk@, offset, old(bm).block_value(blk@)))
                } else {
                    None
                },
            ),
            r != Ok::<bool, String>(true) ==> *final(bm) == *old(bm),
    {
        match self.concurrency_mgr.x_lock(lock_tbl, blk, start_time, now) {
            Ok(true) => {
                let idx = self.slot(bm, blk);
                let mut page = bm.buffer(idx).contents();
                let mut lsn: i64 = -1;
                if ok_to_log {
                    let old_val = page.get_string(offset as usize);
                    proof {
                        broadcast use vstd::utf8::decode_utf8_encode_utf8;

                        let rec = SetStringView {
                            tx_num: self.tx_num,
                            blk: blk@,
                            offset,
                            val: old_val@,
                        };
                        assert(encode_utf8(old_val@) == crate::file::byte_buffer::prefixed_payload(
                            page@,
                            offset as int,
                        ));
                        lemma_set_string_payload(rec);
                    }
                    let rec = SetStringRecord::encode(self.tx_num, blk, offset, old_val);
                    lsn = bm.append_log(rec);
                }
                proof {
                    crate::file::codec::lemma_u32_round_trip(encode_utf8(val@).len() as u32);
                }
                page.set_string(offset as usize, val);
                bm.write_page(idx, page, self.tx_num, lsn);
                proof {
                    self.my_buffers.lemma_wf_kept(old(bm).pool(), bm.pool());
                }
                Ok(true)
            },
            Ok(false) => Ok(false),
            Err(message) => Err(message),
        }
    }

    /// Ends the transaction with its changes kept: every buffer that it has
    /// changed is written out, a commit record is added to the log and the log is
    /// forced, and the locks and the pins of the transaction are let go.
    pub fn commit(&mut self, bm: &mut BufferMgr, lock_tbl: &mut LockTable)
        requires
            old(bm).wf(),
            old(self).wf(old(bm).pool()),
            old(lock_tbl).wf(),
            old(bm).log().can_append(12),
        ensures
            final(bm).wf(),
            final(lock_tbl).wf(),
            final(lock_tbl).max_wait() == old(lock_tbl).max_wait(),
            final(self).num() == old(self).num(),
            final(self).locks() == Map::<BlockIdView, bool>::empty(),
            final(self).pins() == Seq::<BlockIdView>::empty(),
            final(self).ended(),
            forall|b: BlockIdView| #[trigger]
                final(lock_tbl).val(b) == if old(self).locks().contains_key(b) {
                    released(old(lock_tbl).val(b))
                } else {
                    old(lock_tbl).val(b)
                },
            committed(old(self).num(), old(self).pins(), old(bm), final(bm)),
    {
        let ghost pool = bm.pool();
        bm.flush_all(self.tx_num);
        let ghost flushed = *bm;
        proof {
            flushed.lemma_wf();
            old(bm).lemma_wf();
            assert forall|i: int| 0 <= i < pool.len() && (#[trigger] pool[i]).tx_num == self.num() implies block_at(
                flushed.data(),
                pool[i].blk.unwrap().file_name,
                pool[i].blk.unwrap().blk_num,
                flushed.log().bs(),
            ) == pool[i].contents by {
                assert(crate::buffer::buffer_mgr::buffer_ok(
                    flushed.pool()[i],
                    flushed.data(),
                    flushed.log().bs(),
                    flushed.log().log_name(),
                ));
                assert(crate::buffer::buffer_mgr::buffer_ok(
                    pool[i],
                    old(bm).data(),
                    flushed.log().bs(),
                    flushed.log().log_name(),
                ));
            }
            lemma_commit_payload(self.tx_num);
            self.my_buffers.lemma_wf_kept(pool, bm.pool());
            old(bm).log().lemma_wf();
            assert(flushed.log().log_on_disk().len() == old(bm).log().log_on_disk().len());
        }
        let rec = CommitRecord::encode(self.tx_num);
        let lsn = bm.append_log(rec);
        proof {
            bm.log().lemma_wf();
        }
        bm.flush_log(lsn);
        self.concurrency_mgr.release(lock_tbl);
        self.my_buffers.unpin_all(bm);
        self.ended = true;
    }

    /// One step of undoing a change of a number: see [`undo_step`].
    pub fn undo_int(
        &mut self,
        bm: &mut BufferMgr,
        lock_tbl: &mut LockTable,
        blk: &BlockId,
        offset: u64,
        val: u64,
        start_time: u64,
        now: u64,
    ) -> (r: Result<bool, String>)
        requires
            old(bm).wf(),
            old(self).wf(old(bm).pool()),
            old(lock_tbl).wf(),
            !old(self).locks().contains_key(blk@) ==> old(lock_tbl).val(blk@) < i64::MAX,
            old(bm).log().is_data_block(blk@),
            can_pin(old(bm).pool(), blk@),
            offset + 8 <= old(bm).log().bs(),
        ensures
            undo_step(
                old(self),
                final(self),
                old(bm),
                final(bm),
                old(lock_tbl),
                final(lock_tbl),
                blk@,
                offset as int,
                u64_be_bytes(val),
                start_time,
                now,
                r,
            ),
    {
        match self.pin(bm, blk, start_time, now) {
            Ok(true) => {},
            Ok(false) => {
                proof {
                    lemma_not_pinned(old(bm), bm, blk@);
                }
                return Ok(false);
            },
            Err(message) => {
                proof {
                    lemma_not_pinned(old(bm), bm, blk@);
                }
                return Err(message);
            },
        }
        let ghost pinned = *bm;
        let ghost tx_pinned = *self;
        assert(self.pin_count(blk@) == old(self).pin_count(blk@) + 1);
        proof {
            pinned.lemma_wf();
            self.lemma_pinned(pinned.pool(), blk@);
        }
        let r = self.set_int(bm, lock_tbl, blk, offset, val, false, start_time, now);
        let ghost written = *bm;
        proof {
            written.lemma_wf();
            assert(self.has_pinned(blk@));
            assert(written.pool().len() == pinned.pool().len());
            assert forall|i: int| 0 <= i < pinned.pool().len() implies (
            #[trigger] written.pool()[i]).pins == pinned.pool()[i].pins && written.pool()[i].blk
                == pinned.pool()[i].blk by {}
            self.lemma_pinned(written.pool(), blk@);
        }
        let ghost tx_written = *self;
        self.unpin(bm, blk);
        proof {
            lemma_pinned_and_back(old(bm), &pinned, &written, bm, blk@);
            assert forall|b: BlockIdView| #[trigger] self.pin_count(b) == old(self).pin_count(b) by {
                assert(tx_pinned.pin_count(b) == old(self).pin_count(b) + if b == blk@ {
                    1nat
                } else {
                    0nat
                });
                assert(tx_written.pin_count(b) == tx_pinned.pin_count(b));
                assert(self.pin_count(b) == tx_written.pin_count(b) - if b == blk@ {
                    1int
                } else {
                    0int
                });
            }
        }
        r
    }

    /// One step of undoing a change of a string: see [`undo_step`].
    pub fn undo_string(
        &mut self,
        bm: &mut BufferMgr,
        lock_tbl: &mut LockTable,
        blk: &BlockId,
        offset: u64,
        val: String,
        start_time: u64,
        now: u64,
    ) -> (r: Result<bool, String>)
        requires
            old(bm).wf(),
            old(self).wf(old(bm).pool()),
            old(lock_tbl).wf(),
            !old(self).locks().contains_key(blk@) ==> old(lock_tbl).val(blk@) < i64::MAX,
            old(bm).log().is_data_block(blk@),
            can_pin(old(bm).pool(), blk@),
            offset + 4 + encode_utf8(val@).len() <= old(bm).log().bs(),
            encode_utf8(val@).len() <= u32::MAX,
        ensures
            undo_step(
                old(self),
                final(self),
                old(bm),
                final(bm),
                old(lock_tbl),
                final(lock_tbl),
                blk@,
                offset as int,
                string_bytes(val@),
                start_time,
                now,
                r,
            ),
    {
        match self.pin(bm, blk, start_time, now) {
            Ok(true) => {},
            Ok(false) => {
                proof {
                    lemma_not_pinned(old(bm), bm, blk@);
                }
                return Ok(false);
            },
            Err(message) => {
                proof {
                    lemma_not_pinned(old(bm), bm, blk@);
                }
                return Err(message);
            },
        }
        let ghost pinned = *bm;
        let ghost tx_pinned = *self;
        assert(self.pin_count(blk@) == old(self).pin_count(blk@) + 1);
        proof {
            pinned.lemma_wf();
            self.lemma_pinned(pinned.pool(), blk@);
        }
        let r = self.set_string(bm, lock_tbl, blk, offset, val, false, start_time, now);
        let ghost written = *bm;
        proof {
            written.lemma_wf();
            assert(self.has_pinned(blk@));
            assert(written.pool().len() == pinned.pool().len());
            assert forall|i: int| 0 <= i < pinned.pool().len() implies (
            #[trigger] written.pool()[i]).pins == pinned.pool()[i].pins && written.pool()[i].blk
                == pinned.pool()[i].blk by {}
            self.lemma_pinned(written.pool(), blk@);
        }
        let ghost tx_written = *self;
        self.unpin(bm, blk);
        proof {
            lemma_pinned_and_back(old(bm), &pinned, &written, bm, blk@);
            assert forall|b: BlockIdView| #[trigger] self.pin_count(b) == old(self).pin_count(b) by {
                assert(tx_pinned.pin_count(b) == old(self).pin_count(b) + if b == blk@ {
                    1nat
                } else {
                    0nat
                });
                assert(tx_written.pin_count(b) == tx_pinned.pin_count(b));
                assert(self.pin_count(b) == tx_written.pin_count(b) - if b == blk@ {
                    1int
                } else {
                    0int
                });
            }
        }
        r
    }

    /// Handles one log record in a rollback: where it is a record of a change of
    /// this transaction that can be undone, one step of undoing it.
    pub fn undo_record(
        &mut self,
        bm: &mut BufferMgr,
        lock_tbl: &mut LockTable,
        rec: &Vec<u8>,
        start_time: u64,
        now: u64,
    ) -> (r: Result<bool, String>)
        requires
            old(bm).wf(),
            old(self).wf(old(bm).pool()),
            old(lock_tbl).wf(),
            forall|i: int| 0 <= i < old(bm).pool().len() ==> (#[trigger] old(bm).pool()[i]).pins < i32::MAX,
            forall|b: BlockIdView|
                !old(self).locks().contains_key(b) ==> #[trigger] old(lock_tbl).val(b) < i64::MAX,
        ensures
            record_step(
                old(self),
                final(self),
                old(bm),
                final(bm),
                old(lock_tbl),
                final(lock_tbl),
                rec@,
                start_time,
                now,
                r,
            ),
    {
        let bs = bm.block_size();
        let mut page = Page::from_bytes(rec.as_slice());
        match SetIntRecord::read(&mut page) {
            Some(int_rec) => {
                if int_rec.tx_num() == self.tx_num && Self::can_undo(
                    bm,
                    int_rec.block(),
                    int_rec.offset(),
                    8,
                ) {
                    int_rec.undo(self, bm, lock_tbl, start_time, now)
                } else {
                    Ok(true)
                }
            },
            None => {
                match SetStringRecord::read(&mut page) {
                    Some(string_rec) => {
                        proof {
                            crate::tx::recovery::set_string_record::lemma_kept_string(rec@);
                        }
                        let len = string_rec.val().as_str().len();
                        if len <= usize::MAX - 4 && string_rec.tx_num() == self.tx_num
                            && Self::can_undo(bm, string_rec.block(), string_rec.offset(), 4 + len) {
                            string_rec.undo(self, bm, lock_tbl, start_time, now)
                        } else {
                            proof {
                                bm.lemma_wf();
                                bm.log().lemma_wf();
                            }
                            Ok(true)
                        }
                    },
                    None => Ok(true),
                }
            },
        }
    }

    /// Whether a change at `offset` of `len` bytes of the block `blk` can be
    /// undone.
    fn can_undo(bm: &BufferMgr, blk: &BlockId, offset: u64, len: usize) -> (ok: bool)
        ensures
            ok == in_reach(blk@, offset, len as nat, bm.log().bs(), bm.log().log_name()),
    {
        let bs = bm.block_size();
        let is_log = *blk.file_name() == *bm.log_mgr().log_file();
        !is_log && blk.blk_num() < usize::MAX as u64 && offset <= bs && len as u64 <= bs - offset
    }

    /// One step of ending the transaction with its changes undone. The log is
    /// read from its newest record to its oldest, and each record of a change of
    /// this transaction is undone: the bytes that the change replaced are written
    /// back. Then the locks and the pins of the transaction are let go. Where a
    /// record cannot be undone at once, for want of a buffer or of a lock, the step
    /// stops there: the caller is to wait and ask again or, where the request has
    /// waited too long, to abort.
    pub fn rollback(&mut self, bm: &mut BufferMgr, lock_tbl: &mut LockTable, start_time: u64, now: u64) -> (r:
        Result<bool, String>)
        requires
            old(bm).wf(),
            old(self).wf(old(bm).pool()),
            old(lock_tbl).wf(),
            forall|i: int| 0 <= i < old(bm).pool().len() ==> (#[trigger] old(bm).pool()[i]).pins < i32::MAX,
            forall|b: BlockIdView| #[trigger] old(lock_tbl).val(b) < i64::MAX,
        ensures
            final(bm).wf(),
            final(lock_tbl).wf(),
            final(self).num() == old(self).num(),
            final(bm).max_wait() == old(bm).max_wait(),
            final(bm).last_tx() == old(bm).last_tx(),
            final(lock_tbl).max_wait() == old(lock_tbl).max_wait(),
            log_kept(old(bm).log(), final(bm).log()),
            r == Ok::<bool, String>(true) <==> !blocked(
                old(bm).log().records().reverse(),
                old(bm).log().records().len() as int,
                old(self).num(),
                old(bm).log().bs(),
                old(bm).log().log_name(),
                old(bm).pool(),
                old(self).locks(),
                old(lock_tbl),
            ),
            r == Ok::<bool, String>(true) ==> {
                &&& forall|b: BlockIdView| #[trigger]
                    final(bm).block_value(b) == undone(
                        old(bm).log().records().reverse(),
                        old(bm).log().records().len() as int,
                        old(self).num(),
                        old(bm).log().bs(),
                        old(bm).log().log_name(),
                        b,
                        old(bm).block_value(b),
                    )
                &&& final(self).ended()
                &&& final(self).locks() == Map::<BlockIdView, bool>::empty()
                &&& final(self).pins() == Seq::<BlockIdView>::empty()
                &&& forall|b: BlockIdView| #[trigger]
                    final(lock_tbl).val(b) == if old(self).locks().contains_key(b) {
                        released(old(lock_tbl).val(b))
                    } else {
                        old(lock_tbl).val(b)
                    }
                &&& final(bm).pool().len() == old(bm).pool().len()
                &&& forall|i: int|
                    0 <= i < old(bm).pool().len() ==> (#[trigger] final(bm).pool()[i]).pins
                        == released_pool(old(bm).pool(), old(self).pins())[i].pins
            },
            r != Ok::<bool, String>(true) ==> exists|k: int|
                {
                    &&& #[trigger] stops_at(
                        old(bm).log().records().reverse(),
                        k,
                        old(self).num(),
                        old(bm).log().bs(),
                        old(bm).log().log_name(),
                        old(bm).pool(),
                        old(self).locks(),
                        old(lock_tbl),
                    )
                    &&& wait_or_abort(
                        old(bm).pool(),
                        undo_target(
                            old(bm).log().records().reverse()[k],
                            old(self).num(),
                            old(bm).log().bs(),
                            old(bm).log().log_name(),
                        ).unwrap(),
                        start_time,
                        now,
                        old(bm).max_wait(),
                        old(lock_tbl).max_wait(),
                        r,
                    )
                    &&& undo_progress(
                        old(self),
                        final(self),
                        old(bm),
                        final(bm),
                        old(lock_tbl),
                        final(lock_tbl),
                        old(bm).log().records().reverse(),
                        k,
                    )
                },
    {
        let recs = bm.log_records();
        let ghost bm0 = *bm;
        let ghost all = views(recs@);
        let ghost num = self.num();
        let ghost bs = old(bm).log().bs();
        let ghost log_name = old(bm).log().log_name();
        proof {
            old(bm).lemma_wf();
            self.my_buffers.lemma_wf_kept(old(bm).pool(), bm.pool());
            assert(undone(all, 0, num, bs, log_name, arbitrary(), arbitrary::<Seq<u8>>()) == arbitrary::<
                Seq<u8>,
            >());
        }
        let mut k: usize = 0;
        while k < recs.len()
            invariant
                k <= recs@.len(),
                all == views(recs@),
                all == old(bm).log().records().reverse(),
                num == old(self).num(),
                bs == old(bm).log().bs(),
                log_name == old(bm).log().log_name(),
                old(bm).wf(),
                undo_progress(old(self), self, old(bm), bm, old(lock_tbl), lock_tbl, all, k as int),
                !blocked(all, k as int, num, bs, log_name, old(bm).pool(), old(self).locks(), old(lock_tbl)),
                forall|i: int| 0 <= i < old(bm).pool().len() ==> (#[trigger] old(bm).pool()[i]).pins < i32::MAX,
                forall|b: BlockIdView| #[trigger] old(lock_tbl).val(b) < i64::MAX,
            decreases recs@.len() - k,
        {
            let ghost tx_before = *self;
            let ghost bm_before = *bm;
            let ghost lt_before = *lock_tbl;
            proof {
                assert forall|i: int| 0 <= i < bm.pool().len() implies (#[trigger] bm.pool()[i]).pins
                    < i32::MAX by {
                    assert(old(bm).pool()[i].pins < i32::MAX);
                }
                assert forall|b: BlockIdView| !self.locks().contains_key(b) implies #[trigger]
                    lock_tbl.val(b) < i64::MAX by {
                    assert(old(lock_tbl).val(b) < i64::MAX);
                }
                assert(all[k as int] == recs@[k as int]@);
            }
            let r = self.undo_record(bm, lock_tbl, &recs[k], start_time, now);
            proof {
                lemma_undo_progress(
                    old(self),
                    &tx_before,
                    self,
                    old(bm),
                    &bm_before,
                    bm,
                    old(lock_tbl),
                    &lt_before,
                    lock_tbl,
                    all,
                    k as int,
                    start_time,
                    now,
                    r,
                );
            }
            match r {
                Ok(true) => {},
                Ok(false) => {
                    proof {
                        assert(stops_at(
                            all,
                            k as int,
                            num,
                            bs,
                            log_name,
                            old(bm).pool(),
                            old(self).locks(),
                            old(lock_tbl),
                        ));
                    }
                    return Ok(false);
                },
                Err(message) => {
                    proof {
                        assert(stops_at(
                            all,
                            k as int,
                            num,
                            bs,
                            log_name,
                            old(bm).pool(),
                            old(self).locks(),
                            old(lock_tbl),
                        ));
                    }
                    return Err(message);
                },
            }
            k = k + 1;
        }
        let ghost pool1 = bm.pool();
        let ghost tx1 = *self;
        let ghost bm1 = *bm;
        let ghost lt1 = *lock_tbl;
        proof {
            bm.lemma_wf();
            assert(all.len() == old(bm).log().records().len());
        }
        self.concurrency_mgr.release(lock_tbl);
        self.my_buffers.unpin_all(bm);
        self.ended = true;
        proof {
            let pool0 = old(bm).pool();
            assert forall|b: BlockIdView| #[trigger]
                bm.block_value(b) == undone(all, all.len() as int, num, bs, log_name, b, old(bm).block_value(b)) by {
                assert(bm1.block_value(b) == undone(
                    all,
                    all.len() as int,
                    num,
                    bs,
                    log_name,
                    b,
                    old(bm).block_value(b),
                ));
            }
            assert forall|b: BlockIdView| #[trigger]
                lock_tbl.val(b) == if old(self).locks().contains_key(b) {
                    released(old(lock_tbl).val(b))
                } else {
                    old(lock_tbl).val(b)
                } by {
                assert(lt1.val(b) == old(lock_tbl).val(b) + if tx1.locks().contains_key(b)
                    && !old(self).locks().contains_key(b) {
                    1int
                } else {
                    0int
                });
                if old(self).locks().contains_key(b) {
                    assert(tx1.locks().contains_key(b));
                }
            }
            assert forall|i: int| 0 <= i < pool0.len() implies (#[trigger] bm.pool()[i]).pins
                == released_pool(pool0, old(self).pins())[i].pins by {
                assert(pool1[i].pins == pool0[i].pins);
                assert(crate::buffer::buffer_mgr::buffer_ok(
                    pool0[i],
                    old(bm).data(),
                    old(bm).log().bs(),
                    old(bm).log().log_name(),
                ));
                if pool0[i].pins > 0 {
                    assert(pool1[i].blk == pool0[i].blk);
                    let b = pool0[i].blk.unwrap();
                    assert(tx1.pin_count(b) == old(self).pin_count(b));
                } else {
                    match pool1[i].blk {
                        Some(b) => {
                            if tx1.has_pinned(b) {
                                tx1.lemma_pinned(pool1, b);
                                crate::buffer::buffer_mgr::lemma_slot_unique(pool1, b, i);
                            }
                        },
                        None => {},
                    }
                    match pool0[i].blk {
                        Some(b) => {
                            if old(self).has_pinned(b) {
                                old(self).lemma_pinned(pool0, b);
                                crate::buffer::buffer_mgr::lemma_slot_unique(pool0, b, i);
                            }
                        },
                        None => {},
                    }
                }
            }
        }
        Ok(true)
    }

    /// The number of blocks of the file `file_name` in the store.
    pub fn size(&self, bm: &BufferMgr, file_name: &String) -> (n: u64)
        requires
            bm.wf(),
        ensures
            n == blocks_of(bm.log().disk(), file_name@).len(),
    {
        bm.length(file_name)
    }

    /// Adds a zero block to the file `file_name`, which is not the log file, and
    /// gives its address.
    pub fn append(&mut self, bm: &mut BufferMgr, file_name: &String) -> (blk: BlockId)
        requires
            old(bm).wf(),
            file_name@ != old(bm).log().log_name(),
            blocks_of(old(bm).data(), file_name@).len() < usize::MAX,
        ensures
            final(bm).wf(),
            final(bm).log().same_log(old(bm).log()),
            final(bm).data() == grown(old(bm).data(), file_name@, old(bm).log().bs()),
            blk@.file_name == file_name@,
            blk@.blk_num == blocks_of(old(bm).data(), file_name@).len(),
            final(bm).pool() == old(bm).pool(),
            final(bm).avail() == old(bm).avail(),
            final(bm).max_wait() == old(bm).max_wait(),
            final(bm).last_tx() == old(bm).last_tx(),
            forall|b: BlockIdView| #[trigger] final(bm).block_value(b) == old(bm).block_value(b),
            *final(self) == *old(self),
    {
        bm.append_block(file_name)
    }

    /// The size of a block.
    pub fn block_size(&self, bm: &BufferMgr) -> (n: u64)
        ensures
            n == bm.log().bs(),
            n <= usize::MAX,
    {
        bm.block_size()
    }
}

} // verus!
