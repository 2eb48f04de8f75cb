use vstd::prelude::*;
use vstd::utf8::encode_utf8;
use crate::buffer::buffer::BufferView;
use crate::buffer::buffer_mgr::pin_slot;
use crate::file::block_id::BlockIdView;
use crate::file::byte_buffer::string_bytes;
use crate::file::codec::{overwrite, u64_be_bytes};
use crate::tx::concurrency::lock_table::LockTable;
use crate::tx::recovery::commit_record::tx_of;
use crate::file::codec::be_u64;
use crate::tx::recovery::set_int_record::{
    blk_of, can_name, is_set_int, lemma_set_int_payload, offset_of, set_int_of, set_int_payload,
    SetIntView,
};
use crate::tx::recovery::set_string_record::{is_set_string, set_string_of};

verus! {

/// Whether a change at `offset` of `len` bytes of the block `blk` can be undone
/// in a database with blocks of `bs` bytes and the log in the file `log_name`:
/// the block is not one of the log, and the bytes lie in it.
pub open spec fn in_reach(blk: BlockIdView, offset: u64, len: nat, bs: nat, log_name: Seq<char>) -> bool {
    &&& blk.file_name != log_name
    &&& blk.blk_num < usize::MAX
    &&& offset + len <= bs
}

/// Whether the log record `rec` is one of a change of a number that the
/// transaction `tx_num` undoes when it rolls back.
pub open spec fn undoes_int(rec: Seq<u8>, tx_num: int, bs: nat, log_name: Seq<char>) -> bool {
    &&& is_set_int(rec)
    &&& tx_of(rec) == tx_num
    &&& in_reach(blk_of(rec), offset_of(rec), 8, bs, log_name)
}

/// Whether the log record `rec` is one of a change of a string that the
/// transaction `tx_num` undoes when it rolls back.
pub open spec fn undoes_string(rec: Seq<u8>, tx_num: int, bs: nat, log_name: Seq<char>) -> bool {
    &&& is_set_string(rec)
    &&& tx_of(rec) == tx_num
    &&& in_reach(
        blk_of(rec),
        offset_of(rec),
        4 + encode_utf8(set_string_of(rec).val).len(),
        bs,
        log_name,
    )
}

/// The block whose change the record `rec` has the transaction `tx_num` undo;
/// none where the record is of another transaction or of another kind.
pub open spec fn undo_target(rec: Seq<u8>, tx_num: int, bs: nat, log_name: Seq<char>) -> Option<
    BlockIdView,
> {
    if undoes_int(rec, tx_num, bs, log_name) || undoes_string(rec, tx_num, bs, log_name) {
        Some(blk_of(rec))
    } else {
        None
    }
}

/// The bytes that undoing the record `rec` of a change writes back.
pub open spec fn undo_bytes(rec: Seq<u8>) -> Seq<u8> {
    if is_set_int(rec) {
        u64_be_bytes(set_int_of(rec).val)
    } else {
        string_bytes(set_string_of(rec).val)
    }
}

/// The bytes `value` of the block `blk` after the transaction `tx_num` has undone
/// the record `rec`.
pub open spec fn undo_one(
    rec: Seq<u8>,
    tx_num: int,
    bs: nat,
    log_name: Seq<char>,
    blk: BlockIdView,
    value: Seq<u8>,
) -> Seq<u8> {
    if undo_target(rec, tx_num, bs, log_name) == Some(blk) {
        overwrite(value, offset_of(rec) as int, undo_bytes(rec))
    } else {
        value
    }
}

/// The bytes `value` of the block `blk` after the transaction `tx_num` has undone
/// the first `n` records of `recs`, in their order.
pub open spec fn undone(
    recs: Seq<Seq<u8>>,
    n: int,
    tx_num: int,
    bs: nat,
    log_name: Seq<char>,
    blk: BlockIdView,
    value: Seq<u8>,
) -> Seq<u8>
    decreases n,
{
    if n <= 0 {
        value
    } else {
        undo_one(
            recs[n - 1],
            tx_num,
            bs,
            log_name,
            blk,
            undone(recs, n - 1, tx_num, bs, log_name, blk, value),
        )
    }
}

/// Undoing leaves a block with its length.
pub proof fn lemma_undone_len(
    recs: Seq<Seq<u8>>,
    n: int,
    tx_num: int,
    bs: nat,
    log_name: Seq<char>,
    blk: BlockIdView,
    value: Seq<u8>,
)
    requires
        value.len() == bs,
        n <= recs.len(),
    ensures
        undone(recs, n, tx_num, bs, log_name, blk, value).len() == bs,
    decreases n,
{
    if n > 0 {
        lemma_undone_len(recs, n - 1, tx_num, bs, log_name, blk, value);
        lemma_undo_bytes_len(recs[n - 1]);
    }
}

/// The bytes that undoing a record of a change writes back are as many as the
/// change has written.
pub proof fn lemma_undo_bytes_len(rec: Seq<u8>)
    ensures
        is_set_int(rec) ==> undo_bytes(rec).len() == 8,
        is_set_string(rec) && !is_set_int(rec) ==> undo_bytes(rec).len() == 4 + encode_utf8(
            set_string_of(rec).val,
        ).len(),
{
    if is_set_int(rec) {
        crate::file::codec::lemma_u64_round_trip(set_int_of(rec).val);
    } else if is_set_string(rec) {
        crate::tx::recovery::set_string_record::lemma_kept_string(rec);
        crate::file::codec::lemma_u32_round_trip(
            encode_utf8(set_string_of(rec).val).len() as u32,
        );
    }
}

/// Rollback touches nothing but what the records of the transaction name: a byte
/// of a block that lies in no range that a record of the first `n` has the
/// transaction `tx_num` undo is, after the rollback, what it was. So a change that
/// was made without a log record stays.
pub proof fn lemma_unlogged_stays(
    recs: Seq<Seq<u8>>,
    n: int,
    tx_num: int,
    bs: nat,
    log_name: Seq<char>,
    blk: BlockIdView,
    value: Seq<u8>,
    at: int,
)
    requires
        value.len() == bs,
        0 <= n <= recs.len(),
        0 <= at < bs,
        forall|k: int|
            0 <= k < n && #[trigger] undo_target(recs[k], tx_num, bs, log_name) == Some(blk) ==> !(
            offset_of(recs[k]) <= at < offset_of(recs[k]) + undo_bytes(recs[k]).len()),
    ensures
        undone(recs, n, tx_num, bs, log_name, blk, value)[at] == value[at],
    decreases n,
{
    if n > 0 {
        lemma_unlogged_stays(recs, n - 1, tx_num, bs, log_name, blk, value, at);
        lemma_undone_len(recs, n - 1, tx_num, bs, log_name, blk, value);
        lemma_undo_bytes_len(recs[n - 1]);
        let before = undone(recs, n - 1, tx_num, bs, log_name, blk, value);
        if undo_target(recs[n - 1], tx_num, bs, log_name) == Some(blk) {
            crate::file::codec::lemma_overwrite(
                before,
                offset_of(recs[n - 1]) as int,
                undo_bytes(recs[n - 1]),
            );
        }
    }
}

/// Where no record of `recs` has the transaction `tx_num` undo a change of the
/// block `blk`, a rollback leaves the block as it is.
pub proof fn lemma_untouched_block(
    recs: Seq<Seq<u8>>,
    n: int,
    tx_num: int,
    bs: nat,
    log_name: Seq<char>,
    blk: BlockIdView,
    value: Seq<u8>,
)
    requires
        0 <= n <= recs.len(),
        forall|k: int| 0 <= k < n ==> #[trigger] undo_target(recs[k], tx_num, bs, log_name) != Some(blk),
    ensures
        undone(recs, n, tx_num, bs, log_name, blk, value) == value,
    decreases n,
{
    if n > 0 {
        lemma_untouched_block(recs, n - 1, tx_num, bs, log_name, blk, value);
    }
}

/// Rollback restores what a logged change has replaced. The transaction
/// `tx_num`, none of whose changes is in the log `recs` yet, changes the number
/// at `offset` in the block `blk`, whose bytes are `value`, to `val`, and logs the
/// change: `rec` is the record, which holds the number that was there. Undoing
/// the log, the new record first, gives the block the bytes that it had.
pub proof fn lemma_rollback_restores(
    recs: Seq<Seq<u8>>,
    rec: Seq<u8>,
    tx_num: i32,
    bs: nat,
    log_name: Seq<char>,
    blk: BlockIdView,
    offset: u64,
    value: Seq<u8>,
    val: u64,
)
    requires
        value.len() == bs,
        can_name(blk),
        in_reach(blk, offset, 8, bs, log_name),
        rec == set_int_payload(
            SetIntView {
                tx_num,
                blk,
                offset,
                val: be_u64(value.subrange(offset as int, offset + 8)),
            },
        ),
        forall|k: int|
            0 <= k < recs.len() ==> #[trigger] undo_target(recs[k], tx_num as int, bs, log_name)
                != Some(blk),
    ensures
        undone(
            seq![rec] + recs,
            recs.len() + 1int,
            tx_num as int,
            bs,
            log_name,
            blk,
            overwrite(value, offset as int, u64_be_bytes(val)),
        ) == value,
{
    let all = seq![rec] + recs;
    let old_val = be_u64(value.subrange(offset as int, offset + 8));
    let view = SetIntView { tx_num, blk, offset, val: old_val };
    let written = overwrite(value, offset as int, u64_be_bytes(val));
    lemma_set_int_payload(view);
    crate::file::codec::lemma_u64_round_trip(val);
    crate::file::codec::lemma_u64_round_trip(old_val);
    crate::file::codec::lemma_u64_bytes_round_trip(value.subrange(offset as int, offset + 8));
    assert(undo_target(rec, tx_num as int, bs, log_name) == Some(blk));
    let first = undone(all, 1, tx_num as int, bs, log_name, blk, written);
    assert(undone(all, 0, tx_num as int, bs, log_name, blk, written) == written);
    assert(first == overwrite(written, offset as int, u64_be_bytes(old_val)));
    assert(first =~= value);
    lemma_rest_untouched(all, recs.len() + 1int, tx_num as int, bs, log_name, blk, written);
}

/// Where only the first record of `recs` has the transaction undo a change of the
/// block `blk`, undoing the first `n` records is undoing the first.
proof fn lemma_rest_untouched(
    recs: Seq<Seq<u8>>,
    n: int,
    tx_num: int,
    bs: nat,
    log_name: Seq<char>,
    blk: BlockIdView,
    value: Seq<u8>,
)
    requires
        1 <= n <= recs.len(),
        forall|k: int| 1 <= k < n ==> #[trigger] undo_target(recs[k], tx_num, bs, log_name) != Some(blk),
    ensures
        undone(recs, n, tx_num, bs, log_name, blk, value) == undone(
            recs,
            1,
            tx_num,
            bs,
            log_name,
            blk,
            value,
        ),
    decreases n,
{
    if n > 1 {
        lemma_rest_untouched(recs, n - 1, tx_num, bs, log_name, blk, value);
    }
}

/// Whether the transaction `tx_num`, with the locks `locks`, cannot undo one of
/// the first `n` records of `recs` at once: the block of the record is in no
/// buffer of `pool` while every buffer is pinned, or the transaction holds no
/// lock on the block while the block has an exclusive holder.
pub open spec fn blocked(
    recs: Seq<Seq<u8>>,
    n: int,
    tx_num: int,
    bs: nat,
    log_name: Seq<char>,
    pool: Seq<BufferView>,
    locks: Map<BlockIdView, bool>,
    lock_tbl: &LockTable,
) -> bool {
    exists|k: int|
        0 <= k < n && #[trigger] blocks(recs[k], tx_num, bs, log_name, pool, locks, lock_tbl)
}

/// Whether the transaction `tx_num` cannot undo the record `rec` at once.
pub open spec fn blocks(
    rec: Seq<u8>,
    tx_num: int,
    bs: nat,
    log_name: Seq<char>,
    pool: Seq<BufferView>,
    locks: Map<BlockIdView, bool>,
    lock_tbl: &LockTable,
) -> bool {
    match undo_target(rec, tx_num, bs, log_name) {
        Some(blk) => pin_slot(pool, blk) is None || (!locks.contains_key(blk) && lock_tbl.val(blk)
            < 0),
        None => false,
    }
}

} // verus!
