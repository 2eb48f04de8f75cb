use vstd::prelude::*;
use vstd::string::StringExecFns;
use vstd::utf8::encode_utf8;
use crate::buffer::buffer_mgr::{
    buffer_abort_message, can_pin, pin_attempt, pin_slot, slot_of, unpinned_once, waited_too_long,
    BufferMgr,
};
use crate::file::block_id::{BlockId, BlockIdView};
use crate::file::byte_buffer::string_bytes;
use crate::file::codec::{be_u32, be_u64, u64_be_bytes};
use crate::file::file_mgr::{blocks_of, grown};
use crate::file::page::{has_string, string_at};
use crate::record::layout::Layout;
use crate::record::record_page::{formatted, found_after, RecordPage, EMPTY, USED};
use crate::record::rid::RID;
use crate::record::schema::{has_field, FieldSpec};
use crate::tx::concurrency::concurrency_mgr::{s_lock_step, x_lock_step};
use crate::tx::concurrency::lock_table::LockTable;
use crate::tx::recovery::set_int_record::header_len;
use crate::tx::recovery::set_string_record::{set_string_len, SetStringView};
use crate::tx::transaction::{
    block_rewritten, change_made, done_of, int_undo_record, string_undo_record, Transaction,
};

verus! {

/// The name of the file of the table `table_name`.
pub open spec fn table_file(table_name: Seq<char>) -> Seq<char> {
    table_name + ".tbl"@
}

/// A scan of the records of a table: a place in the file of the table, a block
/// and a slot in it, that moves from record to record. Each call takes one step;
/// where a step says that it is not done, the caller asks again.
pub struct TableScan {
    table_name: String,
    file_name: String,
    layout: Layout,
    rp: Option<RecordPage>,
    blk_num: u64,
    fresh: bool,
    current_slot: i64,
}

/// What one step of opening a scan does: see [`TableScan::open`].
pub open spec fn opened(
    ts0: &TableScan,
    ts1: &TableScan,
    tx0: &Transaction,
    tx1: &Transaction,
    bm0: &BufferMgr,
    bm1: &BufferMgr,
    lt0: &LockTable,
    lt1: &LockTable,
    start_time: u64,
    now: u64,
    r: Result<bool, String>,
) -> bool {
    &&& ts1.attached(tx1, bm1, lt1)
    &&& ts1.file() == ts0.file()
    &&& ts1.fields() == ts0.fields()
    &&& ts1.blk_num() == ts0.blk_num()
    &&& tx1.num() == tx0.num()
    &&& lt1.max_wait() == lt0.max_wait()
    &&& bm1.max_wait() == bm0.max_wait()
    &&& bm1.last_tx() == bm0.last_tx()
    &&& bm1.log().bs() == bm0.log().bs()
    &&& bm1.log().log_name() == bm0.log().log_name()
    &&& r == Ok::<bool, String>(true) <==> ts1.is_open() && !ts1.is_fresh()
    &&& !ts0.is_open() ==> {
        &&& pin_attempt(
            bm0,
            bm1,
            ts0.blk(),
            if ts1.is_open() {
                pin_slot(bm0.pool(), ts0.blk())
            } else {
                None
            },
        )
        &&& ts1.is_open() == pin_slot(bm0.pool(), ts0.blk()) is Some
        &&& ts1.is_fresh() == ts0.is_fresh()
        &&& ts1.slot() == if ts1.is_open() {
            -1
        } else {
            ts0.slot()
        }
        &&& r is Err <==> !ts1.is_open() && waited_too_long(start_time, now, bm0.max_wait())
        &&& r matches Err(message) ==> message@ == buffer_abort_message()
        &&& tx1.locks() == tx0.locks()
        &&& forall|b: BlockIdView| #[trigger] lt1.val(b) == lt0.val(b)
        &&& forall|b: BlockIdView| #[trigger] bm1.block_value(b) == bm0.block_value(b)
        &&& forall|b: BlockIdView| #[trigger]
            tx1.pin_count(b) == tx0.pin_count(b) + if b == ts0.blk() && ts1.is_open() {
                1nat
            } else {
                0nat
            }
    }
    &&& ts0.is_open() ==> {
        &&& ts1.is_open()
        &&& ts1.slot() == ts0.slot()
        &&& tx1.pins() == tx0.pins()
    }
    &&& ts0.is_open() && !ts0.is_fresh() ==> {
        &&& bm1 == bm0
        &&& tx1.locks() == tx0.locks()
        &&& forall|b: BlockIdView| #[trigger] lt1.val(b) == lt0.val(b)
    }
    &&& ts0.is_open() && ts0.is_fresh() ==> {
        &&& ts1.is_fresh() == (bm0.log().bs() as int / ts0.page().slot_size() > 0 && r != Ok::<
            bool,
            String,
        >(true))
        &&& bm0.log().bs() as int / ts0.page().slot_size() <= 0 ==> bm1 == bm0 && tx1.locks()
            == tx0.locks()
        &&& bm0.log().bs() as int / ts0.page().slot_size() > 0 ==> {
            &&& x_lock_step(
                tx0.locks(),
                tx1.locks(),
                lt0,
                lt1,
                ts0.blk(),
                now - start_time > lt0.max_wait(),
                r,
            )
            &&& r == Ok::<bool, String>(true) ==> block_rewritten(
                bm0,
                bm1,
                tx0.num(),
                ts0.blk(),
                formatted(bm0.block_value(ts0.blk()), ts0.fields(), bm0.log().bs()),
            )
            &&& r != Ok::<bool, String>(true) ==> bm1 == bm0
        }
    }
}

/// What taking the pin of a scan off the block `blk` does to the pool and to the
/// transaction.
pub open spec fn let_go(
    tx0: &Transaction,
    tx1: &Transaction,
    bm0: &BufferMgr,
    bm1: &BufferMgr,
    blk: BlockIdView,
) -> bool {
    &&& bm1.pool() == bm0.pool().update(
        slot_of(bm0.pool(), blk),
        unpinned_once(bm0.pool()[slot_of(bm0.pool(), blk)]),
    )
    &&& bm1.log() == bm0.log()
    &&& forall|b: BlockIdView| #[trigger] bm1.block_value(b) == bm0.block_value(b)
    &&& forall|b: BlockIdView| #[trigger]
        tx1.pin_count(b) == tx0.pin_count(b) - if b == blk {
            1int
        } else {
            0int
        }
}

/// A field of a slot that lies in the block lies behind the start of its slot,
/// and the number of the slot is small.
pub proof fn lemma_slot_in_block(slot: int, size: int, offset: int, bs: int)
    by (nonlinear_arith)
    requires
        0 <= slot,
        8 <= size,
        0 <= offset,
        slot * size + offset <= bs,
    ensures
        slot <= bs,
        0 <= slot * size,
{
}

/// Whether a scan stands where it stood.
pub open spec fn stayed(ts0: &TableScan, ts1: &TableScan) -> bool {
    &&& ts1.is_open() == ts0.is_open()
    &&& ts1.is_fresh() == ts0.is_fresh()
    &&& ts1.blk_num() == ts0.blk_num()
    &&& ts1.slot() == ts0.slot()
}

/// What the result of a step of a scan says of the step of opening that it took.
pub open spec fn open_result<T>(ts1: &TableScan, r: Result<T, String>) -> Result<bool, String> {
    match r {
        Ok(_) => Ok(ts1.is_open() && !ts1.is_fresh()),
        Err(message) => Err(message),
    }
}

/// Whether a step of a scan has looked through the rest of the block of the scan:
/// it has found a slot, or moved on, or found that there is no more.
pub open spec fn looked<T>(ts0: &TableScan, ts1: &TableScan, r: Result<Option<T>, String>) -> Result<
    bool,
    String,
> {
    match r {
        Ok(Some(_)) => Ok(true),
        Ok(None) => Ok(!stayed(ts0, ts1)),
        Err(message) => Err(message),
    }
}

/// What one step of a move to the next record does in an open scan: a step of the
/// search for the next used slot of the block. Where there is one, the scan
/// stands at it. Where there is none, the scan has come to its end in the last
/// block of the file, and is else closed, to open at the next block.
pub open spec fn next_searched(
    ts0: &TableScan,
    ts1: &TableScan,
    tx0: &Transaction,
    tx1: &Transaction,
    bm0: &BufferMgr,
    bm1: &BufferMgr,
    lt0: &LockTable,
    lt1: &LockTable,
    start_time: u64,
    now: u64,
    r: Result<Option<bool>, String>,
) -> bool {
    let rp = ts0.page();
    let count = rp.slot_count(bm0.log().bs());
    let value = bm0.block_value(ts0.blk());
    let size = blocks_of(bm0.log().disk(), ts0.file()).len();
    &&& !ts1.is_fresh()
    &&& if ts0.slot() + 1 < count {
        s_lock_step(
            tx0.locks(),
            tx1.locks(),
            lt0,
            lt1,
            ts0.blk(),
            now - start_time > lt0.max_wait(),
            looked(ts0, ts1, r),
        )
    } else {
        &&& tx1.locks() == tx0.locks()
        &&& forall|b: BlockIdView| #[trigger] lt1.val(b) == lt0.val(b)
        &&& looked(ts0, ts1, r) == Ok::<bool, String>(true)
    }
    &&& match looked(ts0, ts1, r) {
        Ok(true) => {
            &&& found_after(value, rp.slot_size(), count, ts0.slot(), USED, ts1.slot())
            &&& if 0 <= ts1.slot() {
                &&& r == Ok::<Option<bool>, String>(Some(true))
                &&& ts1.is_open()
                &&& ts1.blk_num() == ts0.blk_num()
                &&& bm1 == bm0
                &&& tx1.pins() == tx0.pins()
            } else if ts0.blk_num() + 1 >= size {
                &&& r == Ok::<Option<bool>, String>(Some(false))
                &&& ts1.is_open()
                &&& ts1.blk_num() == ts0.blk_num()
                &&& bm1 == bm0
                &&& tx1.pins() == tx0.pins()
            } else {
                &&& r == Ok::<Option<bool>, String>(None)
                &&& !ts1.is_open()
                &&& ts1.blk_num() == ts0.blk_num() + 1
                &&& let_go(tx0, tx1, bm0, bm1, ts0.blk())
            }
        },
        _ => stayed(ts0, ts1) && bm1 == bm0 && tx1.pins() == tx0.pins(),
    }
}

/// What one step of a move to a slot for a new record does in an open scan: a
/// step of the search for the next empty slot of the block. Where there is one,
/// its flag is set to used, with a log record, and the scan stands at it. Where
/// there is none, the scan is closed, to open at the next block or, behind the
/// last block of the file, at a block that it adds to the file.
pub open spec fn insert_searched(
    ts0: &TableScan,
    ts1: &TableScan,
    tx0: &Transaction,
    tx1: &Transaction,
    bm0: &BufferMgr,
    bm1: &BufferMgr,
    lt0: &LockTable,
    lt1: &LockTable,
    start_time: u64,
    now: u64,
    r: Result<bool, String>,
) -> bool {
    let rp = ts0.page();
    let count = rp.slot_count(bm0.log().bs());
    let value = bm0.block_value(ts0.blk());
    let size = blocks_of(bm0.log().disk(), ts0.file()).len();
    let done = match r {
        Ok(true) => Ok::<bool, String>(true),
        Ok(false) => Ok(!stayed(ts0, ts1)),
        Err(message) => Err(message),
    };
    &&& match done {
        Ok(true) => {
            &&& found_after(value, rp.slot_size(), count, ts0.slot(), EMPTY, ts1.slot())
            &&& if 0 <= ts1.slot() {
                &&& r == Ok::<bool, String>(true)
                &&& ts1.is_open()
                &&& !ts1.is_fresh()
                &&& ts1.blk_num() == ts0.blk_num()
                &&& tx1.pins() == tx0.pins()
                &&& x_lock_step(
                    tx0.locks(),
                    tx1.locks(),
                    lt0,
                    lt1,
                    ts0.blk(),
                    now - start_time > lt0.max_wait(),
                    Ok::<bool, String>(true),
                )
                &&& change_made(
                    bm0,
                    bm1,
                    tx0.num(),
                    ts0.blk(),
                    rp.slot_pos(ts1.slot()) as u64,
                    u64_be_bytes(USED),
                    Some(
                        int_undo_record(
                            tx0.num(),
                            ts0.blk(),
                            rp.slot_pos(ts1.slot()) as u64,
                            bm0.block_value(ts0.blk()),
                        ),
                    ),
                )
            } else {
                &&& r == Ok::<bool, String>(false)
                &&& !ts1.is_open()
                &&& ts0.slot() + 1 < count ==> s_lock_step(
                    tx0.locks(),
                    tx1.locks(),
                    lt0,
                    lt1,
                    ts0.blk(),
                    now - start_time > lt0.max_wait(),
                    Ok::<bool, String>(true),
                )
                &&& ts0.slot() + 1 >= count ==> tx1.locks() == tx0.locks() && forall|
                    b: BlockIdView,
                | #[trigger] lt1.val(b) == lt0.val(b)
                &&& forall|b: BlockIdView| #[trigger] bm1.block_value(b) == bm0.block_value(b)
                &&& forall|b: BlockIdView| #[trigger]
                    tx1.pin_count(b) == tx0.pin_count(b) - if b == ts0.blk() {
                        1int
                    } else {
                        0int
                    }
                &&& if ts0.blk_num() + 1 >= size {
                    &&& ts1.is_fresh()
                    &&& ts1.blk_num() == size
                    &&& bm1.log().same_log(bm0.log())
                    &&& bm1.data() == grown(bm0.data(), ts0.file(), bm0.log().bs())
                    &&& bm1.pool() == bm0.pool().update(
                        slot_of(bm0.pool(), ts0.blk()),
                        unpinned_once(bm0.pool()[slot_of(bm0.pool(), ts0.blk())]),
                    )
                } else {
                    &&& !ts1.is_fresh()
                    &&& ts1.blk_num() == ts0.blk_num() + 1
                    &&& let_go(tx0, tx1, bm0, bm1, ts0.blk())
                }
            }
        },
        _ => {
            &&& stayed(ts0, ts1)
            &&& bm1 == bm0
            &&& tx1.pins() == tx0.pins()
            &&& ts0.slot() + 1 < count
            &&& s_lock_step(
                tx0.locks(),
                tx1.locks(),
                lt0,
                lt1,
                ts0.blk(),
                now - start_time > lt0.max_wait(),
                done,
            )
        },
    }
}

impl TableScan {
    /// The name of the file of the table.
    pub closed spec fn file(&self) -> Seq<char> {
        self.file_name@
    }

    /// The fields of a record of the table.
    pub closed spec fn fields(&self) -> Seq<FieldSpec> {
        self.layout.fields()
    }

    /// The number of the block that the scan stands in, or is to move to.
    pub closed spec fn blk_num(&self) -> nat {
        self.blk_num as nat
    }

    /// The slot that the scan stands at; -1 before the first slot of the block.
    pub closed spec fn slot(&self) -> int {
        self.current_slot as int
    }

    /// Whether the scan has pinned its block.
    pub closed spec fn is_open(&self) -> bool {
        self.rp is Some
    }

    /// Whether the block of the scan was added by the scan and is yet to be
    /// formatted.
    pub closed spec fn is_fresh(&self) -> bool {
        self.fresh
    }

    /// The page of the records of the block of the scan.
    pub closed spec fn page(&self) -> RecordPage {
        self.rp.unwrap()
    }

    /// The block that the scan stands in, or is to move to.
    pub open spec fn blk(&self) -> BlockIdView {
        BlockIdView { file_name: self.file(), blk_num: self.blk_num() }
    }

    /// Whether the scan is consistent: its page is that of its block.
    pub closed spec fn wf(&self) -> bool {
        &&& -1 <= self.current_slot
        &&& self.rp matches Some(rp) ==> rp.blk() == self.blk() && rp.fields() == self.fields()
    }

    /// Whether the scan belongs to the transaction `tx`: the scan is consistent, and
    /// its block is pinned by the transaction where the scan is open.
    pub open spec fn attached(&self, tx: &Transaction, bm: &BufferMgr, lock_tbl: &LockTable) -> bool {
        &&& self.wf()
        &&& bm.wf()
        &&& tx.wf(bm.pool())
        &&& lock_tbl.wf()
        &&& self.fields().len() > 0
        &&& self.file() != bm.log().log_name()
        &&& self.is_open() ==> tx.has_pinned(self.blk())
    }

    /// Whether the transaction `tx` can go on with the scan: the scan belongs to
    /// it, and the numbers that a step may count up have room.
    pub open spec fn usable(&self, tx: &Transaction, bm: &BufferMgr, lock_tbl: &LockTable) -> bool {
        &&& self.attached(tx, bm, lock_tbl)
        &&& bm.log().bs() <= i64::MAX
        &&& self.blk_num() < usize::MAX
        &&& !self.is_open() ==> can_pin(bm.pool(), self.blk())
        &&& !tx.locks().contains_key(self.blk()) ==> lock_tbl.val(self.blk()) < i64::MAX
    }

    /// Whether the scan stands at a record that can be read: it is open, its
    /// block is formatted, and it stands at a slot.
    pub open spec fn at_record(&self, tx: &Transaction, bm: &BufferMgr, lock_tbl: &LockTable) -> bool {
        &&& self.usable(tx, bm, lock_tbl)
        &&& self.is_open()
        &&& !self.is_fresh()
        &&& 0 <= self.slot()
    }

    /// What holds of the page of an open scan.
    pub proof fn lemma_page(&self)
        requires
            self.wf(),
            self.is_open(),
        ensures
            self.page().blk() == self.blk(),
            self.page().fields() == self.fields(),
    {
    }

    /// A scan of the table `table_name`, before the first record of its first
    /// block. Where the file of the table has no block yet, one is added, to be
    /// formatted when the scan is opened.
    pub fn new(tx: &mut Transaction, bm: &mut BufferMgr, table_name: &str, layout: Layout) -> (ts:
        Self)
        requires
            old(bm).wf(),
            table_file(table_name@) != old(bm).log().log_name(),
        ensures
            ts.wf(),
            ts.file() == table_file(table_name@),
            ts.fields() == layout.fields(),
            ts.blk_num() == 0,
            ts.slot() == -1,
            !ts.is_open(),
            ts.is_fresh() == (blocks_of(old(bm).log().disk(), ts.file()).len() == 0),
            *final(tx) == *old(tx),
            final(bm).wf(),
            !ts.is_fresh() ==> *final(bm) == *old(bm),
            ts.is_fresh() ==> {
                &&& final(bm).log().same_log(old(bm).log())
                &&& final(bm).data() == grown(old(bm).data(), ts.file(), old(bm).log().bs())
                &&& final(bm).pool() == old(bm).pool()
                &&& final(bm).avail() == old(bm).avail()
                &&& final(bm).max_wait() == old(bm).max_wait()
                &&& final(bm).last_tx() == old(bm).last_tx()
                &&& forall|b: BlockIdView| #[trigger]
                    final(bm).block_value(b) == old(bm).block_value(b)
            },
    {
        let file_name = table_name.to_owned().concat(".tbl");
        let mut fresh = false;
        if tx.size(bm, &file_name) == 0 {
            proof {
                bm.log().lemma_disk(file_name@);
            }
            tx.append(bm, &file_name);
            fresh = true;
        }
        TableScan {
            table_name: table_name.to_owned(),
            file_name,
            layout,
            rp: None,
            blk_num: 0,
            fresh,
            current_slot: -1,
        }
    }

    /// One step of opening the scan: where it is closed, a step of the request to
    /// pin its block, after which it stands before the first slot; else, where its
    /// block is yet to be formatted, a step of the request to format it. The scan
    /// is open when the step says so.
    pub fn open(
        &mut self,
        tx: &mut Transaction,
        bm: &mut BufferMgr,
        lock_tbl: &mut LockTable,
        start_time: u64,
        now: u64,
    ) -> (r: Result<bool, String>)
        requires
            old(self).usable(old(tx), old(bm), old(lock_tbl)),
        ensures
            opened(
                old(self),
                final(self),
                old(tx),
                final(tx),
                old(bm),
                final(bm),
                old(lock_tbl),
                final(lock_tbl),
                start_time,
                now,
                r,
            ),
    {
        match &self.rp {
            None => {
                let blk = BlockId::new(self.file_name.clone(), self.blk_num);
                match RecordPage::new(tx, bm, &blk, self.layout.clone(), start_time, now) {
                    Ok(Some(rp)) => {
                        self.rp = Some(rp);
                        self.current_slot = -1;
                        Ok(!self.fresh)
                    },
                    Ok(None) => Ok(false),
                    Err(message) => Err(message),
                }
            },
            Some(rp) => {
                if self.fresh {
                    let r = rp.format(tx, bm, lock_tbl, start_time, now);
                    proof {
                        bm.lemma_wf();
                    }
                    match r {
                        Ok(true) => {
                            self.fresh = false;
                            Ok(true)
                        },
                        Ok(false) => Ok(false),
                        Err(message) => Err(message),
                    }
                } else {
                    Ok(true)
                }
            },
        }
    }

    /// Closes the scan: the pin on its block is taken off.
    pub fn close(&mut self, tx: &mut Transaction, bm: &mut BufferMgr)
        requires
            old(self).wf(),
            old(bm).wf(),
            old(tx).wf(old(bm).pool()),
            old(self).is_open() ==> old(tx).has_pinned(old(self).blk()),
        ensures
            final(self).wf(),
            !final(self).is_open(),
            final(self).file() == old(self).file(),
            final(self).fields() == old(self).fields(),
            final(self).blk_num() == old(self).blk_num(),
            final(self).slot() == old(self).slot(),
            final(self).is_fresh() == old(self).is_fresh(),
            final(bm).wf(),
            final(tx).wf(final(bm).pool()),
            final(tx).num() == old(tx).num(),
            final(tx).locks() == old(tx).locks(),
            final(bm).log() == old(bm).log(),
            final(bm).max_wait() == old(bm).max_wait(),
            final(bm).last_tx() == old(bm).last_tx(),
            forall|b: BlockIdView| #[trigger] final(bm).block_value(b) == old(bm).block_value(b),
            final(bm).pool() == if old(self).is_open() {
                old(bm).pool().update(
                    slot_of(old(bm).pool(), old(self).blk()),
                    unpinned_once(old(bm).pool()[slot_of(old(bm).pool(), old(self).blk())]),
                )
            } else {
                old(bm).pool()
            },
            forall|b: BlockIdView| #[trigger]
                final(tx).pin_count(b) == old(tx).pin_count(b) - if b == old(self).blk() && old(self).is_open() {
                    1int
                } else {
                    0int
                },
    {
        let ghost pool = bm.pool();
        match &self.rp {
            Some(rp) => {
                let blk = rp.block();
                tx.unpin(bm, &blk);
                self.rp = None;
            },
            None => {
                proof {
                    assert(bm.pool() =~= pool);
                }
            },
        }
    }

    /// Moves the scan before the first record of the table: it is closed, and is
    /// to open at the first block.
    pub fn before_first(&mut self, tx: &mut Transaction, bm: &mut BufferMgr)
        requires
            old(self).wf(),
            old(bm).wf(),
            old(tx).wf(old(bm).pool()),
            old(self).is_open() ==> old(tx).has_pinned(old(self).blk()),
            !old(self).is_fresh(),
        ensures
            final(self).wf(),
            !final(self).is_open(),
            !final(self).is_fresh(),
            final(self).file() == old(self).file(),
            final(self).fields() == old(self).fields(),
            final(self).blk_num() == 0,
            final(self).slot() == -1,
            final(bm).wf(),
            final(tx).wf(final(bm).pool()),
            final(tx).num() == old(tx).num(),
            final(tx).locks() == old(tx).locks(),
            final(bm).log() == old(bm).log(),
            final(bm).max_wait() == old(bm).max_wait(),
            final(bm).last_tx() == old(bm).last_tx(),
            forall|b: BlockIdView| #[trigger] final(bm).block_value(b) == old(bm).block_value(b),
            final(bm).pool() == if old(self).is_open() {
                old(bm).pool().update(
                    slot_of(old(bm).pool(), old(self).blk()),
                    unpinned_once(old(bm).pool()[slot_of(old(bm).pool(), old(self).blk())]),
                )
            } else {
                old(bm).pool()
            },
            forall|b: BlockIdView| #[trigger]
                final(tx).pin_count(b) == old(tx).pin_count(b) - if b == old(self).blk() && old(self).is_open() {
                    1int
                } else {
                    0int
                },
    {
        self.close(tx, bm);
        self.blk_num = 0;
        self.current_slot = -1;
    }

    /// Whether the scan stands in the last block of the file of the table.
    pub fn at_last_block(&self, tx: &Transaction, bm: &BufferMgr) -> (last: bool)
        requires
            bm.wf(),
        ensures
            last == (self.blk_num() + 1 >= blocks_of(bm.log().disk(), self.file()).len()),
    {
        let size = tx.size(bm, &self.file_name);
        size == 0 || self.blk_num >= size - 1
    }

    /// One step of a move to the next record of the table: where the scan is not
    /// open, a step of opening it; else a step of the search for the next used
    /// slot. The result says whether the scan stands at a record, or has come to
    /// the end of the table; nothing where the caller is to ask again.
    pub fn next(
        &mut self,
        tx: &mut Transaction,
        bm: &mut BufferMgr,
        lock_tbl: &mut LockTable,
        start_time: u64,
        now: u64,
    ) -> (r: Result<Option<bool>, String>)
        requires
            old(self).usable(old(tx), old(bm), old(lock_tbl)),
        ensures
            final(self).attached(final(tx), final(bm), final(lock_tbl)),
            final(self).file() == old(self).file(),
            final(self).fields() == old(self).fields(),
            final(tx).num() == old(tx).num(),
            final(lock_tbl).max_wait() == old(lock_tbl).max_wait(),
            final(bm).max_wait() == old(bm).max_wait(),
            final(bm).last_tx() == old(bm).last_tx(),
            !old(self).is_open() || old(self).is_fresh() ==> r !is Ok || r == Ok::<
                Option<bool>,
                String,
            >(None),
            !old(self).is_open() || old(self).is_fresh() ==> opened(
                old(self),
                final(self),
                old(tx),
                final(tx),
                old(bm),
                final(bm),
                old(lock_tbl),
                final(lock_tbl),
                start_time,
                now,
                open_result(final(self), r),
            ),
            old(self).is_open() && !old(self).is_fresh() ==> next_searched(
                old(self),
                final(self),
                old(tx),
                final(tx),
                old(bm),
                final(bm),
                old(lock_tbl),
                final(lock_tbl),
                start_time,
                now,
                r,
            ),
    {
        if self.rp.is_none() || self.fresh {
            return match self.open(tx, bm, lock_tbl, start_time, now) {
                Ok(_) => Ok(None),
                Err(message) => Err(message),
            };
        }
        let found = match &self.rp {
            Some(rp) => rp.next_after(tx, bm, lock_tbl, self.current_slot, start_time, now),
            None => Ok(None),
        };
        match found {
            Ok(Some(slot)) => {
                self.current_slot = slot;
                if slot >= 0 {
                    Ok(Some(true))
                } else if self.at_last_block(tx, bm) {
                    Ok(Some(false))
                } else {
                    proof {
                        bm.lemma_wf();
                        tx.lemma_pinned(bm.pool(), self.blk());
                    }
                    self.close(tx, bm);
                    self.blk_num = self.blk_num + 1;
                    Ok(None)
                }
            },
            Ok(None) => Ok(None),
            Err(message) => Err(message),
        }
    }

    /// One step of a move to a slot for a new record: where the scan is not open,
    /// a step of opening it; else a step of the search for the next empty slot,
    /// which is then marked as used. The result says whether the scan stands at
    /// the slot; where it does not, the caller is to ask again.
    pub fn insert(
        &mut self,
        tx: &mut Transaction,
        bm: &mut BufferMgr,
        lock_tbl: &mut LockTable,
        start_time: u64,
        now: u64,
    ) -> (r: Result<bool, String>)
        requires
            old(self).usable(old(tx), old(bm), old(lock_tbl)),
            crate::tx::recovery::set_int_record::can_name(old(self).blk()),
            old(bm).log().can_append(header_len(old(self).file()) + 8),
            blocks_of(old(bm).data(), old(self).file()).len() < usize::MAX,
        ensures
            final(self).attached(final(tx), final(bm), final(lock_tbl)),
            final(self).file() == old(self).file(),
            final(self).fields() == old(self).fields(),
            final(tx).num() == old(tx).num(),
            final(lock_tbl).max_wait() == old(lock_tbl).max_wait(),
            final(bm).max_wait() == old(bm).max_wait(),
            final(bm).last_tx() == old(bm).last_tx(),
            !old(self).is_open() || old(self).is_fresh() ==> r != Ok::<bool, String>(true),
            !old(self).is_open() || old(self).is_fresh() ==> opened(
                old(self),
                final(self),
                old(tx),
                final(tx),
                old(bm),
                final(bm),
                old(lock_tbl),
                final(lock_tbl),
                start_time,
                now,
                open_result(final(self), r),
            ),
            old(self).is_open() && !old(self).is_fresh() ==> insert_searched(
                old(self),
                final(self),
                old(tx),
                final(tx),
                old(bm),
                final(bm),
                old(lock_tbl),
                final(lock_tbl),
                start_time,
                now,
                r,
            ),
    {
        if self.rp.is_none() || self.fresh {
            return match self.open(tx, bm, lock_tbl, start_time, now) {
                Ok(_) => Ok(false),
                Err(message) => Err(message),
            };
        }
        let found = match &self.rp {
            Some(rp) => rp.insert_after(tx, bm, lock_tbl, self.current_slot, start_time, now),
            None => Ok(None),
        };
        match found {
            Ok(Some(slot)) => {
                self.current_slot = slot;
                if slot >= 0 {
                    Ok(true)
                } else {
                    proof {
                        bm.lemma_wf();
                        tx.lemma_pinned(bm.pool(), self.blk());
                        bm.log().lemma_disk(self.file());
                    }
                    let last = self.at_last_block(tx, bm);
                    self.close(tx, bm);
                    if last {
                        proof {
                            bm.log().lemma_disk(self.file());
                        }
                        let blk = tx.append(bm, &self.file_name);
                        self.blk_num = blk.blk_num();
                        self.fresh = true;
                    } else {
                        self.blk_num = self.blk_num + 1;
                    }
                    Ok(false)
                }
            },
            Ok(None) => Ok(false),
            Err(message) => Err(message),
        }
    }

    /// One step of a request to read the 64-bit number of the field `field_name`
    /// of the record that the scan stands at, as [`RecordPage::get_int`] takes it.
    pub fn get_int(
        &self,
        tx: &mut Transaction,
        bm: &BufferMgr,
        lock_tbl: &mut LockTable,
        field_name: &str,
        start_time: u64,
        now: u64,
    ) -> (r: Result<Option<u64>, String>)
        requires
            self.at_record(old(tx), bm, old(lock_tbl)),
            has_field(self.fields(), field_name@),
            self.page().field_pos(self.slot(), field_name@) + 8 <= bm.log().bs(),
        ensures
            self.attached(final(tx), bm, final(lock_tbl)),
            final(lock_tbl).max_wait() == old(lock_tbl).max_wait(),
            final(tx).num() == old(tx).num(),
            final(tx).pins() == old(tx).pins(),
            s_lock_step(
                old(tx).locks(),
                final(tx).locks(),
                old(lock_tbl),
                final(lock_tbl),
                self.blk(),
                now - start_time > old(lock_tbl).max_wait(),
                done_of(r),
            ),
            r matches Ok(Some(n)) ==> n == be_u64(
                bm.block_value(self.blk()).subrange(
                    self.page().field_pos(self.slot(), field_name@),
                    self.page().field_pos(self.slot(), field_name@) + 8,
                ),
            ),
    {
        match &self.rp {
            Some(rp) => rp.get_int(
                tx,
                bm,
                lock_tbl,
                self.current_slot as u64,
                field_name,
                start_time,
                now,
            ),
            None => Ok(None),
        }
    }

    /// One step of a request to read, in the slot behind the one that the scan
    /// stands at, the 32-bit number that ends the 64-bit number of the field
    /// `field_name`, as [`RecordPage::get_int_u32`] takes it. The scan moves to
    /// that slot.
    pub fn get_int_u32(
        &mut self,
        tx: &mut Transaction,
        bm: &BufferMgr,
        lock_tbl: &mut LockTable,
        field_name: &str,
        start_time: u64,
        now: u64,
    ) -> (r: Result<Option<u32>, String>)
        requires
            old(self).usable(old(tx), bm, old(lock_tbl)),
            old(self).is_open(),
            !old(self).is_fresh(),
            has_field(old(self).fields(), field_name@),
            old(self).page().field_pos(old(self).slot() + 1, field_name@) + 8 <= bm.log().bs(),
        ensures
            final(self).attached(final(tx), bm, final(lock_tbl)),
            final(self).file() == old(self).file(),
            final(self).fields() == old(self).fields(),
            final(self).blk_num() == old(self).blk_num(),
            final(self).is_open(),
            !final(self).is_fresh(),
            final(self).page() == old(self).page(),
            final(self).slot() == old(self).slot() + 1,
            final(lock_tbl).max_wait() == old(lock_tbl).max_wait(),
            final(tx).num() == old(tx).num(),
            final(tx).pins() == old(tx).pins(),
            s_lock_step(
                old(tx).locks(),
                final(tx).locks(),
                old(lock_tbl),
                final(lock_tbl),
                old(self).blk(),
                now - start_time > old(lock_tbl).max_wait(),
                done_of(r),
            ),
            r matches Ok(Some(n)) ==> n == be_u32(
                bm.block_value(old(self).blk()).subrange(
                    old(self).page().field_pos(old(self).slot() + 1, field_name@) + 4,
                    old(self).page().field_pos(old(self).slot() + 1, field_name@) + 8,
                ),
            ),
    {
        proof {
            bm.lemma_wf();
            bm.log().lemma_wf();
            self.lemma_page();
            crate::record::layout::lemma_field_fits(self.fields(), 0);
            crate::record::schema::lemma_last_index_of(self.fields(), field_name@);
            crate::record::layout::lemma_field_fits(
                self.fields(),
                crate::record::schema::last_index_of(self.fields(), field_name@),
            );
            lemma_slot_in_block(
                self.slot() + 1,
                self.page().slot_size(),
                crate::record::layout::offset_of(self.fields(), field_name@),
                bm.log().bs() as int,
            );
        }
        self.current_slot = self.current_slot + 1;
        match &self.rp {
            Some(rp) => rp.get_int_u32(
                tx,
                bm,
                lock_tbl,
                self.current_slot as u64,
                field_name,
                start_time,
                now,
            ),
            None => Ok(None),
        }
    }

    /// One step of a request to read the string of the field `field_name` of the
    /// record that the scan stands at, as [`RecordPage::get_string`] takes it.
    pub fn get_string(
        &self,
        tx: &mut Transaction,
        bm: &BufferMgr,
        lock_tbl: &mut LockTable,
        field_name: &str,
        start_time: u64,
        now: u64,
    ) -> (r: Result<Option<String>, String>)
        requires
            self.at_record(old(tx), bm, old(lock_tbl)),
            has_field(self.fields(), field_name@),
            has_string(
                bm.block_value(self.blk()),
                self.page().field_pos(self.slot(), field_name@),
            ),
        ensures
            self.attached(final(tx), bm, final(lock_tbl)),
            final(lock_tbl).max_wait() == old(lock_tbl).max_wait(),
            final(tx).num() == old(tx).num(),
            final(tx).pins() == old(tx).pins(),
            s_lock_step(
                old(tx).locks(),
                final(tx).locks(),
                old(lock_tbl),
                final(lock_tbl),
                self.blk(),
                now - start_time > old(lock_tbl).max_wait(),
                done_of(r),
            ),
            r matches Ok(Some(s)) ==> s@ == string_at(
                bm.block_value(self.blk()),
                self.page().field_pos(self.slot(), field_name@),
            ),
    {
        match &self.rp {
            Some(rp) => rp.get_string(
                tx,
                bm,
                lock_tbl,
                self.current_slot as u64,
                field_name,
                start_time,
                now,
            ),
            None => Ok(None),
        }
    }

    /// One step of a request to write the 64-bit number `value` to the field
    /// `field_name` of the record that the scan stands at, with a log record, as
    /// [`RecordPage::set_int`] takes it.
    pub fn set_int(
        &self,
        tx: &mut Transaction,
        bm: &mut BufferMgr,
        lock_tbl: &mut LockTable,
        field_name: &str,
        value: u64,
        start_time: u64,
        now: u64,
    ) -> (r: Result<bool, String>)
        requires
            self.at_record(old(tx), old(bm), old(lock_tbl)),
            has_field(self.fields(), field_name@),
            self.page().field_pos(self.slot(), field_name@) + 8 <= old(bm).log().bs(),
            self.page().loggable(old(bm), header_len(self.file()) + 8),
        ensures
            self.attached(final(tx), final(bm), final(lock_tbl)),
            final(lock_tbl).max_wait() == old(lock_tbl).max_wait(),
            final(tx).num() == old(tx).num(),
            final(tx).pins() == old(tx).pins(),
            x_lock_step(
                old(tx).locks(),
                final(tx).locks(),
                old(lock_tbl),
                final(lock_tbl),
                self.blk(),
                now - start_time > old(lock_tbl).max_wait(),
                r,
            ),
            r == Ok::<bool, String>(true) ==> change_made(
                old(bm),
                final(bm),
                old(tx).num(),
                self.blk(),
                self.page().field_pos(self.slot(), field_name@) as u64,
                u64_be_bytes(value),
                Some(
                    int_undo_record(
                        old(tx).num(),
                        self.blk(),
                        self.page().field_pos(self.slot(), field_name@) as u64,
                        old(bm).block_value(self.blk()),
                    ),
                ),
            ),
            r != Ok::<bool, String>(true) ==> *final(bm) == *old(bm),
    {
        match &self.rp {
            Some(rp) => {
                let r = rp.set_int(
                    tx,
                    bm,
                    lock_tbl,
                    self.current_slot as u64,
                    field_name,
                    value,
                    start_time,
                    now,
                );
                proof {
                    bm.lemma_wf();
                    bm.log().lemma_wf();
                }
                r
            },
            None => Ok(false),
        }
    }

    /// One step of a request to write the string `value` to the field
    /// `field_name` of the record that the scan stands at, with a log record, as
    /// [`RecordPage::set_string`] takes it.
    pub fn set_string(
        &self,
        tx: &mut Transaction,
        bm: &mut BufferMgr,
        lock_tbl: &mut LockTable,
        field_name: &str,
        value: String,
        start_time: u64,
        now: u64,
    ) -> (r: Result<bool, String>)
        requires
            self.at_record(old(tx), old(bm), old(lock_tbl)),
            has_field(self.fields(), field_name@),
            self.page().field_pos(self.slot(), field_name@) + 4 + encode_utf8(value@).len() <= old(
                bm,
            ).log().bs(),
            encode_utf8(value@).len() <= u32::MAX,
            has_string(
                old(bm).block_value(self.blk()),
                self.page().field_pos(self.slot(), field_name@),
            ),
            self.page().loggable(
                old(bm),
                set_string_len(
                    (SetStringView {
                        tx_num: 0,
                        blk: self.blk(),
                        offset: 0,
                        val: string_at(
                            old(bm).block_value(self.blk()),
                            self.page().field_pos(self.slot(), field_name@),
                        ),
                    }),
                ),
            ),
        ensures
            self.attached(final(tx), final(bm), final(lock_tbl)),
            final(lock_tbl).max_wait() == old(lock_tbl).max_wait(),
            final(tx).num() == old(tx).num(),
            final(tx).pins() == old(tx).pins(),
            x_lock_step(
                old(tx).locks(),
                final(tx).locks(),
                old(lock_tbl),
                final(lock_tbl),
                self.blk(),
                now - start_time > old(lock_tbl).max_wait(),
                r,
            ),
            r == Ok::<bool, String>(true) ==> change_made(
                old(bm),
                final(bm),
                old(tx).num(),
                self.blk(),
                self.page().field_pos(self.slot(), field_name@) as u64,
                string_bytes(value@),
                Some(
                    string_undo_record(
                        old(tx).num(),
                        self.blk(),
                        self.page().field_pos(self.slot(), field_name@) as u64,
                        old(bm).block_value(self.blk()),
                    ),
                ),
            ),
            r != Ok::<bool, String>(true) ==> *final(bm) == *old(bm),
    {
        match &self.rp {
            Some(rp) => {
                let r = rp.set_string(
                    tx,
                    bm,
                    lock_tbl,
                    self.current_slot as u64,
                    field_name,
                    value,
                    start_time,
                    now,
                );
                proof {
                    bm.lemma_wf();
                    bm.log().lemma_wf();
                }
                r
            },
            None => Ok(false),
        }
    }

    /// One step of a request to mark the record that the scan stands at as
    /// deleted, with a log record, as [`RecordPage::delete`] takes it.
    pub fn delete(
        &self,
        tx: &mut Transaction,
        bm: &mut BufferMgr,
        lock_tbl: &mut LockTable,
        start_time: u64,
        now: u64,
    ) -> (r: Result<bool, String>)
        requires
            self.at_record(old(tx), old(bm), old(lock_tbl)),
            self.page().slot_pos(self.slot()) + 8 <= old(bm).log().bs(),
            self.page().loggable(old(bm), header_len(self.file()) + 8),
        ensures
            self.attached(final(tx), final(bm), final(lock_tbl)),
            final(lock_tbl).max_wait() == old(lock_tbl).max_wait(),
            final(tx).num() == old(tx).num(),
            final(tx).pins() == old(tx).pins(),
            x_lock_step(
                old(tx).locks(),
                final(tx).locks(),
                old(lock_tbl),
                final(lock_tbl),
                self.blk(),
                now - start_time > old(lock_tbl).max_wait(),
                r,
            ),
            r == Ok::<bool, String>(true) ==> change_made(
                old(bm),
                final(bm),
                old(tx).num(),
                self.blk(),
                self.page().slot_pos(self.slot()) as u64,
                u64_be_bytes(EMPTY),
                Some(
                    int_undo_record(
                        old(tx).num(),
                        self.blk(),
                        self.page().slot_pos(self.slot()) as u64,
                        old(bm).block_value(self.blk()),
                    ),
                ),
            ),
            r != Ok::<bool, String>(true) ==> *final(bm) == *old(bm),
    {
        match &self.rp {
            Some(rp) => {
                let r = rp.delete(tx, bm, lock_tbl, self.current_slot as u64, start_time, now);
                proof {
                    bm.lemma_wf();
                    bm.log().lemma_wf();
                }
                r
            },
            None => Ok(false),
        }
    }

    /// The number of the block that the scan stands in, or is to move to.
    pub fn block_number(&self) -> (n: u64)
        ensures
            n == self.blk_num(),
    {
        self.blk_num
    }

    /// The slot that the scan stands at; -1 before the first slot of the block.
    pub fn current_slot(&self) -> (slot: i64)
        ensures
            slot == self.slot(),
    {
        self.current_slot
    }

    /// Whether the scan is closed, or its block is yet to be formatted: a step of
    /// opening is due.
    pub fn needs_open(&self) -> (due: bool)
        ensures
            due == (!self.is_open() || self.is_fresh()),
    {
        self.rp.is_none() || self.fresh
    }

    /// The identifier of the record that the scan stands at.
    pub fn get_rid(&self) -> (rid: RID)
        requires
            0 <= self.slot(),
        ensures
            rid.blk_num() == self.blk_num(),
            rid.slot() == self.slot(),
    {
        RID::new(self.blk_num, self.current_slot as u64)
    }
}

} // verus!
