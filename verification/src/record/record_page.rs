use vstd::prelude::*;
use vstd::utf8::encode_utf8;
use crate::buffer::buffer_mgr::{
    buffer_abort_message, can_pin, pin_attempt, pin_slot, waited_too_long, BufferMgr,
};
use crate::file::block_id::{BlockId, BlockIdView};
use crate::file::byte_buffer::string_bytes;
use crate::file::codec::{be_u32, be_u64, lemma_overwrite, overwrite, u64_be_bytes, zeros};
use crate::file::page::{has_string, string_at};
use crate::logging::log_mgr::log_kept;
use crate::record::layout::{lemma_field_fits, offset_of, slot_size_of, Layout};
use crate::record::schema::{has_field, info_of, FieldSpec, INTEGER};
use crate::tx::concurrency::concurrency_mgr::{s_lock_step, x_lock_step};
use crate::tx::concurrency::lock_table::LockTable;
use crate::tx::recovery::set_int_record::{can_name, header_len};
use crate::tx::recovery::set_string_record::{set_string_len, SetStringView};
use crate::tx::transaction::{
    block_rewritten, change_made, done_of, int_undo_record, lemma_rewritten_again,
    lemma_rewritten_once, string_undo_record, Transaction,
};

verus! {

/// The flag of a slot that holds no record.
pub const EMPTY: u64 = 0;

/// The flag of a slot that holds a record.
pub const USED: u64 = 1;

/// How many bytes formatting writes for the field at position `i`: the 64-bit
/// number 0 for a number, the length 0 for a string.
pub open spec fn cleared_width(fields: Seq<FieldSpec>, i: int) -> int {
    if info_of(fields, fields[i].name).field_type == INTEGER {
        8
    } else {
        4
    }
}

/// Where part `t` of the slot `s` begins: part 0 is the flag, part `i + 1` the
/// field at position `i`.
pub open spec fn part_pos(fields: Seq<FieldSpec>, s: int, t: int) -> int {
    if t == 0 {
        s * slot_size_of(fields)
    } else {
        s * slot_size_of(fields) + offset_of(fields, fields[t - 1].name)
    }
}

/// How many bytes formatting writes for part `t` of a slot.
pub open spec fn part_len(fields: Seq<FieldSpec>, t: int) -> int {
    if t == 0 {
        8
    } else {
        cleared_width(fields, t - 1)
    }
}

/// Whether the byte at `p` lies in what formatting writes for part `t` of the
/// slot `s`.
pub open spec fn in_part(fields: Seq<FieldSpec>, s: int, t: int, p: int) -> bool {
    part_pos(fields, s, t) <= p < part_pos(fields, s, t) + part_len(fields, t)
}

/// Whether formatting has written the byte at `p` when it has done the slots
/// before `s` and the parts before `t` of the slot `s`.
pub open spec fn cleared(fields: Seq<FieldSpec>, s: int, t: int, p: int) -> bool {
    exists|s1: int, t1: int|
        0 <= s1 && 0 <= t1 <= fields.len() && (s1 < s || (s1 == s && t1 < t)) && #[trigger] in_part(
            fields,
            s1,
            t1,
            p,
        )
}

/// The bytes `value` of a block when formatting has done the slots before `s` and
/// the parts before `t` of the slot `s`: zero where it has written.
pub open spec fn formatted_upto(value: Seq<u8>, fields: Seq<FieldSpec>, s: int, t: int) -> Seq<u8> {
    Seq::new(
        value.len(),
        |p: int|
            if cleared(fields, s, t, p) {
                0u8
            } else {
                value[p]
            },
    )
}

/// The bytes `value` of a block of `bs` bytes after it has been formatted for
/// records with the fields `fields`: in each slot that fits, the flag says that
/// the slot is empty, each number is 0 and each string is empty.
pub open spec fn formatted(value: Seq<u8>, fields: Seq<FieldSpec>, bs: nat) -> Seq<u8> {
    formatted_upto(value, fields, bs as int / slot_size_of(fields), 0)
}

/// Formatting one more part of a slot.
pub proof fn lemma_formatted_part(value: Seq<u8>, fields: Seq<FieldSpec>, s: int, t: int)
    requires
        0 <= s,
        0 <= t <= fields.len(),
        0 <= part_pos(fields, s, t),
        part_pos(fields, s, t) + part_len(fields, t) <= value.len(),
    ensures
        overwrite(
            formatted_upto(value, fields, s, t),
            part_pos(fields, s, t),
            zeros(part_len(fields, t) as nat),
        ) == formatted_upto(value, fields, s, t + 1),
{
    let before = formatted_upto(value, fields, s, t);
    let at = part_pos(fields, s, t);
    let len = part_len(fields, t);
    let after = overwrite(before, at, zeros(len as nat));
    let want = formatted_upto(value, fields, s, t + 1);
    lemma_overwrite(before, at, zeros(len as nat));
    assert forall|p: int| 0 <= p < value.len() implies after[p] == want[p] by {
        if at <= p < at + len {
            assert(in_part(fields, s, t, p));
        } else {
            if cleared(fields, s, t + 1, p) {
                let (s1, t1) = choose|s1: int, t1: int|
                    0 <= s1 && 0 <= t1 <= fields.len() && (s1 < s || (s1 == s && t1 < t + 1))
                        && #[trigger] in_part(fields, s1, t1, p);
                assert(in_part(fields, s1, t1, p));
                assert(!(s1 == s && t1 == t));
            }
            if cleared(fields, s, t, p) {
                let (s1, t1) = choose|s1: int, t1: int|
                    0 <= s1 && 0 <= t1 <= fields.len() && (s1 < s || (s1 == s && t1 < t))
                        && #[trigger] in_part(fields, s1, t1, p);
                assert(in_part(fields, s1, t1, p));
            }
        }
    }
    assert(after =~= want);
}

/// A slot whose parts are all formatted is a formatted slot.
pub proof fn lemma_formatted_slot(value: Seq<u8>, fields: Seq<FieldSpec>, s: int)
    requires
        0 <= s,
    ensures
        formatted_upto(value, fields, s, fields.len() + 1int) == formatted_upto(value, fields, s + 1, 0),
{
    let a = formatted_upto(value, fields, s, fields.len() + 1int);
    let b = formatted_upto(value, fields, s + 1, 0);
    assert forall|p: int| 0 <= p < value.len() implies a[p] == b[p] by {
        if cleared(fields, s, fields.len() + 1int, p) {
            let (s1, t1) = choose|s1: int, t1: int|
                0 <= s1 && 0 <= t1 <= fields.len() && (s1 < s || (s1 == s && t1 < fields.len() + 1int))
                    && #[trigger] in_part(fields, s1, t1, p);
            assert(in_part(fields, s1, t1, p));
        }
        if cleared(fields, s + 1, 0, p) {
            let (s1, t1) = choose|s1: int, t1: int|
                0 <= s1 && 0 <= t1 <= fields.len() && (s1 < s + 1 || (s1 == s + 1 && t1 < 0))
                    && #[trigger] in_part(fields, s1, t1, p);
            assert(in_part(fields, s1, t1, p));
        }
    }
    assert(a =~= b);
}

/// Before formatting has begun the block is as it was.
pub proof fn lemma_formatted_none(value: Seq<u8>, fields: Seq<FieldSpec>)
    ensures
        formatted_upto(value, fields, 0, 0) == value,
{
    assert(formatted_upto(value, fields, 0, 0) =~= value);
}

/// The bytes of the number 0 and of the empty string are zeros.
pub proof fn lemma_zero_bytes()
    ensures
        u64_be_bytes(0) == zeros(8),
        string_bytes(Seq::<char>::empty()) == zeros(4),
{
    reveal(crate::file::codec::u32_be_bytes);
    reveal(crate::file::codec::u64_be_bytes);
    assert(u64_be_bytes(0) =~= zeros(8));
    assert(encode_utf8(Seq::<char>::empty()) =~= Seq::<u8>::empty());
    assert(string_bytes(Seq::<char>::empty()) =~= zeros(4));
}

/// A slot before the number of slots that fit lies in the block.
pub proof fn lemma_slot_fits(slot: int, size: int, bs: int)
    by (nonlinear_arith)
    requires
        0 <= slot < bs / size,
        0 < size,
        0 <= bs,
    ensures
        (slot + 1) * size <= bs,
        0 <= slot * size,
        (slot + 1) * size == slot * size + size,
{
}

/// A part of a slot that ends in the slot ends in the block.
pub proof fn lemma_part_fits(slot: int, size: int, end: int, bs: int)
    by (nonlinear_arith)
    requires
        0 <= slot,
        (slot + 1) * size <= bs,
        0 <= end <= size,
    ensures
        0 <= slot * size,
        slot * size + end <= bs,
{
}

/// The first slot after `slot` whose flag in the block `value` is `flag`, as `r`
/// gives it: -1 where no slot after `slot` that fits has the flag.
pub open spec fn found_after(
    value: Seq<u8>,
    slot_size: int,
    count: int,
    slot: int,
    flag: u64,
    r: int,
) -> bool {
    if r == -1 {
        forall|s: int|
            slot < s < count ==> #[trigger] be_u64(value.subrange(s * slot_size, s * slot_size + 8))
                != flag
    } else {
        &&& slot < r < count
        &&& be_u64(value.subrange(r * slot_size, r * slot_size + 8)) == flag
        &&& forall|s: int|
            slot < s < r ==> #[trigger] be_u64(value.subrange(s * slot_size, s * slot_size + 8))
                != flag
    }
}

/// The records of one block: slots of one size, each a flag and the fields of a
/// record.
pub struct RecordPage {
    blk: BlockId,
    layout: Layout,
}

impl RecordPage {
    /// The block of the page.
    pub closed spec fn blk(&self) -> BlockIdView {
        self.blk@
    }

    /// The fields of a record of the page.
    pub closed spec fn fields(&self) -> Seq<FieldSpec> {
        self.layout.fields()
    }

    /// The size of a slot.
    pub open spec fn slot_size(&self) -> int {
        slot_size_of(self.fields())
    }

    /// Where the slot `slot` begins in the block.
    pub open spec fn slot_pos(&self, slot: int) -> int {
        slot * self.slot_size()
    }

    /// Where the field `name` of the slot `slot` begins in the block.
    pub open spec fn field_pos(&self, slot: int, name: Seq<char>) -> int {
        self.slot_pos(slot) + offset_of(self.fields(), name)
    }

    /// Whether the transaction `tx` can use the page: it has pinned the block of
    /// the page.
    pub open spec fn usable(&self, tx: &Transaction, bm: &BufferMgr, lock_tbl: &LockTable) -> bool {
        &&& bm.wf()
        &&& tx.wf(bm.pool())
        &&& lock_tbl.wf()
        &&& tx.has_pinned(self.blk())
        &&& !tx.locks().contains_key(self.blk()) ==> lock_tbl.val(self.blk()) < i64::MAX
    }

    /// Whether a change of the page by the transaction can be logged.
    pub open spec fn loggable(&self, bm: &BufferMgr, len: nat) -> bool {
        can_name(self.blk()) && bm.log().can_append(len)
    }

    /// One step of a request for the page of the records of the block `blk` with
    /// the layout `layout`: a step of the request of the transaction `tx` to pin
    /// the block.
    pub fn new(
        tx: &mut Transaction,
        bm: &mut BufferMgr,
        blk: &BlockId,
        layout: Layout,
        start_time: u64,
        now: u64,
    ) -> (r: Result<Option<Self>, String>)
        requires
            old(bm).wf(),
            old(tx).wf(old(bm).pool()),
            old(bm).log().is_data_block(blk@),
            can_pin(old(bm).pool(), blk@),
        ensures
            final(bm).wf(),
            final(tx).wf(final(bm).pool()),
            final(tx).num() == old(tx).num(),
            final(tx).locks() == old(tx).locks(),
            final(bm).max_wait() == old(bm).max_wait(),
            final(bm).last_tx() == old(bm).last_tx(),
            log_kept(old(bm).log(), final(bm).log()),
            forall|b: BlockIdView| #[trigger] final(bm).block_value(b) == old(bm).block_value(b),
            pin_attempt(
                old(bm),
                final(bm),
                blk@,
                if r matches Ok(Some(_)) {
                    pin_slot(old(bm).pool(), blk@)
                } else {
                    None
                },
            ),
            match r {
                Ok(Some(rp)) => {
                    &&& pin_slot(old(bm).pool(), blk@) is Some
                    &&& rp.blk() == blk@
                    &&& rp.fields() == layout.fields()
                },
                Ok(None) => {
                    &&& pin_slot(old(bm).pool(), blk@) is None
                    &&& !waited_too_long(start_time, now, old(bm).max_wait())
                },
                Err(message) => {
                    &&& pin_slot(old(bm).pool(), blk@) is None
                    &&& waited_too_long(start_time, now, old(bm).max_wait())
                    &&& message@ == buffer_abort_message()
                },
            },
            forall|b: BlockIdView| #[trigger]
                final(tx).pin_count(b) == old(tx).pin_count(b) + if b == blk@ && r matches Ok(
                    Some(_),
                ) {
                    1nat
                } else {
                    0nat
                },
    {
        match tx.pin(bm, blk, start_time, now) {
            Ok(true) => Ok(Some(RecordPage { blk: blk.clone(), layout })),
            Ok(false) => Ok(None),
            Err(message) => Err(message),
        }
    }

    /// Where the field `field_name` of the slot `slot` begins.
    fn position(&self, slot: u64, field_name: &str) -> (pos: u64)
        requires
            has_field(self.fields(), field_name@),
            self.field_pos(slot as int, field_name@) <= u64::MAX,
        ensures
            pos == self.field_pos(slot as int, field_name@),
    {
        let offset = self.layout.offset(field_name);
        let size = self.layout.slot_size();
        assert(slot * size <= u64::MAX) by (nonlinear_arith)
            requires
                slot * size + offset <= u64::MAX,
                0 <= offset,
                0 <= slot,
                0 <= size,
        ;
        slot * size + offset
    }

    /// One step of a request to read the 64-bit number of the field `field_name`
    /// of the slot `slot`, as [`Transaction::get_int`] takes it.
    pub fn get_int(
        &self,
        tx: &mut Transaction,
        bm: &BufferMgr,
        lock_tbl: &mut LockTable,
        slot: u64,
        field_name: &str,
        start_time: u64,
        now: u64,
    ) -> (r: Result<Option<u64>, String>)
        requires
            self.usable(old(tx), bm, old(lock_tbl)),
            has_field(self.fields(), field_name@),
            self.field_pos(slot as int, field_name@) + 8 <= bm.log().bs(),
        ensures
            self.usable(final(tx), bm, final(lock_tbl)),
            final(lock_tbl).max_wait() == old(lock_tbl).max_wait(),
            final(tx).num() == old(tx).num(),
            final(tx).pins() == old(tx).pins(),
            s_lock_step(
                old(tx).locks(),
                final(tx).locks(),
                old(lock_tbl),
                final(lock_tbl),
                self.blk(),
                now - start_time > old(lock_tbl).max_wait(),
                done_of(r),
            ),
            r matches Ok(Some(n)) ==> n == be_u64(
                bm.block_value(self.blk()).subrange(
                    self.field_pos(slot as int, field_name@),
                    self.field_pos(slot as int, field_name@) + 8,
                ),
            ),
    {
        proof {
            bm.lemma_wf();
            bm.log().lemma_wf();
        }
        let field_pos = self.position(slot, field_name);
        tx.get_int(bm, lock_tbl, &self.blk, field_pos, start_time, now)
    }

    /// One step of a request to read the 32-bit number that ends the 64-bit
    /// number of the field `field_name` of the slot `slot`, as
    /// [`Transaction::get_int_u32`] takes it.
    pub fn get_int_u32(
        &self,
        tx: &mut Transaction,
        bm: &BufferMgr,
        lock_tbl: &mut LockTable,
        slot: u64,
        field_name: &str,
        start_time: u64,
        now: u64,
    ) -> (r: Result<Option<u32>, String>)
        requires
            self.usable(old(tx), bm, old(lock_tbl)),
            has_field(self.fields(), field_name@),
            self.field_pos(slot as int, field_name@) + 8 <= bm.log().bs(),
        ensures
            self.usable(final(tx), bm, final(lock_tbl)),
            final(lock_tbl).max_wait() == old(lock_tbl).max_wait(),
            final(tx).num() == old(tx).num(),
            final(tx).pins() == old(tx).pins(),
            s_lock_step(
                old(tx).locks(),
                final(tx).locks(),
                old(lock_tbl),
                final(lock_tbl),
                self.blk(),
                now - start_time > old(lock_tbl).max_wait(),
                done_of(r),
            ),
            r matches Ok(Some(n)) ==> n == be_u32(
                bm.block_value(self.blk()).subrange(
                    self.field_pos(slot as int, field_name@) + 4,
                    self.field_pos(slot as int, field_name@) + 8,
                ),
            ),
    {
        proof {
            bm.lemma_wf();
            bm.log().lemma_wf();
        }
        let field_pos = self.position(slot, field_name) + 4;
        tx.get_int_u32(bm, lock_tbl, &self.blk, field_pos, start_time, now)
    }

    /// One step of a request to read the string of the field `field_name` of the
    /// slot `slot`, as [`Transaction::get_string`] takes it.
    pub fn get_string(
        &self,
        tx: &mut Transaction,
        bm: &BufferMgr,
        lock_tbl: &mut LockTable,
        slot: u64,
        field_name: &str,
        start_time: u64,
        now: u64,
    ) -> (r: Result<Option<String>, String>)
        requires
            self.usable(old(tx), bm, old(lock_tbl)),
            has_field(self.fields(), field_name@),
            has_string(bm.block_value(self.blk()), self.field_pos(slot as int, field_name@)),
        ensures
            self.usable(final(tx), bm, final(lock_tbl)),
            final(lock_tbl).max_wait() == old(lock_tbl).max_wait(),
            final(tx).num() == old(tx).num(),
            final(tx).pins() == old(tx).pins(),
            s_lock_step(
                old(tx).locks(),
                final(tx).locks(),
                old(lock_tbl),
                final(lock_tbl),
                self.blk(),
                now - start_time > old(lock_tbl).max_wait(),
                done_of(r),
            ),
            r matches Ok(Some(s)) ==> s@ == string_at(
                bm.block_value(self.blk()),
                self.field_pos(slot as int, field_name@),
            ),
    {
        proof {
            bm.lemma_wf();
            bm.log().lemma_wf();
            tx.lemma_pinned(bm.pool(), self.blk());
            bm.lemma_slot(self.blk(), crate::buffer::buffer_mgr::slot_of(bm.pool(), self.blk()));
        }
        let field_pos = self.position(slot, field_name);
        tx.get_string(bm, lock_tbl, &self.blk, field_pos, start_time, now)
    }

    /// One step of a request to write the 64-bit number `value` to the field
    /// `field_name` of the slot `slot`, with a log record, as
    /// [`Transaction::set_int`] takes it.
    pub fn set_int(
        &self,
        tx: &mut Transaction,
        bm: &mut BufferMgr,
        lock_tbl: &mut LockTable,
        slot: u64,
        field_name: &str,
        value: u64,
        start_time: u64,
        now: u64,
    ) -> (r: Result<bool, String>)
        requires
            self.usable(old(tx), old(bm), old(lock_tbl)),
            has_field(self.fields(), field_name@),
            self.field_pos(slot as int, field_name@) + 8 <= old(bm).log().bs(),
            self.loggable(old(bm), header_len(self.blk().file_name) + 8),
        ensures
            final(bm).wf(),
            final(tx).wf(final(bm).pool()),
            final(lock_tbl).wf(),
            final(lock_tbl).max_wait() == old(lock_tbl).max_wait(),
            final(tx).num() == old(tx).num(),
            final(tx).pins() == old(tx).pins(),
            x_lock_step(
                old(tx).locks(),
                final(tx).locks(),
                old(lock_tbl),
                final(lock_tbl),
                self.blk(),
                now - start_time > old(lock_tbl).max_wait(),
                r,
            ),
            r == Ok::<bool, String>(true) ==> change_made(
                old(bm),
                final(bm),
                old(tx).num(),
                self.blk(),
                self.field_pos(slot as int, field_name@) as u64,
                u64_be_bytes(value),
                Some(
                    int_undo_record(
                        old(tx).num(),
                        self.blk(),
                        self.field_pos(slot as int, field_name@) as u64,
                        old(bm).block_value(self.blk()),
                    ),
                ),
            ),
            r != Ok::<bool, String>(true) ==> *final(bm) == *old(bm),
    {
        proof {
            bm.lemma_wf();
            bm.log().lemma_wf();
        }
        let field_pos = self.position(slot, field_name);
        tx.set_int(bm, lock_tbl, &self.blk, field_pos, value, true, start_time, now)
    }

    /// One step of a request to write the string `value` to the field
    /// `field_name` of the slot `slot`, with a log record, as
    /// [`Transaction::set_string`] takes it.
    pub fn set_string(
        &self,
        tx: &mut Transaction,
        bm: &mut BufferMgr,
        lock_tbl: &mut LockTable,
        slot: u64,
        field_name: &str,
        value: String,
        start_time: u64,
        now: u64,
    ) -> (r: Result<bool, String>)
        requires
            self.usable(old(tx), old(bm), old(lock_tbl)),
            has_field(self.fields(), field_name@),
            self.field_pos(slot as int, field_name@) + 4 + encode_utf8(value@).len() <= old(
                bm,
            ).log().bs(),
            encode_utf8(value@).len() <= u32::MAX,
            has_string(old(bm).block_value(self.blk()), self.field_pos(slot as int, field_name@)),
            self.loggable(
                old(bm),
                set_string_len(
                    (SetStringView {
                        tx_num: 0,
                        blk: self.blk(),
                        offset: 0,
                        val: string_at(
                            old(bm).block_value(self.blk()),
                            self.field_pos(slot as int, field_name@),
                        ),
                    }),
                ),
            ),
        ensures
            final(bm).wf(),
            final(tx).wf(final(bm).pool()),
            final(lock_tbl).wf(),
            final(lock_tbl).max_wait() == old(lock_tbl).max_wait(),
            final(tx).num() == old(tx).num(),
            final(tx).pins() == old(tx).pins(),
            x_lock_step(
                old(tx).locks(),
                final(tx).locks(),
                old(lock_tbl),
                final(lock_tbl),
                self.blk(),
                now - start_time > old(lock_tbl).max_wait(),
                r,
            ),
            r == Ok::<bool, String>(true) ==> change_made(
                old(bm),
                final(bm),
                old(tx).num(),
                self.blk(),
                self.field_pos(slot as int, field_name@) as u64,
                string_bytes(value@),
                Some(
                    string_undo_record(
                        old(tx).num(),
                        self.blk(),
                        self.field_pos(slot as int, field_name@) as u64,
                        old(bm).block_value(self.blk()),
                    ),
                ),
            ),
            r != Ok::<bool, String>(true) ==> *final(bm) == *old(bm),
    {
        proof {
            bm.lemma_wf();
            bm.log().lemma_wf();
        }
        let field_pos = self.position(slot, field_name);
        tx.set_string(bm, lock_tbl, &self.blk, field_pos, value, true, start_time, now)
    }

    /// One step of a request to mark the slot `slot` as empty, with a log record.
    pub fn delete(
        &self,
        tx: &mut Transaction,
        bm: &mut BufferMgr,
        lock_tbl: &mut LockTable,
        slot: u64,
        start_time: u64,
        now: u64,
    ) -> (r: Result<bool, String>)
        requires
            self.usable(old(tx), old(bm), old(lock_tbl)),
            self.slot_pos(slot as int) + 8 <= old(bm).log().bs(),
            self.loggable(old(bm), header_len(self.blk().file_name) + 8),
        ensures
            final(bm).wf(),
            final(tx).wf(final(bm).pool()),
            final(lock_tbl).wf(),
            final(lock_tbl).max_wait() == old(lock_tbl).max_wait(),
            final(tx).num() == old(tx).num(),
            final(tx).pins() == old(tx).pins(),
            x_lock_step(
                old(tx).locks(),
                final(tx).locks(),
                old(lock_tbl),
                final(lock_tbl),
                self.blk(),
                now - start_time > old(lock_tbl).max_wait(),
                r,
            ),
            r == Ok::<bool, String>(true) ==> change_made(
                old(bm),
                final(bm),
                old(tx).num(),
                self.blk(),
                self.slot_pos(slot as int) as u64,
                u64_be_bytes(EMPTY),
                Some(
                    int_undo_record(
                        old(tx).num(),
                        self.blk(),
                        self.slot_pos(slot as int) as u64,
                        old(bm).block_value(self.blk()),
                    ),
                ),
            ),
            r != Ok::<bool, String>(true) ==> *final(bm) == *old(bm),
    {
        proof {
            bm.lemma_wf();
            bm.log().lemma_wf();
        }
        let pos = self.slot_start(slot);
        tx.set_int(bm, lock_tbl, &self.blk, pos, EMPTY, true, start_time, now)
    }

    /// One step of a request to format the block: in each slot that fits, the
    /// flag is set to empty, each number to 0 and each string to the empty string,
    /// without log records. The first change asks for the exclusive lock on the
    /// block; where that is not granted, nothing is changed.
    pub fn format(
        &self,
        tx: &mut Transaction,
        bm: &mut BufferMgr,
        lock_tbl: &mut LockTable,
        start_time: u64,
        now: u64,
    ) -> (r: Result<bool, String>)
        requires
            self.usable(old(tx), old(bm), old(lock_tbl)),
            self.fields().len() > 0,
        ensures
            final(bm).wf(),
            final(tx).wf(final(bm).pool()),
            final(lock_tbl).wf(),
            final(lock_tbl).max_wait() == old(lock_tbl).max_wait(),
            final(tx).num() == old(tx).num(),
            final(tx).pins() == old(tx).pins(),
            old(bm).log().bs() as int / self.slot_size() <= 0 ==> {
                &&& r == Ok::<bool, String>(true)
                &&& *final(bm) == *old(bm)
                &&& final(tx).locks() == old(tx).locks()
                &&& forall|b: BlockIdView| #[trigger] final(lock_tbl).val(b) == old(lock_tbl).val(b)
            },
            old(bm).log().bs() as int / self.slot_size() > 0 ==> {
                &&& x_lock_step(
                    old(tx).locks(),
                    final(tx).locks(),
                    old(lock_tbl),
                    final(lock_tbl),
                    self.blk(),
                    now - start_time > old(lock_tbl).max_wait(),
                    r,
                )
                &&& r == Ok::<bool, String>(true) ==> block_rewritten(
                    old(bm),
                    final(bm),
                    old(tx).num(),
                    self.blk(),
                    formatted(old(bm).block_value(self.blk()), self.fields(), old(bm).log().bs()),
                )
                &&& r != Ok::<bool, String>(true) ==> *final(bm) == *old(bm)
            },
    {
        let bs = bm.block_size();
        let size = self.layout.slot_size();
        let schema = self.layout.schema();
        let names = schema.fields();
        let ghost fields = self.fields();
        let ghost value = bm.block_value(self.blk());
        let ghost blk = self.blk();
        let ghost num = tx.num();
        let ghost n = fields.len() as int;
        proof {
            bm.lemma_wf();
            bm.log().lemma_wf();
            bm.log().lemma_data_block_len(blk);
            tx.lemma_pinned(bm.pool(), blk);
            bm.lemma_slot(blk, crate::buffer::buffer_mgr::slot_of(bm.pool(), blk));
            lemma_field_fits(fields, 0);
            lemma_formatted_none(value, fields);
            lemma_zero_bytes();
        }
        let count = bs / size;
        let mut slot: u64 = 0;
        let ghost mut started = false;
        while slot < count
            invariant
                self.fields() == fields,
                self.blk() == blk,
                schema@ == fields,
                names@.len() == n,
                n == fields.len(),
                n > 0,
                started == (slot > 0),
                forall|k: int| 0 <= k < n ==> (#[trigger] names@[k])@ == fields[k].name,
                size == slot_size_of(fields),
                size >= 8,
                bs == old(bm).log().bs(),
                bs <= usize::MAX,
                value == old(bm).block_value(blk),
                value.len() == bs,
                count == bs as int / (size as int),
                slot <= count,
                num == old(tx).num(),
                old(bm).wf(),
                crate::buffer::buffer_mgr::holds(old(bm).pool(), blk),
                bm.wf(),
                tx.wf(bm.pool()),
                lock_tbl.wf(),
                lock_tbl.max_wait() == old(lock_tbl).max_wait(),
                tx.num() == num,
                tx.pins() == old(tx).pins(),
                tx.has_pinned(blk),
                bm.log().bs() == bs,
                !tx.locks().contains_key(blk) ==> lock_tbl.val(blk) < i64::MAX,
                u64_be_bytes(0) == zeros(8),
                string_bytes(Seq::<char>::empty()) == zeros(4),
                !started ==> slot == 0 && *bm == *old(bm) && tx.locks() == old(tx).locks()
                    && forall|b: BlockIdView| #[trigger] lock_tbl.val(b) == old(lock_tbl).val(b),
                started ==> {
                    &&& tx.locks().contains_key(blk) && tx.locks()[blk]
                    &&& x_lock_step(
                        old(tx).locks(),
                        tx.locks(),
                        old(lock_tbl),
                        lock_tbl,
                        blk,
                        now - start_time > old(lock_tbl).max_wait(),
                        Ok::<bool, String>(true),
                    )
                    &&& block_rewritten(
                        old(bm),
                        bm,
                        num,
                        blk,
                        formatted_upto(value, fields, slot as int, 0),
                    )
                },
            decreases count - slot,
        {
            proof {
                lemma_slot_fits(slot as int, size as int, bs as int);
            }
            let ghost before = *bm;
            let ghost locks_before = tx.locks();
            let ghost lt_before = *lock_tbl;
            let pos = self.slot_start(slot);
            let r = tx.set_int(bm, lock_tbl, &self.blk, pos, EMPTY, false, start_time, now);
            match r {
                Ok(true) => {},
                Ok(false) => {
                    return Ok(false);
                },
                Err(message) => {
                    return Err(message);
                },
            }
            proof {
                lemma_formatted_none(value, fields);
                lemma_formatted_part(value, fields, slot as int, 0);
                assert(pos as int == part_pos(fields, slot as int, 0));
                assert(u64_be_bytes(EMPTY) == zeros(part_len(fields, 0) as nat));
                if started {
                    lemma_rewritten_again(
                        old(bm),
                        &before,
                        bm,
                        num,
                        blk,
                        formatted_upto(value, fields, slot as int, 0),
                        pos,
                        u64_be_bytes(0),
                    );
                } else {
                    lemma_rewritten_once(old(bm), bm, num, blk, pos, u64_be_bytes(0));
                }
                started = true;
            }
            let mut i: usize = 0;
            while i < names.len()
                invariant
                    self.fields() == fields,
                    self.blk() == blk,
                    schema@ == fields,
                    names@.len() == n,
                    n == fields.len(),
                    forall|k: int| 0 <= k < n ==> (#[trigger] names@[k])@ == fields[k].name,
                    size == slot_size_of(fields),
                    bs == old(bm).log().bs(),
                    bs <= usize::MAX,
                    value.len() == bs,
                    slot < count,
                    (slot + 1) * size <= bs,
                    i <= n,
                    num == old(tx).num(),
                    old(bm).wf(),
                    crate::buffer::buffer_mgr::holds(old(bm).pool(), blk),
                    bm.wf(),
                    tx.wf(bm.pool()),
                    lock_tbl.wf(),
                    lock_tbl.max_wait() == old(lock_tbl).max_wait(),
                    tx.num() == num,
                    tx.pins() == old(tx).pins(),
                    tx.has_pinned(blk),
                    bm.log().bs() == bs,
                    u64_be_bytes(0) == zeros(8),
                    string_bytes(Seq::<char>::empty()) == zeros(4),
                    started,
                    tx.locks().contains_key(blk) && tx.locks()[blk],
                    x_lock_step(
                        old(tx).locks(),
                        tx.locks(),
                        old(lock_tbl),
                        lock_tbl,
                        blk,
                        now - start_time > old(lock_tbl).max_wait(),
                        Ok::<bool, String>(true),
                    ),
                    block_rewritten(
                        old(bm),
                        bm,
                        num,
                        blk,
                        formatted_upto(value, fields, slot as int, i + 1),
                    ),
                decreases n - i,
            {
                let ghost before = *bm;
                let ghost locks_before = tx.locks();
                let ghost lt_before = *lock_tbl;
                let name = names[i].as_str();
                proof {
                    assert(names@[i as int]@ == fields[i as int].name);
                    crate::record::schema::lemma_last_index_of(fields, name@);
                    let last = crate::record::schema::last_index_of(fields, name@);
                    lemma_field_fits(fields, last);
                    lemma_part_fits(
                        slot as int,
                        size as int,
                        offset_of(fields, name@) + part_len(fields, i + 1),
                        bs as int,
                    );
                }
                let pos = self.position(slot, name);
                let r = if schema.get_type(name) == INTEGER {
                    tx.set_int(bm, lock_tbl, &self.blk, pos, 0, false, start_time, now)
                } else {
                    tx.set_string(
                        bm,
                        lock_tbl,
                        &self.blk,
                        pos,
                        String::new(),
                        false,
                        start_time,
                        now,
                    )
                };
                proof {
                    assert(r == Ok::<bool, String>(true));
                    assert(tx.locks() == locks_before);
                    lemma_formatted_part(value, fields, slot as int, i + 1);
                    lemma_rewritten_again(
                        old(bm),
                        &before,
                        bm,
                        num,
                        blk,
                        formatted_upto(value, fields, slot as int, i + 1),
                        pos,
                        zeros(part_len(fields, i + 1) as nat),
                    );
                    assert forall|b: BlockIdView| #[trigger]
                        lock_tbl.val(b) == lt_before.val(b) by {}
                }
                i = i + 1;
            }
            proof {
                lemma_formatted_slot(value, fields, slot as int);
            }
            slot = slot + 1;
        }
        Ok(true)
    }

    /// The number of slots that fit into a block of `bs` bytes.
    pub open spec fn slot_count(&self, bs: nat) -> int {
        bs as int / self.slot_size()
    }

    /// One step of a search for the first slot after `slot` whose flag is `flag`;
    /// -1 where there is none. The first look at a flag asks for the shared lock
    /// on the block; where that is not granted, the caller is to wait or to abort.
    pub fn search_after(
        &self,
        tx: &mut Transaction,
        bm: &BufferMgr,
        lock_tbl: &mut LockTable,
        slot: i64,
        flag: u8,
        start_time: u64,
        now: u64,
    ) -> (r: Result<Option<i64>, String>)
        requires
            self.usable(old(tx), bm, old(lock_tbl)),
            self.fields().len() > 0,
            -1 <= slot,
            bm.log().bs() <= i64::MAX,
        ensures
            self.usable(final(tx), bm, final(lock_tbl)),
            final(lock_tbl).max_wait() == old(lock_tbl).max_wait(),
            final(tx).num() == old(tx).num(),
            final(tx).pins() == old(tx).pins(),
            slot + 1 >= self.slot_count(bm.log().bs()) ==> {
                &&& r == Ok::<Option<i64>, String>(Some(-1i64))
                &&& final(tx).locks() == old(tx).locks()
                &&& forall|b: BlockIdView| #[trigger] final(lock_tbl).val(b) == old(lock_tbl).val(b)
            },
            slot + 1 < self.slot_count(bm.log().bs()) ==> s_lock_step(
                old(tx).locks(),
                final(tx).locks(),
                old(lock_tbl),
                final(lock_tbl),
                self.blk(),
                now - start_time > old(lock_tbl).max_wait(),
                done_of(r),
            ),
            r matches Ok(Some(found)) ==> found_after(
                bm.block_value(self.blk()),
                self.slot_size(),
                self.slot_count(bm.log().bs()),
                slot as int,
                flag as u64,
                found as int,
            ),
    {
        let bs = bm.block_size();
        let size = self.layout.slot_size();
        let ghost fields = self.fields();
        let ghost blk = self.blk();
        let ghost value = bm.block_value(blk);
        proof {
            bm.lemma_wf();
            bm.log().lemma_wf();
            lemma_field_fits(fields, 0);
        }
        let count = bs / size;
        if slot == i64::MAX {
            return Ok(Some(-1));
        }
        let mut cur: u64 = (slot + 1) as u64;
        let ghost mut started = false;
        while cur < count
            invariant
                self.fields() == fields,
                self.blk() == blk,
                size == slot_size_of(fields),
                size >= 8,
                bs == bm.log().bs(),
                bs <= i64::MAX,
                count == bs as int / (size as int),
                value == bm.block_value(blk),
                slot < cur,
                started == (cur > slot + 1),
                started ==> slot + 1 < count,
                self.usable(tx, bm, lock_tbl),
                lock_tbl.max_wait() == old(lock_tbl).max_wait(),
                tx.num() == old(tx).num(),
                tx.pins() == old(tx).pins(),
                !started ==> tx.locks() == old(tx).locks() && forall|b: BlockIdView| #[trigger]
                    lock_tbl.val(b) == old(lock_tbl).val(b),
                started ==> tx.locks().contains_key(blk) && s_lock_step(
                    old(tx).locks(),
                    tx.locks(),
                    old(lock_tbl),
                    lock_tbl,
                    blk,
                    now - start_time > old(lock_tbl).max_wait(),
                    Ok::<bool, String>(true),
                ),
                forall|s: int|
                    slot < s < cur ==> #[trigger] be_u64(
                        value.subrange(s * (size as int), s * (size as int) + 8),
                    ) != flag as u64,
            decreases count - cur,
        {
            proof {
                lemma_slot_fits(cur as int, size as int, bs as int);
            }
            let ghost lt_before = *lock_tbl;
            let pos = self.slot_start(cur);
            match tx.get_int(bm, lock_tbl, &self.blk, pos, start_time, now) {
                Ok(Some(found)) => {
                    if found == flag as u64 {
                        return Ok(Some(cur as i64));
                    }
                },
                Ok(None) => {
                    return Ok(None);
                },
                Err(message) => {
                    return Err(message);
                },
            }
            proof {
                started = true;
                assert forall|b: BlockIdView| started && cur > slot + 1 implies #[trigger]
                    lock_tbl.val(b) == lt_before.val(b) by {}
            }
            cur = cur + 1;
        }
        Ok(Some(-1))
    }

    /// One step of a search for the first slot after `slot` that holds a record;
    /// -1 where there is none.
    pub fn next_after(
        &self,
        tx: &mut Transaction,
        bm: &BufferMgr,
        lock_tbl: &mut LockTable,
        slot: i64,
        start_time: u64,
        now: u64,
    ) -> (r: Result<Option<i64>, String>)
        requires
            self.usable(old(tx), bm, old(lock_tbl)),
            self.fields().len() > 0,
            -1 <= slot,
            bm.log().bs() <= i64::MAX,
        ensures
            self.usable(final(tx), bm, final(lock_tbl)),
            final(lock_tbl).max_wait() == old(lock_tbl).max_wait(),
            final(tx).num() == old(tx).num(),
            final(tx).pins() == old(tx).pins(),
            slot + 1 >= self.slot_count(bm.log().bs()) ==> {
                &&& r == Ok::<Option<i64>, String>(Some(-1i64))
                &&& final(tx).locks() == old(tx).locks()
                &&& forall|b: BlockIdView| #[trigger] final(lock_tbl).val(b) == old(lock_tbl).val(b)
            },
            slot + 1 < self.slot_count(bm.log().bs()) ==> s_lock_step(
                old(tx).locks(),
                final(tx).locks(),
                old(lock_tbl),
                final(lock_tbl),
                self.blk(),
                now - start_time > old(lock_tbl).max_wait(),
                done_of(r),
            ),
            r matches Ok(Some(found)) ==> found_after(
                bm.block_value(self.blk()),
                self.slot_size(),
                self.slot_count(bm.log().bs()),
                slot as int,
                USED,
                found as int,
            ),
    {
        self.search_after(tx, bm, lock_tbl, slot, 1, start_time, now)
    }

    /// One step of a request for a slot for a new record: a step of a search for
    /// the first empty slot after `slot` and, where there is one, the change of
    /// its flag to used, with a log record; -1 where there is none.
    pub fn insert_after(
        &self,
        tx: &mut Transaction,
        bm: &mut BufferMgr,
        lock_tbl: &mut LockTable,
        slot: i64,
        start_time: u64,
        now: u64,
    ) -> (r: Result<Option<i64>, String>)
        requires
            self.usable(old(tx), old(bm), old(lock_tbl)),
            self.fields().len() > 0,
            -1 <= slot,
            old(bm).log().bs() <= i64::MAX,
            self.loggable(old(bm), header_len(self.blk().file_name) + 8),
        ensures
            final(bm).wf(),
            final(tx).wf(final(bm).pool()),
            final(lock_tbl).wf(),
            final(lock_tbl).max_wait() == old(lock_tbl).max_wait(),
            final(tx).num() == old(tx).num(),
            final(tx).pins() == old(tx).pins(),
            slot + 1 >= self.slot_count(old(bm).log().bs()) ==> {
                &&& r == Ok::<Option<i64>, String>(Some(-1i64))
                &&& final(tx).locks() == old(tx).locks()
                &&& forall|b: BlockIdView| #[trigger] final(lock_tbl).val(b) == old(lock_tbl).val(b)
            },
            r matches Ok(Some(found)) ==> found_after(
                old(bm).block_value(self.blk()),
                self.slot_size(),
                self.slot_count(old(bm).log().bs()),
                slot as int,
                EMPTY,
                found as int,
            ),
            match r {
                Ok(Some(found)) if found >= 0 => {
                    &&& x_lock_step(
                        old(tx).locks(),
                        final(tx).locks(),
                        old(lock_tbl),
                        final(lock_tbl),
                        self.blk(),
                        now - start_time > old(lock_tbl).max_wait(),
                        Ok::<bool, String>(true),
                    )
                    &&& change_made(
                        old(bm),
                        final(bm),
                        old(tx).num(),
                        self.blk(),
                        self.slot_pos(found as int) as u64,
                        u64_be_bytes(USED),
                        Some(
                            int_undo_record(
                                old(tx).num(),
                                self.blk(),
                                self.slot_pos(found as int) as u64,
                                old(bm).block_value(self.blk()),
                            ),
                        ),
                    )
                },
                _ => {
                    &&& *final(bm) == *old(bm)
                    &&& slot + 1 < self.slot_count(old(bm).log().bs()) ==> s_lock_step(
                        old(tx).locks(),
                        final(tx).locks(),
                        old(lock_tbl),
                        final(lock_tbl),
                        self.blk(),
                        now - start_time > old(lock_tbl).max_wait(),
                        done_of(r),
                    )
                },
            },
    {
        let ghost lt_before = *lock_tbl;
        let r = self.search_after(tx, bm, lock_tbl, slot, 0, start_time, now);
        match r {
            Ok(Some(new_slot)) => {
                if new_slot >= 0 {
                    let ghost locks_mid = tx.locks();
                    let ghost lt_mid = *lock_tbl;
                    proof {
                        bm.lemma_wf();
                        bm.log().lemma_wf();
                        lemma_field_fits(self.fields(), 0);
                        lemma_slot_fits(
                            new_slot as int,
                            self.slot_size(),
                            bm.log().bs() as int,
                        );
                    }
                    let pos = self.slot_start(new_slot as u64);
                    let set = tx.set_int(bm, lock_tbl, &self.blk, pos, USED, true, start_time, now);
                    proof {
                        assert(set == Ok::<bool, String>(true));
                        assert(tx.locks() =~= old(tx).locks().insert(self.blk(), true));
                        assert forall|b: BlockIdView| #[trigger]
                            lock_tbl.val(b) == lt_mid.val(b) by {}
                    }
                }
                Ok(Some(new_slot))
            },
            Ok(None) => Ok(None),
            Err(message) => Err(message),
        }
    }

    /// Where the slot `slot` begins.
    fn slot_start(&self, slot: u64) -> (pos: u64)
        requires
            self.slot_pos(slot as int) <= u64::MAX,
        ensures
            pos == self.slot_pos(slot as int),
    {
        slot * self.layout.slot_size()
    }

    /// A copy of the address of the block of the page.
    pub fn block(&self) -> (blk: BlockId)
        ensures
            blk@ == self.blk(),
    {
        self.blk.clone()
    }
}

} // verus!
