use vstd::prelude::*;
use vstd::utf8::encode_utf8;
use crate::file::block_id::{BlockId, BlockIdView};
use crate::file::byte_buffer::{prefixed_payload, string_bytes};
use crate::file::codec::{lemma_u32_round_trip, u32_be_bytes};
use crate::file::page::{has_string, string_at, Page};
use crate::logging::log_mgr::{appended, LogMgr};
use crate::buffer::buffer_mgr::{can_pin, BufferMgr};
use crate::tx::concurrency::lock_table::LockTable;
use crate::tx::recovery::commit_record::tx_of;
use crate::tx::recovery::undo::in_reach;
use crate::tx::transaction::{undo_step, Transaction};
use crate::tx::recovery::set_int_record::{
    blk_of, blk_pos, can_name, change_header, has_change_header, header_len, lemma_change_header,
    offset_of, read_change_header, write_change_header,
};

verus! {

/// The tag of the record of a change of a string.
pub const SETSTRING: u64 = 5;

/// What the record of a change of a string says: the transaction that made the
/// change, the block and the offset of the string, and the string that was there
/// before.
pub struct SetStringView {
    pub tx_num: i32,
    pub blk: BlockIdView,
    pub offset: u64,
    pub val: Seq<char>,
}

/// Whether the string `val` can be kept in a record.
pub open spec fn can_keep(val: Seq<char>) -> bool {
    encode_utf8(val).len() <= u32::MAX
}

/// The bytes of the record of a change of a string.
pub open spec fn set_string_payload(rec: SetStringView) -> Seq<u8> {
    change_header(SETSTRING, rec.tx_num, rec.blk, rec.offset) + string_bytes(rec.val)
}

/// The number of bytes of the record of a change of a string.
pub open spec fn set_string_len(rec: SetStringView) -> nat {
    header_len(rec.blk.file_name) + 4 + encode_utf8(rec.val).len()
}

/// Whether `bytes` is the record of a change of a string.
pub open spec fn is_set_string(bytes: Seq<u8>) -> bool {
    has_change_header(bytes, SETSTRING) && has_string(bytes, blk_pos(bytes) + 16)
}

/// What the record `bytes` of a change of a string says.
pub open spec fn set_string_of(bytes: Seq<u8>) -> SetStringView {
    SetStringView {
        tx_num: tx_of(bytes),
        blk: blk_of(bytes),
        offset: offset_of(bytes),
        val: string_at(bytes, blk_pos(bytes) + 16),
    }
}

/// The string of a record of a change of a string can be kept in a record again.
pub proof fn lemma_kept_string(bytes: Seq<u8>)
    requires
        is_set_string(bytes),
    ensures
        can_keep(set_string_of(bytes).val),
        encode_utf8(set_string_of(bytes).val) == prefixed_payload(bytes, blk_pos(bytes) + 16),
{
    broadcast use vstd::utf8::decode_utf8_encode_utf8;

}

/// The record of a change of a string reads back as what it was made of.
pub proof fn lemma_set_string_payload(rec: SetStringView)
    requires
        can_name(rec.blk),
        can_keep(rec.val),
    ensures
        set_string_payload(rec).len() == set_string_len(rec),
        is_set_string(set_string_payload(rec)),
        set_string_of(set_string_payload(rec)) == rec,
{
    broadcast use vstd::utf8::encode_utf8_valid_utf8, vstd::utf8::encode_utf8_decode_utf8;

    lemma_change_header(SETSTRING, rec.tx_num, rec.blk, rec.offset, string_bytes(rec.val));
    let val = encode_utf8(rec.val);
    lemma_u32_round_trip(val.len() as u32);
    let bytes = set_string_payload(rec);
    let p = blk_pos(bytes) + 16;
    assert(bytes.subrange(p, p + 4) =~= u32_be_bytes(val.len() as u32));
    assert(prefixed_payload(bytes, p) =~= val);
}

/// The record of a change of a string.
pub struct SetStringRecord {
    tx_num: i32,
    offset: u64,
    val: String,
    blk: BlockId,
}

impl View for SetStringRecord {
    type V = SetStringView;

    closed spec fn view(&self) -> SetStringView {
        SetStringView { tx_num: self.tx_num, blk: self.blk@, offset: self.offset, val: self.val@ }
    }
}

impl SetStringRecord {
    /// Reads the record from the page `page`, where the page holds one.
    pub fn read(page: &mut Page) -> (r: Option<Self>)
        requires
            old(page).wf(),
        ensures
            final(page).wf(),
            final(page)@ == old(page)@,
            r is Some <==> is_set_string(old(page)@),
            r matches Some(rec) ==> rec@ == set_string_of(old(page)@),
    {
        match read_change_header(page, SETSTRING) {
            Some(h) => {
                match page.try_get_string(h.v_pos) {
                    Some(val) => Some(
                        SetStringRecord { tx_num: h.tx_num, offset: h.offset, val, blk: h.blk },
                    ),
                    None => None,
                }
            },
            None => None,
        }
    }

    /// The record that the page `page` holds.
    pub fn new(page: Page) -> (rec: Self)
        requires
            page.wf(),
            is_set_string(page@),
        ensures
            rec@ == set_string_of(page@),
    {
        let mut page = page;
        match Self::read(&mut page) {
            Some(rec) => rec,
            None => SetStringRecord {
                tx_num: 0,
                offset: 0,
                val: String::new(),
                blk: BlockId::new(String::new(), 0),
            },
        }
    }

    /// The tag of the record.
    pub fn op(&self) -> (tag: u64)
        ensures
            tag == SETSTRING,
    {
        SETSTRING
    }

    /// The transaction that made the change.
    pub fn tx_num(&self) -> (tx_num: i32)
        ensures
            tx_num == self@.tx_num,
    {
        self.tx_num
    }

    /// The block of the change.
    pub fn block(&self) -> (blk: &BlockId)
        ensures
            blk@ == self@.blk,
    {
        &self.blk
    }

    /// The offset of the change in its block.
    pub fn offset(&self) -> (offset: u64)
        ensures
            offset == self@.offset,
    {
        self.offset
    }

    /// The string that the change replaced.
    pub fn val(&self) -> (val: &String)
        ensures
            val@ == self@.val,
    {
        &self.val
    }

    /// One step of undoing the change for the transaction `tx`: the string that the
    /// change replaced is written back, without a log record.
    pub fn undo(
        &self,
        tx: &mut Transaction,
        bm: &mut BufferMgr,
        lock_tbl: &mut LockTable,
        start_time: u64,
        now: u64,
    ) -> (r: Result<bool, String>)
        requires
            old(bm).wf(),
            old(tx).wf(old(bm).pool()),
            old(lock_tbl).wf(),
            !old(tx).locks().contains_key(self@.blk) ==> old(lock_tbl).val(self@.blk) < i64::MAX,
            can_pin(old(bm).pool(), self@.blk),
            can_keep(self@.val),
            in_reach(
                self@.blk,
                self@.offset,
                4 + encode_utf8(self@.val).len(),
                old(bm).log().bs(),
                old(bm).log().log_name(),
            ),
        ensures
            undo_step(
                old(tx),
                final(tx),
                old(bm),
                final(bm),
                old(lock_tbl),
                final(lock_tbl),
                self@.blk,
                self@.offset as int,
                string_bytes(self@.val),
                start_time,
                now,
                r,
            ),
    {
        proof {
            bm.lemma_wf();
            bm.log().lemma_wf();
        }
        tx.undo_string(bm, lock_tbl, &self.blk, self.offset, self.val.clone(), start_time, now)
    }

    /// The bytes of the record that says that the transaction `tx_num` replaced
    /// the string `val` at `offset` in the block `blk`.
    pub fn encode(tx_num: i32, blk: &BlockId, offset: u64, val: String) -> (rec: Vec<u8>)
        requires
            can_name(blk@),
            can_keep(val@),
            set_string_len(SetStringView { tx_num, blk: blk@, offset, val: val@ }) <= usize::MAX,
        ensures
            rec@ == set_string_payload(SetStringView { tx_num, blk: blk@, offset, val: val@ }),
    {
        let v_pos = 32 + Self::max_length(blk.file_name().as_str().len()) - 4;
        let rec_len = v_pos + Self::max_length(val.as_str().len());
        let mut p = Page::new(rec_len as u64);
        let end = write_change_header(&mut p, SETSTRING, tx_num, blk, offset);
        let ghost chars = val@;
        p.set_string(end, val);
        proof {
            lemma_u32_round_trip(encode_utf8(chars).len() as u32);
            lemma_change_header(SETSTRING, tx_num, blk@, offset, Seq::empty());
            assert(p@ =~= set_string_payload(
                SetStringView { tx_num, blk: blk@, offset, val: chars },
            ));
        }
        p.to_bytes()
    }

    /// Adds the record to the log and gives its number.
    pub fn write_to_log(lm: &mut LogMgr, tx_num: i32, blk: &BlockId, offset: u64, val: String) -> (lsn:
        i64)
        requires
            old(lm).wf(),
            can_name(blk@),
            can_keep(val@),
            old(lm).can_append(
                set_string_len(SetStringView { tx_num, blk: blk@, offset, val: val@ }),
            ),
        ensures
            appended(
                old(lm),
                final(lm),
                set_string_payload(SetStringView { tx_num, blk: blk@, offset, val: val@ }),
                lsn as int,
            ),
    {
        proof {
            lemma_set_string_payload(SetStringView { tx_num, blk: blk@, offset, val: val@ });
            lm.lemma_wf();
        }
        let rec = Self::encode(tx_num, blk, offset, val);
        lm.append(rec)
    }

    /// The most bytes that the encoding of a string of `str_len` bytes takes.
    pub fn max_length(str_len: usize) -> (n: usize)
        requires
            4 + str_len <= usize::MAX,
        ensures
            n == 4 + str_len,
    {
        4 + str_len
    }
}

} // verus!
