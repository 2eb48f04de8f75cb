use vstd::prelude::*;
use vstd::utf8::encode_utf8;
use crate::file::block_id::{BlockId, BlockIdView};
use crate::file::byte_buffer::{prefixed_payload, string_bytes};
use crate::file::codec::{
    be_u64, i32_bits, lemma_i32_round_trip, lemma_u32_round_trip, lemma_u64_round_trip,
    u32_be_bytes, u64_be_bytes, zeros,
};
use crate::file::page::{has_string, string_at, Page};
use crate::logging::log_mgr::{appended, LogMgr};
use crate::buffer::buffer_mgr::{can_pin, BufferMgr};
use crate::tx::concurrency::lock_table::LockTable;
use crate::tx::recovery::commit_record::{tag_of, tx_of};
use crate::tx::recovery::undo::in_reach;
use crate::tx::transaction::{undo_step, Transaction};

verus! {

/// The tag of the record of a change of a number.
pub const SETINT: u64 = 4;

/// What the record of a change of a number says: the transaction that made the
/// change, the block and the offset of the number, and the number that was there
/// before.
pub struct SetIntView {
    pub tx_num: i32,
    pub blk: BlockIdView,
    pub offset: u64,
    pub val: u64,
}

/// The start of a record of a change: the tag, the number of the transaction, the
/// name of the file, the number of the block and the offset.
pub open spec fn change_header(tag: u64, tx_num: i32, blk: BlockIdView, offset: u64) -> Seq<u8> {
    u64_be_bytes(tag) + u32_be_bytes(i32_bits(tx_num)) + string_bytes(blk.file_name) + u64_be_bytes(
        blk.blk_num as u64,
    ) + u64_be_bytes(offset)
}

/// The number of bytes of the start of a record of a change of a block of the
/// file `file_name`.
pub open spec fn header_len(file_name: Seq<char>) -> nat {
    32 + encode_utf8(file_name).len()
}

/// Whether a block of the file `file_name` with the number `blk_num` can be named
/// in a record of a change.
pub open spec fn can_name(blk: BlockIdView) -> bool {
    encode_utf8(blk.file_name).len() <= u32::MAX - 64 && blk.blk_num <= u64::MAX
}

/// Whether `bytes` begins as a record of a change with the tag `tag` does: the
/// tag, a number of a transaction, a well-formed name of a file, and room for the
/// number of a block and an offset.
pub open spec fn has_change_header(bytes: Seq<u8>, tag: u64) -> bool {
    &&& tag_of(bytes) == Some(tag)
    &&& has_string(bytes, 12)
    &&& 16 + prefixed_payload(bytes, 12).len() + 16 <= bytes.len()
}

/// Where the number of the block stands in a record of a change.
pub open spec fn blk_pos(bytes: Seq<u8>) -> int {
    16 + prefixed_payload(bytes, 12).len() as int
}

/// The block that a record of a change names.
pub open spec fn blk_of(bytes: Seq<u8>) -> BlockIdView {
    BlockIdView {
        file_name: string_at(bytes, 12),
        blk_num: be_u64(bytes.subrange(blk_pos(bytes), blk_pos(bytes) + 8)) as nat,
    }
}

/// The offset that a record of a change names.
pub open spec fn offset_of(bytes: Seq<u8>) -> u64 {
    be_u64(bytes.subrange(blk_pos(bytes) + 8, blk_pos(bytes) + 16))
}

/// The bytes of the record of a change of a number.
pub open spec fn set_int_payload(rec: SetIntView) -> Seq<u8> {
    change_header(SETINT, rec.tx_num, rec.blk, rec.offset) + u64_be_bytes(rec.val)
}

/// Whether `bytes` is the record of a change of a number.
pub open spec fn is_set_int(bytes: Seq<u8>) -> bool {
    has_change_header(bytes, SETINT) && blk_pos(bytes) + 24 <= bytes.len()
}

/// What the record `bytes` of a change of a number says.
pub open spec fn set_int_of(bytes: Seq<u8>) -> SetIntView {
    SetIntView {
        tx_num: tx_of(bytes),
        blk: blk_of(bytes),
        offset: offset_of(bytes),
        val: be_u64(bytes.subrange(blk_pos(bytes) + 16, blk_pos(bytes) + 24)),
    }
}

/// The start of a record of a change reads back as what it was made of, whatever
/// follows it.
pub proof fn lemma_change_header(tag: u64, tx_num: i32, blk: BlockIdView, offset: u64, rest: Seq<u8>)
    requires
        can_name(blk),
    ensures
        change_header(tag, tx_num, blk, offset).len() == header_len(blk.file_name),
        has_change_header(change_header(tag, tx_num, blk, offset) + rest, tag),
        tx_of(change_header(tag, tx_num, blk, offset) + rest) == tx_num,
        blk_of(change_header(tag, tx_num, blk, offset) + rest) == blk,
        offset_of(change_header(tag, tx_num, blk, offset) + rest) == offset,
        blk_pos(change_header(tag, tx_num, blk, offset) + rest) + 16 == header_len(blk.file_name),
{
    broadcast use vstd::utf8::encode_utf8_valid_utf8, vstd::utf8::encode_utf8_decode_utf8;

    let name = encode_utf8(blk.file_name);
    let n = name.len() as int;
    let bytes = change_header(tag, tx_num, blk, offset) + rest;
    lemma_u64_round_trip(tag);
    lemma_u32_round_trip(i32_bits(tx_num));
    lemma_i32_round_trip(tx_num);
    lemma_u32_round_trip(n as u32);
    lemma_u64_round_trip(blk.blk_num as u64);
    lemma_u64_round_trip(offset);
    assert(bytes.subrange(0, 8) =~= u64_be_bytes(tag));
    assert(bytes.subrange(8, 12) =~= u32_be_bytes(i32_bits(tx_num)));
    assert(bytes.subrange(12, 16) =~= u32_be_bytes(n as u32));
    assert(prefixed_payload(bytes, 12) =~= name);
    assert(bytes.subrange(16 + n, 24 + n) =~= u64_be_bytes(blk.blk_num as u64));
    assert(bytes.subrange(24 + n, 32 + n) =~= u64_be_bytes(offset));
}

/// The record of a change of a number reads back as what it was made of.
pub proof fn lemma_set_int_payload(rec: SetIntView)
    requires
        can_name(rec.blk),
    ensures
        set_int_payload(rec).len() == header_len(rec.blk.file_name) + 8,
        is_set_int(set_int_payload(rec)),
        set_int_of(set_int_payload(rec)) == rec,
{
    lemma_change_header(SETINT, rec.tx_num, rec.blk, rec.offset, u64_be_bytes(rec.val));
    lemma_u64_round_trip(rec.val);
    let bytes = set_int_payload(rec);
    let p = blk_pos(bytes);
    assert(bytes.subrange(p + 16, p + 24) =~= u64_be_bytes(rec.val));
}

/// Writes the start of a record of a change into the page `p` of zeros.
pub fn write_change_header(p: &mut Page, tag: u64, tx_num: i32, blk: &BlockId, offset: u64) -> (end:
    usize)
    requires
        old(p).wf(),
        can_name(blk@),
        old(p)@ == zeros(old(p)@.len()),
        header_len(blk@.file_name) <= old(p)@.len(),
    ensures
        final(p).wf(),
        end == header_len(blk@.file_name),
        final(p)@.len() == old(p)@.len(),
        final(p)@ == change_header(tag, tx_num, blk@, offset) + zeros(
            (old(p)@.len() - end) as nat,
        ),
{
    let ghost total = p@.len();
    let ghost name = encode_utf8(blk@.file_name);
    let t_pos: usize = 8;
    let f_pos: usize = t_pos + 4;
    let b_pos: usize = f_pos + p.max_length(blk.file_name().as_str().len());
    let o_pos: usize = b_pos + 8;
    let v_pos: usize = o_pos + 8;
    p.set_u64(0, tag);
    p.set_i32(t_pos, tx_num);
    p.set_string(f_pos, blk.file_name().clone());
    p.set_u64(b_pos, blk.blk_num());
    p.set_u64(o_pos, offset);
    proof {
        lemma_u64_round_trip(tag);
        lemma_u32_round_trip(i32_bits(tx_num));
        lemma_u32_round_trip(name.len() as u32);
        lemma_u64_round_trip(blk@.blk_num as u64);
        lemma_u64_round_trip(offset);
        assert(p@ =~= change_header(tag, tx_num, blk@, offset) + zeros((total - v_pos) as nat));
    }
    v_pos
}

/// What `read_change_header` gives: the transaction, the block, the offset, and
/// where the value begins.
pub struct ChangeHeader {
    pub tx_num: i32,
    pub blk: BlockId,
    pub offset: u64,
    pub v_pos: usize,
}

/// Reads the start of a record of a change with the tag `tag` from the page `p`,
/// where the page begins as such a record does.
pub fn read_change_header(p: &mut Page, tag: u64) -> (r: Option<ChangeHeader>)
    requires
        old(p).wf(),
    ensures
        final(p).wf(),
        final(p)@ == old(p)@,
        r is Some <==> has_change_header(old(p)@, tag),
        r matches Some(h) ==> {
            &&& h.tx_num == tx_of(old(p)@)
            &&& h.blk@ == blk_of(old(p)@)
            &&& h.offset == offset_of(old(p)@)
            &&& h.v_pos == blk_pos(old(p)@) + 16
        },
{
    broadcast use vstd::utf8::decode_utf8_encode_utf8;

    let len = p.len();
    if len < 16 {
        return None;
    }
    if p.get_u64(0) != tag {
        return None;
    }
    let tx_num = p.get_i32(8);
    let file_name = match p.try_get_string(12) {
        Some(s) => s,
        None => {
            return None;
        },
    };
    let n = file_name.as_str().len();
    assert(n == prefixed_payload(p@, 12).len());
    if len - 16 - n < 16 {
        return None;
    }
    let b_pos = 16 + n;
    let blk_num = p.get_u64(b_pos);
    let offset = p.get_u64(b_pos + 8);
    Some(ChangeHeader { tx_num, blk: BlockId::new(file_name, blk_num), offset, v_pos: b_pos + 16 })
}

/// The record of a change of a number.
pub struct SetIntRecord {
    tx_num: i32,
    offset: u64,
    val: u64,
    blk: BlockId,
}

impl View for SetIntRecord {
    type V = SetIntView;

    closed spec fn view(&self) -> SetIntView {
        SetIntView { tx_num: self.tx_num, blk: self.blk@, offset: self.offset, val: self.val }
    }
}

impl SetIntRecord {
    /// Reads the record from the page `page`, where the page holds one.
    pub fn read(page: &mut Page) -> (r: Option<Self>)
        requires
            old(page).wf(),
        ensures
            final(page).wf(),
            final(page)@ == old(page)@,
            r is Some <==> is_set_int(old(page)@),
            r matches Some(rec) ==> rec@ == set_int_of(old(page)@),
    {
        let len = page.len();
        match read_change_header(page, SETINT) {
            Some(h) => {
                if len - h.v_pos < 8 {
                    return None;
                }
                let val = page.get_u64(h.v_pos);
                Some(SetIntRecord { tx_num: h.tx_num, offset: h.offset, val, blk: h.blk })
            },
            None => None,
        }
    }

    /// The record that the page `page` holds.
    pub fn new(page: Page) -> (rec: Self)
        requires
            page.wf(),
            is_set_int(page@),
        ensures
            rec@ == set_int_of(page@),
    {
        let mut page = page;
        match Self::read(&mut page) {
            Some(rec) => rec,
            None => SetIntRecord { tx_num: 0, offset: 0, val: 0, blk: BlockId::new(String::new(), 0) },
        }
    }

    /// The tag of the record.
    pub fn op(&self) -> (tag: u64)
        ensures
            tag == SETINT,
    {
        SETINT
    }

    /// The transaction that made the change.
    pub fn tx_num(&self) -> (tx_num: i32)
        ensures
            tx_num == self@.tx_num,
    {
        self.tx_num
    }

    /// The block of the change.
    pub fn block(&self) -> (blk: &BlockId)
        ensures
            blk@ == self@.blk,
    {
        &self.blk
    }

    /// The offset of the change in its block.
    pub fn offset(&self) -> (offset: u64)
        ensures
            offset == self@.offset,
    {
        self.offset
    }

    /// The number that the change replaced.
    pub fn val(&self) -> (val: u64)
        ensures
            val == self@.val,
    {
        self.val
    }

    /// One step of undoing the change for the transaction `tx`: the number that the
    /// change replaced is written back, without a log record.
    pub fn undo(
        &self,
        tx: &mut Transaction,
        bm: &mut BufferMgr,
        lock_tbl: &mut LockTable,
        start_time: u64,
        now: u64,
    ) -> (r: Result<bool, String>)
        requires
            old(bm).wf(),
            old(tx).wf(old(bm).pool()),
            old(lock_tbl).wf(),
            !old(tx).locks().contains_key(self@.blk) ==> old(lock_tbl).val(self@.blk) < i64::MAX,
            can_pin(old(bm).pool(), self@.blk),
            in_reach(self@.blk, self@.offset, 8, old(bm).log().bs(), old(bm).log().log_name()),
        ensures
            undo_step(
                old(tx),
                final(tx),
                old(bm),
                final(bm),
                old(lock_tbl),
                final(lock_tbl),
                self@.blk,
                self@.offset as int,
                u64_be_bytes(self@.val),
                start_time,
                now,
                r,
            ),
    {
        tx.undo_int(bm, lock_tbl, &self.blk, self.offset, self.val, start_time, now)
    }

    /// The bytes of the record that says that the transaction `tx_num` replaced
    /// the number `val` at `offset` in the block `blk`.
    pub fn encode(tx_num: i32, blk: &BlockId, offset: u64, val: u64) -> (rec: Vec<u8>)
        requires
            can_name(blk@),
        ensures
            rec@ == set_int_payload(SetIntView { tx_num, blk: blk@, offset, val }),
    {
        let v_pos = 32 + Self::max_length(blk.file_name().as_str().len()) - 4;
        let mut p = Page::new((v_pos + 8) as u64);
        let end = write_change_header(&mut p, SETINT, tx_num, blk, offset);
        p.set_u64(end, val);
        proof {
            lemma_u64_round_trip(val);
            lemma_change_header(SETINT, tx_num, blk@, offset, Seq::empty());
            assert(p@ =~= set_int_payload(SetIntView { tx_num, blk: blk@, offset, val }));
        }
        p.to_bytes()
    }

    /// Adds the record to the log and gives its number.
    pub fn write_to_log(lm: &mut LogMgr, tx_num: i32, blk: &BlockId, offset: u64, val: u64) -> (lsn:
        i64)
        requires
            old(lm).wf(),
            can_name(blk@),
            old(lm).can_append(header_len(blk@.file_name) + 8),
        ensures
            appended(
                old(lm),
                final(lm),
                set_int_payload(SetIntView { tx_num, blk: blk@, offset, val }),
                lsn as int,
            ),
    {
        let rec = Self::encode(tx_num, blk, offset, val);
        proof {
            lemma_set_int_payload(SetIntView { tx_num, blk: blk@, offset, val });
        }
        lm.append(rec)
    }

    /// The most bytes that the encoding of a string of `str_len` bytes takes.
    pub fn max_length(str_len: usize) -> (n: usize)
        requires
            4 + str_len <= usize::MAX,
        ensures
            n == 4 + str_len,
    {
        4 + str_len
    }
}

} // verus!
