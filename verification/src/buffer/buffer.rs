use vstd::prelude::*;
use crate::file::block_id::{BlockId, BlockIdView};
use crate::file::codec::zeros;
use crate::file::file_mgr::{touched, written, Disk};
use crate::file::page::Page;
use crate::logging::log_mgr::{forced_log, LogMgr};

verus! {

/// The mathematical value of a [`Buffer`].
pub struct BufferView {
    /// The bytes of its page.
    pub contents: Seq<u8>,
    /// The block that it is assigned to, if any.
    pub blk: Option<BlockIdView>,
    /// How many times it is pinned.
    pub pins: int,
    /// The transaction that changed it since it was last written; negative where
    /// none did.
    pub tx_num: int,
    /// The number of the log record of its last logged change; negative where
    /// there is none.
    pub lsn: int,
}

/// A page together with the block that it is an image of and what the pool needs
/// to know of it.
pub struct Buffer {
    contents: Page,
    blk: Option<BlockId>,
    pub pins: i32,
    tx_num: i32,
    lsn: i64,
}

impl View for Buffer {
    type V = BufferView;

    closed spec fn view(&self) -> BufferView {
        BufferView {
            contents: self.contents@,
            blk: match self.blk {
                Some(b) => Some(b@),
                None => None,
            },
            pins: self.pins as int,
            tx_num: self.tx_num as int,
            lsn: self.lsn as int,
        }
    }
}

/// What writing the buffer `b` out does to the log: where a transaction has
/// changed the buffer, the log is forced up to the buffer's log record; else the
/// log stays as it is.
pub open spec fn flushed_log(before: &LogMgr, after: &LogMgr, b: BufferView) -> bool {
    forced_log(before, after, flush_lsn(b))
}

/// The record up to which the log is forced when the buffer `b` is written out;
/// -1 where the buffer is written by nobody.
pub open spec fn flush_lsn(b: BufferView) -> int {
    if b.tx_num >= 0 {
        b.lsn
    } else {
        -1
    }
}

/// The files other than the log after the buffer `b` has been written out: where
/// a transaction has changed the buffer, its block holds its page; else nothing
/// has changed.
pub open spec fn flushed_data(before: &LogMgr, b: BufferView) -> Disk {
    if b.tx_num >= 0 {
        written(
            before.data(),
            b.blk.unwrap().file_name,
            b.blk.unwrap().blk_num,
            before.bs(),
            b.contents,
        )
    } else {
        before.data()
    }
}

/// Whether the buffer `b` can be written out through `lm`: where a transaction has
/// changed it, it is assigned to a block of a file other than the log, and its
/// page has the block size.
pub open spec fn can_flush(lm: &LogMgr, b: BufferView) -> bool {
    b.tx_num >= 0 ==> b.blk is Some && lm.is_data_block(b.blk.unwrap()) && b.contents.len()
        == lm.bs()
}

impl Buffer {
    /// Whether the page of the buffer is in the state that its accessors rely on.
    /// Every buffer that this library hands out is.
    pub closed spec fn wf(&self) -> bool {
        self.contents.wf()
    }

    /// A buffer with a page of zeros, not assigned to any block.
    pub fn new(lm: &LogMgr) -> (buffer: Self)
        ensures
            buffer.wf(),
            buffer@ == (BufferView {
                contents: zeros(lm.bs()),
                blk: None,
                pins: 0,
                tx_num: -1,
                lsn: -1,
            }),
    {
        let contents = Page::new(lm.block_size());
        Buffer { contents, blk: None, pins: 0, tx_num: -1, lsn: -1 }
    }

    /// A copy of the page.
    pub fn contents(&self) -> (page: Page)
        ensures
            page@ == self@.contents,
            self.wf() ==> page.wf(),
    {
        self.contents.clone()
    }

    /// Replaces the page.
    pub fn set_contents(&mut self, page: Page)
        requires
            page.wf(),
        ensures
            final(self).wf(),
            final(self)@ == (BufferView { contents: page@, ..old(self)@ }),
    {
        self.contents = page
    }

    /// A copy of the address of the block that the buffer is assigned to.
    pub fn block(&self) -> (blk: Option<BlockId>)
        ensures
            blk is Some == self@.blk is Some,
            blk matches Some(b) ==> b@ == self@.blk.unwrap(),
    {
        match &self.blk {
            Some(b) => Some(b.clone()),
            None => None,
        }
    }

    /// Notes that the transaction `tx_num` has changed the page and, where `lsn` is
    /// not negative, that the change has the log record `lsn`.
    pub fn set_modified(&mut self, tx_num: i32, lsn: i64)
        ensures
            final(self).wf() == old(self).wf(),
            final(self)@ == (BufferView {
                tx_num: tx_num as int,
                lsn: if lsn >= 0 {
                    lsn as int
                } else {
                    old(self)@.lsn
                },
                ..old(self)@
            }),
    {
        self.tx_num = tx_num;
        if lsn >= 0 {
            self.lsn = lsn;
        }
    }

    /// Whether the buffer is pinned.
    pub fn is_pinned(&self) -> (pinned: bool)
        ensures
            pinned == (self@.pins > 0),
    {
        self.pins > 0
    }

    /// The transaction that changed the buffer since it was last written; negative
    /// where none did.
    pub fn modifying_tx(&self) -> (tx_num: i32)
        ensures
            tx_num == self@.tx_num,
    {
        self.tx_num
    }

    /// The number of the log record of the last logged change.
    pub fn last_lsn(&self) -> (lsn: i64)
        ensures
            lsn == self@.lsn,
    {
        self.lsn
    }

    /// Writes the buffer out, assigns it to the block `blk` and reads that block
    /// into its page. It is then pinned by nobody.
    pub fn assign_to_block(&mut self, lm: &mut LogMgr, blk: &BlockId)
        requires
            old(self).wf(),
            old(lm).wf(),
            can_flush(old(lm), old(self)@),
            old(lm).is_data_block(blk@),
        ensures
            final(self).wf(),
            flushed_log(old(lm), final(lm), old(self)@),
            final(lm).data() == touched(
                flushed_data(old(lm), old(self)@),
                blk@.file_name,
                blk@.blk_num,
                old(lm).bs(),
            ),
            final(self)@ == (BufferView {
                contents: final(lm).data()[blk@.file_name][blk@.blk_num as int],
                blk: Some(blk@),
                pins: 0,
                tx_num: -1,
                lsn: old(self)@.lsn,
            }),
            final(self)@.contents.len() == old(lm).bs(),
    {
        self.flush(lm);
        self.blk = Some(blk.clone());
        lm.read_block(blk, &mut self.contents);
        self.pins = 0;
    }

    /// Writes the buffer out where a transaction has changed it: first the log up
    /// to the buffer's log record, then the page. The buffer is then changed by
    /// nobody.
    pub fn flush(&mut self, lm: &mut LogMgr)
        requires
            old(self).wf(),
            old(lm).wf(),
            can_flush(old(lm), old(self)@),
        ensures
            final(self).wf(),
            final(self)@ == (BufferView { tx_num: -1, ..old(self)@ }),
            flushed_log(old(lm), final(lm), old(self)@),
            final(lm).data() == flushed_data(old(lm), old(self)@),
    {
        proof {
            lm.lemma_wf();
        }
        if self.tx_num >= 0 {
            lm.flush_with_lsn(self.lsn);
            match &self.blk {
                Some(blk) => {
                    lm.write_block(blk, &self.contents);
                },
                None => {},
            }
            self.tx_num = -1;
        } else {
            self.tx_num = -1;
        }
    }

    /// Counts one more pin.
    pub fn pin(&mut self)
        requires
            old(self)@.pins < i32::MAX,
        ensures
            final(self).wf() == old(self).wf(),
            final(self)@ == (BufferView { pins: old(self)@.pins + 1, ..old(self)@ }),
    {
        self.pins = self.pins + 1
    }

    /// Counts one pin less.
    pub fn unpin(&mut self)
        requires
            old(self)@.pins > i32::MIN,
        ensures
            final(self).wf() == old(self).wf(),
            final(self)@ == (BufferView { pins: old(self)@.pins - 1, ..old(self)@ }),
    {
        self.pins = self.pins - 1
    }
}

} // verus!
