use vstd::prelude::*;
use crate::file::block_id::BlockId;
use crate::file::file_mgr::{blocks_of, Disk, FileMgr};
use crate::file::page::Page;
use crate::file::byte_buffer::{prefixed_fits, prefixed_payload};
use crate::file::codec::be_u32;
use crate::logging::format::{
    block_records, boundary_of, newest_first, records_from, valid_block, valid_log,
};

verus! {

/// Where records lie from `pos` on and `pos` is not the end of the block, a whole
/// record lies at `pos` and the others follow it.
proof fn lemma_record_here(block: Seq<u8>, pos: int)
    requires
        0 <= pos < block.len(),
        records_from(block, pos) is Some,
    ensures
        prefixed_fits(block, pos),
        records_from(block, pos + 4 + be_u32(block.subrange(pos, pos + 4))) is Some,
        records_from(block, pos).unwrap() == seq![prefixed_payload(block, pos)] + records_from(
            block,
            pos + 4 + be_u32(block.subrange(pos, pos + 4)),
        ).unwrap(),
{
}

/// A cursor that reads a log back from a block towards the first block, and in
/// each block from the newest record to the oldest.
pub struct LogIterator {
    blk: BlockId,
    page: Page,
    current_pos: usize,
    boundary: usize,
    block_size: usize,
}

impl LogIterator {
    /// The address of the block that the cursor stands in.
    pub closed spec fn block(&self) -> crate::file::block_id::BlockIdView {
        self.blk@
    }

    /// Whether the cursor is consistent with the store `disk`: it holds a copy of
    /// its block as the store has it, and stands at the start of a record of that
    /// block or at its end.
    pub closed spec fn wf(&self, disk: Disk) -> bool {
        let blocks = blocks_of(disk, self.blk@.file_name);
        &&& self.page.wf()
        &&& self.blk@.blk_num < blocks.len()
        &&& valid_log(blocks.subrange(0, self.blk@.blk_num + 1int), self.block_size as nat)
        &&& self.page@ == blocks[self.blk@.blk_num as int]
        &&& valid_block(self.page@, self.block_size as nat)
        &&& self.boundary == boundary_of(self.page@)
        &&& self.boundary <= self.current_pos <= self.block_size
        &&& records_from(self.page@, self.current_pos as int) is Some
    }

    /// The records that the cursor has yet to give, in the order in which it gives
    /// them.
    pub closed spec fn remaining(&self, disk: Disk) -> Seq<Seq<u8>> {
        records_from(self.page@, self.current_pos as int).unwrap() + newest_first(
            blocks_of(disk, self.blk@.file_name).subrange(0, self.blk@.blk_num as int),
        )
    }

    /// Whether the cursor has a record left to give.
    pub closed spec fn has_more(&self) -> bool {
        self.current_pos < self.block_size || self.blk@.blk_num > 0
    }

    /// A consistent cursor has a record left exactly if its remaining records are
    /// not empty.
    pub proof fn lemma_has_more(&self, disk: Disk)
        requires
            self.wf(disk),
        ensures
            self.has_more() == (self.remaining(disk).len() > 0),
    {
        let blocks = blocks_of(disk, self.blk@.file_name);
        let n = self.blk@.blk_num as int;
        let before = blocks.subrange(0, n);
        if self.current_pos < self.block_size {
            lemma_record_here(self.page@, self.current_pos as int);
        } else if n > 0 {
            assert(blocks.subrange(0, n + 1)[n - 1] == blocks[n - 1]);
            assert(before.last() == blocks[n - 1]);
            assert(block_records(before.last()).len() > 0);
        } else {
            assert(before.len() == 0);
        }
    }

    /// A cursor at the newest record of block `blk`, over the log that ends with
    /// that block.
    pub fn new(fm: &FileMgr, blk: &BlockId) -> (it: Self)
        requires
            fm.wf(),
            blk@.blk_num < blocks_of(fm@, blk@.file_name).len(),
            valid_log(blocks_of(fm@, blk@.file_name).subrange(0, blk@.blk_num + 1int), fm.bs()),
        ensures
            it.wf(fm@),
            it.block() == blk@,
            it.remaining(fm@) == newest_first(
                blocks_of(fm@, blk@.file_name).subrange(0, blk@.blk_num + 1int),
            ),
    {
        let mut page = Page::new(fm.block_size());
        fm.read_existing(blk, &mut page);
        let ghost blocks = blocks_of(fm@, blk@.file_name);
        let ghost upto = blocks.subrange(0, blk@.blk_num + 1int);
        assert(upto[blk@.blk_num as int] == blocks[blk@.blk_num as int]);
        assert(valid_block(page@, fm.bs()));
        let boundary = page.get_u64(0) as usize;
        proof {
            assert(upto.last() == page@);
            assert(upto.drop_last() =~= blocks.subrange(0, blk@.blk_num as int));
        }
        LogIterator {
            blk: blk.clone(),
            page,
            current_pos: boundary,
            boundary,
            block_size: fm.block_size() as usize,
        }
    }

    /// Whether the cursor has a record left to give.
    pub fn has_next(&self) -> (more: bool)
        ensures
            more == self.has_more(),
    {
        self.current_pos < self.block_size || self.blk.blk_num() > 0
    }

    /// Gives the next record and moves past it, into the block before where the
    /// current one is used up.
    pub fn next(&mut self, fm: &FileMgr) -> (rec: Vec<u8>)
        requires
            fm.wf(),
            old(self).wf(fm@),
            old(self).has_more(),
        ensures
            final(self).wf(fm@),
            old(self).remaining(fm@).len() > 0,
            rec@ == old(self).remaining(fm@)[0],
            final(self).remaining(fm@) == old(self).remaining(fm@).drop_first(),
    {
        proof {
            self.lemma_has_more(fm@);
        }
        let ghost blocks = blocks_of(fm@, self.blk@.file_name);
        let ghost old_remaining = self.remaining(fm@);
        if self.current_pos == self.block_size {
            let ghost n = self.blk@.blk_num as int;
            let ghost upto = blocks.subrange(0, n + 1);
            let ghost before = blocks.subrange(0, n);
            let prev = BlockId::new(self.blk.file_name().clone(), self.blk.blk_num() - 1);
            fm.read_existing(&prev, &mut self.page);
            self.blk = prev;
            proof {
                assert(upto[n - 1] == blocks[n - 1]);
                assert(before.last() == blocks[n - 1]);
                assert(before.drop_last() =~= blocks.subrange(0, n - 1));
                assert forall|i: int| 0 <= i < before.len() implies valid_block(
                    #[trigger] before[i],
                    self.block_size as nat,
                ) by {
                    assert(before[i] == upto[i]);
                }
                assert forall|i: int| 0 <= i < before.len() - 1 implies block_records(
                    #[trigger] before[i],
                ).len() > 0 by {
                    assert(before[i] == upto[i]);
                }
                assert(valid_block(self.page@, self.block_size as nat));
            }
            self.boundary = self.page.get_u64(0) as usize;
            self.current_pos = self.boundary;
            proof {
                assert(records_from(old(self).page@, old(self).current_pos as int).unwrap().len() == 0);
                assert(old_remaining =~= newest_first(before));
                assert(block_records(self.page@).len() > 0);
            }
        }
        let ghost here = records_from(self.page@, self.current_pos as int).unwrap();
        let ghost earlier = newest_first(
            blocks_of(fm@, self.blk@.file_name).subrange(0, self.blk@.blk_num as int),
        );
        assert(old_remaining =~= here + earlier);
        proof {
            lemma_record_here(self.page@, self.current_pos as int);
        }
        let rec = self.page.get_log_bytes(self.current_pos);
        self.current_pos = self.current_pos + 4 + rec.len();
        proof {
            let after = records_from(self.page@, self.current_pos as int).unwrap();
            assert(here == seq![rec@] + after);
            assert(self.remaining(fm@) =~= old_remaining.drop_first());
        }
        rec
    }
}

} // verus!
