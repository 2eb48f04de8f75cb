use vstd::prelude::*;

verus! {

/// The mathematical value of a [`BlockId`]: a file name and a block number.
pub struct BlockIdView {
    pub file_name: Seq<char>,
    pub blk_num: nat,
}

/// The address of one fixed-size block of a file.
#[derive(Debug)]
pub struct BlockId {
    file_name: String,
    blk_num: u64,
}

impl View for BlockId {
    type V = BlockIdView;

    closed spec fn view(&self) -> BlockIdView {
        BlockIdView { file_name: self.file_name@, blk_num: self.blk_num as nat }
    }
}

impl Clone for BlockId {
    fn clone(&self) -> (res: Self)
        ensures
            res@ == self@,
    {
        BlockId { file_name: self.file_name.clone(), blk_num: self.blk_num }
    }
}

impl BlockId {
    /// The block `blk_num` of the file `file_name`.
    pub fn new(file_name: String, blk_num: u64) -> (blk: Self)
        ensures
            blk@.file_name == file_name@,
            blk@.blk_num == blk_num,
    {
        BlockId { file_name, blk_num }
    }

    /// The name of the file of the block.
    pub fn file_name(&self) -> (name: &String)
        ensures
            name@ == self@.file_name,
    {
        &self.file_name
    }

    /// The number of the block in its file.
    pub fn blk_num(&self) -> (n: u64)
        ensures
            n == self@.blk_num,
    {
        self.blk_num
    }

    /// Whether two addresses name the same block of the same file.
    pub fn equals(&self, blk: &BlockId) -> (same: bool)
        ensures
            same == (self@ == blk@),
    {
        self.file_name == blk.file_name && self.blk_num == blk.blk_num
    }
}


} // verus!
