use vstd::prelude::*;

verus! {

/// The identifier of a record: the number of its block and its slot in the block.
#[derive(Debug)]
pub struct RID {
    blk_num: u64,
    slot: u64,
}

impl RID {
    /// The number of the block of the record.
    pub closed spec fn spec_blk_num(&self) -> u64 {
        self.blk_num
    }

    /// The slot of the record in its block.
    pub closed spec fn spec_slot(&self) -> u64 {
        self.slot
    }

    /// The identifier of the record in the slot `slot` of the block `blk_num`.
    pub fn new(blk_num: u64, slot: u64) -> (rid: Self)
        ensures
            rid.spec_blk_num() == blk_num,
            rid.spec_slot() == slot,
    {
        RID { blk_num, slot }
    }

    /// The number of the block of the record.
    #[verifier::when_used_as_spec(spec_blk_num)]
    pub fn blk_num(&self) -> (n: u64)
        ensures
            n == self.spec_blk_num(),
    {
        self.blk_num
    }

    /// The slot of the record in its block.
    #[verifier::when_used_as_spec(spec_slot)]
    pub fn slot(&self) -> (n: u64)
        ensures
            n == self.spec_slot(),
    {
        self.slot
    }
}

} // verus!
