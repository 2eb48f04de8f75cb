use vstd::prelude::*;
use crate::file::block_id::{BlockId, BlockIdView};
use crate::tx::block_map::BlockMap;

verus! {

/// The longest that a request for a lock waits, in milliseconds.
pub const MAX_TIME: u64 = 10000;

/// The message of the abort that ends a wait for a lock.
pub open spec fn lock_abort_message() -> Seq<char> {
    "LockAbortException"@
}

/// What releasing one lock makes of the lock value of a block: one shared holder
/// less, or no holder where the last shared holder or the exclusive holder lets
/// go.
pub open spec fn released(val: int) -> int {
    if val > 1 {
        val - 1
    } else {
        0
    }
}

/// The locks on the blocks of the database. The lock value of a block is the
/// number of its shared holders, and negative where it has an exclusive holder.
pub struct LockTable {
    max_time: u64,
    locks: BlockMap<i64>,
}

impl LockTable {
    /// The lock value of the block `blk`; 0 where nobody holds a lock on it.
    pub closed spec fn val(&self, blk: BlockIdView) -> int {
        if self.locks@.contains_key(blk) {
            self.locks@[blk] as int
        } else {
            0
        }
    }

    /// The longest that a request for a lock waits, in milliseconds.
    pub closed spec fn max_wait(&self) -> u64 {
        self.max_time
    }

    /// Whether the table is consistent: it keeps one value for a block.
    pub closed spec fn wf(&self) -> bool {
        self.locks.wf()
    }

    /// A table without locks.
    pub fn new() -> (table: Self)
        ensures
            table.wf(),
            table.max_wait() == MAX_TIME,
            forall|b: BlockIdView| #[trigger] table.val(b) == 0,
    {
        LockTable { max_time: MAX_TIME, locks: BlockMap::new() }
    }

    /// One step of a request for a shared lock on the block `blk` that began at
    /// `start_time`, taken at `now`: whether the lock was granted, or the caller
    /// is to wait and ask again; the abort where the block has an exclusive holder
    /// and the request has waited too long.
    pub fn s_lock(&mut self, blk: &BlockId, start_time: u64, now: u64) -> (r: Result<bool, String>)
        requires
            old(self).wf(),
            old(self).val(blk@) < i64::MAX,
        ensures
            final(self).wf(),
            final(self).max_wait() == old(self).max_wait(),
            old(self).val(blk@) >= 0 ==> r == Ok::<bool, String>(true) && forall|b: BlockIdView| #[trigger]
                final(self).val(b) == if b == blk@ {
                    old(self).val(b) + 1
                } else {
                    old(self).val(b)
                },
            old(self).val(blk@) < 0 ==> forall|b: BlockIdView| #[trigger]
                final(self).val(b) == old(self).val(b),
            old(self).val(blk@) < 0 && !(now - start_time > old(self).max_wait()) ==> r == Ok::<
                bool,
                String,
            >(false),
            old(self).val(blk@) < 0 && now - start_time > old(self).max_wait() ==> (r matches Err(
                message,
            ) && message@ == lock_abort_message()),
    {
        if self.has_x_lock(blk) {
            if self.wait_too_long(start_time, now) {
                return Err("LockAbortException".to_string());
            }
            return Ok(false);
        }
        let value = self.get_lock_val(blk);
        self.set_lock_val(blk, value + 1);
        Ok(true)
    }

    /// One step of a request for the exclusive lock on the block `blk` that began
    /// at `start_time`, taken at `now`: the lock is granted where the block has no
    /// holder but, at most, the one shared holder that asks to hold it alone; else
    /// the caller is to wait and ask again or, where the request has waited too
    /// long, aborts.
    pub fn x_lock(&mut self, blk: &BlockId, start_time: u64, now: u64) -> (r: Result<bool, String>)
        requires
            old(self).wf(),
        ensures
            final(self).wf(),
            final(self).max_wait() == old(self).max_wait(),
            0 <= old(self).val(blk@) <= 1 ==> r == Ok::<bool, String>(true) && forall|
                b: BlockIdView,
            | #[trigger]
                final(self).val(b) == if b == blk@ {
                    -1
                } else {
                    old(self).val(b)
                },
            !(0 <= old(self).val(blk@) <= 1) ==> forall|b: BlockIdView| #[trigger]
                final(self).val(b) == old(self).val(b),
            !(0 <= old(self).val(blk@) <= 1) && !(now - start_time > old(self).max_wait()) ==> r
                == Ok::<bool, String>(false),
            !(0 <= old(self).val(blk@) <= 1) && now - start_time > old(self).max_wait() ==> (
            r matches Err(message) && message@ == lock_abort_message()),
    {
        let value = self.get_lock_val(blk);
        if value < 0 || value > 1 {
            if self.wait_too_long(start_time, now) {
                return Err("LockAbortException".to_string());
            }
            return Ok(false);
        }
        self.set_lock_val(blk, -1);
        Ok(true)
    }

    /// Sets the lock value of the block `blk` to `val`.
    fn set_lock_val(&mut self, blk: &BlockId, val: i64)
        requires
            old(self).wf(),
        ensures
            final(self).wf(),
            final(self).max_wait() == old(self).max_wait(),
            forall|b: BlockIdView| #[trigger]
                final(self).val(b) == if b == blk@ {
                    val as int
                } else {
                    old(self).val(b)
                },
    {
        self.locks.insert(blk, val);
    }

    /// Lets one holder of a lock on the block `blk` go.
    pub fn unlock(&mut self, blk: &BlockId)
        requires
            old(self).wf(),
        ensures
            final(self).wf(),
            final(self).max_wait() == old(self).max_wait(),
            forall|b: BlockIdView| #[trigger]
                final(self).val(b) == if b == blk@ {
                    released(old(self).val(b))
                } else {
                    old(self).val(b)
                },
    {
        let value = self.get_lock_val(blk);
        if value > 1 {
            self.set_lock_val(blk, value - 1);
        } else {
            self.locks.remove(blk);
        }
    }

    /// Whether the block `blk` has an exclusive holder.
    pub fn has_x_lock(&self, blk: &BlockId) -> (held: bool)
        requires
            self.wf(),
        ensures
            held == (self.val(blk@) < 0),
    {
        self.get_lock_val(blk) < 0
    }

    /// The lock value of the block `blk`.
    pub fn get_lock_val(&self, blk: &BlockId) -> (val: i64)
        requires
            self.wf(),
        ensures
            val == self.val(blk@),
    {
        match self.locks.get(blk) {
            Some(val) => val,
            None => 0,
        }
    }

    /// Whether a request that began at `start_time` has waited too long at `now`:
    /// both are times in milliseconds.
    pub fn wait_too_long(&self, start_time: u64, now: u64) -> (too_long: bool)
        ensures
            too_long == (now - start_time > self.max_wait()),
    {
        now > start_time && now - start_time > self.max_time
    }
}

} // verus!
