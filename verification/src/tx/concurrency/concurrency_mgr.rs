use vstd::prelude::*;
use crate::file::block_id::{BlockId, BlockIdView};
use crate::tx::block_map::BlockMap;
use crate::tx::concurrency::lock_table::{lock_abort_message, released, LockTable};

verus! {

/// The locks of one transaction: for each block that it holds a lock on, whether
/// the lock is exclusive.
pub struct ConcurrencyMgr {
    locks: BlockMap<bool>,
}

impl View for ConcurrencyMgr {
    type V = Map<BlockIdView, bool>;

    closed spec fn view(&self) -> Map<BlockIdView, bool> {
        self.locks@
    }
}

/// What one step of a request for a shared lock on the block `blk` does for a
/// transaction with the locks `held`. Where it holds a lock on the block, nothing
/// changes. Else the table is asked: where the block has no exclusive holder, the
/// table counts one shared holder more and the transaction holds a shared lock;
/// else nothing changes, and the transaction waits or, where it has waited too
/// long, aborts.
pub open spec fn s_lock_step(
    held: Map<BlockIdView, bool>,
    held_after: Map<BlockIdView, bool>,
    before: &LockTable,
    after: &LockTable,
    blk: BlockIdView,
    timed_out: bool,
    r: Result<bool, String>,
) -> bool {
    if held.contains_key(blk) {
        &&& r == Ok::<bool, String>(true)
        &&& held_after == held
        &&& forall|b: BlockIdView| #[trigger] after.val(b) == before.val(b)
    } else if before.val(blk) >= 0 {
        &&& r == Ok::<bool, String>(true)
        &&& held_after == held.insert(blk, false)
        &&& forall|b: BlockIdView| #[trigger]
            after.val(b) == if b == blk {
                before.val(b) + 1
            } else {
                before.val(b)
            }
    } else {
        &&& held_after == held
        &&& forall|b: BlockIdView| #[trigger] after.val(b) == before.val(b)
        &&& if timed_out {
            r matches Err(message) && message@ == lock_abort_message()
        } else {
            r == Ok::<bool, String>(false)
        }
    }
}

/// What one step of a request for an exclusive lock on the block `blk` does: where
/// the transaction holds an exclusive lock on the block, nothing; else what the
/// step of a request for a shared lock does and, where that is granted, the
/// transaction holds the lock as an exclusive one.
pub open spec fn x_lock_step(
    held: Map<BlockIdView, bool>,
    held_after: Map<BlockIdView, bool>,
    before: &LockTable,
    after: &LockTable,
    blk: BlockIdView,
    timed_out: bool,
    r: Result<bool, String>,
) -> bool {
    if held.contains_key(blk) && held[blk] {
        &&& r == Ok::<bool, String>(true)
        &&& held_after == held
        &&& forall|b: BlockIdView| #[trigger] after.val(b) == before.val(b)
    } else if held.contains_key(blk) || before.val(blk) >= 0 {
        &&& r == Ok::<bool, String>(true)
        &&& held_after == held.insert(blk, true)
        &&& forall|b: BlockIdView| #[trigger]
            after.val(b) == if b == blk && !held.contains_key(blk) {
                before.val(b) + 1
            } else {
                before.val(b)
            }
    } else {
        &&& held_after == held
        &&& forall|b: BlockIdView| #[trigger] after.val(b) == before.val(b)
        &&& if timed_out {
            r matches Err(message) && message@ == lock_abort_message()
        } else {
            r == Ok::<bool, String>(false)
        }
    }
}

impl ConcurrencyMgr {
    /// Whether the manager is consistent.
    pub closed spec fn wf(&self) -> bool {
        self.locks.wf()
    }

    /// A manager for a transaction without locks.
    pub fn new() -> (cm: Self)
        ensures
            cm.wf(),
            cm@ == Map::<BlockIdView, bool>::empty(),
    {
        ConcurrencyMgr { locks: BlockMap::new() }
    }

    /// One step of a request for a shared lock on the block `blk` that began at
    /// `start_time`, taken at `now`.
    pub fn s_lock(&mut self, lock_tbl: &mut LockTable, blk: &BlockId, start_time: u64, now: u64) -> (r:
        Result<bool, String>)
        requires
            old(self).wf(),
            old(lock_tbl).wf(),
            !old(self)@.contains_key(blk@) ==> old(lock_tbl).val(blk@) < i64::MAX,
        ensures
            final(self).wf(),
            final(lock_tbl).wf(),
            final(lock_tbl).max_wait() == old(lock_tbl).max_wait(),
            s_lock_step(
                old(self)@,
                final(self)@,
                old(lock_tbl),
                final(lock_tbl),
                blk@,
                now - start_time > old(lock_tbl).max_wait(),
                r,
            ),
    {
        match self.locks.get(blk) {
            Some(_) => Ok(true),
            None => {
                let r = lock_tbl.s_lock(blk, start_time, now);
                match &r {
                    Ok(granted) => {
                        if *granted {
                            self.locks.insert(blk, false);
                        }
                    },
                    Err(_) => {},
                }
                r
            },
        }
    }

    /// One step of a request for an exclusive lock on the block `blk` that began
    /// at `start_time`, taken at `now`. The request goes the way of a request for
    /// a shared lock; that the lock is exclusive is kept here, not in the table.
    pub fn x_lock(&mut self, lock_tbl: &mut LockTable, blk: &BlockId, start_time: u64, now: u64) -> (r:
        Result<bool, String>)
        requires
            old(self).wf(),
            old(lock_tbl).wf(),
            !old(self)@.contains_key(blk@) ==> old(lock_tbl).val(blk@) < i64::MAX,
        ensures
            final(self).wf(),
            final(lock_tbl).wf(),
            final(lock_tbl).max_wait() == old(lock_tbl).max_wait(),
            x_lock_step(
                old(self)@,
                final(self)@,
                old(lock_tbl),
                final(lock_tbl),
                blk@,
                now - start_time > old(lock_tbl).max_wait(),
                r,
            ),
    {
        if self.has_x_lock(blk) {
            return Ok(true);
        }
        let r = self.s_lock(lock_tbl, blk, start_time, now);
        match &r {
            Ok(granted) => {
                if *granted {
                    self.locks.insert(blk, true);
                    assert(self@ =~= old(self)@.insert(blk@, true));
                }
            },
            Err(_) => {},
        }
        r
    }

    /// Lets go of every lock of the transaction.
    pub fn release(&mut self, lock_tbl: &mut LockTable)
        requires
            old(self).wf(),
            old(lock_tbl).wf(),
        ensures
            final(self).wf(),
            final(self)@ == Map::<BlockIdView, bool>::empty(),
            final(lock_tbl).wf(),
            final(lock_tbl).max_wait() == old(lock_tbl).max_wait(),
            forall|b: BlockIdView| #[trigger]
                final(lock_tbl).val(b) == if old(self)@.contains_key(b) {
                    released(old(lock_tbl).val(b))
                } else {
                    old(lock_tbl).val(b)
                },
    {
        let n = self.locks.len();
        let mut i: usize = 0;
        proof {
            self.locks.lemma_keys();
        }
        while i < n
            invariant
                self.wf(),
                self.locks == old(self).locks,
                lock_tbl.wf(),
                lock_tbl.max_wait() == old(lock_tbl).max_wait(),
                n == self.locks.keys().len(),
                i <= n,
                forall|b: BlockIdView| #[trigger]
                    lock_tbl.val(b) == if self.locks.keys().subrange(0, i as int).contains(b) {
                        released(old(lock_tbl).val(b))
                    } else {
                        old(lock_tbl).val(b)
                    },
            decreases n - i,
        {
            let ghost before = *lock_tbl;
            let ghost keys = self.locks.keys();
            lock_tbl.unlock(self.locks.key(i));
            proof {
                self.locks.lemma_keys();
                assert forall|b: BlockIdView| #[trigger]
                    lock_tbl.val(b) == if keys.subrange(0, i + 1).contains(b) {
                        released(old(lock_tbl).val(b))
                    } else {
                        old(lock_tbl).val(b)
                    } by {
                    let upto = keys.subrange(0, i as int);
                    let next = keys.subrange(0, i + 1);
                    if b == keys[i as int] {
                        assert(next[i as int] == b);
                        if upto.contains(b) {
                            let k = choose|k: int| 0 <= k < upto.len() && upto[k] == b;
                            assert(keys[k] != keys[i as int]);
                        }
                    } else {
                        if upto.contains(b) {
                            let k = choose|k: int| 0 <= k < upto.len() && upto[k] == b;
                            assert(next[k] == b);
                        }
                        if next.contains(b) {
                            let k = choose|k: int| 0 <= k < next.len() && next[k] == b;
                            assert(upto[k] == b);
                        }
                    }
                }
            }
            i = i + 1;
        }
        proof {
            let keys = self.locks.keys();
            assert(keys.subrange(0, n as int) =~= keys);
            self.locks.lemma_keys();
            assert forall|b: BlockIdView| keys.contains(b) == old(self)@.contains_key(b) by {
                if keys.contains(b) {
                    let k = choose|k: int| 0 <= k < keys.len() && keys[k] == b;
                    assert(self.locks@.contains_key(keys[k]));
                }
            }
        }
        self.locks.clear();
    }

    /// Whether the transaction holds a lock on the block `blk`.
    pub fn has_lock(&self, blk: &BlockId) -> (held: bool)
        requires
            self.wf(),
        ensures
            held == self@.contains_key(blk@),
    {
        self.locks.get(blk).is_some()
    }

    /// Whether the transaction holds an exclusive lock on the block `blk`.
    pub fn has_x_lock(&self, blk: &BlockId) -> (held: bool)
        requires
            self.wf(),
        ensures
            held == (self@.contains_key(blk@) && self@[blk@]),
    {
        match self.locks.get(blk) {
            Some(exclusive) => exclusive,
            None => false,
        }
    }
}

} // verus!
