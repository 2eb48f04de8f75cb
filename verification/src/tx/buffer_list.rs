use vstd::prelude::*;
use crate::buffer::buffer::BufferView;
use crate::buffer::buffer_mgr::{
    buffer_abort_message, can_pin, distinct_blocks, holds, lemma_slot_unique, pin_attempt,
    pin_slot, unpinned_once, waited_too_long, BufferMgr,
};
use crate::file::block_id::{BlockId, BlockIdView};
use crate::tx::block_map::BlockMap;

verus! {

/// How many times the block `blk` occurs in `pins`.
pub open spec fn occurrences(pins: Seq<BlockIdView>, blk: BlockIdView) -> nat
    decreases pins.len(),
{
    if pins.len() == 0 {
        0
    } else {
        occurrences(pins.drop_last(), blk) + if pins.last() == blk {
            1nat
        } else {
            0nat
        }
    }
}

/// The buffers of `pool` after each pin in `pins` has been taken off the buffer
/// that holds its block.
pub open spec fn released_pool(pool: Seq<BufferView>, pins: Seq<BlockIdView>) -> Seq<BufferView> {
    Seq::new(
        pool.len(),
        |i: int|
            match pool[i].blk {
                Some(b) => BufferView { pins: pool[i].pins - occurrences(pins, b), ..pool[i] },
                None => pool[i],
            },
    )
}

/// One more pin is one more occurrence of its block.
pub proof fn lemma_occurrences_push(pins: Seq<BlockIdView>, blk: BlockIdView, b: BlockIdView)
    ensures
        occurrences(pins.push(blk), b) == occurrences(pins, b) + if blk == b {
            1nat
        } else {
            0nat
        },
{
    assert(pins.push(blk).drop_last() =~= pins);
}

/// One pin less is one occurrence less of its block.
pub proof fn lemma_occurrences_remove(pins: Seq<BlockIdView>, p: int, b: BlockIdView)
    requires
        0 <= p < pins.len(),
    ensures
        occurrences(pins.remove(p), b) == occurrences(pins, b) - if pins[p] == b {
            1int
        } else {
            0int
        },
    decreases pins.len(),
{
    if p == pins.len() - 1 {
        assert(pins.remove(p) =~= pins.drop_last());
    } else {
        assert(pins.remove(p).drop_last() =~= pins.drop_last().remove(p));
        assert(pins.remove(p).last() == pins.last());
        lemma_occurrences_remove(pins.drop_last(), p, b);
    }
}

/// A block occurs among the pins exactly if it is one of them.
pub proof fn lemma_occurrences_contains(pins: Seq<BlockIdView>, b: BlockIdView)
    ensures
        occurrences(pins, b) > 0 <==> pins.contains(b),
    decreases pins.len(),
{
    if pins.len() > 0 {
        lemma_occurrences_contains(pins.drop_last(), b);
        if pins.drop_last().contains(b) {
            let k = choose|k: int| 0 <= k < pins.drop_last().len() && pins.drop_last()[k] == b;
            assert(pins[k] == b);
        }
        if pins.contains(b) && pins.last() != b {
            let k = choose|k: int| 0 <= k < pins.len() && pins[k] == b;
            assert(pins.drop_last()[k] == b);
        }
        if pins.last() == b {
            assert(pins[pins.len() - 1] == b);
        }
    }
}

/// A block occurs among the first pins no more often than among all.
pub proof fn lemma_occurrences_prefix(pins: Seq<BlockIdView>, k: int, b: BlockIdView)
    requires
        0 <= k <= pins.len(),
    ensures
        occurrences(pins.subrange(0, k), b) <= occurrences(pins, b),
    decreases pins.len() - k,
{
    if k < pins.len() {
        lemma_occurrences_prefix(pins, k + 1, b);
        assert(pins.subrange(0, k + 1).drop_last() =~= pins.subrange(0, k));
    } else {
        assert(pins.subrange(0, k) =~= pins);
    }
}

/// The blocks that one transaction has pinned, each as often as it has pinned it,
/// and for each the index of its buffer in the pool.
pub struct BufferList {
    pins: Vec<BlockId>,
    buffers: BlockMap<usize>,
}

impl BufferList {
    /// The pins of the transaction, in the order in which it took them.
    pub closed spec fn pins(&self) -> Seq<BlockIdView> {
        Seq::new(self.pins@.len(), |i: int| self.pins@[i]@)
    }

    /// For each pinned block, the index of its buffer.
    pub closed spec fn buffers(&self) -> Map<BlockIdView, usize> {
        self.buffers@
    }

    /// Whether the list is consistent with the pool `pool`: each block of the list
    /// is pinned by the transaction, lies in the buffer that the list names, and
    /// that buffer has at least the pins of the transaction.
    pub closed spec fn wf(&self, pool: Seq<BufferView>) -> bool {
        &&& self.buffers.wf()
        &&& forall|b: BlockIdView| #[trigger]
            self.buffers@.contains_key(b) ==> {
                &&& self.buffers@[b] < pool.len()
                &&& pool[self.buffers@[b] as int].blk == Some(b)
                &&& 1 <= occurrences(self.pins(), b) <= pool[self.buffers@[b] as int].pins
            }
        &&& forall|b: BlockIdView| occurrences(self.pins(), b) > 0 ==> #[trigger] self.buffers@.contains_key(b)
    }

    /// What holds of a list that is consistent with a pool.
    pub proof fn lemma_wf(&self, pool: Seq<BufferView>)
        requires
            self.wf(pool),
        ensures
            forall|b: BlockIdView| #[trigger]
                self.buffers().contains_key(b) ==> {
                    &&& self.buffers()[b] < pool.len()
                    &&& pool[self.buffers()[b] as int].blk == Some(b)
                    &&& 1 <= occurrences(self.pins(), b) <= pool[self.buffers()[b] as int].pins
                },
            forall|b: BlockIdView| #[trigger]
                self.buffers().contains_key(b) <==> self.pins().contains(b),
            forall|b: BlockIdView| #[trigger]
                occurrences(self.pins(), b) > 0 <==> self.buffers().contains_key(b),
            self.buffers_wf(),
    {
        assert forall|b: BlockIdView| #[trigger]
            self.buffers().contains_key(b) <==> self.pins().contains(b) by {
            lemma_occurrences_contains(self.pins(), b);
        }
        assert forall|b: BlockIdView| #[trigger]
            occurrences(self.pins(), b) > 0 <==> self.buffers().contains_key(b) by {
            if self.buffers@.contains_key(b) {
            }
        }
    }

    /// A consistent list stays consistent where the pool changes only in buffers
    /// that nobody has pinned, or gains pins.
    pub proof fn lemma_wf_kept(&self, pool: Seq<BufferView>, new_pool: Seq<BufferView>)
        requires
            self.wf(pool),
            new_pool.len() == pool.len(),
            forall|i: int|
                0 <= i < pool.len() && pool[i].pins > 0 ==> (#[trigger] new_pool[i]).blk == pool[i].blk
                    && new_pool[i].pins >= pool[i].pins,
        ensures
            self.wf(new_pool),
    {
        assert forall|b: BlockIdView| #[trigger] self.buffers@.contains_key(b) implies {
            &&& self.buffers@[b] < new_pool.len()
            &&& new_pool[self.buffers@[b] as int].blk == Some(b)
            &&& 1 <= occurrences(self.pins(), b) <= new_pool[self.buffers@[b] as int].pins
        } by {
            let i = self.buffers@[b] as int;
            assert(new_pool[i].blk == pool[i].blk);
        }
    }

    /// A list without pins.
    pub fn new() -> (list: Self)
        ensures
            list.pins() == Seq::<BlockIdView>::empty(),
            list.buffers() == Map::<BlockIdView, usize>::empty(),
            forall|pool: Seq<BufferView>| #[trigger] list.wf(pool),
    {
        let list = BufferList { pins: Vec::new(), buffers: BlockMap::new() };
        assert(list.pins() =~= Seq::<BlockIdView>::empty());
        list
    }

    /// The index of the buffer of the block `blk`, where the transaction has
    /// pinned it.
    pub fn get_buffer(&self, blk: &BlockId) -> (r: Option<usize>)
        requires
            self.buffers_wf(),
        ensures
            r == if self.buffers().contains_key(blk@) {
                Some(self.buffers()[blk@])
            } else {
                None
            },
    {
        self.buffers.get(blk)
    }

    /// Whether the map behind the list is consistent. It is where the list is
    /// consistent with a pool.
    pub closed spec fn buffers_wf(&self) -> bool {
        self.buffers.wf()
    }

    /// The map behind a list that is consistent with a pool is consistent.
    pub proof fn lemma_buffers_wf(&self, pool: Seq<BufferView>)
        requires
            self.wf(pool),
        ensures
            self.buffers_wf(),
    {
    }

    /// One step of a request to pin the block `blk` for the transaction, as
    /// [`BufferMgr::pin`] takes it. Where a buffer was pinned, the list has one
    /// pin of the block more.
    pub fn pin(&mut self, bm: &mut BufferMgr, blk: &BlockId, start_time: u64, now: u64) -> (r: Result<
        bool,
        String,
    >)
        requires
            old(bm).wf(),
            old(self).wf(old(bm).pool()),
            old(bm).log().is_data_block(blk@),
            can_pin(old(bm).pool(), blk@),
        ensures
            final(bm).wf(),
            final(self).wf(final(bm).pool()),
            final(bm).max_wait() == old(bm).max_wait(),
            final(bm).last_tx() == old(bm).last_tx(),
            forall|b: BlockIdView| #[trigger] final(bm).block_value(b) == old(bm).block_value(b),
            pin_attempt(
                old(bm),
                final(bm),
                blk@,
                if r == Ok::<bool, String>(true) {
                    pin_slot(old(bm).pool(), blk@)
                } else {
                    None
                },
            ),
            match r {
                Ok(done) => {
                    &&& done == pin_slot(old(bm).pool(), blk@) is Some
                    &&& !done ==> !waited_too_long(start_time, now, old(bm).max_wait())
                },
                Err(message) => {
                    &&& pin_slot(old(bm).pool(), blk@) is None
                    &&& waited_too_long(start_time, now, old(bm).max_wait())
                    &&& message@ == buffer_abort_message()
                },
            },
            r == Ok::<bool, String>(true) ==> {
                &&& final(self).pins() == old(self).pins().push(blk@)
                &&& final(self).buffers() == old(self).buffers().insert(
                    blk@,
                    pin_slot(old(bm).pool(), blk@).unwrap(),
                )
            },
            r != Ok::<bool, String>(true) ==> {
                &&& final(self).pins() == old(self).pins()
                &&& final(self).buffers() == old(self).buffers()
            },
    {
        let ghost pool = bm.pool();
        let ghost my_pins = self.pins();
        match bm.pin(blk, start_time, now) {
            Ok(Some(idx)) => {
                proof {
                    bm.lemma_wf();
                    old(bm).lemma_wf();
                    if holds(pool, blk@) {
                        lemma_slot_unique(pool, blk@, idx as int);
                    }
                }
                self.buffers.insert(blk, idx);
                self.pins.push(blk.clone());
                proof {
                    let new_pool = bm.pool();
                    assert(self.pins() =~= my_pins.push(blk@));
                    assert forall|b: BlockIdView| #[trigger] self.buffers@.contains_key(b) implies {
                        &&& self.buffers@[b] < new_pool.len()
                        &&& new_pool[self.buffers@[b] as int].blk == Some(b)
                        &&& 1 <= occurrences(self.pins(), b) <= new_pool[self.buffers@[b] as int].pins
                    } by {
                        lemma_occurrences_push(my_pins, blk@, b);
                        if b == blk@ {
                            if old(self).buffers@.contains_key(b) {
                                let j = old(self).buffers@[b] as int;
                                lemma_slot_unique(pool, b, j);
                            } else {
                                assert(occurrences(my_pins, b) == 0);
                            }
                        } else {
                            let j = old(self).buffers@[b] as int;
                            assert(pool[j].pins > 0);
                            if j == idx {
                                lemma_slot_unique(new_pool, b, j);
                            }
                        }
                    }
                    assert forall|b: BlockIdView| occurrences(self.pins(), b) > 0 implies #[trigger]
                        self.buffers@.contains_key(b) by {
                        lemma_occurrences_push(my_pins, blk@, b);
                    }
                }
                Ok(true)
            },
            Ok(None) => Ok(false),
            Err(message) => Err(message),
        }
    }

    /// Takes one pin of the transaction off the block `blk`, which it has pinned.
    pub fn unpin(&mut self, bm: &mut BufferMgr, blk: &BlockId)
        requires
            old(bm).wf(),
            old(self).wf(old(bm).pool()),
            old(self).buffers().contains_key(blk@),
        ensures
            final(bm).wf(),
            final(self).wf(final(bm).pool()),
            final(bm).pool() == old(bm).pool().update(
                old(self).buffers()[blk@] as int,
                unpinned_once(old(bm).pool()[old(self).buffers()[blk@] as int]),
            ),
            final(bm).log() == old(bm).log(),
            final(bm).max_wait() == old(bm).max_wait(),
            final(bm).last_tx() == old(bm).last_tx(),
            forall|b: BlockIdView| #[trigger] final(bm).block_value(b) == old(bm).block_value(b),
            forall|b: BlockIdView| #[trigger]
                occurrences(final(self).pins(), b) == occurrences(old(self).pins(), b) - if b == blk@ {
                    1int
                } else {
                    0int
                },
            final(self).buffers() == if occurrences(old(self).pins(), blk@) == 1 {
                old(self).buffers().remove(blk@)
            } else {
                old(self).buffers()
            },
    {
        let ghost pool = bm.pool();
        let ghost my_pins = self.pins();
        let idx = match self.buffers.get(blk) {
            Some(idx) => idx,
            None => 0,
        };
        bm.unpin(idx);
        let mut p: usize = 0;
        proof {
            lemma_occurrences_contains(my_pins, blk@);
        }
        while p < self.pins.len() && !self.pins[p].equals(blk)
            invariant
                p <= self.pins@.len(),
                self.pins() == my_pins,
                my_pins.contains(blk@),
                forall|k: int| 0 <= k < p ==> my_pins[k] != blk@,
            decreases self.pins@.len() - p,
        {
            assert(self.pins()[p as int] == self.pins@[p as int]@);
            p = p + 1;
        }
        assert(p < self.pins@.len()) by {
            let k = choose|k: int| 0 <= k < my_pins.len() && my_pins[k] == blk@;
            if p >= my_pins.len() {
                assert(my_pins[k] != blk@);
            }
        }
        assert(self.pins()[p as int] == self.pins@[p as int]@);
        self.pins.remove(p);
        proof {
            assert(self.pins() =~= my_pins.remove(p as int));
            assert forall|b: BlockIdView| #[trigger]
                occurrences(self.pins(), b) == occurrences(my_pins, b) - if b == blk@ {
                    1int
                } else {
                    0int
                } by {
                lemma_occurrences_remove(my_pins, p as int, b);
            }
        }
        let mut still_pinned = false;
        let mut q: usize = 0;
        while q < self.pins.len()
            invariant
                q <= self.pins@.len(),
                still_pinned == self.pins().subrange(0, q as int).contains(blk@),
            decreases self.pins@.len() - q,
        {
            let ghost upto = self.pins().subrange(0, q as int);
            let ghost next = self.pins().subrange(0, q + 1);
            let same = self.pins[q].equals(blk);
            assert(self.pins()[q as int] == self.pins@[q as int]@);
            proof {
                if upto.contains(blk@) {
                    let k = choose|k: int| 0 <= k < upto.len() && upto[k] == blk@;
                    assert(next[k] == blk@);
                }
                if same {
                    assert(next[q as int] == blk@);
                }
                if next.contains(blk@) && !same {
                    let k = choose|k: int| 0 <= k < next.len() && next[k] == blk@;
                    assert(upto[k] == blk@);
                }
            }
            if same {
                still_pinned = true;
            }
            q = q + 1;
        }
        proof {
            assert(self.pins().subrange(0, q as int) =~= self.pins());
            lemma_occurrences_contains(self.pins(), blk@);
        }
        if !still_pinned {
            self.buffers.remove(blk);
        }
        proof {
            let new_pool = bm.pool();
            bm.lemma_wf();
            old(bm).lemma_wf();
            assert forall|b: BlockIdView| #[trigger] self.buffers@.contains_key(b) implies {
                &&& self.buffers@[b] < new_pool.len()
                &&& new_pool[self.buffers@[b] as int].blk == Some(b)
                &&& 1 <= occurrences(self.pins(), b) <= new_pool[self.buffers@[b] as int].pins
            } by {
                assert(old(self).buffers@.contains_key(b));
                let j = old(self).buffers@[b] as int;
                if b != blk@ && j == idx {
                    lemma_slot_unique(pool, b, j);
                    lemma_slot_unique(pool, blk@, j);
                }
            }
            assert(self.buffers() =~= if occurrences(my_pins, blk@) == 1 {
                old(self).buffers().remove(blk@)
            } else {
                old(self).buffers()
            });
        }
    }

    /// Takes every pin of the transaction off its buffer.
    pub fn unpin_all(&mut self, bm: &mut BufferMgr)
        requires
            old(bm).wf(),
            old(self).wf(old(bm).pool()),
        ensures
            final(bm).wf(),
            final(bm).pool() == released_pool(old(bm).pool(), old(self).pins()),
            final(bm).log() == old(bm).log(),
            final(bm).max_wait() == old(bm).max_wait(),
            final(bm).last_tx() == old(bm).last_tx(),
            forall|b: BlockIdView| #[trigger] final(bm).block_value(b) == old(bm).block_value(b),
            final(self).pins() == Seq::<BlockIdView>::empty(),
            final(self).buffers() == Map::<BlockIdView, usize>::empty(),
            forall|pool: Seq<BufferView>| #[trigger] final(self).wf(pool),
    {
        let ghost pool = bm.pool();
        let ghost my_pins = self.pins();
        let mut k: usize = 0;
        proof {
            old(bm).lemma_wf();
            assert(my_pins.subrange(0, 0) =~= Seq::<BlockIdView>::empty());
            assert(bm.pool() =~= released_pool(pool, my_pins.subrange(0, 0)));
        }
        while k < self.pins.len()
            invariant
                bm.wf(),
                self.pins == old(self).pins,
                self.buffers == old(self).buffers,
                self.wf(pool),
                pool == old(bm).pool(),
                distinct_blocks(pool),
                my_pins == self.pins(),
                k <= my_pins.len(),
                bm.pool() == released_pool(pool, my_pins.subrange(0, k as int)),
                bm.log() == old(bm).log(),
                bm.max_wait() == old(bm).max_wait(),
                bm.last_tx() == old(bm).last_tx(),
                forall|b: BlockIdView| #[trigger] bm.block_value(b) == old(bm).block_value(b),
            decreases my_pins.len() - k,
        {
            let ghost b = my_pins[k as int];
            let ghost done = my_pins.subrange(0, k as int);
            let ghost next = my_pins.subrange(0, k + 1);
            assert(self.pins()[k as int] == self.pins@[k as int]@);
            proof {
                assert(next.drop_last() =~= done);
                lemma_occurrences_prefix(my_pins, k + 1, b);
                assert(occurrences(next, b) == occurrences(done, b) + 1);
                assert(self.buffers@.contains_key(b));
            }
            let idx = match self.buffers.get(&self.pins[k]) {
                Some(idx) => idx,
                None => 0,
            };
            let ghost before = bm.pool();
            bm.unpin(idx);
            proof {
                assert forall|i: int| 0 <= i < pool.len() implies #[trigger] bm.pool()[i]
                    == released_pool(pool, next)[i] by {
                    if i != idx {
                        if pool[i].blk == Some(b) {
                            lemma_slot_unique(pool, b, i);
                            lemma_slot_unique(pool, b, idx as int);
                        }
                        if pool[i].blk is Some {
                            assert(occurrences(next, pool[i].blk.unwrap()) == occurrences(
                                done,
                                pool[i].blk.unwrap(),
                            ));
                        }
                    }
                }
                assert(bm.pool() =~= released_pool(pool, next));
            }
            k = k + 1;
        }
        proof {
            assert(my_pins.subrange(0, k as int) =~= my_pins);
        }
        self.pins.clear();
        self.buffers.clear();
        proof {
            assert(self.pins() =~= Seq::<BlockIdView>::empty());
            assert forall|pool: Seq<BufferView>| #[trigger] self.wf(pool) by {
                assert forall|b: BlockIdView| occurrences(self.pins(), b) > 0 implies #[trigger]
                    self.buffers@.contains_key(b) by {}
            }
        }
    }

    /// Names the buffer at index `idx` as that of the block `blk`, and gives the
    /// index that the list had for the block.
    pub fn set_buffer(&mut self, blk: BlockId, idx: usize) -> (before: Option<usize>)
        requires
            old(self).buffers_wf(),
        ensures
            final(self).buffers_wf(),
            final(self).pins() == old(self).pins(),
            final(self).buffers() == old(self).buffers().insert(blk@, idx),
            before == if old(self).buffers().contains_key(blk@) {
                Some(old(self).buffers()[blk@])
            } else {
                None
            },
    {
        let before = self.buffers.get(&blk);
        self.buffers.insert(&blk, idx);
        before
    }
}

} // verus!
