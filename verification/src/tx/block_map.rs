use vstd::prelude::*;
use crate::file::block_id::{BlockId, BlockIdView};

verus! {

struct Entry<V> {
    blk: BlockId,
    val: V,
}

/// A map from blocks to values of a small type, kept as a list without repeated
/// blocks.
pub struct BlockMap<V> {
    entries: Vec<Entry<V>>,
}

spec fn key_seq<V>(entries: Seq<Entry<V>>) -> Seq<BlockIdView> {
    Seq::new(entries.len(), |i: int| entries[i].blk@)
}

spec fn has_entry<V>(entries: Seq<Entry<V>>, blk: BlockIdView) -> bool {
    exists|i: int| 0 <= i < entries.len() && (#[trigger] entries[i]).blk@ == blk
}

spec fn entry_of<V>(entries: Seq<Entry<V>>, blk: BlockIdView) -> int {
    choose|i: int| 0 <= i < entries.len() && (#[trigger] entries[i]).blk@ == blk
}

spec fn distinct_keys<V>(entries: Seq<Entry<V>>) -> bool {
    forall|i: int, j: int|
        0 <= i < j < entries.len() ==> (#[trigger] entries[i]).blk@ != (#[trigger] entries[j]).blk@
}

spec fn map_of<V>(entries: Seq<Entry<V>>) -> Map<BlockIdView, V> {
    Map::new(
        |blk: BlockIdView| has_entry(entries, blk),
        |blk: BlockIdView| entries[entry_of(entries, blk)].val,
    )
}

proof fn lemma_entry<V>(entries: Seq<Entry<V>>, i: int)
    requires
        distinct_keys(entries),
        0 <= i < entries.len(),
    ensures
        has_entry(entries, entries[i].blk@),
        entry_of(entries, entries[i].blk@) == i,
        map_of(entries).contains_key(entries[i].blk@),
        map_of(entries)[entries[i].blk@] == entries[i].val,
{
    let j = entry_of(entries, entries[i].blk@);
    if i < j {
        assert(entries[i].blk@ != entries[j].blk@);
    }
    if j < i {
        assert(entries[j].blk@ != entries[i].blk@);
    }
}

impl<V: Copy> View for BlockMap<V> {
    type V = Map<BlockIdView, V>;

    closed spec fn view(&self) -> Map<BlockIdView, V> {
        map_of(self.entries@)
    }
}

impl<V: Copy> BlockMap<V> {
    /// The blocks of the map, in the order in which they were first put in.
    pub closed spec fn keys(&self) -> Seq<BlockIdView> {
        key_seq(self.entries@)
    }

    /// Whether the map is consistent: no block is kept twice.
    pub closed spec fn wf(&self) -> bool {
        distinct_keys(self.entries@)
    }

    /// The keys of a consistent map are its blocks, each once.
    pub proof fn lemma_keys(&self)
        requires
            self.wf(),
        ensures
            forall|i: int, j: int|
                0 <= i < j < self.keys().len() ==> self.keys()[i] != self.keys()[j],
            forall|i: int| 0 <= i < self.keys().len() ==> self@.contains_key(#[trigger] self.keys()[i]),
            forall|b: BlockIdView| self@.contains_key(b) ==> self.keys().contains(b),
    {
        assert forall|i: int| 0 <= i < self.keys().len() implies self@.contains_key(
            #[trigger] self.keys()[i],
        ) by {
            lemma_entry(self.entries@, i);
        }
        assert forall|b: BlockIdView| self@.contains_key(b) implies self.keys().contains(b) by {
            let i = entry_of(self.entries@, b);
            assert(self.keys()[i] == b);
        }
    }

    /// A map without blocks.
    pub fn new() -> (map: Self)
        ensures
            map.wf(),
            map@ == Map::<BlockIdView, V>::empty(),
            map.keys() == Seq::<BlockIdView>::empty(),
    {
        let map = BlockMap { entries: Vec::new() };
        assert(map@ =~= Map::<BlockIdView, V>::empty());
        assert(map.keys() =~= Seq::<BlockIdView>::empty());
        map
    }

    fn find(&self, blk: &BlockId) -> (r: Option<usize>)
        requires
            self.wf(),
        ensures
            r is Some <==> self@.contains_key(blk@),
            r matches Some(i) ==> i < self.entries@.len() && self.entries@[i as int].blk@ == blk@
                && self.entries@[i as int].val == self@[blk@],
    {
        let mut i: usize = 0;
        while i < self.entries.len()
            invariant
                self.wf(),
                i <= self.entries@.len(),
                forall|j: int| 0 <= j < i ==> (#[trigger] self.entries@[j]).blk@ != blk@,
            decreases self.entries@.len() - i,
        {
            if self.entries[i].blk.equals(blk) {
                proof {
                    lemma_entry(self.entries@, i as int);
                }
                return Some(i);
            }
            i = i + 1;
        }
        None
    }

    /// The value of the block `blk`, if it has one.
    pub fn get(&self, blk: &BlockId) -> (r: Option<V>)
        requires
            self.wf(),
        ensures
            r == if self@.contains_key(blk@) {
                Some(self@[blk@])
            } else {
                None
            },
    {
        match self.find(blk) {
            Some(i) => Some(self.entries[i].val),
            None => None,
        }
    }

    /// Gives the block `blk` the value `val`.
    pub fn insert(&mut self, blk: &BlockId, val: V)
        requires
            old(self).wf(),
        ensures
            final(self).wf(),
            final(self)@ == old(self)@.insert(blk@, val),
            final(self).keys() == if old(self)@.contains_key(blk@) {
                old(self).keys()
            } else {
                old(self).keys().push(blk@)
            },
    {
        let ghost before = self.entries@;
        match self.find(blk) {
            Some(i) => {
                self.entries[i].val = val;
                proof {
                    let after = self.entries@;
                    assert(key_seq(after) =~= key_seq(before));
                    assert forall|b: BlockIdView| #[trigger]
                        map_of(after).contains_key(b) == old(self)@.insert(blk@, val).contains_key(
                            b,
                        ) by {
                        if has_entry(after, b) {
                            let j = entry_of(after, b);
                            assert(before[j].blk@ == b);
                        }
                        if has_entry(before, b) {
                            let j = entry_of(before, b);
                            assert(after[j].blk@ == b);
                        }
                    }
                    assert forall|b: BlockIdView| map_of(after).contains_key(b) implies #[trigger]
                        map_of(after)[b] == old(self)@.insert(blk@, val)[b] by {
                        let j = entry_of(after, b);
                        assert(before[j].blk@ == b);
                        lemma_entry(before, j);
                        lemma_entry(after, j);
                        lemma_entry(after, i as int);
                    }
                    assert(self@ =~= old(self)@.insert(blk@, val));
                }
            },
            None => {
                self.entries.push(Entry { blk: blk.clone(), val });
                proof {
                    let after = self.entries@;
                    let n = before.len() as int;
                    assert(key_seq(after) =~= key_seq(before).push(blk@));
                    assert forall|i: int, j: int| 0 <= i < j < after.len() implies (
                    #[trigger] after[i]).blk@ != (#[trigger] after[j]).blk@ by {
                        if j < n {
                            assert(before[i].blk@ != before[j].blk@);
                        } else {
                            assert(before[i].blk@ != blk@);
                        }
                    }
                    lemma_entry(after, n);
                    assert forall|b: BlockIdView| #[trigger]
                        map_of(after).contains_key(b) == old(self)@.insert(blk@, val).contains_key(
                            b,
                        ) by {
                        if has_entry(after, b) && b != blk@ {
                            let j = entry_of(after, b);
                            assert(before[j].blk@ == b);
                        }
                        if has_entry(before, b) {
                            let j = entry_of(before, b);
                            assert(after[j].blk@ == b);
                        }
                    }
                    assert forall|b: BlockIdView| map_of(after).contains_key(b) implies #[trigger]
                        map_of(after)[b] == old(self)@.insert(blk@, val)[b] by {
                        if b != blk@ {
                            let j = entry_of(after, b);
                            assert(before[j].blk@ == b);
                            lemma_entry(before, j);
                            lemma_entry(after, j);
                        }
                    }
                    assert(self@ =~= old(self)@.insert(blk@, val));
                }
            },
        }
    }

    /// Takes the block `blk` out of the map.
    pub fn remove(&mut self, blk: &BlockId)
        requires
            old(self).wf(),
        ensures
            final(self).wf(),
            final(self)@ == old(self)@.remove(blk@),
    {
        let ghost before = self.entries@;
        match self.find(blk) {
            Some(i) => {
                self.entries.remove(i);
                proof {
                    let after = self.entries@;
                    assert forall|j: int| 0 <= j < after.len() implies (#[trigger] after[j])
                        == before[if j < i { j } else { j + 1 }] by {}
                    assert forall|j: int, k: int| 0 <= j < k < after.len() implies (
                    #[trigger] after[j]).blk@ != (#[trigger] after[k]).blk@ by {
                        let j0 = if j < i { j } else { j + 1 };
                        let k0 = if k < i { k } else { k + 1 };
                        assert(before[j0].blk@ != before[k0].blk@);
                    }
                    lemma_entry(before, i as int);
                    assert forall|b: BlockIdView| #[trigger]
                        map_of(after).contains_key(b) == old(self)@.remove(blk@).contains_key(
                            b,
                        ) by {
                        if has_entry(after, b) {
                            let j = entry_of(after, b);
                            let j0 = if j < i { j } else { j + 1 };
                            assert(before[j0].blk@ == b);
                            lemma_entry(before, j0);
                        }
                        if has_entry(before, b) && b != blk@ {
                            let j0 = entry_of(before, b);
                            let j = if j0 < i { j0 } else { j0 - 1 };
                            assert(after[j].blk@ == b);
                        }
                    }
                    assert forall|b: BlockIdView| map_of(after).contains_key(b) implies #[trigger]
                        map_of(after)[b] == old(self)@.remove(blk@)[b] by {
                        let j = entry_of(after, b);
                        let j0 = if j < i { j } else { j + 1 };
                        assert(before[j0].blk@ == b);
                        lemma_entry(before, j0);
                        lemma_entry(after, j);
                    }
                    assert(self@ =~= old(self)@.remove(blk@));
                }
            },
            None => {
                proof {
                    assert(self@ =~= old(self)@.remove(blk@));
                }
            },
        }
    }

    /// Takes every block out of the map.
    pub fn clear(&mut self)
        ensures
            final(self).wf(),
            final(self)@ == Map::<BlockIdView, V>::empty(),
            final(self).keys() == Seq::<BlockIdView>::empty(),
    {
        self.entries.clear();
        assert(self@ =~= Map::<BlockIdView, V>::empty());
        assert(self.keys() =~= Seq::<BlockIdView>::empty());
    }

    /// The number of blocks of the map.
    pub fn len(&self) -> (n: usize)
        ensures
            n == self.keys().len(),
    {
        self.entries.len()
    }

    /// The block at position `i`.
    pub fn key(&self, i: usize) -> (blk: &BlockId)
        requires
            i < self.keys().len(),
        ensures
            blk@ == self.keys()[i as int],
    {
        &self.entries[i].blk
    }
}

} // verus!
