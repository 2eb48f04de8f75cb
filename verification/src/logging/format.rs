use vstd::prelude::*;
use crate::file::byte_buffer::{prefixed_fits, prefixed_payload};
use crate::file::codec::{
    be_u32, be_u64, lemma_overwrite, lemma_u32_round_trip, lemma_u64_round_trip, overwrite,
    u32_be_bytes, u64_be_bytes,
};

verus! {

/// The size of the header of a log block: the boundary, a 64-bit number.
pub const HEADER: usize = 8;

/// The size of the length that stands before each record.
pub const PREFIX: usize = 4;

/// The boundary of a log block: the offset of its newest record, or the block size
/// where it holds none.
pub open spec fn boundary_of(block: Seq<u8>) -> int {
    be_u64(block.subrange(0, 8)) as int
}

/// The records that lie in `block` from `pos` to its end, in the order in which
/// they lie there, each a 32-bit length and as many bytes; nothing where the bytes
/// do not divide that way.
pub open spec fn records_from(block: Seq<u8>, pos: int) -> Option<Seq<Seq<u8>>>
    decreases block.len() - pos,
{
    if pos == block.len() {
        Some(Seq::empty())
    } else if pos < 0 || pos > block.len() || !prefixed_fits(block, pos) {
        None
    } else {
        match records_from(block, pos + 4 + be_u32(block.subrange(pos, pos + 4))) {
            Some(rest) => Some(seq![prefixed_payload(block, pos)] + rest),
            None => None,
        }
    }
}

/// Whether `block` is a log block of `bs` bytes: a boundary behind the header, and
/// whole records from there to the end.
pub open spec fn valid_block(block: Seq<u8>, bs: nat) -> bool {
    &&& block.len() == bs
    &&& 8 <= boundary_of(block) <= bs
    &&& records_from(block, boundary_of(block)) is Some
}

/// The records of a log block, newest first: a block is filled from its end
/// towards its header.
pub open spec fn block_records(block: Seq<u8>) -> Seq<Seq<u8>> {
    records_from(block, boundary_of(block)).unwrap()
}

/// The records of a run of log blocks, newest first: those of the last block, then
/// those of the blocks before it.
pub open spec fn newest_first(blocks: Seq<Seq<u8>>) -> Seq<Seq<u8>>
    decreases blocks.len(),
{
    if blocks.len() == 0 {
        Seq::empty()
    } else {
        block_records(blocks.last()) + newest_first(blocks.drop_last())
    }
}

/// The byte sequences of a list of records.
pub open spec fn views(recs: Seq<Vec<u8>>) -> Seq<Seq<u8>> {
    Seq::new(recs.len(), |i: int| recs[i]@)
}

/// Whether `blocks` is a log: at least one block, each a log block, and none but
/// the last without a record.
pub open spec fn valid_log(blocks: Seq<Seq<u8>>, bs: nat) -> bool {
    &&& blocks.len() >= 1
    &&& forall|i: int| 0 <= i < blocks.len() ==> valid_block(#[trigger] blocks[i], bs)
    &&& forall|i: int| 0 <= i < blocks.len() - 1 ==> block_records(#[trigger] blocks[i]).len() > 0
}

/// Whether the records `saved` of a block, as the store has it, are the oldest of
/// the records `held` of the block, as it is in memory, and no more than `slack`
/// are missing: both newest first.
pub open spec fn saved_of(saved: Seq<Seq<u8>>, held: Seq<Seq<u8>>, slack: int) -> bool {
    &&& saved.len() <= held.len()
    &&& held.len() - saved.len() <= slack
    &&& held.skip(held.len() - saved.len()) == saved
}

/// Whether a record of `n` bytes can be added to `block` below its boundary.
pub open spec fn has_room(block: Seq<u8>, n: nat) -> bool {
    boundary_of(block) - (4 + n) >= 8
}

/// Whether a record of `n` bytes fits into an empty log block of `bs` bytes.
pub open spec fn fits_in_block(n: nat, bs: nat) -> bool {
    n + 12 <= bs && n <= u32::MAX
}

/// `block` with its boundary set to `b`.
pub open spec fn with_boundary(block: Seq<u8>, b: u64) -> Seq<u8> {
    overwrite(block, 0, u64_be_bytes(b))
}

/// `block` with the record `rec` added below its boundary.
pub open spec fn with_record(block: Seq<u8>, rec: Seq<u8>) -> Seq<u8> {
    let pos = boundary_of(block) - 4 - rec.len();
    with_boundary(
        overwrite(overwrite(block, pos, u32_be_bytes(rec.len() as u32)), pos + 4, rec),
        pos as u64,
    )
}

/// What lies in a block from `pos` on decides the records from `pos` on.
pub proof fn lemma_records_from_same_tail(a: Seq<u8>, b: Seq<u8>, pos: int)
    requires
        a.len() == b.len(),
        0 <= pos,
        forall|i: int| pos <= i < a.len() ==> a[i] == b[i],
    ensures
        records_from(a, pos) == records_from(b, pos),
    decreases a.len() - pos,
{
    if pos < a.len() {
        if pos + 4 <= a.len() {
            assert(a.subrange(pos, pos + 4) =~= b.subrange(pos, pos + 4));
            let n = be_u32(a.subrange(pos, pos + 4));
            if pos + 4 + n <= a.len() {
                assert(prefixed_payload(a, pos) =~= prefixed_payload(b, pos));
                lemma_records_from_same_tail(a, b, pos + 4 + n);
            }
        }
    }
}

/// Setting the boundary of a block to its size leaves a log block without records.
pub proof fn lemma_emptied(block: Seq<u8>, bs: nat)
    requires
        block.len() == bs,
        8 <= bs <= u64::MAX,
    ensures
        valid_block(with_boundary(block, bs as u64), bs),
        block_records(with_boundary(block, bs as u64)) == Seq::<Seq<u8>>::empty(),
        boundary_of(with_boundary(block, bs as u64)) == bs,
{
    let b = with_boundary(block, bs as u64);
    lemma_u64_round_trip(bs as u64);
    lemma_overwrite(block, 0, u64_be_bytes(bs as u64));
}

/// Adding a record to a log block with room for it gives a log block whose newest
/// record is the new one, before those that were there.
pub proof fn lemma_record_added(block: Seq<u8>, bs: nat, rec: Seq<u8>)
    requires
        valid_block(block, bs),
        has_room(block, rec.len()),
        rec.len() <= u32::MAX,
    ensures
        valid_block(with_record(block, rec), bs),
        block_records(with_record(block, rec)) == seq![rec] + block_records(block),
        boundary_of(with_record(block, rec)) == boundary_of(block) - 4 - rec.len(),
{
    let old_b = boundary_of(block);
    let pos = old_b - 4 - rec.len();
    let s1 = overwrite(block, pos, u32_be_bytes(rec.len() as u32));
    let s2 = overwrite(s1, pos + 4, rec);
    let s3 = with_boundary(s2, pos as u64);
    lemma_u32_round_trip(rec.len() as u32);
    lemma_u64_round_trip(pos as u64);
    lemma_overwrite(block, pos, u32_be_bytes(rec.len() as u32));
    lemma_overwrite(s1, pos + 4, rec);
    lemma_overwrite(s2, 0, u64_be_bytes(pos as u64));
    assert(s3.subrange(0, 8) =~= u64_be_bytes(pos as u64));
    assert(s3.subrange(pos, pos + 4) =~= u32_be_bytes(rec.len() as u32));
    assert(prefixed_fits(s3, pos));
    assert(prefixed_payload(s3, pos) =~= rec);
    lemma_records_from_same_tail(s3, block, old_b);
}

/// Where the last of the blocks of a log in the store holds the oldest records of
/// the block in memory, the records in the store are the oldest records of the
/// log.
pub proof fn lemma_saved_prefix(on_disk: Seq<Seq<u8>>, page: Seq<u8>, slack: int)
    requires
        on_disk.len() >= 1,
        saved_of(block_records(on_disk.last()), block_records(page), slack),
    ensures
        ({
            let saved = newest_first(on_disk).reverse();
            let all = newest_first(on_disk.update(on_disk.len() - 1, page)).reverse();
            &&& saved.len() <= all.len()
            &&& all.len() - saved.len() <= slack
            &&& all.subrange(0, saved.len() as int) == saved
        }),
{
    let d = block_records(on_disk.last());
    let p = block_records(page);
    let rest = newest_first(on_disk.drop_last());
    lemma_newest_first_update_last(on_disk, page);
    let saved = (d + rest).reverse();
    let all = (p + rest).reverse();
    let c = p.len() - d.len();
    assert forall|i: int| 0 <= i < saved.len() implies all[i] == saved[i] by {
        let j = d.len() + rest.len() - 1 - i;
        if j < d.len() {
            assert(p.skip(c)[j] == d[j]);
        }
    }
    assert(all.subrange(0, saved.len() as int) =~= saved);
}

/// The records of a run of blocks with one more block at its end.
pub proof fn lemma_newest_first_push(blocks: Seq<Seq<u8>>, block: Seq<u8>)
    ensures
        newest_first(blocks.push(block)) == block_records(block) + newest_first(blocks),
{
    assert(blocks.push(block).drop_last() =~= blocks);
}

/// The records of a run of blocks whose last block is replaced.
pub proof fn lemma_newest_first_update_last(blocks: Seq<Seq<u8>>, block: Seq<u8>)
    requires
        blocks.len() >= 1,
    ensures
        newest_first(blocks.update(blocks.len() - 1, block)) == block_records(block) + newest_first(
            blocks.drop_last(),
        ),
{
    assert(blocks.update(blocks.len() - 1, block).drop_last() =~= blocks.drop_last());
}

} // verus!
