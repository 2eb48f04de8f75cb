use vstd::prelude::*;
use crate::file::codec::{
    be_u32, be_u64, i32_bits, i32_of_bits, lemma_i32_round_trip, lemma_u32_round_trip,
    lemma_u64_round_trip, u32_be_bytes, u64_be_bytes,
};
use crate::file::page::Page;
use crate::logging::log_mgr::{appended, LogMgr};

verus! {

/// The tag of a commit record.
pub const COMMIT: u64 = 2;

/// The bytes of the record of the commit of the transaction `tx_num`: the tag, a
/// 64-bit number, and the number of the transaction.
pub open spec fn commit_payload(tx_num: i32) -> Seq<u8> {
    u64_be_bytes(COMMIT) + u32_be_bytes(i32_bits(tx_num))
}

/// The tag of a record: the 64-bit number that it begins with; nothing where the
/// record is too short to have one.
pub open spec fn tag_of(bytes: Seq<u8>) -> Option<u64> {
    if bytes.len() >= 8 {
        Some(be_u64(bytes.subrange(0, 8)))
    } else {
        None
    }
}

/// The number of the transaction that wrote a record: the 32-bit number behind
/// the tag.
pub open spec fn tx_of(bytes: Seq<u8>) -> i32 {
    i32_of_bits(be_u32(bytes.subrange(8, 12)))
}

/// A commit record reads back as one, with the number of its transaction.
pub proof fn lemma_commit_payload(tx_num: i32)
    ensures
        commit_payload(tx_num).len() == 12,
        tag_of(commit_payload(tx_num)) == Some(COMMIT),
        tx_of(commit_payload(tx_num)) == tx_num,
{
    lemma_u64_round_trip(COMMIT);
    lemma_u32_round_trip(i32_bits(tx_num));
    lemma_i32_round_trip(tx_num);
    assert(commit_payload(tx_num).subrange(0, 8) =~= u64_be_bytes(COMMIT));
    assert(commit_payload(tx_num).subrange(8, 12) =~= u32_be_bytes(i32_bits(tx_num)));
}

/// The record that says that a transaction has committed.
pub struct CommitRecord {}

impl CommitRecord {
    /// The bytes of the record of the commit of the transaction `tx_num`.
    pub fn encode(tx_num: i32) -> (rec: Vec<u8>)
        ensures
            rec@ == commit_payload(tx_num),
    {
        let mut p = Page::new(12);
        p.set_u64(0, COMMIT);
        p.set_i32(8, tx_num);
        proof {
            lemma_u64_round_trip(COMMIT);
            lemma_u32_round_trip(i32_bits(tx_num));
            assert(p@ =~= commit_payload(tx_num));
        }
        p.to_bytes()
    }

    /// Adds the record of the commit of the transaction `tx_num` to the log and
    /// gives its number.
    pub fn write_to_log(lm: &mut LogMgr, tx_num: i32) -> (lsn: i64)
        requires
            old(lm).wf(),
            old(lm).can_append(12),
        ensures
            appended(old(lm), final(lm), commit_payload(tx_num), lsn as int),
    {
        let rec = Self::encode(tx_num);
        proof {
            lemma_commit_payload(tx_num);
        }
        lm.append(rec)
    }
}

} // verus!
