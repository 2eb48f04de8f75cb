use vstd::prelude::*;
use crate::file::block_id::BlockId;
use crate::file::codec::zeros;
use crate::file::file_mgr::{blocks_of, extended, grown, touched, written, Disk, FileMgr};
use crate::file::page::Page;
use crate::logging::format::{
    block_records, boundary_of, records_from, fits_in_block, has_room, lemma_emptied, lemma_newest_first_push,
    lemma_newest_first_update_last, lemma_record_added, lemma_saved_prefix, newest_first,
    saved_of, valid_block, valid_log, views, with_boundary, with_record,
};
use crate::logging::log_iterator::LogIterator;

verus! {

/// The log manager: it owns the block store, keeps the last block of the log file
/// in memory, and adds records to it.
pub struct LogMgr {
    fm: FileMgr,
    log_file: String,
    log_page: Page,
    current_blk: BlockId,
    latest_lsn: i64,
    last_saved_lsn: i64,
}

/// Adds a block without records to the end of the log file, through `log_page`.
fn append_new_block(fm: &mut FileMgr, log_file: &String, log_page: &mut Page) -> (blk: BlockId)
    requires
        old(fm).wf(),
        8 <= old(fm).bs(),
        old(log_page).wf(),
        old(log_page)@.len() == old(fm).bs(),
        blocks_of(old(fm)@, log_file@).len() + 1 < usize::MAX,
    ensures
        final(fm).wf(),
        final(fm).bs() == old(fm).bs(),
        final(fm).dir() == old(fm).dir(),
        final(log_page).wf(),
        final(log_page)@ == with_boundary(old(log_page)@, old(fm).bs() as u64),
        final(fm)@ == old(fm)@.insert(
            log_file@,
            blocks_of(old(fm)@, log_file@).push(final(log_page)@),
        ),
        blk@.file_name == log_file@,
        blk@.blk_num == blocks_of(old(fm)@, log_file@).len(),
{
    let ghost before = blocks_of(fm@, log_file@);
    let ghost bs = fm.bs();
    let blk = fm.append(log_file);
    log_page.set_u64(0, fm.block_size());
    proof {
        crate::file::codec::lemma_u64_round_trip(bs as u64);
        crate::file::codec::lemma_overwrite(old(log_page)@, 0, crate::file::codec::u64_be_bytes(bs as u64));
    }
    fm.write(&blk, log_page);
    proof {
        let mid = grown(old(fm)@, log_file@, bs);
        assert(blocks_of(mid, log_file@) == before.push(zeros(bs)));
        assert(extended(before.push(zeros(bs)), blk@.blk_num, bs).update(
            blk@.blk_num as int,
            log_page@,
        ) =~= before.push(log_page@));
        assert(fm@ =~= old(fm)@.insert(log_file@, before.push(log_page@)));
    }
    blk
}

/// What forcing the log up to the record `lsn` does to the log: where that record
/// may not be in the store yet, the page in memory is written to the store, and
/// with it every record; else nothing changes. The records stay the same.
pub open spec fn forced_log(before: &LogMgr, after: &LogMgr, lsn: int) -> bool {
    &&& after.wf()
    &&& after.bs() == before.bs()
    &&& after.log_name() == before.log_name()
    &&& after.page() == before.page()
    &&& after.latest() == before.latest()
    &&& after.log_blocks() == before.log_blocks()
    &&& if lsn >= before.last_saved() {
        after.last_saved() == before.latest() && after.log_on_disk() == before.log_blocks()
    } else {
        after.last_saved() == before.last_saved() && after.log_on_disk() == before.log_on_disk()
    }
}

/// Whether the log holds the same records in `after` as in `before`, whatever of
/// them has reached the store in between.
pub open spec fn log_kept(before: &LogMgr, after: &LogMgr) -> bool {
    &&& after.wf()
    &&& after.bs() == before.bs()
    &&& after.log_name() == before.log_name()
    &&& after.page() == before.page()
    &&& after.latest() == before.latest()
    &&& after.log_blocks() == before.log_blocks()
}

/// What adding the record `rec` does to the log manager, and the number `lsn` that
/// the record gets. Where the record does not fit below the boundary of the last
/// block, that block is written to the store and a new block is begun.
pub open spec fn appended(before: &LogMgr, after: &LogMgr, rec: Seq<u8>, lsn: int) -> bool {
    &&& after.wf()
    &&& after.bs() == before.bs()
    &&& after.log_name() == before.log_name()
    &&& after.data() == before.data()
    &&& lsn == before.latest() + 1
    &&& after.latest() == lsn
    &&& after.records() == before.records().push(rec)
    &&& if has_room(before.page(), rec.len()) {
        &&& after.disk() == before.disk()
        &&& after.last_saved() == before.last_saved()
        &&& after.page() == with_record(before.page(), rec)
    } else {
        &&& after.log_on_disk() == before.log_blocks().push(
            with_boundary(before.page(), before.bs() as u64),
        )
        &&& after.last_saved() == before.latest()
        &&& after.page() == with_record(with_boundary(before.page(), before.bs() as u64), rec)
    }
}

/// After the log has been forced up to a record that was added, the number up to
/// which the records are in the store is at least that of the record.
pub proof fn lemma_forced_covers(before: &LogMgr, after: &LogMgr, lsn: int)
    requires
        before.wf(),
        forced_log(before, after, lsn),
        lsn <= before.latest(),
    ensures
        after.last_saved() >= lsn,
{
    before.lemma_wf();
}

/// Forcing the log twice is forcing it once, up to the later of the two records.
pub proof fn lemma_forced_twice(a: &LogMgr, b: &LogMgr, c: &LogMgr, l1: int, l2: int)
    requires
        a.wf(),
        forced_log(a, b, l1),
        forced_log(b, c, l2),
    ensures
        forced_log(a, c, if l1 >= l2 { l1 } else { l2 }),
{
    a.lemma_wf();
}

/// Whether the page `page` holds a log block of `bs` bytes and, if it does,
/// whether the block holds a record.
fn scan_block(page: &mut Page, bs: usize) -> (r: Option<bool>)
    requires
        old(page).wf(),
    ensures
        final(page).wf(),
        final(page)@ == old(page)@,
        r is Some <==> valid_block(old(page)@, bs as nat),
        r matches Some(filled) ==> filled == (block_records(old(page)@).len() > 0),
{
    if page.len() != bs || bs < 8 {
        return None;
    }
    let boundary = page.get_u64(0);
    if boundary < 8 || boundary > bs as u64 {
        return None;
    }
    let start = boundary as usize;
    let mut pos = start;
    let ghost block = page@;
    while pos < bs
        invariant
            page.wf(),
            page@ == block,
            block == old(page)@,
            block.len() == bs,
            start == boundary_of(block),
            8 <= start <= pos <= bs,
            records_from(block, start as int) is Some <==> records_from(block, pos as int) is Some,
            records_from(block, start as int) is Some && start < bs ==> records_from(
                block,
                start as int,
            ).unwrap().len() > 0,
        decreases bs - pos,
    {
        if bs - pos < 4 {
            return None;
        }
        let n = page.get_u32(pos);
        if n as u64 > (bs - pos - 4) as u64 {
            return None;
        }
        proof {
            if pos == start && records_from(block, pos + 4 + n) is Some {
                assert(records_from(block, start as int).unwrap().len() > 0);
            }
        }
        pos = pos + 4 + n as usize;
    }
    Some(start < bs)
}

impl LogMgr {
    /// Whether the file `log_file` of the store `fm` holds a log, which a log
    /// manager can take up.
    pub fn is_valid_log(fm: &FileMgr, log_file: &String) -> (ok: bool)
        requires
            fm.wf(),
        ensures
            ok == valid_log(blocks_of(fm@, log_file@), fm.bs()),
    {
        let count = fm.length(log_file);
        if count == 0 {
            return false;
        }
        let bs = fm.block_size() as usize;
        let ghost blocks = blocks_of(fm@, log_file@);
        let mut i: u64 = 0;
        let mut page = Page::new(fm.block_size());
        while i < count
            invariant
                fm.wf(),
                page.wf(),
                bs == fm.bs(),
                blocks == blocks_of(fm@, log_file@),
                count == blocks.len(),
                i <= count,
                forall|k: int| 0 <= k < i ==> valid_block(#[trigger] blocks[k], bs as nat),
                forall|k: int| 0 <= k < i && k < count - 1 ==> block_records(#[trigger] blocks[k]).len() > 0,
            decreases count - i,
        {
            let blk = BlockId::new(log_file.clone(), i);
            fm.read_existing(&blk, &mut page);
            match scan_block(&mut page, bs) {
                Some(filled) => {
                    if !filled && i < count - 1 {
                        return false;
                    }
                },
                None => {
                    return false;
                },
            }
            i = i + 1;
        }
        true
    }

    /// Whether a record of `n` bytes can be added: it fits into an empty block,
    /// and neither the numbers of the records nor those of the blocks run out.
    pub open spec fn can_append(&self, n: nat) -> bool {
        &&& fits_in_block(n, self.bs())
        &&& self.latest() < i64::MAX
        &&& self.log_on_disk().len() + 1 < usize::MAX
    }

    /// What the block store holds.
    pub closed spec fn disk(&self) -> Disk {
        self.fm@
    }

    /// The size of a block.
    pub closed spec fn bs(&self) -> nat {
        self.fm.bs()
    }

    /// The name of the log file.
    pub closed spec fn log_name(&self) -> Seq<char> {
        self.log_file@
    }

    /// The image in memory of the last block of the log.
    pub closed spec fn page(&self) -> Seq<u8> {
        self.log_page@
    }

    /// The number of the last record added since the manager was made; 0 before
    /// the first.
    pub closed spec fn latest(&self) -> int {
        self.latest_lsn as int
    }

    /// A number such that every record with a number up to it is in the store.
    pub closed spec fn last_saved(&self) -> int {
        self.last_saved_lsn as int
    }

    /// The blocks of the log file as the store holds them.
    pub open spec fn log_on_disk(&self) -> Seq<Seq<u8>> {
        blocks_of(self.disk(), self.log_name())
    }

    /// The blocks of the log: those of the store, with the last as it is in memory.
    pub open spec fn log_blocks(&self) -> Seq<Seq<u8>> {
        self.log_on_disk().update(self.log_on_disk().len() - 1, self.page())
    }

    /// The records of the log, oldest first: the order in which they were added.
    pub open spec fn records(&self) -> Seq<Seq<u8>> {
        newest_first(self.log_blocks()).reverse()
    }

    /// The records of the log that are in the store, oldest first.
    pub open spec fn saved_records(&self) -> Seq<Seq<u8>> {
        newest_first(self.log_on_disk()).reverse()
    }

    /// The files of the store other than the log file.
    pub open spec fn data(&self) -> Disk {
        self.disk().remove(self.log_name())
    }

    /// Whether the log, in memory and in the store, is the same in `self` and
    /// `other`.
    pub open spec fn same_log(&self, other: &LogMgr) -> bool {
        &&& self.bs() == other.bs()
        &&& self.log_name() == other.log_name()
        &&& self.page() == other.page()
        &&& self.latest() == other.latest()
        &&& self.last_saved() == other.last_saved()
        &&& self.log_on_disk() == other.log_on_disk()
    }

    /// Whether a block of the file `name` can be read or written through the
    /// manager: the file is not the log, and the number of the block fits.
    pub open spec fn is_data_block(&self, blk: crate::file::block_id::BlockIdView) -> bool {
        blk.file_name != self.log_name() && blk.blk_num < usize::MAX
    }

    /// Whether the manager is consistent: the store holds a log in the log file,
    /// the page in memory is an image of its last block, and the numbers of the
    /// records are in order.
    pub closed spec fn wf(&self) -> bool {
        &&& self.fm.wf()
        &&& 8 <= self.fm.bs()
        &&& self.log_page.wf()
        &&& self.log_page@.len() == self.fm.bs()
        &&& self.current_blk@.file_name == self.log_file@
        &&& self.log_on_disk().len() == self.current_blk@.blk_num + 1
        &&& self.log_on_disk().len() < usize::MAX
        &&& valid_log(self.log_on_disk(), self.fm.bs())
        &&& valid_log(self.log_blocks(), self.fm.bs())
        &&& 0 <= self.last_saved_lsn <= self.latest_lsn
        &&& saved_of(
            block_records(self.log_on_disk().last()),
            block_records(self.log_page@),
            self.latest_lsn - self.last_saved_lsn,
        )
    }

    /// Write-ahead: the records that are in the store are the oldest records of
    /// the log, and those that are not are no more than the records that were
    /// added since the log was last forced. So every record with a number up to
    /// [`Self::last_saved`] is in the store.
    pub proof fn lemma_saved(&self)
        requires
            self.wf(),
        ensures
            self.saved_records().len() <= self.records().len(),
            self.records().len() - self.saved_records().len() <= self.latest() - self.last_saved(),
            self.records().subrange(0, self.saved_records().len() as int) == self.saved_records(),
    {
        lemma_saved_prefix(
            self.log_on_disk(),
            self.log_page@,
            self.latest_lsn - self.last_saved_lsn,
        );
    }

    /// In a consistent manager the log has a block, every block has the block
    /// size, and the numbers of the records are in order.
    pub proof fn lemma_wf(&self)
        requires
            self.wf(),
        ensures
            valid_log(self.log_on_disk(), self.bs()),
            valid_log(self.log_blocks(), self.bs()),
            self.page().len() == self.bs(),
            8 <= self.bs() <= usize::MAX,
            0 <= self.last_saved() <= self.latest(),
            self.disk().contains_key(self.log_name()),
    {
        self.fm.lemma_bs_fits();
    }

    /// The files other than the log are in the store as they are.
    pub proof fn lemma_disk(&self, name: Seq<char>)
        requires
            name != self.log_name(),
        ensures
            blocks_of(self.data(), name) == blocks_of(self.disk(), name),
    {
    }

    /// Every block that the files other than the log hold has the block size, and
    /// so has what a block that they do not hold reads as.
    pub proof fn lemma_data_block_len(&self, blk: crate::file::block_id::BlockIdView)
        requires
            self.wf(),
        ensures
            crate::file::file_mgr::block_at(self.data(), blk.file_name, blk.blk_num, self.bs()).len()
                == self.bs(),
    {
        if blk.blk_num < blocks_of(self.data(), blk.file_name).len() {
            self.fm.lemma_block_len(blk.file_name, blk.blk_num as int);
        }
    }

    /// A log manager over the store `fm` with the log in the file `log_file`. The
    /// file is made, with one block without records, where it does not exist or is
    /// empty; else its last block is taken up.
    pub fn new(fm: FileMgr, log_file: &String) -> (lm: Self)
        requires
            fm.wf(),
            8 <= fm.bs(),
            blocks_of(fm@, log_file@).len() + 2 < usize::MAX,
            blocks_of(fm@, log_file@).len() == 0 || valid_log(blocks_of(fm@, log_file@), fm.bs()),
        ensures
            lm.wf(),
            lm.bs() == fm.bs(),
            lm.log_name() == log_file@,
            lm.latest() == 0,
            lm.last_saved() == 0,
            lm.data() == fm@.remove(log_file@),
            lm.log_on_disk() == lm.log_blocks(),
            blocks_of(fm@, log_file@).len() == 0 ==> lm.log_on_disk() == seq![
                with_boundary(zeros(fm.bs()), fm.bs() as u64),
            ] && lm.records() == Seq::<Seq<u8>>::empty(),
            blocks_of(fm@, log_file@).len() > 0 ==> lm.disk() == fm@,
    {
        let mut fm = fm;
        let ghost old_disk = fm@;
        let ghost bs = fm.bs();
        let mut log_page = Page::new(fm.block_size());
        let log_size = fm.length(log_file);
        let current_blk = if log_size == 0 {
            let blk = append_new_block(&mut fm, log_file, &mut log_page);
            proof {
                lemma_emptied(zeros(bs), bs);
                assert(blocks_of(fm@, log_file@) =~= seq![log_page@]);
                assert(fm@.remove(log_file@) =~= old_disk.remove(log_file@));
                lemma_newest_first_push(Seq::empty(), log_page@);
                assert(seq![log_page@] =~= Seq::<Seq<u8>>::empty().push(log_page@));
                assert(newest_first(seq![log_page@]) =~= Seq::<Seq<u8>>::empty());
            }
            blk
        } else {
            let blk = BlockId::new(log_file.clone(), log_size - 1);
            fm.read_existing(&blk, &mut log_page);
            blk
        };
        let lm = LogMgr {
            fm,
            log_file: log_file.clone(),
            log_page,
            current_blk,
            latest_lsn: 0,
            last_saved_lsn: 0,
        };
        proof {
            assert(lm.log_blocks() =~= lm.log_on_disk());
            assert(lm.log_on_disk().last() == lm.log_page@);
            assert(block_records(lm.log_page@).skip(0) =~= block_records(lm.log_page@));
            if blocks_of(old_disk, log_file@).len() == 0 {
                assert(Seq::<Seq<u8>>::empty().reverse() =~= Seq::<Seq<u8>>::empty());
            }
        }
        lm
    }

    /// The block store.
    pub fn file_mgr(&self) -> (fm: &FileMgr)
        ensures
            fm@ == self.disk(),
            fm.bs() == self.bs(),
            self.wf() ==> fm.wf(),
    {
        &self.fm
    }

    /// Reads block `blk` of a file other than the log into `page`, as
    /// [`FileMgr::read`] does.
    pub fn read_block(&mut self, blk: &BlockId, page: &mut Page)
        requires
            old(self).wf(),
            old(self).is_data_block(blk@),
        ensures
            final(self).wf(),
            final(self).same_log(old(self)),
            final(self).data() == touched(
                old(self).data(),
                blk@.file_name,
                blk@.blk_num,
                old(self).bs(),
            ),
            final(page)@ == final(self).data()[blk@.file_name][blk@.blk_num as int],
            final(page)@.len() == old(self).bs(),
            final(page).wf(),
    {
        self.fm.read(blk, page);
        proof {
            assert(self.data() =~= touched(
                old(self).data(),
                blk@.file_name,
                blk@.blk_num,
                old(self).bs(),
            ));
            assert(self.log_blocks() == old(self).log_blocks());
            self.fm.lemma_block_len(blk@.file_name, blk@.blk_num as int);
        }
    }

    /// Writes `page` to block `blk` of a file other than the log, as
    /// [`FileMgr::write`] does.
    pub fn write_block(&mut self, blk: &BlockId, page: &Page)
        requires
            old(self).wf(),
            old(self).is_data_block(blk@),
            page@.len() == old(self).bs(),
        ensures
            final(self).wf(),
            final(self).same_log(old(self)),
            final(self).data() == written(
                old(self).data(),
                blk@.file_name,
                blk@.blk_num,
                old(self).bs(),
                page@,
            ),
    {
        self.fm.write(blk, page);
        proof {
            assert(self.data() =~= written(
                old(self).data(),
                blk@.file_name,
                blk@.blk_num,
                old(self).bs(),
                page@,
            ));
            assert(self.log_blocks() == old(self).log_blocks());
        }
    }

    /// Adds a zero block to the file `file_name`, which is not the log, as
    /// [`FileMgr::append`] does.
    pub fn append_block(&mut self, file_name: &String) -> (blk: BlockId)
        requires
            old(self).wf(),
            file_name@ != old(self).log_name(),
            blocks_of(old(self).data(), file_name@).len() < usize::MAX,
        ensures
            final(self).wf(),
            final(self).same_log(old(self)),
            final(self).data() == grown(old(self).data(), file_name@, old(self).bs()),
            blk@.file_name == file_name@,
            blk@.blk_num == blocks_of(old(self).data(), file_name@).len(),
    {
        let blk = self.fm.append(file_name);
        proof {
            assert(self.data() =~= grown(old(self).data(), file_name@, old(self).bs()));
            assert(self.log_blocks() == old(self).log_blocks());
        }
        blk
    }

    /// The number of blocks of the file `file_name`.
    pub fn length(&self, file_name: &String) -> (n: u64)
        requires
            self.wf(),
        ensures
            n == blocks_of(self.disk(), file_name@).len(),
    {
        self.fm.length(file_name)
    }

    /// The size of a block.
    pub fn block_size(&self) -> (n: u64)
        ensures
            n == self.bs(),
            n <= usize::MAX,
    {
        self.fm.block_size()
    }

    /// The name of the log file.
    pub fn log_file(&self) -> (name: &String)
        ensures
            name@ == self.log_name(),
    {
        &self.log_file
    }

    /// A cursor over the log at its newest record. The page in memory is written
    /// to the store first.
    pub fn iterator(&mut self) -> (it: LogIterator)
        requires
            old(self).wf(),
        ensures
            forced_log(old(self), final(self), old(self).latest()),
            final(self).data() == old(self).data(),
            it.wf(final(self).disk()),
            it.remaining(final(self).disk()) == final(self).records().reverse(),
    {
        self.flush();
        let it = LogIterator::new(&self.fm, &self.current_blk);
        proof {
            let blocks = self.log_on_disk();
            assert(blocks.subrange(0, blocks.len() as int) =~= blocks);
            assert(newest_first(blocks).reverse().reverse() =~= newest_first(blocks));
        }
        it
    }

    /// Every record of the log, each once, the newest first: what a cursor from
    /// [`Self::iterator`] gives until it has no more.
    pub fn newest_first_records(&mut self) -> (recs: Vec<Vec<u8>>)
        requires
            old(self).wf(),
        ensures
            forced_log(old(self), final(self), old(self).latest()),
            final(self).data() == old(self).data(),
            views(recs@) == old(self).records().reverse(),
    {
        let mut recs: Vec<Vec<u8>> = Vec::new();
        let mut it = self.iterator();
        let ghost disk = self.disk();
        let ghost all = self.records().reverse();
        proof {
            assert(views(recs@) =~= Seq::<Seq<u8>>::empty());
        }
        while it.has_next()
            invariant
                self.wf(),
                disk == self.disk(),
                it.wf(disk),
                views(recs@) + it.remaining(disk) == all,
            decreases it.remaining(disk).len(),
        {
            let ghost before = views(recs@);
            let ghost rest = it.remaining(disk);
            let rec = it.next(&self.fm);
            recs.push(rec);
            proof {
                assert(views(recs@) =~= before.push(rest[0]));
                assert(before.push(rest[0]) + rest.drop_first() =~= before + rest);
            }
        }
        proof {
            it.lemma_has_more(disk);
            assert(views(recs@) + it.remaining(disk) =~= views(recs@));
        }
        recs
    }

    /// Adds the record `log_rec` to the log and returns its number. Where the
    /// record does not fit below the boundary of the last block, that block is
    /// written to the store and a new block is added to the log first.
    pub fn append(&mut self, log_rec: Vec<u8>) -> (lsn: i64)
        requires
            old(self).wf(),
            old(self).can_append(log_rec@.len()),
        ensures
            appended(old(self), final(self), log_rec@, lsn as int),
    {
        proof {
            self.fm.lemma_bs_fits();
            let blocks = self.log_blocks();
            assert(valid_block(blocks[blocks.len() - 1], self.bs()));
            assert((seq![log_rec@] + newest_first(self.log_blocks())).reverse()
                =~= newest_first(self.log_blocks()).reverse().push(log_rec@));
        }
        let boundary = self.log_page.get_u64(0);
        let bytes_needed = log_rec.len() + 4;
        if boundary < bytes_needed as u64 + 8 {
            self.roll_over();
        }
        self.put(log_rec)
    }

    /// Writes the last block, which holds a record, to the store and starts a new
    /// block without records after it.
    fn roll_over(&mut self)
        requires
            old(self).wf(),
            boundary_of(old(self).page()) < old(self).bs(),
            old(self).log_on_disk().len() + 1 < usize::MAX,
        ensures
            final(self).wf(),
            final(self).bs() == old(self).bs(),
            final(self).log_name() == old(self).log_name(),
            final(self).data() == old(self).data(),
            final(self).latest() == old(self).latest(),
            final(self).last_saved() == old(self).latest(),
            final(self).page() == with_boundary(old(self).page(), old(self).bs() as u64),
            final(self).log_on_disk() == old(self).log_blocks().push(final(self).page()),
            newest_first(final(self).log_blocks()) == newest_first(old(self).log_blocks()),
            boundary_of(final(self).page()) == final(self).bs(),
    {
        let ghost bs = self.bs();
        let ghost old_newest = newest_first(self.log_blocks());
        proof {
            self.fm.lemma_bs_fits();
        }
        self.flush();
        let ghost flushed = self.log_on_disk();
        let blk = append_new_block(&mut self.fm, &self.log_file, &mut self.log_page);
        self.current_blk = blk;
        proof {
            lemma_emptied(old(self).page(), bs);
            let emptied = self.log_page@;
            assert(self.log_on_disk() =~= flushed.push(emptied));
            assert(self.log_on_disk().last() == emptied);
            assert(block_records(emptied).skip(0) =~= block_records(emptied));
            assert(self.log_blocks() =~= flushed.push(emptied));
            lemma_newest_first_push(flushed, emptied);
            assert(newest_first(self.log_blocks()) =~= old_newest);
            assert(self.disk().remove(self.log_name()) =~= old(self).disk().remove(
                old(self).log_name(),
            ));
            assert forall|i: int| 0 <= i < self.log_blocks().len() - 1 implies block_records(
                #[trigger] self.log_blocks()[i],
            ).len() > 0 by {
                if i == flushed.len() - 1 {
                    assert(flushed[i] == old(self).page());
                } else {
                    assert(self.log_blocks()[i] == old(self).log_blocks()[i]);
                }
            }
            assert forall|i: int| 0 <= i < self.log_blocks().len() implies valid_block(
                #[trigger] self.log_blocks()[i],
                bs,
            ) by {
                if i < flushed.len() {
                    assert(self.log_blocks()[i] == old(self).log_blocks()[i]);
                }
            }
        }
    }

    /// Adds the record `log_rec` below the boundary of the page in memory, which
    /// has room for it.
    fn put(&mut self, log_rec: Vec<u8>) -> (lsn: i64)
        requires
            old(self).wf(),
            has_room(old(self).page(), log_rec@.len()),
            log_rec@.len() <= u32::MAX,
            old(self).latest() < i64::MAX,
        ensures
            final(self).wf(),
            final(self).bs() == old(self).bs(),
            final(self).log_name() == old(self).log_name(),
            final(self).disk() == old(self).disk(),
            final(self).last_saved() == old(self).last_saved(),
            lsn == old(self).latest() + 1,
            final(self).latest() == lsn,
            final(self).page() == with_record(old(self).page(), log_rec@),
            newest_first(final(self).log_blocks()) == seq![log_rec@] + newest_first(
                old(self).log_blocks(),
            ),
    {
        let ghost bs = self.bs();
        let ghost rec = log_rec@;
        let ghost mid_page = self.log_page@;
        let ghost mid_blocks = self.log_blocks();
        proof {
            self.fm.lemma_bs_fits();
            assert(valid_block(mid_blocks[mid_blocks.len() - 1], bs));
        }
        let boundary = self.log_page.get_u64(0);
        let rec_size = log_rec.len();
        let rec_pos = boundary as usize - rec_size - 4;
        self.log_page.set_u32(rec_pos, rec_size as u32);
        self.log_page.set_bytes(rec_pos + 4, log_rec);
        self.log_page.set_u64(0, rec_pos as u64);
        self.latest_lsn = self.latest_lsn + 1;
        proof {
            crate::file::codec::lemma_u32_round_trip(rec_size as u32);
            crate::file::codec::lemma_overwrite(
                mid_page,
                rec_pos as int,
                crate::file::codec::u32_be_bytes(rec_size as u32),
            );
            assert(self.log_page@ == with_record(mid_page, rec));
            lemma_record_added(mid_page, bs, rec);
            let n = self.log_on_disk().len() - 1;
            let saved = block_records(self.log_on_disk().last());
            let held = block_records(mid_page);
            assert((seq![rec] + held).skip(held.len() + 1 - saved.len()) =~= held.skip(
                held.len() - saved.len(),
            ));
            assert(self.log_blocks() =~= mid_blocks.update(n, self.log_page@));
            lemma_newest_first_update_last(mid_blocks, self.log_page@);
            lemma_newest_first_update_last(mid_blocks, mid_page);
            assert(mid_blocks.update(n, mid_page) =~= mid_blocks);
            assert forall|i: int| 0 <= i < self.log_blocks().len() implies valid_block(
                #[trigger] self.log_blocks()[i],
                bs,
            ) by {
                if i != n {
                    assert(self.log_blocks()[i] == mid_blocks[i]);
                }
            }
            assert forall|i: int| 0 <= i < self.log_blocks().len() - 1 implies block_records(
                #[trigger] self.log_blocks()[i],
            ).len() > 0 by {
                assert(self.log_blocks()[i] == mid_blocks[i]);
            }
        }
        self.latest_lsn
    }

    /// A number such that every record with a number up to it is in the store.
    pub fn get_last_saved_lsn(&self) -> (lsn: i64)
        ensures
            lsn == self.last_saved(),
    {
        self.last_saved_lsn
    }

    /// The number of the last record added.
    pub fn get_latest_lsn(&self) -> (lsn: i64)
        ensures
            lsn == self.latest(),
    {
        self.latest_lsn
    }

    /// Makes sure that the record with the number `lsn` is in the store: where it
    /// may not be yet, the page in memory is written to the store.
    pub fn flush_with_lsn(&mut self, lsn: i64)
        requires
            old(self).wf(),
        ensures
            forced_log(old(self), final(self), lsn as int),
            final(self).data() == old(self).data(),
            lsn < old(self).last_saved() ==> final(self).disk() == old(self).disk(),
    {
        if lsn >= self.last_saved_lsn {
            self.flush()
        }
    }

    /// Writes the page in memory to the last block of the log file.
    fn flush(&mut self)
        requires
            old(self).wf(),
        ensures
            final(self).wf(),
            final(self).fm.bs() == old(self).fm.bs(),
            final(self).fm.dir() == old(self).fm.dir(),
            final(self).log_file == old(self).log_file,
            final(self).log_page == old(self).log_page,
            final(self).current_blk == old(self).current_blk,
            final(self).latest_lsn == old(self).latest_lsn,
            final(self).last_saved_lsn == old(self).latest_lsn,
            final(self).data() == old(self).data(),
            final(self).log_on_disk() == old(self).log_blocks(),
            final(self).log_blocks() == old(self).log_blocks(),
    {
        let ghost before = self.log_on_disk();
        self.fm.write(&self.current_blk, &self.log_page);
        self.last_saved_lsn = self.latest_lsn;
        proof {
            assert(extended(before, self.current_blk@.blk_num, self.fm.bs()) == before);
            assert(self.log_on_disk() =~= old(self).log_blocks());
            assert(self.log_blocks() =~= old(self).log_blocks());
            assert(self.log_on_disk().last() == self.log_page@);
            assert(block_records(self.log_page@).skip(0) =~= block_records(self.log_page@));
            assert(self.disk().remove(self.log_name()) =~= old(self).disk().remove(
                old(self).log_name(),
            ));
        }
    }
}

} // verus!
