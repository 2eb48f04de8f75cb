use bytebuffer::ByteBuffer;
use ruspledb::file::block_id::BlockId;
use ruspledb::file::file_mgr::FileMgr;
use ruspledb::file::page::Page;
use ruspledb::logging::log_iterator::LogIterator;
use ruspledb::logging::log_mgr::LogMgr;

fn read_log_records(lm: &mut LogMgr) -> Vec<(String, u32)> {
    let mut out = Vec::new();
    let mut iter = lm.iterator();
    while iter.has_next() {
        let rec = iter.next(lm.file_mgr());
        let mut page = Page::new_from_buffer(&ByteBuffer::from_vec(rec));
        let s = page.get_string(0);
        let npos = page.max_length(s.len());
        let val = page.get_u32(npos);
        out.push((s, val));
    }
    out
}

fn create_log_records(lm: &mut LogMgr, start: u64, end: u64) -> Vec<i64> {
    let mut lsns = Vec::new();
    for i in start..=end {
        let s = "record".to_string() + &i.to_string();
        let n = i + 100;
        let spos = 0;
        let npos = spos + max_length(s.len());
        let mut buffer = ByteBuffer::new();
        buffer.resize(npos + 4);
        let mut page = Page::new_from_buffer(&buffer);
        page.set_string(spos, s);
        page.set_u32(npos, n.try_into().unwrap());
        lsns.push(lm.append(page.to_bytes()));
    }
    lsns
}

fn max_length(str_len: usize) -> usize {
    4 + str_len
}

fn expected(newest: u64) -> Vec<(String, u32)> {
    (1..=newest).rev().map(|i| (format!("record{}", i), (i + 100) as u32)).collect()
}

#[test]
fn integration_log() {
    let db_dir = "./db/logtest";
    let block_size = 400;
    let fm = FileMgr::new(db_dir.to_string(), block_size);
    let log_file = "ruspledb.log";
    let mut lm = LogMgr::new(fm, &log_file.to_string());
    assert_eq!(read_log_records(&mut lm), vec![]);
    let lsns = create_log_records(&mut lm, 1, 35);
    assert_eq!(lsns, (1..=35).collect::<Vec<i64>>());
    assert_eq!(read_log_records(&mut lm), expected(35));
    create_log_records(&mut lm, 36, 70);
    lm.flush_with_lsn(65);
    assert_eq!(lm.get_last_saved_lsn(), 70);
    assert_eq!(read_log_records(&mut lm), expected(70));
}

#[test]
fn first_block_is_flushed_by_the_record_that_does_not_fit() {
    let fm = FileMgr::new("./db/logtest".to_string(), 400);
    let log_file = "ruspledb.log".to_string();
    let mut lm = LogMgr::new(fm, &log_file);
    assert_eq!(lm.file_mgr().length(&log_file), 1);
    create_log_records(&mut lm, 1, 20);
    assert_eq!(lm.get_last_saved_lsn(), 0);
    assert_eq!(lm.get_latest_lsn(), 20);
    assert_eq!(lm.file_mgr().length(&log_file), 1);
    // nothing but the empty first block has reached the store
    let mut on_disk = Page::new(400);
    lm.file_mgr().read_existing(&BlockId::new("ruspledb.log".to_string(), 0), &mut on_disk);
    assert_eq!(on_disk.get_u64(0), 400);
    create_log_records(&mut lm, 21, 21);
    assert_eq!(lm.get_last_saved_lsn(), 20);
    assert_eq!(lm.file_mgr().length(&log_file), 2);
    lm.file_mgr().read_existing(&BlockId::new("ruspledb.log".to_string(), 0), &mut on_disk);
    // 9 records of 19 bytes and 11 of 20 lie below the boundary
    assert_eq!(on_disk.get_u64(0), 400 - 9 * 19 - 11 * 20);
    let mut it = LogIterator::new(lm.file_mgr(), &BlockId::new("ruspledb.log".to_string(), 0));
    let mut count = 0;
    while it.has_next() {
        it.next(lm.file_mgr());
        count += 1;
    }
    assert_eq!(count, 20);
}

#[test]
fn flush_with_an_old_lsn_does_nothing() {
    let fm = FileMgr::new("d".to_string(), 64);
    let log_file = "log".to_string();
    let mut lm = LogMgr::new(fm, &log_file);
    assert_eq!(lm.append(vec![1, 2, 3]), 1);
    assert_eq!(lm.append(vec![4]), 2);
    lm.flush_with_lsn(1);
    assert_eq!(lm.get_last_saved_lsn(), 2);
    assert_eq!(lm.append(vec![5, 6]), 3);
    lm.flush_with_lsn(1);
    assert_eq!(lm.get_last_saved_lsn(), 2);
    let mut on_disk = Page::new(64);
    lm.file_mgr().read_existing(&BlockId::new("log".to_string(), 0), &mut on_disk);
    assert_eq!(on_disk.get_u64(0), 64 - 7 - 5);
    lm.flush_with_lsn(2);
    assert_eq!(lm.get_last_saved_lsn(), 3);
    lm.file_mgr().read_existing(&BlockId::new("log".to_string(), 0), &mut on_disk);
    assert_eq!(on_disk.get_u64(0), 64 - 7 - 5 - 6);
}

#[test]
fn log_block_layout() {
    let fm = FileMgr::new("d".to_string(), 32);
    let log_file = "log".to_string();
    let mut lm = LogMgr::new(fm, &log_file);
    lm.append(vec![0xaa, 0xbb]);
    lm.append(vec![]);
    lm.append(vec![0xcc; 10]);
    let mut it = lm.iterator();
    let mut page = Page::new(32);
    lm.file_mgr().read_existing(&BlockId::new("log".to_string(), 0), &mut page);
    let mut want = vec![0u8; 32];
    want[7] = 8;
    want[8..12].copy_from_slice(&[0, 0, 0, 10]);
    want[12..22].copy_from_slice(&[0xcc; 10]);
    want[22..26].copy_from_slice(&[0, 0, 0, 0]);
    want[26..30].copy_from_slice(&[0, 0, 0, 2]);
    want[30..32].copy_from_slice(&[0xaa, 0xbb]);
    assert_eq!(page.to_bytes(), want);
    assert_eq!(it.next(lm.file_mgr()), vec![0xcc; 10]);
    assert_eq!(it.next(lm.file_mgr()), Vec::<u8>::new());
    assert_eq!(it.next(lm.file_mgr()), vec![0xaa, 0xbb]);
    assert!(!it.has_next());
    // the block is full to the byte: the next record starts a new block
    lm.append(vec![]);
    assert_eq!(lm.file_mgr().length(&log_file), 2);
}

#[test]
fn log_is_taken_up_where_it_was_left() {
    let fm = FileMgr::new("d".to_string(), 32);
    let log_file = "log".to_string();
    let mut lm = LogMgr::new(fm, &log_file);
    lm.append(vec![1; 16]);
    lm.append(vec![2; 16]);
    lm.flush_with_lsn(2);
    // a second manager over the blocks that the first has written
    let mut fm2 = FileMgr::new("d".to_string(), 32);
    for n in 0..lm.file_mgr().length(&log_file) {
        let blk = BlockId::new("log".to_string(), n);
        let mut page = Page::new(32);
        lm.file_mgr().read_existing(&blk, &mut page);
        fm2.write(&blk, &page);
    }
    let mut lm2 = LogMgr::new(fm2, &log_file);
    assert_eq!(lm2.get_latest_lsn(), 0);
    assert_eq!(lm2.append(vec![3]), 1);
    let mut it = lm2.iterator();
    assert_eq!(it.next(lm2.file_mgr()), vec![3]);
    assert_eq!(it.next(lm2.file_mgr()), vec![2; 16]);
    assert_eq!(it.next(lm2.file_mgr()), vec![1; 16]);
    assert!(!it.has_next());
}
