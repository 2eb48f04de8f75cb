use ruspledb::buffer::buffer::Buffer;
use ruspledb::buffer::buffer_mgr::BufferMgr;
use ruspledb::file::block_id::BlockId;
use ruspledb::file::file_mgr::FileMgr;
use ruspledb::file::page::Page;
use ruspledb::logging::log_mgr::LogMgr;
use ruspledb::tx::block_map::BlockMap;
use ruspledb::tx::buffer_list::BufferList;

fn log_mgr(block_size: u64) -> LogMgr {
    let fm = FileMgr::new("./db/buffer".to_string(), block_size);
    LogMgr::new(fm, &"ruspledb.log".to_string())
}

fn on_disk(lm: &LogMgr, blk: &BlockId) -> Page {
    let mut page = Page::new(lm.block_size());
    lm.file_mgr().read_existing(blk, &mut page);
    page
}

#[test]
fn a_new_buffer_is_unassigned_and_clean() {
    let lm = log_mgr(64);
    let b = Buffer::new(&lm);
    assert!(b.block().is_none());
    assert!(!b.is_pinned());
    assert_eq!(b.pins, 0);
    assert_eq!(b.modifying_tx(), -1);
    assert_eq!(b.last_lsn(), -1);
    assert_eq!(b.contents().to_bytes(), vec![0u8; 64]);
}

#[test]
fn buffer_counts_pins_and_notes_changes() {
    let lm = log_mgr(64);
    let mut b = Buffer::new(&lm);
    b.pin();
    b.pin();
    assert_eq!(b.pins, 2);
    assert!(b.is_pinned());
    b.unpin();
    b.unpin();
    assert!(!b.is_pinned());
    b.set_modified(3, 7);
    assert_eq!((b.modifying_tx(), b.last_lsn()), (3, 7));
    // a negative record number leaves the one that is there
    b.set_modified(4, -1);
    assert_eq!((b.modifying_tx(), b.last_lsn()), (4, 7));
    b.set_modified(5, 0);
    assert_eq!((b.modifying_tx(), b.last_lsn()), (5, 0));
    let mut p = Page::new(64);
    p.set_u32(0, 9);
    b.set_contents(p);
    assert_eq!(b.contents().get_u32(0), 9);
}

#[test]
fn buffer_is_written_out_before_it_takes_another_block() {
    let mut lm = log_mgr(64);
    let mut b = Buffer::new(&lm);
    let first = BlockId::new("data".to_string(), 0);
    let second = BlockId::new("data".to_string(), 3);
    b.assign_to_block(&mut lm, &first);
    assert!(b.block().unwrap().equals(&first));
    let lsn = lm.append(vec![1, 2, 3]);
    let mut p = b.contents();
    p.set_u64(8, 0xabcd);
    b.set_contents(p);
    b.set_modified(1, lsn);
    b.pin();
    assert_eq!(on_disk(&lm, &first).get_u64(8), 0);
    assert_eq!(lm.get_last_saved_lsn(), 0);
    b.assign_to_block(&mut lm, &second);
    // the log went out first, then the page
    assert_eq!(lm.get_last_saved_lsn(), 1);
    assert_eq!(on_disk(&lm, &first).get_u64(8), 0xabcd);
    assert!(b.block().unwrap().equals(&second));
    assert_eq!(b.pins, 0);
    assert_eq!(b.modifying_tx(), -1);
    assert_eq!(b.last_lsn(), 1);
    assert_eq!(b.contents().to_bytes(), vec![0u8; 64]);
    assert_eq!(lm.length(&"data".to_string()), 4);
}

#[test]
fn flush_of_an_unchanged_buffer_writes_nothing() {
    let mut lm = log_mgr(64);
    let mut b = Buffer::new(&lm);
    let blk = BlockId::new("data".to_string(), 0);
    b.assign_to_block(&mut lm, &blk);
    let mut p = b.contents();
    p.set_u64(0, 5);
    b.set_contents(p);
    b.flush(&mut lm);
    assert_eq!(on_disk(&lm, &blk).get_u64(0), 0);
    b.set_modified(2, -1);
    b.flush(&mut lm);
    assert_eq!(on_disk(&lm, &blk).get_u64(0), 5);
    assert_eq!(b.modifying_tx(), -1);
}

#[test]
fn log_mgr_reads_and_writes_blocks_of_other_files() {
    let mut lm = log_mgr(16);
    let name = "data".to_string();
    let blk = lm.append_block(&name);
    assert_eq!(blk.blk_num(), 0);
    let mut p = Page::new(16);
    p.set_u64(0, 77);
    lm.write_block(&BlockId::new("data".to_string(), 2), &p);
    assert_eq!(lm.length(&name), 3);
    let mut q = Page::new(16);
    lm.read_block(&BlockId::new("data".to_string(), 2), &mut q);
    assert_eq!(q.get_u64(0), 77);
    lm.read_block(&BlockId::new("data".to_string(), 4), &mut q);
    assert_eq!(q.to_bytes(), vec![0u8; 16]);
    assert_eq!(lm.length(&name), 5);
    assert_eq!(lm.log_file(), "ruspledb.log");
    assert_eq!(lm.length(&"ruspledb.log".to_string()), 1);
}

#[test]
fn a_log_is_told_from_other_files() {
    let mut fm = FileMgr::new("d".to_string(), 32);
    let log = "log".to_string();
    assert!(!LogMgr::is_valid_log(&fm, &log));
    // a block of zeros has no boundary behind its header
    fm.append(&log);
    assert!(!LogMgr::is_valid_log(&fm, &log));
    let mut lm = LogMgr::new(FileMgr::new("d".to_string(), 32), &log);
    assert!(LogMgr::is_valid_log(lm.file_mgr(), &log));
    for n in 0..5u8 {
        lm.append(vec![n; 9]);
    }
    lm.flush_with_lsn(5);
    assert_eq!(lm.length(&log), 5);
    assert!(LogMgr::is_valid_log(lm.file_mgr(), &log));
    assert_eq!(lm.newest_first_records(), vec![vec![4; 9], vec![3; 9], vec![2; 9], vec![1; 9], vec![0; 9]]);
    // a record whose length runs past the end of the block
    let mut copy = FileMgr::new("d".to_string(), 32);
    let mut page = Page::new(32);
    lm.file_mgr().read_existing(&BlockId::new("log".to_string(), 0), &mut page);
    page.set_u32(19, 10);
    copy.write(&BlockId::new("log".to_string(), 0), &page);
    assert!(!LogMgr::is_valid_log(&copy, &log));
    // a block without records before the last block
    page.set_u64(0, 32);
    copy.write(&BlockId::new("log".to_string(), 0), &page);
    assert!(LogMgr::is_valid_log(&copy, &log));
    copy.write(&BlockId::new("log".to_string(), 1), &page);
    assert!(!LogMgr::is_valid_log(&copy, &log));
    // a boundary inside the header
    page.set_u64(0, 7);
    copy.write(&BlockId::new("log".to_string(), 1), &page);
    assert!(!LogMgr::is_valid_log(&copy, &log));
}

#[test]
fn block_map_keeps_one_value_for_a_block() {
    let mut map: BlockMap<u64> = BlockMap::new();
    let a = BlockId::new("f".to_string(), 0);
    let b = BlockId::new("g".to_string(), 0);
    assert_eq!(map.get(&a), None);
    map.insert(&a, 1);
    map.insert(&b, 2);
    map.insert(&a, 3);
    assert_eq!(map.get(&a), Some(3));
    assert_eq!(map.get(&b), Some(2));
    assert_eq!(map.len(), 2);
    assert!(map.key(0).equals(&a));
    assert!(map.key(1).equals(&b));
    map.remove(&a);
    assert_eq!(map.get(&a), None);
    assert_eq!(map.len(), 1);
    map.remove(&a);
    assert_eq!(map.len(), 1);
    map.clear();
    assert_eq!(map.get(&b), None);
    assert_eq!(map.len(), 0);
}

#[test]
fn buffer_list_pins_through_the_pool() {
    let mut bm = BufferMgr::new(log_mgr(64), 2);
    let mut list = BufferList::new();
    let a = BlockId::new("data".to_string(), 0);
    let b = BlockId::new("data".to_string(), 1);
    let c = BlockId::new("data".to_string(), 2);
    assert_eq!(list.get_buffer(&a), None);
    assert_eq!(list.pin(&mut bm, &a, 0, 0), Ok(true));
    assert_eq!(list.pin(&mut bm, &b, 0, 0), Ok(true));
    assert_eq!(list.pin(&mut bm, &a, 0, 0), Ok(true));
    assert_eq!(list.get_buffer(&a), Some(0));
    assert_eq!(list.get_buffer(&b), Some(1));
    assert_eq!(bm.buffer(0).pins, 2);
    assert_eq!(list.pin(&mut bm, &c, 0, 10_000), Ok(false));
    assert_eq!(list.pin(&mut bm, &c, 0, 10_001), Err("BufferAbortException".to_string()));
    assert_eq!(list.get_buffer(&c), None);
    list.unpin(&mut bm, &a);
    assert_eq!(list.get_buffer(&a), Some(0));
    assert_eq!(bm.available(), 0);
    list.unpin(&mut bm, &a);
    assert_eq!(list.get_buffer(&a), None);
    assert_eq!(bm.available(), 1);
    assert_eq!(list.pin(&mut bm, &c, 0, 10_001), Ok(true));
    assert_eq!(list.get_buffer(&c), Some(0));
    list.unpin_all(&mut bm);
    assert_eq!(bm.available(), 2);
    assert_eq!(list.get_buffer(&b), None);
    assert_eq!(list.set_buffer(BlockId::new("data".to_string(), 1), 1), None);
    assert_eq!(list.set_buffer(BlockId::new("data".to_string(), 1), 0), Some(1));
}
