use ruspledb::buffer::buffer_mgr::BufferMgr;
use ruspledb::file::block_id::BlockId;
use ruspledb::file::file_mgr::FileMgr;
use ruspledb::file::page::Page;
use ruspledb::logging::log_mgr::LogMgr;

fn prepare_bm(db_dir: &str) -> BufferMgr {
    let block_size = 400;
    let fm = FileMgr::new(db_dir.to_string(), block_size);
    let log_file = "ruspledb.log";
    let lm = LogMgr::new(fm, &log_file.to_string());
    let buffer_size = 3;
    BufferMgr::new(lm, buffer_size)
}

fn block_on_disk(bm: &BufferMgr, file: &str, n: u64) -> Page {
    let mut page = Page::new(bm.block_size());
    bm.log_mgr().file_mgr().read_existing(&BlockId::new(file.to_string(), n), &mut page);
    page
}

#[test]
fn unit_find_existing_buffer() {
    let bm = prepare_bm("./db/buffermgrunittest_1");
    let b0 = BlockId::new("testfile".to_string(), 0);
    let buffer_res = bm.find_existing_buffer(&b0);
    assert!(!buffer_res.found);
    assert_eq!(buffer_res.idx, 1000000);
    assert_eq!(bm.available(), 3);
}

#[test]
fn unit_choose_unpined_buffer() {
    let bm = prepare_bm("./db/buffermgrunittest_2");
    let buffer_res = bm.choose_unpinned_buffer();
    assert!(buffer_res.found);
    assert!(bm.buffer(buffer_res.idx).block().is_none());
    assert_eq!(buffer_res.idx, 0);

    assert_eq!(bm.available(), 3);
}

#[test]
fn unit_try_to_pin() {
    let mut bm = prepare_bm("./db/buffermgrunittest_3");
    let b0 = BlockId::new("testfile".to_string(), 0);
    let buffer = bm.try_to_pin(&b0).unwrap();
    assert_eq!(bm.buffer(buffer).block().unwrap().file_name(), "testfile");
    assert_eq!(bm.available(), 2);
    assert_eq!(bm.buffer(buffer).pins, 1);

    let buffer = bm.try_to_pin(&b0).unwrap();
    assert_eq!(bm.buffer(buffer).block().unwrap().file_name(), "testfile");
    assert_eq!(bm.available(), 2);
    assert_eq!(bm.buffer(buffer).pins, 2);
}

#[test]
fn integration_buffer() {
    let mut bm = prepare_bm("./db/buffertest");

    let b1 = bm.pin(&BlockId::new("testfile".to_string(), 1), 0, 0).unwrap().unwrap();
    let mut p1 = bm.buffer(b1).contents();
    let n = p1.get_u64(80);
    p1.set_u64(80, n + 1);
    bm.write_page(b1, p1, 1, 0);
    assert_eq!(n + 1, 1);
    // b1 will be chosen as unpinned buffer
    bm.unpin(b1);
    // nothing has reached the store yet
    assert_eq!(block_on_disk(&bm, "testfile", 1).get_u64(80), 0);
    // this pin will flush b1 to disk
    let b2 = bm.pin(&BlockId::new("testfile".to_string(), 2), 0, 0).unwrap().unwrap();
    assert_eq!(b2, b1);
    assert_eq!(block_on_disk(&bm, "testfile", 1).get_u64(80), 1);
    let mut p2 = bm.buffer(b2).contents();
    // will not get written to disk
    p2.set_u64(80, 9999);
    bm.write_page(b2, p2, 1, 0);
    assert_eq!(block_on_disk(&bm, "testfile", 2).get_u64(80), 0);
    assert_eq!(bm.buffer(b2).modifying_tx(), 1);
    assert_eq!(bm.buffer(b2).last_lsn(), 0);
    assert!(bm.buffer(b2).is_pinned());
}

#[test]
fn integration_buffer_mgr() {
    let mut bm = prepare_bm("./db/buffermgrtest");

    let mut buffer: Vec<usize> = Vec::with_capacity(6);
    let b0 = BlockId::new("testfile".to_string(), 0);
    let b1 = BlockId::new("testfile".to_string(), 1);
    let b2 = BlockId::new("testfile".to_string(), 2);
    let b3 = BlockId::new("testfile".to_string(), 3);
    buffer.push(bm.pin(&b0, 0, 0).unwrap().unwrap());
    buffer.push(bm.pin(&b1, 0, 0).unwrap().unwrap());
    buffer.push(bm.pin(&b2, 0, 0).unwrap().unwrap());
    assert_eq!(bm.available(), 0);
    bm.unpin(buffer[1]);
    assert_eq!(bm.available(), 1);
    // block 0 pinned twice
    buffer.push(bm.pin(&b0, 0, 0).unwrap().unwrap());
    assert_eq!(bm.available(), 1);
    // block 1 repinned
    buffer.push(bm.pin(&b1, 0, 0).unwrap().unwrap());
    assert_eq!(bm.available(), 0);

    // will not work; no buffers left
    let start = 1_000;
    // within the wait the caller is told to ask again
    assert_eq!(bm.pin(&b3, start, start), Ok(None));
    assert_eq!(bm.pin(&b3, start, start + 10_000), Ok(None));
    assert!(!bm.wait_too_long(start, start + 10_000));
    assert!(bm.wait_too_long(start, start + 10_001));
    let res = bm.pin(&b3, start, start + 10_001);
    assert_eq!(res, Err("BufferAbortException".to_string()));
    assert_eq!(bm.available(), 0);

    bm.unpin(buffer[2]);
    // now this works
    buffer.push(bm.pin(&b3, start, start + 10_001).unwrap().unwrap());

    assert_eq!(bm.buffer(buffer[0]).block().unwrap().blk_num(), 0);
    assert_eq!(bm.buffer(buffer[3]).block().unwrap().blk_num(), 0);
    assert_eq!(bm.buffer(buffer[4]).block().unwrap().blk_num(), 1);
    assert_eq!(bm.buffer(buffer[5]).block().unwrap().blk_num(), 3);
}

#[test]
fn available_counts_the_unpinned_buffers() {
    let mut bm = prepare_bm("./db/available");
    assert_eq!(bm.pool_size(), 3);
    let b0 = BlockId::new("t".to_string(), 0);
    let b1 = BlockId::new("t".to_string(), 1);
    let i0 = bm.try_to_pin(&b0).unwrap();
    assert_eq!(bm.available(), 2);
    let i1 = bm.try_to_pin(&b1).unwrap();
    assert_eq!(bm.available(), 1);
    assert_eq!((i0, i1), (0, 1));
    // a second pin of a pinned block takes no buffer
    assert_eq!(bm.try_to_pin(&b0), Some(0));
    assert_eq!(bm.available(), 1);
    // and its first unpin frees none
    bm.unpin(i0);
    assert_eq!(bm.available(), 1);
    assert!(bm.buffer(i0).is_pinned());
    bm.unpin(i0);
    assert_eq!(bm.available(), 2);
    assert!(!bm.buffer(i0).is_pinned());
    bm.unpin(i1);
    assert_eq!(bm.available(), 3);
    // the blocks stay where they are until the buffers are needed
    assert_eq!(bm.find_existing_buffer(&b1).idx, 1);
    assert!(bm.find_existing_buffer(&b1).found);
}

#[test]
fn flush_all_writes_the_buffers_of_one_transaction() {
    let mut bm = prepare_bm("./db/flushall");
    let b0 = BlockId::new("t".to_string(), 0);
    let b1 = BlockId::new("t".to_string(), 1);
    let b2 = BlockId::new("t".to_string(), 2);
    let i0 = bm.try_to_pin(&b0).unwrap();
    let i1 = bm.try_to_pin(&b1).unwrap();
    let i2 = bm.try_to_pin(&b2).unwrap();
    let lsn = bm.append_log(vec![1, 2, 3]);
    assert_eq!(lsn, 1);
    for (i, tx, l) in [(i0, 7, lsn), (i1, 8, -1), (i2, 7, -1)] {
        let mut p = bm.buffer(i).contents();
        p.set_u64(0, 100 + i as u64);
        bm.write_page(i, p, tx, l);
    }
    assert_eq!(bm.log_mgr().get_last_saved_lsn(), 0);
    bm.flush_all(7);
    assert_eq!(block_on_disk(&bm, "t", 0).get_u64(0), 100);
    assert_eq!(block_on_disk(&bm, "t", 1).get_u64(0), 0);
    assert_eq!(block_on_disk(&bm, "t", 2).get_u64(0), 102);
    assert_eq!(bm.buffer(i0).modifying_tx(), -1);
    assert_eq!(bm.buffer(i1).modifying_tx(), 8);
    assert_eq!(bm.buffer(i2).modifying_tx(), -1);
    // the log was forced before the page of the logged change went out
    assert_eq!(bm.log_mgr().get_last_saved_lsn(), 1);
    bm.flush_at(i1);
    assert_eq!(block_on_disk(&bm, "t", 1).get_u64(0), 101);
    assert_eq!(bm.available(), 0);
}

#[test]
fn transaction_numbers_count_up() {
    let mut bm = prepare_bm("./db/txnum");
    assert_eq!(bm.next_tx_num(), 1);
    assert_eq!(bm.next_tx_num(), 2);
    let name = "t".to_string();
    assert_eq!(bm.length(&name), 0);
    let blk = bm.append_block(&name);
    assert_eq!(blk.blk_num(), 0);
    assert_eq!(bm.length(&name), 1);
    bm.flush_log(0);
    let mut it = bm.log_iterator();
    assert!(!it.has_next());
    bm.append_log(vec![9]);
    it = bm.log_iterator();
    assert_eq!(it.next(bm.log_mgr().file_mgr()), vec![9]);
}
