use ruspledb::buffer::buffer_mgr::BufferMgr;
use ruspledb::file::block_id::BlockId;
use ruspledb::file::file_mgr::FileMgr;
use ruspledb::file::page::Page;
use ruspledb::logging::log_mgr::LogMgr;
use ruspledb::tx::concurrency::lock_table::LockTable;
use ruspledb::tx::recovery::commit_record::CommitRecord;
use ruspledb::tx::recovery::set_int_record::SetIntRecord;
use ruspledb::tx::recovery::set_string_record::SetStringRecord;
use ruspledb::tx::transaction::Transaction;

fn prepare(db_dir: &str, buffer_size: usize) -> (BufferMgr, LockTable) {
    let block_size = 400;
    let fm = FileMgr::new(db_dir.to_string(), block_size);
    let log_file = "ruspledb.log";
    let lm = LogMgr::new(fm, &log_file.to_string());
    (BufferMgr::new(lm, buffer_size), LockTable::new())
}

fn on_disk(bm: &BufferMgr, blk: &BlockId) -> Page {
    let mut page = Page::new(bm.block_size());
    bm.log_mgr().file_mgr().read_existing(blk, &mut page);
    page
}

fn log_records(bm: &mut BufferMgr) -> Vec<Vec<u8>> {
    let mut out = Vec::new();
    let mut it = bm.log_iterator();
    while it.has_next() {
        out.push(it.next(bm.log_mgr().file_mgr()));
    }
    out
}

#[test]
fn tx_integration_tx() {
    let (mut bm, mut lt) = prepare("./db/txtest", 8);

    let mut tx1 = Transaction::new(&mut bm);
    let blk = BlockId::new("testfile".to_string(), 1);
    assert_eq!(tx1.pin(&mut bm, &blk, 0, 0), Ok(true));
    // The block initially contains unknown bytes,
    // so don't log those values here.
    assert_eq!(tx1.set_int(&mut bm, &mut lt, &blk, 80, 1, false, 0, 0), Ok(true));
    assert_eq!(tx1.set_string(&mut bm, &mut lt, &blk, 40, "one".to_string(), false, 0, 0), Ok(true));
    tx1.commit(&mut bm, &mut lt);

    let mut tx2 = Transaction::new(&mut bm);
    tx2.pin(&mut bm, &blk, 0, 0).unwrap();
    let mut i_val = tx2.get_int(&bm, &mut lt, &blk, 80, 0, 0).unwrap().unwrap();
    let mut s_val = tx2.get_string(&bm, &mut lt, &blk, 40, 0, 0).unwrap().unwrap();
    // initial value at location 80
    assert_eq!(i_val, 1);
    // initial value at location 40
    assert_eq!(s_val, "one");

    let new_i_val = i_val + 1;
    let new_s_val = s_val + "!";
    assert_eq!(tx2.set_int(&mut bm, &mut lt, &blk, 80, new_i_val, true, 0, 0), Ok(true));
    assert_eq!(tx2.set_string(&mut bm, &mut lt, &blk, 40, new_s_val, true, 0, 0), Ok(true));
    tx2.commit(&mut bm, &mut lt);

    let mut tx3 = Transaction::new(&mut bm);
    tx3.pin(&mut bm, &blk, 0, 0).unwrap();

    i_val = tx3.get_int(&bm, &mut lt, &blk, 80, 0, 0).unwrap().unwrap();
    s_val = tx3.get_string(&bm, &mut lt, &blk, 40, 0, 0).unwrap().unwrap();
    // new value at location 80
    assert_eq!(i_val, 2);
    // new value at location 40
    assert_eq!(s_val, "one!");

    assert_eq!(tx3.set_int(&mut bm, &mut lt, &blk, 80, 9999, true, 0, 0), Ok(true));
    i_val = tx3.get_int(&bm, &mut lt, &blk, 80, 0, 0).unwrap().unwrap();
    // pre-rollback value at location 80
    assert_eq!(i_val, 9999);

    assert_eq!(tx3.rollback(&mut bm, &mut lt, 0, 0), Ok(true));

    let mut tx4 = Transaction::new(&mut bm);
    tx4.pin(&mut bm, &blk, 0, 0).unwrap();

    i_val = tx4.get_int(&bm, &mut lt, &blk, 80, 0, 0).unwrap().unwrap();
    assert_eq!(i_val, 2);
    assert_eq!(tx4.get_string(&bm, &mut lt, &blk, 40, 0, 0), Ok(Some("one!".to_string())));
    tx4.commit(&mut bm, &mut lt);
    assert_eq!((tx1.tx_num(), tx2.tx_num(), tx3.tx_num(), tx4.tx_num()), (1, 2, 3, 4));
}

#[test]
fn committed_value_survives_reuse_of_the_pool() {
    let (mut bm, mut lt) = prepare("./db/durable", 2);
    let blk = BlockId::new("data".to_string(), 0);
    let mut tx1 = Transaction::new(&mut bm);
    tx1.pin(&mut bm, &blk, 0, 0).unwrap();
    tx1.set_int(&mut bm, &mut lt, &blk, 16, 77, true, 0, 0).unwrap();
    // not in the store before the commit
    assert_eq!(on_disk(&bm, &blk).get_u64(16), 0);
    tx1.commit(&mut bm, &mut lt);
    assert_eq!(on_disk(&bm, &blk).get_u64(16), 77);
    assert_eq!(bm.available(), 2);
    assert_eq!(lt.get_lock_val(&blk), 0);
    // the log ends with the commit record, and all of it is in the store
    assert_eq!(bm.log_mgr().get_last_saved_lsn(), 2);
    assert_eq!(log_records(&mut bm)[0], CommitRecord::encode(1));

    // other blocks take both buffers
    let mut tx2 = Transaction::new(&mut bm);
    for n in 1..5 {
        let other = BlockId::new("data".to_string(), n);
        tx2.pin(&mut bm, &other, 0, 0).unwrap();
        tx2.unpin(&mut bm, &other);
    }
    assert!(!bm.find_existing_buffer(&blk).found);
    let mut tx3 = Transaction::new(&mut bm);
    tx3.pin(&mut bm, &blk, 0, 0).unwrap();
    assert_eq!(tx3.get_int(&bm, &mut lt, &blk, 16, 0, 0), Ok(Some(77)));
    assert_eq!(tx3.get_int_u32(&bm, &mut lt, &blk, 20, 0, 0), Ok(Some(77)));
}

#[test]
fn rollback_restores_logged_writes_only() {
    let (mut bm, mut lt) = prepare("./db/rollback", 3);
    let blk = BlockId::new("data".to_string(), 2);
    let mut tx1 = Transaction::new(&mut bm);
    tx1.pin(&mut bm, &blk, 0, 0).unwrap();
    tx1.set_int(&mut bm, &mut lt, &blk, 0, 5, false, 0, 0).unwrap();
    tx1.set_string(&mut bm, &mut lt, &blk, 100, "before".to_string(), false, 0, 0).unwrap();
    tx1.commit(&mut bm, &mut lt);

    let mut tx2 = Transaction::new(&mut bm);
    tx2.pin(&mut bm, &blk, 0, 0).unwrap();
    tx2.set_int(&mut bm, &mut lt, &blk, 0, 6, true, 0, 0).unwrap();
    tx2.set_int(&mut bm, &mut lt, &blk, 0, 7, true, 0, 0).unwrap();
    tx2.set_int(&mut bm, &mut lt, &blk, 8, 8, false, 0, 0).unwrap();
    tx2.set_string(&mut bm, &mut lt, &blk, 100, "after, and longer".to_string(), true, 0, 0).unwrap();
    tx2.unpin(&mut bm, &blk);
    assert_eq!(tx2.rollback(&mut bm, &mut lt, 0, 0), Ok(true));
    assert_eq!(bm.available(), 3);
    assert_eq!(lt.get_lock_val(&blk), 0);

    let mut tx3 = Transaction::new(&mut bm);
    tx3.pin(&mut bm, &blk, 0, 0).unwrap();
    assert_eq!(tx3.get_int(&bm, &mut lt, &blk, 0, 0, 0), Ok(Some(5)));
    // the write that was not logged stays
    assert_eq!(tx3.get_int(&bm, &mut lt, &blk, 8, 0, 0), Ok(Some(8)));
    assert_eq!(tx3.get_string(&bm, &mut lt, &blk, 100, 0, 0), Ok(Some("before".to_string())));
    // the rollback wrote nothing to the log
    assert_eq!(log_records(&mut bm).len(), 4);
}

#[test]
fn rollback_leaves_other_transactions_alone() {
    let (mut bm, mut lt) = prepare("./db/rollback2", 3);
    let blk = BlockId::new("data".to_string(), 0);
    let mut tx1 = Transaction::new(&mut bm);
    let mut tx2 = Transaction::new(&mut bm);
    tx1.pin(&mut bm, &blk, 0, 0).unwrap();
    tx2.pin(&mut bm, &blk, 0, 0).unwrap();
    tx1.set_int(&mut bm, &mut lt, &blk, 0, 11, true, 0, 0).unwrap();
    tx2.set_int(&mut bm, &mut lt, &blk, 8, 22, true, 0, 0).unwrap();
    assert_eq!(lt.get_lock_val(&blk), 2);
    assert_eq!(tx2.rollback(&mut bm, &mut lt, 0, 0), Ok(true));
    assert_eq!(lt.get_lock_val(&blk), 1);
    assert_eq!(bm.available(), 2);
    assert_eq!(tx1.get_int(&bm, &mut lt, &blk, 0, 0, 0), Ok(Some(11)));
    assert_eq!(tx1.get_int(&bm, &mut lt, &blk, 8, 0, 0), Ok(Some(0)));
    tx1.commit(&mut bm, &mut lt);
    // the buffer was last changed by the other transaction, so it is written
    // out when it is replaced, and read from the pool until then
    let mut tx3 = Transaction::new(&mut bm);
    tx3.pin(&mut bm, &blk, 0, 0).unwrap();
    assert_eq!(tx3.get_int(&bm, &mut lt, &blk, 0, 0, 0), Ok(Some(11)));
    tx3.unpin(&mut bm, &blk);
    for n in 1..4 {
        tx3.pin(&mut bm, &BlockId::new("data".to_string(), n), 0, 0).unwrap();
    }
    assert_eq!(on_disk(&bm, &blk).get_u64(0), 11);
}

#[test]
fn rollback_waits_for_a_buffer_and_aborts_when_late() {
    let (mut bm, mut lt) = prepare("./db/rollback3", 1);
    let a = BlockId::new("data".to_string(), 0);
    let b = BlockId::new("data".to_string(), 1);
    let mut tx1 = Transaction::new(&mut bm);
    tx1.pin(&mut bm, &a, 0, 0).unwrap();
    tx1.set_int(&mut bm, &mut lt, &a, 0, 1, true, 0, 0).unwrap();
    tx1.unpin(&mut bm, &a);
    // another transaction takes the only buffer for another block
    let mut tx2 = Transaction::new(&mut bm);
    assert_eq!(tx2.pin(&mut bm, &b, 0, 0), Ok(true));
    assert_eq!(tx1.pin(&mut bm, &a, 5, 10), Ok(false));
    assert_eq!(tx1.pin(&mut bm, &a, 5, 10_006), Err("BufferAbortException".to_string()));
    assert_eq!(tx1.rollback(&mut bm, &mut lt, 5, 10), Ok(false));
    assert_eq!(tx1.rollback(&mut bm, &mut lt, 5, 10_006), Err("BufferAbortException".to_string()));
    tx2.unpin(&mut bm, &b);
    assert_eq!(tx1.rollback(&mut bm, &mut lt, 5, 10_006), Ok(true));
    let mut tx3 = Transaction::new(&mut bm);
    tx3.pin(&mut bm, &a, 0, 0).unwrap();
    assert_eq!(tx3.get_int(&bm, &mut lt, &a, 0, 0, 0), Ok(Some(0)));
}

#[test]
fn repeated_pins_need_matching_unpins() {
    let (mut bm, mut lt) = prepare("./db/pins", 2);
    let blk = BlockId::new("data".to_string(), 0);
    let mut tx = Transaction::new(&mut bm);
    tx.pin(&mut bm, &blk, 0, 0).unwrap();
    tx.pin(&mut bm, &blk, 0, 0).unwrap();
    assert_eq!(bm.available(), 1);
    tx.unpin(&mut bm, &blk);
    assert_eq!(bm.available(), 1);
    assert_eq!(tx.get_int(&bm, &mut lt, &blk, 0, 0, 0), Ok(Some(0)));
    tx.unpin(&mut bm, &blk);
    assert_eq!(bm.available(), 2);
    tx.pin(&mut bm, &blk, 0, 0).unwrap();
    tx.pin(&mut bm, &BlockId::new("data".to_string(), 1), 0, 0).unwrap();
    assert_eq!(bm.available(), 0);
    tx.commit(&mut bm, &mut lt);
    assert_eq!(bm.available(), 2);
}

#[test]
fn size_and_append_go_to_the_store() {
    let (mut bm, _lt) = prepare("./db/size", 2);
    let mut tx = Transaction::new(&mut bm);
    let name = "table.tbl".to_string();
    assert_eq!(tx.size(&bm, &name), 0);
    let blk = tx.append(&mut bm, &name);
    assert_eq!(blk.blk_num(), 0);
    assert_eq!(tx.append(&mut bm, &name).blk_num(), 1);
    assert_eq!(tx.size(&bm, &name), 2);
    assert_eq!(tx.block_size(&bm), 400);
}

#[test]
fn set_records_are_laid_out_field_by_field() {
    let blk = BlockId::new("ab".to_string(), 3);
    let rec = SetIntRecord::encode(-2, &blk, 80, 0x0102);
    let mut want = vec![0, 0, 0, 0, 0, 0, 0, 4, 0xff, 0xff, 0xff, 0xfe, 0, 0, 0, 2, b'a', b'b'];
    want.extend_from_slice(&[0, 0, 0, 0, 0, 0, 0, 3]);
    want.extend_from_slice(&[0, 0, 0, 0, 0, 0, 0, 80]);
    want.extend_from_slice(&[0, 0, 0, 0, 0, 0, 1, 2]);
    assert_eq!(rec, want);
    let mut parsed = SetIntRecord::new(Page::from_bytes(&rec));
    assert_eq!(parsed.op(), 4);
    assert_eq!(parsed.tx_num(), -2);
    assert!(parsed.block().equals(&blk));
    assert_eq!(parsed.offset(), 80);
    assert_eq!(parsed.val(), 0x0102);
    assert_eq!(SetIntRecord::max_length(2), 6);

    let rec = SetStringRecord::encode(7, &blk, 9, "xyz".to_string());
    let mut want = vec![0, 0, 0, 0, 0, 0, 0, 5, 0, 0, 0, 7, 0, 0, 0, 2, b'a', b'b'];
    want.extend_from_slice(&[0, 0, 0, 0, 0, 0, 0, 3]);
    want.extend_from_slice(&[0, 0, 0, 0, 0, 0, 0, 9]);
    want.extend_from_slice(&[0, 0, 0, 3, b'x', b'y', b'z']);
    assert_eq!(rec, want);
    let parsed_s = SetStringRecord::new(Page::from_bytes(&rec));
    assert_eq!(parsed_s.op(), 5);
    assert_eq!(parsed_s.tx_num(), 7);
    assert!(parsed_s.block().equals(&blk));
    assert_eq!(parsed_s.offset(), 9);
    assert_eq!(parsed_s.val(), "xyz");
    assert_eq!(SetStringRecord::max_length(3), 7);

    assert_eq!(CommitRecord::encode(9), vec![0, 0, 0, 0, 0, 0, 0, 2, 0, 0, 0, 9]);

    // a record of one kind is none of the other, and a cut record is none
    assert!(SetIntRecord::read(&mut Page::from_bytes(&rec)).is_none());
    let int_rec = SetIntRecord::encode(1, &blk, 0, 0);
    assert!(SetStringRecord::read(&mut Page::from_bytes(&int_rec)).is_none());
    assert!(SetIntRecord::read(&mut Page::from_bytes(&int_rec[..int_rec.len() - 1])).is_none());
    assert!(SetIntRecord::read(&mut Page::from_bytes(&int_rec)).is_some());
    assert!(SetIntRecord::read(&mut Page::from_bytes(&[])).is_none());
    parsed = SetIntRecord::read(&mut Page::from_bytes(&int_rec)).unwrap();
    assert_eq!(parsed.tx_num(), 1);
}

#[test]
fn records_go_to_the_log() {
    let fm = FileMgr::new("d".to_string(), 400);
    let mut lm = LogMgr::new(fm, &"log".to_string());
    let blk = BlockId::new("f".to_string(), 1);
    assert_eq!(SetIntRecord::write_to_log(&mut lm, 1, &blk, 8, 42), 1);
    assert_eq!(SetStringRecord::write_to_log(&mut lm, 1, &blk, 16, "old".to_string()), 2);
    assert_eq!(CommitRecord::write_to_log(&mut lm, 1), 3);
    let mut it = lm.iterator();
    assert_eq!(it.next(lm.file_mgr()), CommitRecord::encode(1));
    assert_eq!(it.next(lm.file_mgr()), SetStringRecord::encode(1, &blk, 16, "old".to_string()));
    assert_eq!(it.next(lm.file_mgr()), SetIntRecord::encode(1, &blk, 8, 42));
    assert!(!it.has_next());
}

#[test]
fn records_undo_through_the_transaction() {
    let (mut bm, mut lt) = prepare("./db/undo", 2);
    let blk = BlockId::new("data".to_string(), 0);
    let mut tx = Transaction::new(&mut bm);
    tx.pin(&mut bm, &blk, 0, 0).unwrap();
    tx.set_int(&mut bm, &mut lt, &blk, 0, 9, false, 0, 0).unwrap();
    tx.unpin(&mut bm, &blk);
    let rec = SetIntRecord::new(Page::from_bytes(&SetIntRecord::encode(1, &blk, 0, 3)));
    assert_eq!(rec.undo(&mut tx, &mut bm, &mut lt, 0, 0), Ok(true));
    let srec = SetStringRecord::new(Page::from_bytes(&SetStringRecord::encode(1, &blk, 8, "s".to_string())));
    assert_eq!(srec.undo(&mut tx, &mut bm, &mut lt, 0, 0), Ok(true));
    assert_eq!(bm.available(), 2);
    tx.pin(&mut bm, &blk, 0, 0).unwrap();
    assert_eq!(tx.get_int(&bm, &mut lt, &blk, 0, 0, 0), Ok(Some(3)));
    assert_eq!(tx.get_string(&bm, &mut lt, &blk, 8, 0, 0), Ok(Some("s".to_string())));
    // a record of another transaction, and one that reaches past the block, are passed over
    let other = SetIntRecord::encode(2, &blk, 0, 100);
    assert_eq!(tx.undo_record(&mut bm, &mut lt, &other, 0, 0), Ok(true));
    let far = SetIntRecord::encode(1, &blk, 393, 100);
    assert_eq!(tx.undo_record(&mut bm, &mut lt, &far, 0, 0), Ok(true));
    let in_log = SetIntRecord::encode(1, &BlockId::new("ruspledb.log".to_string(), 0), 0, 100);
    assert_eq!(tx.undo_record(&mut bm, &mut lt, &in_log, 0, 0), Ok(true));
    assert_eq!(tx.get_int(&bm, &mut lt, &blk, 0, 0, 0), Ok(Some(3)));
    let mine = SetIntRecord::encode(1, &blk, 392, 100);
    assert_eq!(tx.undo_record(&mut bm, &mut lt, &mine, 0, 0), Ok(true));
    assert_eq!(tx.get_int(&bm, &mut lt, &blk, 392, 0, 0), Ok(Some(100)));
}

#[test]
fn rollback_reads_the_whole_log_and_stops_at_a_lock() {
    let (mut bm, mut lt) = prepare("./db/rollback4", 3);
    let blk = BlockId::new("data".to_string(), 0);
    let mut tx = Transaction::new(&mut bm);
    tx.pin(&mut bm, &blk, 0, 0).unwrap();
    tx.set_int(&mut bm, &mut lt, &blk, 0, 41, false, 0, 0).unwrap();
    tx.set_int(&mut bm, &mut lt, &blk, 0, 42, true, 0, 0).unwrap();
    tx.commit(&mut bm, &mut lt);
    assert_eq!(on_disk(&bm, &blk).get_u64(0), 42);

    // the same files under a new pool, whose transactions are numbered from 1 again
    let mut fm = FileMgr::new("./db/rollback4".to_string(), 400);
    for name in bm.log_mgr().file_mgr().file_names() {
        for n in 0..bm.length(&name) {
            let b = BlockId::new(name.clone(), n);
            fm.write(&b, &on_disk(&bm, &b));
        }
    }
    let log_file = "ruspledb.log".to_string();
    assert!(LogMgr::is_valid_log(&fm, &log_file));
    let mut bm = BufferMgr::new(LogMgr::new(fm, &log_file), 3);
    let mut lt = LockTable::new();
    let mut tx = Transaction::new(&mut bm);
    assert_eq!(tx.tx_num(), 1);
    // somebody holds the block for itself alone
    assert_eq!(lt.x_lock(&blk, 0, 0), Ok(true));
    assert_eq!(tx.rollback(&mut bm, &mut lt, 0, 10_000), Ok(false));
    assert_eq!(tx.rollback(&mut bm, &mut lt, 0, 10_001), Err("LockAbortException".to_string()));
    assert_eq!(bm.available(), 3);
    lt.unlock(&blk);
    // the record of the earlier transaction with the number 1 is undone
    assert_eq!(tx.rollback(&mut bm, &mut lt, 0, 10_001), Ok(true));
    assert_eq!(lt.get_lock_val(&blk), 0);
    let mut reader = Transaction::new(&mut bm);
    reader.pin(&mut bm, &blk, 0, 0).unwrap();
    assert_eq!(reader.get_int(&bm, &mut lt, &blk, 0, 0, 0), Ok(Some(41)));
}
