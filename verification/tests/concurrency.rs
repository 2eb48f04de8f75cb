use ruspledb::buffer::buffer_mgr::BufferMgr;
use ruspledb::file::block_id::BlockId;
use ruspledb::file::file_mgr::FileMgr;
use ruspledb::logging::log_mgr::LogMgr;
use ruspledb::tx::concurrency::concurrency_mgr::ConcurrencyMgr;
use ruspledb::tx::concurrency::lock_table::LockTable;
use ruspledb::tx::transaction::Transaction;

#[test]
fn integration_concurrency() {
    let db_dir = "./db/concurrencytest";
    let block_size = 400;
    let fm = FileMgr::new(db_dir.to_string(), block_size);
    let log_file = "ruspledb.log";
    let lm = LogMgr::new(fm, &log_file.to_string());
    let buffer_size = 8;
    let mut bm = BufferMgr::new(lm, buffer_size);
    let mut lt = LockTable::new();
    run_a(&mut bm, &mut lt);
    run_b(&mut bm, &mut lt);
    run_c(&mut bm, &mut lt);
    assert_eq!(bm.available(), 8);
}

fn run_a(bm: &mut BufferMgr, lt: &mut LockTable) {
    let mut tx_a = Transaction::new(bm);
    let blk1 = BlockId::new("testfile".to_string(), 1);
    let blk2 = BlockId::new("testfile".to_string(), 2);
    tx_a.pin(bm, &blk1, 0, 0).unwrap();
    tx_a.pin(bm, &blk2, 0, 0).unwrap();
    assert_eq!(tx_a.get_int(bm, lt, &blk1, 0, 0, 0), Ok(Some(0)));
    assert_eq!(lt.get_lock_val(&blk1), 1);
    assert_eq!(tx_a.get_int(bm, lt, &blk2, 0, 0, 0), Ok(Some(0)));
    tx_a.commit(bm, lt);
    assert_eq!(lt.get_lock_val(&blk1), 0);
    assert_eq!(lt.get_lock_val(&blk2), 0);
}

fn run_b(bm: &mut BufferMgr, lt: &mut LockTable) {
    let mut tx_b = Transaction::new(bm);
    let blk1 = BlockId::new("testfile".to_string(), 1);
    let blk2 = BlockId::new("testfile".to_string(), 2);
    tx_b.pin(bm, &blk1, 0, 0).unwrap();
    tx_b.pin(bm, &blk2, 0, 0).unwrap();
    assert_eq!(tx_b.set_int(bm, lt, &blk2, 0, 0, false, 0, 0), Ok(true));
    assert_eq!(tx_b.get_int(bm, lt, &blk1, 0, 0, 0), Ok(Some(0)));
    tx_b.commit(bm, lt);
}

fn run_c(bm: &mut BufferMgr, lt: &mut LockTable) {
    let mut tx_c = Transaction::new(bm);
    let blk1 = BlockId::new("testfile".to_string(), 1);
    let blk2 = BlockId::new("testfile".to_string(), 2);
    tx_c.pin(bm, &blk1, 0, 0).unwrap();
    tx_c.pin(bm, &blk2, 0, 0).unwrap();
    assert_eq!(tx_c.set_int(bm, lt, &blk1, 0, 0, false, 0, 0), Ok(true));
    assert_eq!(tx_c.get_int(bm, lt, &blk2, 0, 0, 0), Ok(Some(0)));
    tx_c.commit(bm, lt);
}

#[test]
fn lock_table_counts_shared_holders() {
    let mut lt = LockTable::new();
    let a = BlockId::new("f".to_string(), 0);
    let b = BlockId::new("f".to_string(), 1);
    assert_eq!(lt.get_lock_val(&a), 0);
    assert!(!lt.has_x_lock(&a));
    assert_eq!(lt.s_lock(&a, 0, 0), Ok(true));
    assert_eq!(lt.s_lock(&a, 0, 50_000), Ok(true));
    assert_eq!(lt.s_lock(&b, 0, 0), Ok(true));
    assert_eq!(lt.get_lock_val(&a), 2);
    assert_eq!(lt.get_lock_val(&b), 1);
    lt.unlock(&a);
    assert_eq!(lt.get_lock_val(&a), 1);
    lt.unlock(&a);
    assert_eq!(lt.get_lock_val(&a), 0);
    // letting go of a lock that nobody holds changes nothing
    lt.unlock(&a);
    assert_eq!(lt.get_lock_val(&a), 0);
    assert_eq!(lt.get_lock_val(&b), 1);
    assert!(!lt.wait_too_long(100, 10_100));
    assert!(lt.wait_too_long(100, 10_101));
    assert!(!lt.wait_too_long(100, 50));
}

#[test]
fn concurrency_mgr_asks_the_table_once_for_a_block() {
    let mut lt = LockTable::new();
    let mut cm = ConcurrencyMgr::new();
    let mut other = ConcurrencyMgr::new();
    let a = BlockId::new("f".to_string(), 0);
    let b = BlockId::new("f".to_string(), 1);
    assert!(!cm.has_lock(&a));
    assert_eq!(cm.s_lock(&mut lt, &a, 0, 0), Ok(true));
    assert_eq!(cm.s_lock(&mut lt, &a, 0, 0), Ok(true));
    assert_eq!(lt.get_lock_val(&a), 1);
    assert!(cm.has_lock(&a));
    assert!(!cm.has_x_lock(&a));
    // an exclusive lock on a block that is held shared is noted here, not in the table
    assert_eq!(cm.x_lock(&mut lt, &a, 0, 0), Ok(true));
    assert!(cm.has_x_lock(&a));
    assert_eq!(lt.get_lock_val(&a), 1);
    assert_eq!(cm.x_lock(&mut lt, &a, 0, 0), Ok(true));
    assert_eq!(lt.get_lock_val(&a), 1);
    // an exclusive lock on a new block goes the way of a shared one
    assert_eq!(cm.x_lock(&mut lt, &b, 0, 0), Ok(true));
    assert!(cm.has_x_lock(&b));
    assert_eq!(lt.get_lock_val(&b), 1);
    assert_eq!(other.s_lock(&mut lt, &b, 0, 0), Ok(true));
    assert_eq!(lt.get_lock_val(&b), 2);
    cm.release(&mut lt);
    assert!(!cm.has_lock(&a));
    assert!(!cm.has_x_lock(&b));
    assert_eq!(lt.get_lock_val(&a), 0);
    assert_eq!(lt.get_lock_val(&b), 1);
    other.release(&mut lt);
    assert_eq!(lt.get_lock_val(&b), 0);
}

#[test]
fn a_shared_lock_waits_for_the_exclusive_holder_and_aborts_when_late() {
    let mut lt = LockTable::new();
    let a = BlockId::new("f".to_string(), 0);
    assert_eq!(lt.x_lock(&a, 0, 0), Ok(true));
    assert!(lt.has_x_lock(&a));
    assert_eq!(lt.get_lock_val(&a), -1);
    assert_eq!(lt.s_lock(&a, 100, 100), Ok(false));
    assert_eq!(lt.s_lock(&a, 100, 10_100), Ok(false));
    assert_eq!(lt.s_lock(&a, 100, 10_101), Err("LockAbortException".to_string()));
    assert_eq!(lt.x_lock(&a, 100, 10_100), Ok(false));
    assert_eq!(lt.x_lock(&a, 100, 10_101), Err("LockAbortException".to_string()));
    assert_eq!(lt.get_lock_val(&a), -1);
    // the exclusive holder lets go, and the entry is gone
    lt.unlock(&a);
    assert_eq!(lt.get_lock_val(&a), 0);
    assert_eq!(lt.s_lock(&a, 100, 10_101), Ok(true));
    // one shared holder may take the lock for itself alone, two may not
    assert_eq!(lt.x_lock(&a, 0, 0), Ok(true));
    lt.unlock(&a);
    lt.s_lock(&a, 0, 0).unwrap();
    lt.s_lock(&a, 0, 0).unwrap();
    assert_eq!(lt.x_lock(&a, 0, 1), Ok(false));
    assert_eq!(lt.get_lock_val(&a), 2);
}

#[test]
fn a_transaction_waits_for_a_lock_and_aborts_when_late() {
    let fm = FileMgr::new("./db/lockabort".to_string(), 400);
    let lm = LogMgr::new(fm, &"ruspledb.log".to_string());
    let mut bm = BufferMgr::new(lm, 3);
    let mut lt = LockTable::new();
    let blk = BlockId::new("data".to_string(), 0);
    let mut tx = Transaction::new(&mut bm);
    tx.pin(&mut bm, &blk, 0, 0).unwrap();
    tx.set_int(&mut bm, &mut lt, &blk, 0, 1, true, 0, 0).unwrap();
    tx.commit(&mut bm, &mut lt);
    let mut cm = ConcurrencyMgr::new();
    // somebody holds the block for itself alone
    assert_eq!(lt.x_lock(&blk, 0, 0), Ok(true));
    let mut tx2 = Transaction::new(&mut bm);
    tx2.pin(&mut bm, &blk, 0, 0).unwrap();
    assert_eq!(tx2.get_int(&bm, &mut lt, &blk, 0, 7, 10_007), Ok(None));
    assert_eq!(tx2.get_int(&bm, &mut lt, &blk, 0, 7, 10_008), Err("LockAbortException".to_string()));
    assert_eq!(tx2.get_string(&bm, &mut lt, &blk, 8, 7, 8), Ok(None));
    assert_eq!(tx2.set_int(&mut bm, &mut lt, &blk, 0, 5, true, 7, 8), Ok(false));
    assert_eq!(
        tx2.set_string(&mut bm, &mut lt, &blk, 8, "x".to_string(), false, 7, 10_008),
        Err("LockAbortException".to_string())
    );
    assert_eq!(cm.s_lock(&mut lt, &blk, 7, 8), Ok(false));
    assert_eq!(cm.x_lock(&mut lt, &blk, 7, 10_008), Err("LockAbortException".to_string()));
    assert!(!cm.has_lock(&blk));
    // nothing was written, to the block or to the log
    assert_eq!(bm.log_mgr().get_latest_lsn(), 2);
    // a rollback of the first transaction's number stops at the lock
    let mut again = Transaction::new(&mut bm);
    assert_eq!(again.tx_num(), 3);
    lt.unlock(&blk);
    assert_eq!(tx2.get_int(&bm, &mut lt, &blk, 0, 7, 10_008), Ok(Some(1)));
    assert_eq!(tx2.set_int(&mut bm, &mut lt, &blk, 0, 5, true, 7, 10_008), Ok(true));
    tx2.unpin(&mut bm, &blk);
    let other = BlockId::new("data".to_string(), 1);
    assert_eq!(tx2.pin(&mut bm, &other, 0, 0), Ok(true));
    assert_eq!(tx2.set_int(&mut bm, &mut lt, &other, 0, 6, true, 0, 0), Ok(true));
    // the second block gets an exclusive holder behind the back of the transaction
    lt.unlock(&other);
    assert_eq!(lt.x_lock(&other, 0, 0), Ok(true));
    // the transaction keeps its own locks, so its rollback does not wait
    assert_eq!(tx2.rollback(&mut bm, &mut lt, 0, 0), Ok(true));
    assert_eq!(bm.available(), 3);
}
