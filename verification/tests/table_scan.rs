use ruspledb::buffer::buffer_mgr::BufferMgr;
use ruspledb::file::block_id::BlockId;
use ruspledb::file::file_mgr::FileMgr;
use ruspledb::logging::log_mgr::LogMgr;
use ruspledb::record::layout::Layout;
use ruspledb::record::schema::Schema;
use ruspledb::record::table_scan::TableScan;
use ruspledb::tx::concurrency::lock_table::LockTable;
use ruspledb::tx::transaction::Transaction;

struct Fixture {
    bm: BufferMgr,
    lt: LockTable,
    tx: Transaction,
    ts: TableScan,
}

impl Fixture {
    fn insert(&mut self) {
        loop {
            match self.ts.insert(&mut self.tx, &mut self.bm, &mut self.lt, 0, 0) {
                Ok(true) => return,
                Ok(false) => {},
                Err(message) => panic!("{}", message),
            }
        }
    }

    fn next(&mut self) -> bool {
        loop {
            match self.ts.next(&mut self.tx, &mut self.bm, &mut self.lt, 0, 0) {
                Ok(Some(found)) => return found,
                Ok(None) => {},
                Err(message) => panic!("{}", message),
            }
        }
    }

    fn set_int(&mut self, field: &str, value: u64) {
        assert_eq!(self.ts.set_int(&mut self.tx, &mut self.bm, &mut self.lt, field, value, 0, 0), Ok(true));
    }

    fn set_string(&mut self, field: &str, value: String) {
        assert_eq!(self.ts.set_string(&mut self.tx, &mut self.bm, &mut self.lt, field, value, 0, 0), Ok(true));
    }

    fn get_int(&mut self, field: &str) -> u64 {
        self.ts.get_int(&mut self.tx, &self.bm, &mut self.lt, field, 0, 0).unwrap().unwrap()
    }

    fn get_string(&mut self, field: &str) -> String {
        self.ts.get_string(&mut self.tx, &self.bm, &mut self.lt, field, 0, 0).unwrap().unwrap()
    }

    fn delete(&mut self) {
        assert_eq!(self.ts.delete(&mut self.tx, &mut self.bm, &mut self.lt, 0, 0), Ok(true));
    }

    fn before_first(&mut self) {
        self.ts.before_first(&mut self.tx, &mut self.bm);
    }
}

fn prepare_ts(db_dir: &str) -> Fixture {
    let block_size = 400;
    let fm = FileMgr::new(db_dir.to_string(), block_size);
    let log_file = "ruspledb.log";
    let lm = LogMgr::new(fm, &log_file.to_string());
    let buffer_size = 8;
    let mut bm = BufferMgr::new(lm, buffer_size);
    let mut tx = Transaction::new(&mut bm);

    let mut schema = Schema::new();
    schema.add_int_field("A");
    schema.add_string_field("B", 9);
    let layout = Layout::new(&schema);
    let ts = TableScan::new(&mut tx, &mut bm, "T", layout);
    Fixture { bm, lt: LockTable::new(), tx, ts }
}

#[test]
fn table_scan_unit_get_int() {
    let mut ts = prepare_ts("./db/tablescanunittest_1");
    ts.insert();
    ts.set_int("A", 25);
    ts.set_int("A", 24);
    ts.set_int("A", 23);

    let mut a = ts.get_int("A");
    assert_eq!(a, 23);
    a = ts.get_int("A");
    assert_eq!(a, 23);

    ts.before_first();
    assert_eq!(ts.ts.current_slot(), -1);
    assert!(ts.ts.needs_open());
}

#[test]
fn table_scan_integration_record() {
    let mut ts = prepare_ts("./db/recordtest");
    let mut rids = Vec::new();
    for i in 0..=50u64 {
        ts.insert();
        let n = (i * 37 + 11) % 49 + 1;
        ts.set_int("A", n);
        ts.set_string("B", "rec".to_string() + &n.to_string());
        let rid = ts.ts.get_rid();
        rids.push((rid.blk_num(), rid.slot()));
        assert_eq!(ts.get_int("A"), n);
        assert_eq!(ts.get_string("B"), format!("rec{}", n));
    }
    // sixteen slots of 25 bytes to a block of 400
    let want: Vec<(u64, u64)> = (0..=50u64).map(|i| (i / 16, i % 16)).collect();
    assert_eq!(rids, want);
    assert_eq!(ts.tx.size(&ts.bm, &"T.tbl".to_string()), 4);

    // the number of a record lies over the end of the flag of its slot, so a slot
    // whose number was written does not count as used
    ts.before_first();
    let mut count = 0;
    while ts.next() {
        count += 1;
    }
    assert_eq!(count, 0);
    assert_eq!(ts.ts.block_number(), 3);
    ts.ts.close(&mut ts.tx, &mut ts.bm);
    ts.tx.commit(&mut ts.bm, &mut ts.lt);
    assert_eq!(ts.bm.available(), 8);
}

#[test]
fn a_scan_finds_the_used_slots_in_the_order_of_the_file() {
    let mut ts = prepare_ts("./db/scan");
    for i in 0..20 {
        ts.insert();
        ts.set_string("B", format!("rec{}", i));
    }
    ts.before_first();
    let mut seen = Vec::new();
    while ts.next() {
        let rid = ts.ts.get_rid();
        let b = ts.get_string("B");
        seen.push((rid.blk_num(), rid.slot(), b.clone()));
        if rid.slot() % 2 == 1 {
            ts.delete();
        }
    }
    let want: Vec<(u64, u64, String)> = (0..20u64).map(|i| (i / 16, i % 16, format!("rec{}", i))).collect();
    assert_eq!(seen, want);
    ts.before_first();
    let mut left = Vec::new();
    while ts.next() {
        left.push(ts.get_string("B"));
    }
    let want: Vec<String> = (0..20u64).filter(|i| (i % 16) % 2 == 0).map(|i| format!("rec{}", i)).collect();
    assert_eq!(left, want);
    // a slot that was given up is given out again
    ts.before_first();
    ts.insert();
    let rid = ts.ts.get_rid();
    assert_eq!((rid.blk_num(), rid.slot()), (0, 1));
    // a rollback takes the records out again
    ts.ts.close(&mut ts.tx, &mut ts.bm);
    assert_eq!(ts.tx.rollback(&mut ts.bm, &mut ts.lt, 0, 0), Ok(true));
    let mut tx = Transaction::new(&mut ts.bm);
    let mut schema = Schema::new();
    schema.add_int_field("A");
    schema.add_string_field("B", 9);
    let mut again = TableScan::new(&mut tx, &mut ts.bm, "T", Layout::new(&schema));
    // the first block is opened and looked through, then the second
    let mut steps = Vec::new();
    loop {
        let step = again.next(&mut tx, &mut ts.bm, &mut ts.lt, 0, 0);
        steps.push((again.block_number(), step.clone()));
        if step != Ok(None) {
            break;
        }
    }
    assert_eq!(steps, vec![(0, Ok(None)), (1, Ok(None)), (1, Ok(None)), (1, Ok(Some(false)))]);
    assert!(again.at_last_block(&tx, &ts.bm));
}

#[test]
fn a_scan_opens_step_by_step() {
    let fm = FileMgr::new("./db/scansteps".to_string(), 400);
    let lm = LogMgr::new(fm, &"ruspledb.log".to_string());
    let mut bm = BufferMgr::new(lm, 1);
    let mut lt = LockTable::new();
    let mut tx = Transaction::new(&mut bm);
    let mut schema = Schema::new();
    schema.add_int_field("A");
    let layout = Layout::new(&schema);
    // another transaction holds the only buffer
    let mut other = Transaction::new(&mut bm);
    let held = BlockId::new("other".to_string(), 0);
    other.pin(&mut bm, &held, 0, 0).unwrap();
    let mut ts = TableScan::new(&mut tx, &mut bm, "T", layout);
    assert_eq!(tx.size(&bm, &"T.tbl".to_string()), 1);
    assert!(ts.needs_open());
    assert_eq!(ts.open(&mut tx, &mut bm, &mut lt, 0, 10_000), Ok(false));
    assert_eq!(ts.insert(&mut tx, &mut bm, &mut lt, 0, 10_000), Ok(false));
    assert_eq!(ts.next(&mut tx, &mut bm, &mut lt, 0, 10_001), Err("BufferAbortException".to_string()));
    other.unpin(&mut bm, &held);
    // the block is pinned in one step and formatted in the next
    assert_eq!(ts.open(&mut tx, &mut bm, &mut lt, 0, 10_001), Ok(false));
    assert!(ts.needs_open());
    assert_eq!(bm.available(), 0);
    assert_eq!(ts.open(&mut tx, &mut bm, &mut lt, 0, 10_001), Ok(true));
    assert!(!ts.needs_open());
    assert_eq!(ts.open(&mut tx, &mut bm, &mut lt, 0, 10_001), Ok(true));
    assert_eq!(ts.insert(&mut tx, &mut bm, &mut lt, 0, 0), Ok(true));
    assert_eq!(ts.current_slot(), 0);
    assert_eq!(ts.set_int(&mut tx, &mut bm, &mut lt, "A", 0x0000_0007_0000_0009, 0, 0), Ok(true));
    assert_eq!(ts.get_int(&mut tx, &bm, &mut lt, "A", 0, 0), Ok(Some(0x0000_0007_0000_0009)));
    // the slot behind: its number ends in what was written there
    assert_eq!(ts.insert(&mut tx, &mut bm, &mut lt, 0, 0), Ok(true));
    assert_eq!(ts.set_int(&mut tx, &mut bm, &mut lt, "A", 21, 0, 0), Ok(true));
    ts.before_first(&mut tx, &mut bm);
    assert_eq!(ts.open(&mut tx, &mut bm, &mut lt, 0, 0), Ok(true));
    assert_eq!(ts.get_int_u32(&mut tx, &bm, &mut lt, "A", 0, 0), Ok(Some(9)));
    assert_eq!(ts.current_slot(), 0);
    assert_eq!(ts.get_int_u32(&mut tx, &bm, &mut lt, "A", 0, 0), Ok(Some(21)));
    assert_eq!(ts.current_slot(), 1);
    ts.close(&mut tx, &mut bm);
    ts.close(&mut tx, &mut bm);
    assert_eq!(bm.available(), 1);
}
