use ruspledb::buffer::buffer_mgr::BufferMgr;
use ruspledb::file::block_id::BlockId;
use ruspledb::file::file_mgr::FileMgr;
use ruspledb::logging::log_mgr::LogMgr;
use ruspledb::record::layout::Layout;
use ruspledb::record::record_page::RecordPage;
use ruspledb::record::schema::Schema;
use ruspledb::tx::concurrency::lock_table::LockTable;
use ruspledb::tx::transaction::Transaction;

struct Fixture {
    bm: BufferMgr,
    lt: LockTable,
    tx: Transaction,
    rp: RecordPage,
    blk: BlockId,
}

impl Fixture {
    fn set_int(&mut self, slot: u64, field: &str, value: u64) {
        assert_eq!(self.rp.set_int(&mut self.tx, &mut self.bm, &mut self.lt, slot, field, value, 0, 0), Ok(true));
    }

    fn set_string(&mut self, slot: u64, field: &str, value: &str) {
        let r = self.rp.set_string(&mut self.tx, &mut self.bm, &mut self.lt, slot, field, value.to_string(), 0, 0);
        assert_eq!(r, Ok(true));
    }

    fn get_int(&mut self, slot: u64, field: &str) -> u64 {
        self.rp.get_int(&mut self.tx, &self.bm, &mut self.lt, slot, field, 0, 0).unwrap().unwrap()
    }

    fn get_int_u32(&mut self, slot: u64, field: &str) -> u32 {
        self.rp.get_int_u32(&mut self.tx, &self.bm, &mut self.lt, slot, field, 0, 0).unwrap().unwrap()
    }

    fn get_string(&mut self, slot: u64, field: &str) -> String {
        self.rp.get_string(&mut self.tx, &self.bm, &mut self.lt, slot, field, 0, 0).unwrap().unwrap()
    }

    fn insert_after(&mut self, slot: i64) -> i64 {
        self.rp.insert_after(&mut self.tx, &mut self.bm, &mut self.lt, slot, 0, 0).unwrap().unwrap()
    }

    fn next_after(&mut self, slot: i64) -> i64 {
        self.rp.next_after(&mut self.tx, &self.bm, &mut self.lt, slot, 0, 0).unwrap().unwrap()
    }

    fn delete(&mut self, slot: u64) {
        assert_eq!(self.rp.delete(&mut self.tx, &mut self.bm, &mut self.lt, slot, 0, 0), Ok(true));
    }
}

fn prepare_rp(db_dir: &str) -> Fixture {
    let block_size = 400;
    let fm = FileMgr::new(db_dir.to_string(), block_size);
    let log_file = "ruspledb.log";
    let lm = LogMgr::new(fm, &log_file.to_string());
    let buffer_size = 3;
    let mut bm = BufferMgr::new(lm, buffer_size);
    let mut lt = LockTable::new();
    let mut tx = Transaction::new(&mut bm);

    let mut schema = Schema::new();
    schema.add_int_field("A");
    schema.add_string_field("B", 9);
    let layout = Layout::new(&schema);
    let blk = tx.append(&mut bm, &"testfile".to_string());
    tx.pin(&mut bm, &blk, 0, 0).unwrap();
    let rp = RecordPage::new(&mut tx, &mut bm, &blk, layout, 0, 0).unwrap().unwrap();
    assert_eq!(rp.format(&mut tx, &mut bm, &mut lt, 0, 0), Ok(true));
    Fixture { bm, lt, tx, rp, blk }
}

#[test]
fn record_page_unit_get_int() {
    let mut rp = prepare_rp("./db/recordunittest_1");
    rp.set_int(0, "A", 5);
    rp.set_int(1, "A", 27);
    rp.set_int(2, "A", 214);
    let i1 = rp.get_int(0, "A");
    let i2 = rp.get_int(1, "A");
    let i3 = rp.get_int(2, "A");
    assert_eq!(i1, 5);
    assert_eq!(i2, 27);
    assert_eq!(i3, 214);
}

#[test]
fn unit_get_string() {
    let mut rp = prepare_rp("./db/recordunittest_2");
    rp.set_string(0, "B", "rec5");
    rp.set_string(1, "B", "rec27");
    rp.set_string(2, "B", "rec214");
    let s1 = rp.get_string(0, "B");
    let s2 = rp.get_string(1, "B");
    let s3 = rp.get_string(2, "B");
    assert_eq!(s1, "rec5");
    assert_eq!(s2, "rec27");
    assert_eq!(s3, "rec214");
}

#[test]
fn unit_search_after() {
    let mut rp = prepare_rp("./db/recordunittest_3");
    rp.set_int(0, "A", 25);
    rp.set_int(1, "A", 23);
    rp.set_int(2, "A", 21);
    rp.set_string(0, "B", "rec25");
    rp.set_string(1, "B", "rec27");
    rp.set_string(2, "B", "rec214");
    let mut slot = rp.insert_after(-1);
    assert_eq!(slot, 0);

    slot = rp.insert_after(slot);
    assert_eq!(slot, 1);

    slot = rp.insert_after(slot);
    assert_eq!(slot, 2);

    slot = rp.insert_after(slot);
    assert_eq!(slot, 3);

    slot = rp.next_after(-1);
    assert_eq!(slot, 0);

    slot = rp.next_after(slot);
    assert_eq!(slot, 1);

    slot = rp.next_after(slot);
    assert_eq!(slot, 2);

    slot = rp.next_after(slot);
    assert_eq!(slot, 3);

    slot = rp.next_after(slot);
    // rp.insert_after(4) is not operated
    assert_eq!(slot, -1);

    let mut a = rp.get_int_u32(0, "A");
    assert_eq!(a, 25);
    a = rp.get_int_u32(2, "A");
    assert_eq!(a, 21);

    let mut b = rp.get_string(0, "B");
    assert_eq!(b, "rec25");
    b = rp.get_string(1, "B");
    assert_eq!(b, "rec27");
    b = rp.get_string(2, "B");
    assert_eq!(b, "rec214");
}

#[test]
fn unit_search_after_2() {
    let mut rp = prepare_rp("./db/recordunittest_4");
    let mut slot = rp.insert_after(-1);
    assert_eq!(slot, 0);

    rp.set_int(slot.try_into().unwrap(), "A", 25);
    slot = rp.insert_after(slot);
    assert_eq!(slot, 1);

    rp.set_int(slot.try_into().unwrap(), "A", 24);
    slot = rp.insert_after(slot);
    assert_eq!(slot, 2);

    rp.set_int(slot.try_into().unwrap(), "A", 23);
    slot = rp.insert_after(slot);
    assert_eq!(slot, 3);

    rp.set_int(slot.try_into().unwrap(), "A", 22);
    slot = rp.insert_after(slot);
    assert_eq!(slot, 4);

    slot = rp.next_after(-1);
    // the number of a record is written over the end of the flag of its slot
    assert_eq!(slot, 4);

    slot = rp.next_after(slot);
    // rp.insert_after(5) is not operated
    assert_eq!(slot, -1);

    let mut a = rp.get_int(0, "A");
    assert_eq!(a, 25);

    a = rp.get_int(3, "A");
    assert_eq!(a, 22);
}

#[test]
fn unit_search_after_while() {
    let mut rp = prepare_rp("./db/recordunittest_4");
    let mut slot = rp.insert_after(-1);
    assert_eq!(slot, 0);

    rp.set_int(slot.try_into().unwrap(), "A", 25);
    slot = rp.insert_after(slot);
    assert_eq!(slot, 1);

    rp.set_int(slot.try_into().unwrap(), "A", 24);
    slot = rp.insert_after(slot);
    assert_eq!(slot, 2);
    rp.set_int(slot.try_into().unwrap(), "A", 23);
    slot = rp.insert_after(slot);
    assert_eq!(slot, 3);
    rp.set_int(slot.try_into().unwrap(), "A", 22);
    slot = rp.insert_after(slot);
    assert_eq!(slot, 4);
    rp.set_int(slot.try_into().unwrap(), "A", 22);
    slot = rp.insert_after(slot);
    assert_eq!(slot, 5);
    rp.set_int(slot.try_into().unwrap(), "A", 22);
    slot = rp.insert_after(slot);
    assert_eq!(slot, 6);
    rp.set_int(slot.try_into().unwrap(), "A", 22);
    slot = rp.insert_after(slot);
    assert_eq!(slot, 7);
    rp.set_int(slot.try_into().unwrap(), "A", 22);
    slot = rp.insert_after(slot);
    assert_eq!(slot, 8);
    rp.set_int(slot.try_into().unwrap(), "A", 22);
    slot = rp.insert_after(slot);
    assert_eq!(slot, 9);
    rp.set_int(slot.try_into().unwrap(), "A", 22);
    slot = rp.insert_after(slot);
    assert_eq!(slot, 10);
    rp.set_int(slot.try_into().unwrap(), "A", 22);
    slot = rp.insert_after(slot);
    assert_eq!(slot, 11);
    rp.set_int(slot.try_into().unwrap(), "A", 22);
    slot = rp.insert_after(slot);
    assert_eq!(slot, 12);
    rp.set_int(slot.try_into().unwrap(), "A", 22);
    slot = rp.insert_after(slot);
    assert_eq!(slot, 13);
    rp.set_int(slot.try_into().unwrap(), "A", 22);
    slot = rp.insert_after(slot);
    assert_eq!(slot, 14);
    rp.set_int(slot.try_into().unwrap(), "A", 22);
    slot = rp.insert_after(slot);
    assert_eq!(slot, 15);
    rp.set_int(slot.try_into().unwrap(), "A", 22);
    slot = rp.insert_after(slot);
    assert_eq!(slot, -1);

    slot = rp.next_after(-1);
    // rp.insert_after(16) is not operated
    assert_eq!(slot, -1);

    let mut a = rp.get_int(0, "A");
    assert_eq!(a, 25);

    a = rp.get_int(3, "A");
    assert_eq!(a, 22);
}

#[test]
fn record_integration_record() {
    let mut rp = prepare_rp("./db/recordtest");
    let values: [u64; 16] = [7, 31, 24, 25, 49, 1, 12, 40, 33, 18, 26, 5, 44, 23, 38, 10];
    let mut slot = rp.insert_after(-1);
    for (manual_slot, n) in values.iter().enumerate() {
        rp.set_int(manual_slot as u64, "A", *n);
        rp.set_string(manual_slot as u64, "B", &("rec".to_string() + &n.to_string()));
    }
    // the flags are set after the numbers are in
    slot = rp.insert_after(slot - 1);
    while slot >= 0 {
        slot = rp.insert_after(slot);
    }

    let mut count = 0;
    slot = rp.next_after(-1);
    while slot >= 0 {
        let a = rp.get_int_u32(slot.try_into().unwrap(), "A");
        let b = rp.get_string(slot.try_into().unwrap(), "B");
        assert_eq!(b, format!("rec{}", a));
        if a < 25 {
            count += 1;
            rp.delete(slot.try_into().unwrap());
        }
        slot = rp.next_after(slot);
    }
    assert_eq!(count, 8);

    let mut remaining = Vec::new();
    slot = rp.next_after(-1);
    while slot >= 0 {
        let a = rp.get_int_u32(slot.try_into().unwrap(), "A");
        let b = rp.get_string(slot.try_into().unwrap(), "B");
        remaining.push((slot, a, b));
        slot = rp.next_after(slot);
    }
    let want: Vec<(i64, u32, String)> = values
        .iter()
        .enumerate()
        .filter(|(_, n)| **n >= 25)
        .map(|(i, n)| (i as i64, *n as u32, format!("rec{}", n)))
        .collect();
    assert_eq!(remaining, want);
    let blk = rp.blk.clone();
    rp.tx.unpin(&mut rp.bm, &blk);
    rp.tx.commit(&mut rp.bm, &mut rp.lt);
    assert_eq!(rp.bm.available(), 3);
}

#[test]
fn format_clears_flags_and_fields_and_nothing_else() {
    let block_size = 60;
    let fm = FileMgr::new("./db/format".to_string(), block_size);
    let lm = LogMgr::new(fm, &"ruspledb.log".to_string());
    let mut bm = BufferMgr::new(lm, 2);
    let mut lt = LockTable::new();
    let mut tx = Transaction::new(&mut bm);
    let mut schema = Schema::new();
    schema.add_int_field("A");
    schema.add_string_field("B", 9);
    let layout = Layout::new(&schema);
    let blk = BlockId::new("t".to_string(), 0);
    tx.pin(&mut bm, &blk, 0, 0).unwrap();
    let mut page = bm.buffer(0).contents();
    page.set_bytes(0, vec![0xee; 60]);
    bm.write_page(0, page, 1, -1);
    let rp = RecordPage::new(&mut tx, &mut bm, &blk, layout, 0, 0).unwrap().unwrap();
    assert!(rp.block().equals(&blk));
    assert_eq!(rp.format(&mut tx, &mut bm, &mut lt, 0, 0), Ok(true));
    // two slots of 25 bytes fit: flag and number (12 bytes) and the length of the
    // string (4 bytes) are cleared, the room of the string and the rest stay
    let mut want = vec![0xeeu8; 60];
    for slot in 0..2 {
        for byte in &mut want[slot * 25..slot * 25 + 16] {
            *byte = 0;
        }
    }
    assert_eq!(bm.buffer(0).contents().to_bytes(), want);
    // formatting writes no log record
    assert_eq!(bm.log_mgr().get_latest_lsn(), 0);
    assert_eq!(rp.next_after(&mut tx, &bm, &mut lt, -1, 0, 0), Ok(Some(-1)));
    assert_eq!(rp.insert_after(&mut tx, &mut bm, &mut lt, 0, 0, 0), Ok(Some(1)));
    assert_eq!(rp.insert_after(&mut tx, &mut bm, &mut lt, 1, 0, 0), Ok(Some(-1)));
    assert_eq!(rp.search_after(&mut tx, &bm, &mut lt, -1, 1, 0, 0), Ok(Some(1)));
    assert_eq!(bm.log_mgr().get_latest_lsn(), 1);
    // a rollback takes the record out again
    assert_eq!(tx.rollback(&mut bm, &mut lt, 0, 0), Ok(true));
    assert_eq!(bm.buffer(0).contents().to_bytes(), want);
}
