use bytebuffer::ByteBuffer;
use ruspledb::file::block_id::BlockId;
use ruspledb::file::file_mgr::FileMgr;
use ruspledb::file::page::Page;

#[test]
fn integration_file() {
    let db_dir = "./db/filetest";
    let block_size = 400;
    let mut fm = FileMgr::new(db_dir.to_string(), block_size);
    let blk = BlockId::new("testfile".to_string(), 2);

    let pos1 = 88;
    let mut p1 = Page::new(fm.block_size());
    p1.set_string(pos1, "abcdefghijklm".to_string());

    let size = p1.max_length("abcdefghijklm".len());
    let pos2 = pos1 + size;
    p1.set_u64(pos2, 345);

    fm.write(&blk, &p1);

    let mut p2 = Page::new(fm.block_size());

    fm.read(&blk, &mut p2);

    assert_eq!(p2.get_string(pos1), "abcdefghijklm");
    assert_eq!(p2.get_u64(pos2), 345);
}

#[test]
fn block_id_equality_is_by_both_fields() {
    let a = BlockId::new("f".to_string(), 3);
    let b = BlockId::new("f".to_string(), 3);
    let c = BlockId::new("f".to_string(), 4);
    let d = BlockId::new("g".to_string(), 3);
    assert!(a.equals(&b));
    assert!(!a.equals(&c));
    assert!(!a.equals(&d));
    assert_eq!(a.file_name(), "f");
    assert_eq!(c.blk_num(), 4);
    let e = d.clone();
    assert!(e.equals(&d));
}

#[test]
fn page_numbers_are_big_endian() {
    let mut p = Page::new(16);
    assert_eq!(p.to_bytes(), vec![0u8; 16]);
    p.set_u32(0, 0x0102_0304);
    p.set_u64(4, 0x1112_1314_1516_1718);
    p.set_i32(12, -2);
    assert_eq!(
        p.to_bytes(),
        vec![1, 2, 3, 4, 0x11, 0x12, 0x13, 0x14, 0x15, 0x16, 0x17, 0x18, 0xff, 0xff, 0xff, 0xfe]
    );
    assert_eq!(p.get_u32(0), 0x0102_0304);
    assert_eq!(p.get_u64(4), 0x1112_1314_1516_1718);
    assert_eq!(p.get_i32(12), -2);
    assert_eq!(p.get_u32(12), 0xffff_fffe);
    assert_eq!(p.len(), 16);
}

#[test]
fn page_strings_carry_their_length() {
    let mut p = Page::new(32);
    p.set_string(3, "héllo".to_string());
    let bytes = p.to_bytes();
    assert_eq!(&bytes[3..7], &[0, 0, 0, 6]);
    assert_eq!(&bytes[7..13], "héllo".as_bytes());
    assert_eq!(p.get_string(3), "héllo");
    assert_eq!(p.try_get_string(3), Some("héllo".to_string()));
    assert_eq!(p.max_length(6), 10);
    // a length that runs past the end of the page
    p.set_u32(20, 9);
    assert_eq!(p.try_get_string(20), None);
    // bytes that are not UTF-8
    p.set_u32(20, 2);
    p.set_bytes(24, vec![0xff, 0xfe]);
    assert_eq!(p.try_get_string(20), None);
    // no room for a length
    assert_eq!(p.try_get_string(30), None);
    assert_eq!(p.try_get_string(33), None);
}

#[test]
fn page_byte_runs() {
    let mut p = Page::new(24);
    p.set_bytes(10, vec![7, 8, 9]);
    assert_eq!(&p.to_bytes()[9..14], &[0, 7, 8, 9, 0]);
    // a record of the log: a 32-bit length, then the bytes
    p.set_u32(6, 3);
    assert_eq!(p.get_log_bytes(6), vec![7, 8, 9]);
    // a run whose length, a 64-bit number, counts from its own first byte
    p.set_u64(0, 12);
    assert_eq!(p.get_bytes(0), vec![0, 0, 0, 0, 0, 0, 0, 12, 0, 3, 7, 8]);
}

#[test]
fn page_from_buffer_copies_the_bytes() {
    let buffer = ByteBuffer::from_vec(vec![0, 0, 0, 1, 0x41]);
    let mut p = Page::new_from_buffer(&buffer);
    assert_eq!(p.get_string(0), "A");
    assert_eq!(p.contents().as_bytes(), &[0, 0, 0, 1, 0x41]);
    let mut other = ByteBuffer::new();
    other.write_u32(7);
    p.set_buffer(other);
    assert_eq!(p.get_u32(0), 7);
    assert_eq!(p.len(), 4);
    let q = p.clone();
    assert_eq!(q.to_bytes(), vec![0, 0, 0, 7]);
}

#[test]
fn file_mgr_reads_zeros_and_makes_what_is_missing() {
    let mut fm = FileMgr::new("dir".to_string(), 8);
    let name = "data".to_string();
    assert!(fm.is_new(&name));
    assert_eq!(fm.length(&name), 0);
    let mut p = Page::new(8);
    p.set_u64(0, 99);
    fm.read(&BlockId::new("data".to_string(), 2), &mut p);
    assert_eq!(p.to_bytes(), vec![0u8; 8]);
    assert!(!fm.is_new(&name));
    assert_eq!(fm.length(&name), 3);
    assert_eq!(fm.block_size(), 8);
    assert_eq!(fm.db_dir(), "dir");
}

#[test]
fn file_mgr_write_then_read() {
    let mut fm = FileMgr::new("dir".to_string(), 8);
    let name = "data".to_string();
    let mut p = Page::new(8);
    p.set_u64(0, 0x0102030405060708);
    fm.write(&BlockId::new("data".to_string(), 1), &p);
    assert_eq!(fm.length(&name), 2);
    let mut q = Page::new(8);
    fm.read(&BlockId::new("data".to_string(), 0), &mut q);
    assert_eq!(q.to_bytes(), vec![0u8; 8]);
    fm.read_existing(&BlockId::new("data".to_string(), 1), &mut q);
    assert_eq!(q.to_bytes(), vec![1, 2, 3, 4, 5, 6, 7, 8]);
    // another file is not touched
    assert!(fm.is_new(&"other".to_string()));
    assert_eq!(fm.file_names(), vec!["data".to_string()]);
}

#[test]
fn file_mgr_append_grows_by_one_zero_block() {
    let mut fm = FileMgr::new("dir".to_string(), 4);
    let name = "data".to_string();
    let b0 = fm.append(&name);
    assert_eq!(b0.blk_num(), 0);
    assert_eq!(b0.file_name(), "data");
    let mut p = Page::new(4);
    p.set_u32(0, 5);
    fm.write(&b0, &p);
    let b1 = fm.append(&name);
    assert_eq!(b1.blk_num(), 1);
    assert_eq!(fm.length(&name), 2);
    let mut q = Page::new(4);
    fm.read(&b1, &mut q);
    assert_eq!(q.to_bytes(), vec![0u8; 4]);
    fm.read(&b0, &mut q);
    assert_eq!(q.get_u32(0), 5);
}
