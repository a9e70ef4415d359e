use simpledb::file::block_id::BlockId;
use simpledb::file::manager::FileMgr;
use simpledb::file::page::Page;

#[test]
fn write_and_read() {
    let mut fm = FileMgr::new(400, true);
    let blk = BlockId::new("testfile", 2);
    let mut p1 = Page::new_from_size(fm.blocksize());
    let pos1: usize = 88;
    let _ = p1.set_string(pos1, "abcdefghijklm".to_string());
    let size = Page::max_length("abcdefghijklm".len());
    let pos2: usize = pos1 + size;
    let _ = p1.set_i32(pos2, 345);
    let _ = fm.write(&blk, &p1);

    let mut p2 = Page::new_from_size(fm.blocksize());
    let _ = fm.read(&blk, &mut p2);

    assert_eq!("abcdefghijklm".to_string(), p2.get_string(pos1).unwrap());
    assert_eq!(345, p2.get_i32(pos2).unwrap());
}

#[test]
fn read_of_fresh_block_is_all_zeroes() {
    let fm = FileMgr::new(64, true);
    let blk = BlockId::new("nowhere", 5);
    let mut p = Page::new_from_size(fm.blocksize());
    let _ = p.set_i32(0, -1);
    let _ = fm.read(&blk, &mut p);
    assert_eq!(p.contents(), &vec![0u8; 64]);
}

#[test]
fn append_numbers_blocks_in_order() {
    let mut fm = FileMgr::new(64, true);
    let b0 = fm.append("data").unwrap();
    let b1 = fm.append("data").unwrap();
    assert_eq!(b0.number(), 0);
    assert_eq!(b1.number(), 1);
    assert_eq!(fm.length("data").unwrap(), 2);
    assert_eq!(fm.length("other").unwrap(), 0);
}
