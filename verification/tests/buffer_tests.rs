use simpledb::buffer::manager::BufferMgr;
use simpledb::errors::DbError;
use simpledb::file::block_id::BlockId;
use simpledb::file::manager::FileMgr;
use simpledb::file::page::Page;
use simpledb::log::manager::LogMgr;

#[test]
fn buffer_test() {
    let mut fm = FileMgr::new(400, true);
    let mut lm = LogMgr::new(&mut fm, "simpledb.log").unwrap();
    let mut bm = BufferMgr::new(&fm, &lm, 3);

    let i1 = bm.pin(&mut fm, &mut lm, &BlockId::new("testfile", 1)).unwrap();
    let n = {
        let b1 = bm.buffer_mut(i1);
        let p = b1.contents();
        let n = p.get_i32(80).unwrap();
        let _ = p.set_i32(80, n + 1);
        b1.set_modified(1, 0);
        n
    };
    assert_eq!(n, 0);
    let _ = bm.unpin(i1);

    // one of these pins forces the first frame's page to the store
    let i2 = bm.pin(&mut fm, &mut lm, &BlockId::new("testfile", 2)).unwrap();
    let _i3 = bm.pin(&mut fm, &mut lm, &BlockId::new("testfile", 3)).unwrap();
    let _i4 = bm.pin(&mut fm, &mut lm, &BlockId::new("testfile", 4)).unwrap();

    let _ = bm.unpin(i2);
    let i5 = bm.pin(&mut fm, &mut lm, &BlockId::new("testfile", 1)).unwrap();
    {
        let b2 = bm.buffer_mut(i5);
        let p = b2.contents();
        let _ = p.set_i32(80, 9999);
        b2.set_modified(1, 0);
    }
    let _ = bm.unpin(i5);

    // the flushed copy of block 1 carries the first write, not the second
    let mut check = Page::new_from_size(fm.blocksize());
    let _ = fm.read(&BlockId::new("testfile", 1), &mut check);
    assert_eq!(check.get_i32(80).unwrap(), 1);
}

#[test]
fn buffermgr_test() {
    let mut fm = FileMgr::new(400, true);
    let mut lm = LogMgr::new(&mut fm, "simpledb.log").unwrap();
    let mut bm = BufferMgr::new(&fm, &lm, 3);

    let b0 = bm.pin(&mut fm, &mut lm, &BlockId::new("testfile", 0)).unwrap();
    let b1 = bm.pin(&mut fm, &mut lm, &BlockId::new("testfile", 1)).unwrap();
    let b2 = bm.pin(&mut fm, &mut lm, &BlockId::new("testfile", 2)).unwrap();
    let _ = bm.unpin(b1);

    let b3 = bm.pin(&mut fm, &mut lm, &BlockId::new("testfile", 0)).unwrap();
    let b4 = bm.pin(&mut fm, &mut lm, &BlockId::new("testfile", 1)).unwrap();

    assert_eq!(bm.available().unwrap(), 0);

    let result = bm.pin(&mut fm, &mut lm, &BlockId::new("testfile", 3));
    assert!(result.is_err());
    assert_eq!(result.unwrap_err(), DbError::BufferAbort);

    let _ = bm.unpin(b2);
    let b5 = bm.pin(&mut fm, &mut lm, &BlockId::new("testfile", 3)).unwrap();

    assert_eq!(bm.buffer(b0).block().unwrap().number(), 0);
    assert_eq!(bm.buffer(b3).block().unwrap().number(), 0);
    assert_eq!(b0, b3);
    assert_eq!(bm.buffer(b4).block().unwrap().number(), 1);
    assert_eq!(bm.buffer(b5).block().unwrap().number(), 3);
}

#[test]
fn buffer_pressure_abort() {
    let mut fm = FileMgr::new(400, true);
    let mut lm = LogMgr::new(&mut fm, "simpledb.log").unwrap();
    let mut bm = BufferMgr::new(&fm, &lm, 3);
    let _a = bm.pin(&mut fm, &mut lm, &BlockId::new("f", 0)).unwrap();
    let _b = bm.pin(&mut fm, &mut lm, &BlockId::new("f", 1)).unwrap();
    let _c = bm.pin(&mut fm, &mut lm, &BlockId::new("f", 2)).unwrap();
    let fourth = bm.pin(&mut fm, &mut lm, &BlockId::new("f", 3));
    assert_eq!(fourth.unwrap_err(), DbError::BufferAbort);
}

#[test]
fn buffer_pin_flush_file_contents() {
    // pool of three, block size 400: replacing a dirty frame writes its
    // page, and the stored block shows the write at byte offset 80
    let mut fm = FileMgr::new(400, true);
    let mut lm = LogMgr::new(&mut fm, "simpledb.log").unwrap();
    let mut bm = BufferMgr::new(&fm, &lm, 3);

    let i1 = bm.pin(&mut fm, &mut lm, &BlockId::new("f", 1)).unwrap();
    {
        let b = bm.buffer_mut(i1);
        let p = b.contents();
        let _ = p.set_i32(80, 12345);
        b.set_modified(1, 0);
    }
    let _ = bm.unpin(i1);
    let _p2 = bm.pin(&mut fm, &mut lm, &BlockId::new("f", 2)).unwrap();
    let _p3 = bm.pin(&mut fm, &mut lm, &BlockId::new("f", 3)).unwrap();
    let _p4 = bm.pin(&mut fm, &mut lm, &BlockId::new("f", 4)).unwrap();

    let mut check = Page::new_from_size(fm.blocksize());
    let _ = fm.read(&BlockId::new("f", 1), &mut check);
    assert_eq!(check.get_i32(80).unwrap(), 12345);
    assert_eq!(check.contents()[80..84], [0x00, 0x00, 0x30, 0x39]);
}
