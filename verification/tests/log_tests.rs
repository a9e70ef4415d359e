use simpledb::file::manager::FileMgr;
use simpledb::file::page::{Page, ToPageBytes};
use simpledb::log::manager::LogMgr;

fn make_record(s: &str, n: i32) -> Vec<u8> {
    let npos = Page::max_length(s.len());
    let b = vec![0u8; npos + 32];
    let mut p = Page::new_from_bytes(b);
    let _ = p.set(0, s.to_string());
    let _ = p.set(npos, n);
    p.contents().clone()
}

fn create_records(fm: &mut FileMgr, lm: &mut LogMgr, start: i32, end: i32) {
    let mut i = start;
    while i <= end {
        let rec = make_record(format!("record{}", i).as_str(), i + 100);
        let _ = lm.append(fm, &rec).unwrap();
        i += 1;
    }
}

fn assert_log_records(fm: &mut FileMgr, lm: &mut LogMgr, start: i32, end: i32) {
    let mut it = lm.iterator(fm).unwrap();
    let mut i = start;
    while let Some(rec) = it.next(fm) {
        let p = Page::new_from_bytes(rec);
        let s = p.get_string(0).unwrap();
        let npos = Page::max_length(s.len());
        let val = p.get_i32(npos).unwrap();
        assert_eq!(format!("record{}", i).as_str(), s);
        assert_eq!(i + 100, val);
        i -= 1;
    }
    assert_eq!(end, i + 1);
}

#[test]
fn log_test() {
    let mut fm = FileMgr::new(400, true);
    let mut lm = LogMgr::new(&mut fm, "simpledb.log").unwrap();
    create_records(&mut fm, &mut lm, 1, 35);
    assert_log_records(&mut fm, &mut lm, 35, 1);
    create_records(&mut fm, &mut lm, 36, 70);
    let _ = lm.flush(&mut fm, 65);
    assert_log_records(&mut fm, &mut lm, 70, 1);
}

#[test]
fn empty_log_yields_nothing() {
    let mut fm = FileMgr::new(400, true);
    let mut lm = LogMgr::new(&mut fm, "simpledb.log").unwrap();
    let mut it = lm.iterator(&mut fm).unwrap();
    assert!(it.next(&fm).is_none());
    assert!(!it.has_next(&fm));
}

#[test]
fn reopened_log_keeps_its_records() {
    let mut fm = FileMgr::new(400, true);
    {
        let mut lm = LogMgr::new(&mut fm, "simpledb.log").unwrap();
        create_records(&mut fm, &mut lm, 1, 10);
        let _ = lm.flush(&mut fm, 10);
    }
    let mut lm2 = LogMgr::new(&mut fm, "simpledb.log").unwrap();
    assert_log_records(&mut fm, &mut lm2, 10, 1);
}
