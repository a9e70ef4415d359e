use simpledb::file::block_id::BlockId;
use simpledb::file::manager::FileMgr;
use simpledb::file::page::Page;
use simpledb::log::manager::LogMgr;
use simpledb::tx::recovery::logrecord::{
    create_log_record, LogRecord, SetI32Record, SetStringRecord, TxType,
};

const LONG_TEXT: &str = "A database system is a common, visible tool in the corporate world--employees frequently interact directly with database systems to submit data or create reports.";

fn simple_record(tag: u8, txnum: i32) -> Vec<u8> {
    let b = txnum.to_be_bytes();
    vec![0x00, 0x00, 0x00, tag, b[0], b[1], b[2], b[3]]
}

fn data_record(tag: u8, txnum: i32, filename: &str, blknum: u32, offset: u32, value: &[u8]) -> Vec<u8> {
    let mut v = vec![0x00, 0x00, 0x00, tag];
    v.extend_from_slice(&txnum.to_be_bytes());
    v.extend_from_slice(&(filename.len() as u32).to_be_bytes());
    v.extend_from_slice(filename.as_bytes());
    v.extend_from_slice(&blknum.to_be_bytes());
    v.extend_from_slice(&offset.to_be_bytes());
    v.extend_from_slice(value);
    v
}

fn string_value(s: &str) -> Vec<u8> {
    let mut v = (s.len() as u32).to_be_bytes().to_vec();
    v.extend_from_slice(s.as_bytes());
    v
}

#[test]
fn test_create_log_record() {
    let cases: Vec<(Vec<u8>, TxType, i32)> = vec![
        (vec![0x00, 0x00, 0x00, 0x00], TxType::CHECKPOINT, -1),
        (simple_record(1, 17), TxType::START, 17),
        (simple_record(2, 23), TxType::COMMIT, 23),
        (simple_record(3, 31), TxType::ROLLBACK, 31),
        (
            data_record(4, 47, "testfile_seti32_record", 9, 0, &55i32.to_be_bytes()),
            TxType::SETI32,
            47,
        ),
        (
            data_record(5, 59, "testfile_setstring_record", 3, 0, &string_value(LONG_TEXT)),
            TxType::SETSTRING,
            59,
        ),
    ];
    for (bytes, expected_txtype, expected_txnum) in cases {
        let actual: LogRecord = create_log_record(bytes).unwrap();
        assert_eq!(expected_txtype, actual.op());
        assert_eq!(expected_txnum, actual.tx_number());
    }
}

#[test]
fn test_set_i32_record_new() {
    let bytes = data_record(4, 12, "testfile_seti32_record", 7, 0, &(-77i32).to_be_bytes());
    let rec = SetI32Record::new(Page::new_from_bytes(bytes)).unwrap();
    assert_eq!(rec.val, -77);
    assert_eq!(rec.txnum, 12);
    assert_eq!(rec.blk.number(), 7);
    assert_eq!(rec.blk.file_name(), "testfile_seti32_record");
}

#[test]
fn test_set_string_record_new() {
    let bytes = data_record(5, 21, "testfile_setstring_record", 2, 0, &string_value(LONG_TEXT));
    let rec = SetStringRecord::new(Page::new_from_bytes(bytes)).unwrap();
    assert_eq!(rec.val, LONG_TEXT);
    assert_eq!(rec.txnum, 21);
}

#[test]
fn test_set_i32_record_write_to_log() {
    let mut fm = FileMgr::new(400, true);
    let mut lm = LogMgr::new(&mut fm, "simpledb1.log").unwrap();
    let block_id = BlockId::new("testfile", 2);
    let _ = SetI32Record::write_to_log(&mut fm, &mut lm, 10, &block_id, 2, 0xFF).unwrap();
    let mut it = lm.iterator(&mut fm).unwrap();
    let rec = SetI32Record::new(Page::new_from_bytes(it.next(&fm).unwrap())).unwrap();
    assert_eq!(rec.val, 0xFF);
    assert_eq!(rec.txnum, 10);
    assert_eq!(rec.offset, 2);
}

#[test]
fn test_set_string_record_write_to_log() {
    let mut fm = FileMgr::new(400, true);
    let mut lm = LogMgr::new(&mut fm, "simpledb2.log").unwrap();
    let block_id = BlockId::new("testfile", 3);
    let _ = SetStringRecord::write_to_log(&mut fm, &mut lm, 30, &block_id, 5,
        String::from("teststring")).unwrap();
    let mut it = lm.iterator(&mut fm).unwrap();
    let rec = SetStringRecord::new(Page::new_from_bytes(it.next(&fm).unwrap())).unwrap();
    assert_eq!(rec.val, "teststring");
    assert_eq!(rec.txnum, 30);
    assert_eq!(rec.offset, 5);
}

#[test]
fn unknown_tag_is_refused() {
    let bytes = simple_record(9, 1);
    let e = match create_log_record(bytes) {
        Ok(_) => panic!("a record with an unknown tag was accepted"),
        Err(e) => e,
    };
    assert_eq!(e, simpledb::errors::DbError::UnknownLogRecord);
}
