use kvdb::{KvError, Kvdb};

fn pure_inserting_works() -> Vec<u8> {
    let mut kv = Kvdb::new();
    kv.load(Vec::new()).expect("expect load to work");
    for i in 0..100 {
        let string = format!("test{}", i);
        kv.insert(format!("key_test{}", i).as_bytes(), string.as_bytes());
        let val = kv.get(format!("key_test{}", i).as_bytes()).unwrap();
        assert_eq!(string.as_bytes(), val.as_slice());
    }
    kv.log_bytes().to_vec()
}

#[test]
fn load_works() {
    let log = pure_inserting_works();
    let mut kv = Kvdb::new();
    if let Err(err) = kv.load(log) {
        println!("error: {:?}", err);
        return;
    }
    assert_eq!(kv.delete(b"key_test0").unwrap(), b"test0".to_vec());
    let shouldnt_exist = kv.get(b"key_test0");
    assert!(matches!(shouldnt_exist, Err(_err)));
    kv.insert(b"key_test0", b"test0");
    for i in 0..100 {
        let val = kv.get(format!("key_test{}", i).as_bytes()).unwrap();
        assert_eq!(val, format!("test{}", i).into_bytes());
    }
}

#[test]
fn delete_then_reopen_scenario() {
    let mut kv = Kvdb::new();
    for i in 0..100 {
        kv.insert(format!("key_test{}", i).as_bytes(), format!("test{}", i).as_bytes());
    }
    assert_eq!(kv.delete(b"key_test0"), Ok(b"test0".to_vec()));
    let mut reopened = Kvdb::new();
    reopened.load(kv.log_bytes().to_vec()).unwrap();
    assert_eq!(reopened.get(b"key_test0"), Err(KvError::NotFound));
    reopened.insert(b"key_test0", b"test0");
    for i in 0..100 {
        assert_eq!(
            reopened.get(format!("key_test{}", i).as_bytes()),
            Ok(format!("test{}", i).into_bytes())
        );
    }
}

#[test]
fn insert_then_get_returns_value() {
    let mut kv = Kvdb::new();
    kv.insert(b"k", b"value");
    assert_eq!(kv.get(b"k"), Ok(b"value".to_vec()));
    kv.insert(b"", b"empty key");
    assert_eq!(kv.get(b""), Ok(b"empty key".to_vec()));
}

#[test]
fn insert_delete_get_not_found() {
    let mut kv = Kvdb::new();
    kv.insert(b"k", b"v");
    assert_eq!(kv.delete(b"k"), Ok(b"v".to_vec()));
    assert_eq!(kv.get(b"k"), Err(KvError::NotFound));
}

#[test]
fn insert_after_delete_resurrects() {
    let mut kv = Kvdb::new();
    kv.insert(b"k", b"v1");
    kv.delete(b"k").unwrap();
    kv.insert(b"k", b"v2");
    assert_eq!(kv.get(b"k"), Ok(b"v2".to_vec()));
}

#[test]
fn reopen_reproduces_gets() {
    let mut kv = Kvdb::new();
    for i in 0..20u32 {
        kv.insert(format!("k{}", i).as_bytes(), format!("v{}", i * 7).as_bytes());
    }
    let mut reopened = Kvdb::new();
    reopened.load(kv.log_bytes().to_vec()).unwrap();
    assert_eq!(reopened.log_bytes(), kv.log_bytes());
    for i in 0..20u32 {
        let key = format!("k{}", i);
        assert_eq!(reopened.get(key.as_bytes()), kv.get(key.as_bytes()));
        assert_eq!(reopened.get(key.as_bytes()), Ok(format!("v{}", i * 7).into_bytes()));
    }
    assert_eq!(reopened.get(b"k20"), Err(KvError::NotFound));
}

#[test]
fn never_inserted_is_not_found() {
    let mut kv = Kvdb::new();
    assert_eq!(kv.get(b"missing"), Err(KvError::NotFound));
    assert_eq!(kv.delete(b"missing"), Err(KvError::NotFound));
    assert_eq!(kv.log_len(), 0);
    kv.insert(b"other", b"x");
    assert_eq!(kv.get(b"missing"), Err(KvError::NotFound));
    assert_eq!(kv.delete(b"missing"), Err(KvError::NotFound));
}

#[test]
fn delete_twice_second_not_found() {
    let mut kv = Kvdb::new();
    kv.insert(b"k", b"v");
    assert_eq!(kv.delete(b"k"), Ok(b"v".to_vec()));
    let len = kv.log_len();
    assert_eq!(kv.delete(b"k"), Err(KvError::NotFound));
    assert_eq!(kv.log_len(), len);
}

#[test]
fn overwrite_keeps_latest_and_grows_log() {
    let mut kv = Kvdb::new();
    kv.insert(b"k", b"v1");
    let len = kv.log_len();
    assert_eq!(len, 16 + 1 + 2);
    kv.insert(b"k", b"second");
    assert!(kv.log_len() > len);
    assert_eq!(kv.log_len(), len + 16 + 1 + 6);
    assert_eq!(kv.get(b"k"), Ok(b"second".to_vec()));
    let mut reopened = Kvdb::new();
    reopened.load(kv.log_bytes().to_vec()).unwrap();
    assert_eq!(reopened.get(b"k"), Ok(b"second".to_vec()));
}

#[test]
fn empty_value_acts_as_delete() {
    let mut kv = Kvdb::new();
    kv.insert(b"k", b"v");
    kv.insert(b"k", b"");
    assert_eq!(kv.get(b"k"), Err(KvError::NotFound));
    assert_eq!(kv.delete(b"k"), Err(KvError::NotFound));
    kv.insert(b"never", b"");
    assert_eq!(kv.get(b"never"), Err(KvError::NotFound));
}

#[test]
fn delete_appends_tombstone() {
    let mut kv = Kvdb::new();
    kv.insert(b"ab", b"c");
    kv.delete(b"ab").unwrap();
    let log = kv.log_bytes();
    assert_eq!(log.len(), (16 + 3) + (16 + 2));
    assert_eq!(&log[19..27], &[2u8, 0, 0, 0, 0, 0, 0, 0]);
    assert_eq!(&log[27..35], &[0u8; 8]);
    assert_eq!(&log[35..], b"ab");
}

#[test]
fn load_empty_log() {
    let mut kv = Kvdb::new();
    assert_eq!(kv.load(Vec::new()), Ok(()));
    assert_eq!(kv.log_len(), 0);
    assert_eq!(kv.get(b"k"), Err(KvError::NotFound));
}

#[test]
fn load_replaces_previous_state() {
    let mut kv = Kvdb::new();
    kv.insert(b"old", b"1");
    let mut other = Kvdb::new();
    other.insert(b"new", b"2");
    kv.load(other.log_bytes().to_vec()).unwrap();
    assert_eq!(kv.get(b"old"), Err(KvError::NotFound));
    assert_eq!(kv.get(b"new"), Ok(b"2".to_vec()));
}

#[test]
fn load_partial_header_is_corrupt() {
    let mut src = Kvdb::new();
    src.insert(b"k", b"v");
    let mut log = src.log_bytes().to_vec();
    log.extend_from_slice(&[1, 2, 3, 4, 5]);
    let mut kv = Kvdb::new();
    kv.insert(b"kept", b"yes");
    assert_eq!(kv.load(log), Err(KvError::Corrupt));
    assert_eq!(kv.get(b"kept"), Ok(b"yes".to_vec()));
    assert_eq!(kv.get(b"k"), Err(KvError::NotFound));
}

#[test]
fn load_body_past_end_is_corrupt() {
    let mut src = Kvdb::new();
    src.insert(b"key", b"value");
    let full = src.log_bytes().to_vec();
    let mut kv = Kvdb::new();
    assert_eq!(kv.load(full[..full.len() - 1].to_vec()), Err(KvError::Corrupt));
    let mut huge = vec![0u8; 16];
    huge[0] = 0xff;
    huge[7] = 0xff;
    assert_eq!(kv.load(huge), Err(KvError::Corrupt));
    let mut val_huge = vec![0u8; 16];
    val_huge[15] = 0x80;
    assert_eq!(kv.load(val_huge), Err(KvError::Corrupt));
}

#[test]
fn load_last_record_wins() {
    let mut log = Vec::new();
    log.extend_from_slice(&kvdb::encode(b"k", b"first"));
    log.extend_from_slice(&kvdb::encode(b"j", b"other"));
    log.extend_from_slice(&kvdb::encode(b"k", b"second"));
    log.extend_from_slice(&kvdb::encode(b"j", b""));
    let mut kv = Kvdb::new();
    kv.load(log).unwrap();
    assert_eq!(kv.get(b"k"), Ok(b"second".to_vec()));
    assert_eq!(kv.get(b"j"), Err(KvError::NotFound));
}
