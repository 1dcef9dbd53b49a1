fn test1() -> Vec<u8> {
    let mut cdb = cdb::CDBMake::new();
    cdb.add(b"one", b"Hello").unwrap();
    cdb.add(b"two", b"Goodbye").unwrap();
    cdb.add(b"one", b", World!").unwrap();
    cdb.add(b"this key will be split across two reads", b"Got it.").unwrap();
    cdb.finish().unwrap()
}

#[test]
fn test_one() {
    let file = test1();
    let cdb = cdb::CDB::new(&file).unwrap();
    let mut i = cdb.find(b"one");
    assert_eq!(i.next().unwrap().unwrap(), b"Hello");
    assert_eq!(i.next().unwrap().unwrap(), b", World!");
}

#[test]
fn test_two() {
    let file = test1();
    let cdb = cdb::CDB::new(&file).unwrap();
    assert_eq!(cdb.find(b"two").next().unwrap().unwrap(), b"Goodbye");
    assert_eq!(cdb.find(b"this key will be split across two reads").next().unwrap().unwrap(), b"Got it.");
}

#[test]
fn test_one_has_no_third_value() {
    let file = test1();
    let cdb = cdb::CDB::new(&file).unwrap();
    let mut i = cdb.find(b"one");
    assert!(i.next().is_some());
    assert!(i.next().is_some());
    assert!(i.next().is_none());
    assert!(i.next().is_none());
}
