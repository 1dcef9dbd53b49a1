use cdb::CDBMake;

#[test]
fn test_make() {
    let filename = "tests/make.cdb";

    let mut cdb = cdb::CDBWriter::create(filename);
    cdb.add(b"one", b"Hello").unwrap();
    cdb.add(b"two", b"Goodbye").unwrap();
    cdb.add(b"one", b", World!").unwrap();
    cdb.add(b"this key will be split across two reads", b"Got it.").unwrap();
    let commit = match cdb.finish() {
        Ok(commit) => commit,
        Err(abort) => panic!("{}", abort.error.message()),
    };
    assert_eq!(commit.tmpname, "tests/make.cdb.tmp");
    assert_eq!(commit.dstname, filename);

    let cdb = cdb::CDB::new(&commit.image).unwrap();
    assert_eq!(cdb.find(b"two").next().unwrap().unwrap(), b"Goodbye");
    assert_eq!(
        cdb.find(b"this key will be split across two reads")
            .next()
            .unwrap()
            .unwrap(),
        b"Got it."
    );
    let mut i = cdb.find(b"one");
    assert_eq!(i.next().unwrap().unwrap(), b"Hello");
    assert_eq!(i.next().unwrap().unwrap(), b", World!");

    let mut i = cdb.iter();
    let next = i.next().unwrap().unwrap();
    assert_eq!(next.0, b"one");
    assert_eq!(next.1, b"Hello");
    let next = i.next().unwrap().unwrap();
    assert_eq!(next.0, b"two");
    assert_eq!(next.1, b"Goodbye");
    let next = i.next().unwrap().unwrap();
    assert_eq!(next.0, b"one");
    assert_eq!(next.1, b", World!");
    let next = i.next().unwrap().unwrap();
    assert_eq!(next.0, b"this key will be split across two reads");
    assert_eq!(next.1, b"Got it.");
    assert!(i.next().is_none());
}

#[test]
fn empty_database_is_the_directory_alone() {
    let file = CDBMake::new().finish().unwrap();
    assert_eq!(file.len(), 2048);
    for b in 0..256 {
        assert_eq!(&file[b * 8..b * 8 + 8], &[0, 8, 0, 0, 0, 0, 0, 0]);
    }
}

#[test]
fn one_record_database_byte_for_byte() {
    let mut cdb = CDBMake::new();
    cdb.add(b"k", b"vw").unwrap();
    let file = cdb.finish().unwrap();
    // hash("k") = (0x1505 * 33) ^ 0x6b = 0x2b5a5 ^ 0x6b = 0x2b5ce
    let h: u32 = 0x2b5ce;
    assert_eq!(cdb::hash::hash(b"k"), h);
    assert_eq!(file.len(), 2048 + 11 + 16);
    // the record
    assert_eq!(&file[2048..2059], &[1, 0, 0, 0, 2, 0, 0, 0, b'k', b'v', b'w']);
    // the directory: buckets up to 0xce point at the end of the records
    // and are empty; bucket 0xce holds two slots; the later ones start
    // behind its table
    for b in 0..256usize {
        let entry = &file[b * 8..b * 8 + 8];
        if b < 0xce {
            assert_eq!(entry, &[0x0b, 8, 0, 0, 0, 0, 0, 0]);
        } else if b == 0xce {
            assert_eq!(entry, &[0x0b, 8, 0, 0, 2, 0, 0, 0]);
        } else {
            assert_eq!(entry, &[0x1b, 8, 0, 0, 0, 0, 0, 0]);
        }
    }
    // the table: home slot is (h >> 8) % 2 = 0x2b5 % 2 = 1
    assert_eq!(&file[2059..2067], &[0, 0, 0, 0, 0, 0, 0, 0]);
    assert_eq!(&file[2067..2075], &[0xce, 0xb5, 0x02, 0, 0, 8, 0, 0]);
}

#[test]
fn a_full_home_slot_sends_the_record_on_and_around() {
    // Both keys hash into bucket 0x42, and in its table of four slots
    // both are at home in the last one.
    let h1 = cdb::hash::hash(b"alj");
    let h2 = cdb::hash::hash(b"bda");
    assert_eq!(h1, 193409858);
    assert_eq!(h2, 193414978);
    assert_eq!((h1 & 0xff, (h1 >> 8) % 4), (0x42, 3));
    assert_eq!((h2 & 0xff, (h2 >> 8) % 4), (0x42, 3));
    let mut cdb = CDBMake::new();
    cdb.add(b"alj", b"1").unwrap();
    cdb.add(b"bda", b"2").unwrap();
    let file = cdb.finish().unwrap();
    // two records of 12 bytes, then the table
    assert_eq!(file.len(), 2048 + 24 + 32);
    assert_eq!(&file[0x42 * 8..0x42 * 8 + 8], &[0x18, 8, 0, 0, 4, 0, 0, 0]);
    let table = &file[2072..2104];
    let mut expected = Vec::new();
    // the second record went around to the first slot
    expected.extend_from_slice(&h2.to_le_bytes());
    expected.extend_from_slice(&2060u32.to_le_bytes());
    expected.extend_from_slice(&[0; 16]);
    // the first record is at home
    expected.extend_from_slice(&h1.to_le_bytes());
    expected.extend_from_slice(&2048u32.to_le_bytes());
    assert_eq!(table, &expected[..]);
    let reader = cdb::CDB::new(&file).unwrap();
    assert_eq!(reader.get(b"alj"), Some(Ok(b"1".to_vec())));
    assert_eq!(reader.get(b"bda"), Some(Ok(b"2".to_vec())));
    let mut values = reader.find(b"bda");
    assert_eq!(values.next(), Some(Ok(b"2".to_vec())));
    assert_eq!(values.next(), None);
}
