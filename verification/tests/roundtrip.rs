use cdb::error::Error;
use cdb::reader::CDB;
use cdb::writer::CDBMake;

fn seal(records: &[(&[u8], &[u8])]) -> Vec<u8> {
    let mut cdb = CDBMake::new();
    for (key, value) in records {
        cdb.add(key, value).unwrap();
    }
    cdb.finish().unwrap()
}

fn find_all(file: &[u8], key: &[u8]) -> Vec<Result<Vec<u8>, Error>> {
    let cdb = CDB::new(file).unwrap();
    let mut values = cdb.find(key);
    let mut found = Vec::new();
    while let Some(item) = values.next() {
        let stop = item.is_err();
        found.push(item);
        if stop {
            break;
        }
    }
    found
}

fn iter_all(file: &[u8]) -> Vec<Result<(Vec<u8>, Vec<u8>), Error>> {
    let cdb = CDB::new(file).unwrap();
    let mut records = cdb.iter();
    let mut found = Vec::new();
    while let Some(item) = records.next() {
        let stop = item.is_err();
        found.push(item);
        if stop {
            break;
        }
    }
    found
}

#[test]
fn duplicate_keys_come_back_in_the_order_of_adding() {
    let file = seal(&[(b"k", b"A"), (b"k", b"B")]);
    assert_eq!(find_all(&file, b"k"), vec![Ok(b"A".to_vec()), Ok(b"B".to_vec())]);
}

#[test]
fn missing_key_gives_nothing_and_no_error() {
    let file = seal(&[(b"one", b"Hello"), (b"two", b"Goodbye")]);
    assert_eq!(find_all(&file, b"three"), vec![]);
    assert_eq!(find_all(&file, b""), vec![]);
    assert_eq!(find_all(&file, b"on"), vec![]);
    assert_eq!(find_all(&file, b"onee"), vec![]);
    let cdb = CDB::new(&file).unwrap();
    assert!(cdb.get(b"three").is_none());
}

#[test]
fn get_gives_the_first_value() {
    let file = seal(&[(b"one", b"Hello"), (b"two", b"Goodbye"), (b"one", b", World!")]);
    let cdb = CDB::new(&file).unwrap();
    assert_eq!(cdb.get(b"one"), Some(Ok(b"Hello".to_vec())));
    assert_eq!(cdb.get(b"two"), Some(Ok(b"Goodbye".to_vec())));
}

#[test]
fn repeated_lookups_give_the_same() {
    let file = seal(&[(b"one", b"Hello"), (b"two", b"Goodbye"), (b"one", b", World!")]);
    let first = find_all(&file, b"one");
    let between = find_all(&file, b"two");
    let second = find_all(&file, b"one");
    assert_eq!(first, second);
    assert_eq!(first, vec![Ok(b"Hello".to_vec()), Ok(b", World!".to_vec())]);
    assert_eq!(between, vec![Ok(b"Goodbye".to_vec())]);
}

#[test]
fn every_key_finds_its_values_among_many() {
    // 2000 records under 500 keys: every bucket holds several records,
    // and the tables have runs of slots to probe through.
    let mut records: Vec<(Vec<u8>, Vec<u8>)> = Vec::new();
    for i in 0..2000u32 {
        let key = format!("key{}", i % 500).into_bytes();
        let value = format!("value{}", i).into_bytes();
        records.push((key, value));
    }
    let mut cdb = CDBMake::new();
    for (key, value) in &records {
        cdb.add(key, value).unwrap();
    }
    let file = cdb.finish().unwrap();
    for k in 0..500u32 {
        let key = format!("key{}", k).into_bytes();
        let expected: Vec<Result<Vec<u8>, Error>> = records
            .iter()
            .filter(|(rk, _)| *rk == key)
            .map(|(_, v)| Ok(v.clone()))
            .collect();
        assert_eq!(expected.len(), 4);
        assert_eq!(find_all(&file, &key), expected);
    }
    assert_eq!(find_all(&file, b"key500"), vec![]);
    let walked = iter_all(&file);
    let expected: Vec<Result<(Vec<u8>, Vec<u8>), Error>> =
        records.iter().map(|r| Ok(r.clone())).collect();
    assert_eq!(walked, expected);
}

#[test]
fn keys_with_the_same_hash_are_told_apart() {
    // After the first byte the two hashes are 0x2b5a5 and 0x2b5a4; times
    // 33 they are 0x596a45 and 0x596a24, which the second byte evens out.
    let k1: &[u8] = &[0x00, 0x61];
    let k2: &[u8] = &[0x01, 0x00];
    assert_eq!(cdb::hash::hash(k1), 0x596a24);
    assert_eq!(cdb::hash::hash(k2), 0x596a24);
    let file = seal(&[(k1, b"first"), (k2, b"second"), (k1, b"third")]);
    assert_eq!(find_all(&file, k1), vec![Ok(b"first".to_vec()), Ok(b"third".to_vec())]);
    assert_eq!(find_all(&file, k2), vec![Ok(b"second".to_vec())]);
}

#[test]
fn iteration_gives_all_records_in_order() {
    let records: [(&[u8], &[u8]); 5] = [
        (b"one", b"Hello"),
        (b"", b"empty key"),
        (b"one", b", World!"),
        (b"empty value", b""),
        (b"two", b"Goodbye"),
    ];
    let file = seal(&records);
    let expected: Vec<Result<(Vec<u8>, Vec<u8>), Error>> =
        records.iter().map(|(k, v)| Ok((k.to_vec(), v.to_vec()))).collect();
    assert_eq!(iter_all(&file), expected);
    assert_eq!(find_all(&file, b""), vec![Ok(b"empty key".to_vec())]);
    assert_eq!(find_all(&file, b"empty value"), vec![Ok(b"".to_vec())]);
}

#[test]
fn iteration_stops_short_of_a_last_record_without_bytes() {
    let file = seal(&[(b"one", b"Hello"), (b"", b"")]);
    assert_eq!(iter_all(&file), vec![Ok((b"one".to_vec(), b"Hello".to_vec()))]);
    // the lookup still finds it
    assert_eq!(find_all(&file, b""), vec![Ok(b"".to_vec())]);
    // and a walk gets past such a record that is not the last
    let file = seal(&[(b"", b""), (b"one", b"Hello")]);
    assert_eq!(
        iter_all(&file),
        vec![Ok((b"".to_vec(), b"".to_vec())), Ok((b"one".to_vec(), b"Hello".to_vec()))]
    );
}

#[test]
fn a_key_longer_than_one_chunk_is_compared_in_full() {
    let long: Vec<u8> = (0..100u8).collect();
    let mut other = long.clone();
    other[99] = 0;
    let mut third = long.clone();
    third[40] = 0;
    let file = seal(&[(&long, b"long"), (&other, b"other")]);
    assert_eq!(find_all(&file, &long), vec![Ok(b"long".to_vec())]);
    assert_eq!(find_all(&file, &other), vec![Ok(b"other".to_vec())]);
    assert_eq!(find_all(&file, &third), vec![]);
    assert_eq!(find_all(&file, &long[..64]), vec![]);
}
