use cdb::error::{err_badfile, err_toobig, Error};
use cdb::reader::CDB;
use cdb::writer::CDBMake;
use filebuffer::FileBuffer;

fn seal(records: &[(&[u8], &[u8])]) -> Vec<u8> {
    let mut cdb = CDBMake::new();
    for (key, value) in records {
        cdb.add(key, value).unwrap();
    }
    cdb.finish().unwrap()
}

#[test]
fn messages() {
    assert_eq!(Error::Format.message(), "Invalid file format");
    assert_eq!(Error::InvalidInput.message(), "Key or data too big");
    assert_eq!(Error::TooBig.message(), "File too big");
    assert_eq!(err_badfile::<u8>(), Err(Error::Format));
    assert_eq!(err_toobig::<u8>(), Err(Error::TooBig));
}

#[test]
fn a_file_shorter_than_2064_bytes_is_refused() {
    assert_eq!(CDB::new(&[]).err(), Some(Error::Format));
    assert_eq!(CDB::new(&vec![0u8; 2048]).err(), Some(Error::Format));
    assert_eq!(CDB::new(&vec![0u8; 2063]).err(), Some(Error::Format));
    assert!(CDB::new(&vec![0u8; 2064]).is_ok());
    // a sealed database without records is too short for a reader
    let empty = CDBMake::new().finish().unwrap();
    assert_eq!(CDB::new(&empty).err(), Some(Error::Format));
}

#[test]
fn zeros_hold_no_record() {
    let file = vec![0u8; 4096];
    let cdb = CDB::new(&file).unwrap();
    assert!(cdb.get(b"one").is_none());
    assert!(cdb.find(b"").next().is_none());
    assert!(cdb.iter().next().is_none());
}

#[test]
fn a_table_beyond_the_file_is_an_error() {
    let mut file = seal(&[(b"one", b"Hello")]);
    let bucket = (cdb::hash::hash(b"one") & 0xff) as usize;
    // move the table of the key's bucket to the last byte of the file
    let len = file.len() as u32;
    file[bucket * 8..bucket * 8 + 4].copy_from_slice(&(len - 1).to_le_bytes());
    let cdb = CDB::new(&file).unwrap();
    let mut values = cdb.find(b"one");
    assert_eq!(values.next(), Some(Err(Error::Format)));
    // the lookup does not get past a slot that it cannot read
    assert_eq!(values.next(), Some(Err(Error::Format)));
    // other buckets are not touched by it
    assert!(cdb.get(b"two").is_none());
}

#[test]
fn a_table_near_the_end_of_the_offsets_is_an_error() {
    let mut file = seal(&[(b"one", b"Hello")]);
    let bucket = (cdb::hash::hash(b"one") & 0xff) as usize;
    file[bucket * 8..bucket * 8 + 4].copy_from_slice(&0xffff_fffcu32.to_le_bytes());
    file[bucket * 8 + 4..bucket * 8 + 8].copy_from_slice(&0xffff_ffffu32.to_le_bytes());
    let cdb = CDB::new(&file).unwrap();
    assert_eq!(cdb.get(b"one"), Some(Err(Error::Format)));
}

#[test]
fn a_record_beyond_the_file_is_an_error() {
    let file = seal(&[(b"one", b"Hello")]);
    let h = cdb::hash::hash(b"one");
    let bucket = (h & 0xff) as usize;
    let table = u32::from_le_bytes([
        file[bucket * 8],
        file[bucket * 8 + 1],
        file[bucket * 8 + 2],
        file[bucket * 8 + 3],
    ]) as usize;
    let slot = table + 8 * (((h >> 8) % 2) as usize);
    assert_eq!(&file[slot..slot + 4], &h.to_le_bytes());
    assert_eq!(&file[slot + 4..slot + 8], &2048u32.to_le_bytes());

    // the slot points behind the file
    let mut broken = file.clone();
    let len = broken.len() as u32;
    broken[slot + 4..slot + 8].copy_from_slice(&(len - 4).to_le_bytes());
    let cdb = CDB::new(&broken).unwrap();
    let mut values = cdb.find(b"one");
    assert_eq!(values.next(), Some(Err(Error::Format)));
    // the lookup goes on behind a record that it cannot read
    assert_eq!(values.next(), None);

    // the value is said to be longer than the file
    let mut broken = file.clone();
    broken[2048 + 4..2048 + 8].copy_from_slice(&0x1000u32.to_le_bytes());
    let cdb = CDB::new(&broken).unwrap();
    assert_eq!(cdb.get(b"one"), Some(Err(Error::Format)));

    // the key is said to be longer; it is then the key of no lookup
    let mut broken = file.clone();
    broken[2048..2048 + 4].copy_from_slice(&4u32.to_le_bytes());
    let cdb = CDB::new(&broken).unwrap();
    assert_eq!(cdb.get(b"one"), None);
}

#[test]
fn a_walk_stops_at_a_record_that_overruns_the_records() {
    let file = seal(&[(b"one", b"Hello"), (b"two", b"Goodbye")]);
    let mut broken = file.clone();
    // the second record starts at 2048 + 8 + 3 + 5
    broken[2064 + 4..2064 + 8].copy_from_slice(&8u32.to_le_bytes());
    let cdb = CDB::new(&broken).unwrap();
    let mut records = cdb.iter();
    assert_eq!(records.next(), Some(Ok((b"one".to_vec(), b"Hello".to_vec()))));
    assert_eq!(records.next(), Some(Err(Error::Format)));
    assert_eq!(records.next(), Some(Err(Error::Format)));
}

#[test]
fn a_walk_ends_where_the_directory_says_or_the_file_ends() {
    let file = seal(&[(b"one", b"Hello"), (b"two", b"Goodbye")]);
    let mut short = file.clone();
    // the records are said to end behind the first one
    short[0..4].copy_from_slice(&2064u32.to_le_bytes());
    let cdb = CDB::new(&short).unwrap();
    let mut records = cdb.iter();
    assert_eq!(records.next(), Some(Ok((b"one".to_vec(), b"Hello".to_vec()))));
    assert_eq!(records.next(), None);
    // the records are said to end far behind the file: the walk reads
    // the tables as records until it runs into the end of the file
    let mut long = file.clone();
    long[0..4].copy_from_slice(&0xffff_ffffu32.to_le_bytes());
    let cdb = CDB::new(&long).unwrap();
    let mut records = cdb.iter();
    assert_eq!(records.next(), Some(Ok((b"one".to_vec(), b"Hello".to_vec()))));
    assert_eq!(records.next(), Some(Ok((b"two".to_vec(), b"Goodbye".to_vec()))));
    let mut more = records.next();
    let mut steps = 0;
    while let Some(Ok(_)) = more {
        more = records.next();
        steps += 1;
        assert!(steps < 100);
    }
}

/// Maps `path` and reads it both as a mapped file and as the bytes that
/// the mapping gives: the two readers agree, and the file is accepted
/// exactly if its length is that of a database.
fn read_mapped(path: &str) -> bool {
    let file = match FileBuffer::open(path) {
        Ok(file) => file,
        Err(_) => return false,
    };
    let fits = file.len() >= 2064 && file.len() <= 0xffff_ffff;
    let cdb = match CDB::open(&file) {
        Ok(cdb) => cdb,
        Err(e) => {
            assert_eq!(e, Error::Format);
            assert!(!fits);
            return true;
        }
    };
    assert!(fits);
    let again = CDB::new(&file).unwrap();
    for key in [&b"one"[..], b"two", b""] {
        let mut a = cdb.find(key);
        let mut b = again.find(key);
        for _ in 0..100 {
            let item = a.next();
            assert_eq!(item, b.next());
            match item {
                Some(Ok(_)) => {}
                _ => break,
            }
        }
    }
    let mut a = cdb.iter();
    let mut b = again.iter();
    for _ in 0..100 {
        let item = a.next();
        assert_eq!(item, b.next());
        match item {
            Some(Ok(_)) => {}
            _ => break,
        }
    }
    true
}

#[test]
fn a_mapped_file_is_read_like_any_bytes() {
    // Whatever these files hold, reading them as databases gives values
    // or errors. This program's own file is longer than a directory.
    let mut mapped = 0;
    for path in ["/proc/self/exe", "/proc/self/cmdline", "/etc/hostname", "/etc/passwd"] {
        if read_mapped(path) {
            mapped += 1;
        }
    }
    assert!(mapped > 0);
}
