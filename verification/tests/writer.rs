use cdb::writer::CDBWriter;

#[test]
fn the_temporary_name_is_the_name_and_a_suffix() {
    let w = CDBWriter::create("data/words.cdb");
    assert_eq!(w.dstname(), "data/words.cdb");
    assert_eq!(w.tmpname(), "data/words.cdb.tmp");
    let w = CDBWriter::with_suffix("data/words.cdb", "~");
    assert_eq!(w.dstname(), "data/words.cdb");
    assert_eq!(w.tmpname(), "data/words.cdb~");
    let w = CDBWriter::with_suffix("words", "");
    assert_eq!(w.tmpname(), "words");
    let w = CDBWriter::with_filenames("words.cdb", "/tmp/words.new");
    assert_eq!(w.dstname(), "words.cdb");
    assert_eq!(w.tmpname(), "/tmp/words.new");
}

#[test]
fn a_sealed_writer_asks_for_the_rename() {
    let mut w = CDBWriter::with_filenames("words.cdb", "words.new");
    w.add(b"one", b"Hello").unwrap();
    let commit = w.finish().ok().unwrap();
    assert_eq!(commit.tmpname, "words.new");
    assert_eq!(commit.dstname, "words.cdb");
    let mut plain = cdb::writer::CDBMake::new();
    plain.add(b"one", b"Hello").unwrap();
    assert_eq!(commit.image, plain.finish().unwrap());
}

#[test]
fn an_abandoned_writer_asks_for_the_removal() {
    let mut w = CDBWriter::create("words.cdb");
    w.add(b"one", b"Hello").unwrap();
    assert_eq!(w.abandon(), "words.cdb.tmp");
}
