//! Building a database: records are added one by one, then the tables
//! and the directory are laid out in one consuming step.

use vstd::prelude::*;
use crate::error::{err_toobig, Error};
use crate::hash::hash;
use crate::layout::{
    bucket_entries, bucket_of, data_bytes, data_end, directory_bytes, entries_before, entry,
    image, largest_table, lemma_bucket_step, lemma_data_len, lemma_entries_before_grows,
    lemma_entries_total, lemma_image_len, lemma_largest_bound, lemma_largest_table,
    lemma_tables_len, record_fits, records_fit, sealable, slots_bytes, table_pos, tables_bytes,
    Record, HEADER_SIZE, MAX_SIZE,
};
use crate::table::{
    empty_table, fill, home, lemma_fill, lemma_home_in_table, lemma_run_end, lemma_vacancy,
    none_vacant, run_end, slot_after, table_of, HashPos,
};
use crate::uint32::{le32_pair_bytes, pack2};

verus! {

/// `n` zero bytes.
pub open spec fn zeros(n: nat) -> Seq<u8> {
    Seq::new(n, |i: int| 0u8)
}

/// The builder of a database.
///
/// It holds the directory's room and the records added so far, and
/// remembers for each bucket the hash and the place of each of its
/// records.
pub struct CDBMake {
    entries: Vec<Vec<HashPos>>,
    pos: u32,
    file: Vec<u8>,
    records: Ghost<Seq<Record>>,
}

impl CDBMake {
    /// The records added so far, in the order in which they were added.
    pub closed spec fn view(&self) -> Seq<Record> {
        self.records@
    }

    /// What the builder holds is what its records call for.
    pub closed spec fn wf(&self) -> bool {
        &&& self.entries@.len() == 256
        &&& forall|b: int|
            0 <= b < 256 ==> (#[trigger] self.entries@[b])@ == bucket_entries(self.records@, b)
        &&& self.pos == data_end(self.records@)
        &&& self.file@ == zeros(HEADER_SIZE as nat) + data_bytes(self.records@)
        &&& records_fit(self.records@)
    }

    /// The records of a builder fit, and end within reach of an offset.
    pub proof fn lemma_wf(&self)
        requires
            self.wf(),
        ensures
            records_fit(self@),
            data_end(self@) <= MAX_SIZE,
    {
    }

    /// Creates a builder without records.
    pub fn new() -> (r: CDBMake)
        ensures
            r.wf(),
            r@ == Seq::<Record>::empty(),
    {
        let mut entries: Vec<Vec<HashPos>> = Vec::new();
        let mut b: usize = 0;
        while b < 256
            invariant
                b <= 256,
                entries@.len() == b,
                forall|c: int| 0 <= c < b ==> (#[trigger] entries@[c])@ == Seq::<HashPos>::empty(),
            decreases 256 - b,
        {
            entries.push(Vec::new());
            b += 1;
        }
        let mut file: Vec<u8> = Vec::new();
        let mut i: usize = 0;
        while i < 2048
            invariant
                i <= 2048,
                file@ == zeros(i as nat),
            decreases 2048 - i,
        {
            file.push(0);
            assert(file@ =~= zeros((i + 1) as nat));
            i += 1;
        }
        let ghost records = Seq::<Record>::empty();
        assert(file@ =~= zeros(HEADER_SIZE as nat) + data_bytes(records));
        CDBMake { entries, pos: 2048, file, records: Ghost(records) }
    }

    fn pos_plus(&mut self, len: u32) -> (r: Result<(), Error>)
        ensures
            final(self).entries == old(self).entries,
            final(self).file == old(self).file,
            final(self).records == old(self).records,
            old(self).pos + len <= MAX_SIZE ==> r is Ok && final(self).pos == old(self).pos + len,
            old(self).pos + len > MAX_SIZE ==> r == Err::<(), Error>(Error::TooBig)
                && final(self).pos == old(self).pos,
    {
        if len > 0xffff_ffff - self.pos {
            err_toobig()
        } else {
            self.pos += len;
            Ok(())
        }
    }

    fn add_end(&mut self, keylen: u32, datalen: u32, hash: u32) -> (r: Result<(), Error>)
        requires
            old(self).entries@.len() == 256,
        ensures
            final(self).file == old(self).file,
            final(self).records == old(self).records,
            final(self).entries@.len() == 256,
            forall|b: int|
                0 <= b < 256 ==> (#[trigger] final(self).entries@[b])@ == if b == bucket_of(hash) {
                    old(self).entries@[b]@.push(HashPos { hash, pos: old(self).pos })
                } else {
                    old(self).entries@[b]@
                },
            old(self).pos + 8 + keylen + datalen <= MAX_SIZE ==> r is Ok
                && final(self).pos == old(self).pos + 8 + keylen + datalen,
            old(self).pos + 8 + keylen + datalen > MAX_SIZE ==> r == Err::<(), Error>(
                Error::TooBig,
            ),
    {
        assert(hash & 0xff == hash % 256) by (bit_vector);
        let b = (hash & 0xff) as usize;
        let hp = HashPos { hash: hash, pos: self.pos };
        self.entries[b].push(hp);
        self.pos_plus(8)?;
        self.pos_plus(keylen)?;
        self.pos_plus(datalen)?;
        Ok(())
    }

    fn add_begin(&mut self, keylen: u32, datalen: u32)
        ensures
            final(self).entries == old(self).entries,
            final(self).pos == old(self).pos,
            final(self).records == old(self).records,
            final(self).file@ == old(self).file@ + le32_pair_bytes(keylen, datalen),
    {
        let mut buf = [0u8; 8];
        pack2(&mut buf, keylen, datalen);
        self.file.extend_from_slice(&buf);
        assert(self.file@ =~= old(self).file@ + le32_pair_bytes(keylen, datalen));
    }

    /// Adds a record.
    ///
    /// A key or a value of `0xffff_ffff` bytes or more is refused as
    /// `InvalidInput`; a record that would end beyond offset
    /// `0xffff_ffff` is refused as `TooBig`. A refused record leaves the
    /// builder as it was.
    pub fn add(&mut self, key: &[u8], data: &[u8]) -> (r: Result<(), Error>)
        requires
            old(self).wf(),
        ensures
            final(self).wf(),
            r is Ok ==> final(self)@ == old(self)@.push((key@, data@)),
            r is Err ==> final(self)@ == old(self)@,
            r == Err::<(), Error>(Error::InvalidInput) <==> !record_fits((key@, data@)),
            r == Err::<(), Error>(Error::TooBig) <==> record_fits((key@, data@)) && data_end(
                old(self)@.push((key@, data@)),
            ) > MAX_SIZE,
            r is Ok <==> record_fits((key@, data@)) && data_end(old(self)@.push((key@, data@)))
                <= MAX_SIZE,
    {
        let ghost rs = self.records@;
        let ghost rec: Record = (key@, data@);
        let ghost rs1 = rs.push(rec);
        proof {
            assert(rs1.drop_last() =~= rs);
            assert(rs1.take(rs.len() as int) =~= rs);
        }
        if key.len() >= 0xffff_ffff || data.len() >= 0xffff_ffff {
            return Err(Error::InvalidInput);
        }
        let keylen = key.len() as u32;
        let datalen = data.len() as u32;
        if self.pos as u64 + 8 + keylen as u64 + datalen as u64 > 0xffff_ffff {
            return err_toobig();
        }
        self.add_begin(keylen, datalen);
        self.file.extend_from_slice(key);
        self.file.extend_from_slice(data);
        let h = hash(key);
        let r = self.add_end(keylen, datalen, h);
        self.records = Ghost(rs1);
        proof {
            assert(self.file@ =~= zeros(HEADER_SIZE as nat) + data_bytes(rs1));
            assert(entry(rs1, rs.len() as int) == HashPos { hash: h, pos: old(self).pos });
            assert forall|b: int| 0 <= b < 256 implies (#[trigger] self.entries@[b])@
                == bucket_entries(rs1, b) by {
                assert(old(self).entries@[b]@ == bucket_entries(rs, b));
            }
            assert(records_fit(rs1)) by {
                assert forall|i: int| 0 <= i < rs1.len() implies record_fits(#[trigger] rs1[i]) by {
                    if i < rs.len() {
                        assert(rs1[i] == rs[i]);
                    }
                }
            }
        }
        r
    }

    /// The size of the largest table, but at least 1, and the number of
    /// all entries.
    fn table_sizes(&self) -> (r: (usize, usize))
        requires
            self.wf(),
        ensures
            r.0 == largest_table(self@, 256),
            r.1 == self@.len(),
    {
        let mut maxsize: usize = 1;
        let mut count: usize = 0;
        let mut i: usize = 0;
        proof {
            lemma_data_len(self.records@);
            lemma_entries_total(self.records@);
        }
        while i < 256
            invariant
                i <= 256,
                self.wf(),
                maxsize == largest_table(self.records@, i as nat),
                count == entries_before(self.records@, i as nat),
                entries_before(self.records@, 256) == self.records@.len(),
                8 * self.records@.len() <= MAX_SIZE,
            decreases 256 - i,
        {
            proof {
                lemma_entries_before_grows(self.records@, (i + 1) as nat, 256);
                lemma_largest_bound(self.records@, i as nat);
            }
            let n = self.entries[i].len();
            if n * 2 > maxsize {
                maxsize = n * 2;
            }
            count = count + n;
            i += 1;
        }
        (maxsize, count)
    }

    /// Places the entries `es` in the first slots of the working table.
    fn fill_table(es: &Vec<HashPos>, table: &mut Vec<HashPos>)
        requires
            none_vacant(es@),
            2 * es@.len() <= old(table)@.len(),
            old(table)@ == empty_table(old(table)@.len()),
        ensures
            final(table)@.len() == old(table)@.len(),
            final(table)@.subrange(0, 2 * es@.len() as int) == table_of(es@),
            forall|x: int|
                2 * es@.len() <= x < final(table)@.len() ==> (#[trigger] final(table)@[x]) == (
                HashPos { hash: 0, pos: 0 }),
    {
        let n = es.len();
        assert(2 * n <= table.len());
        let len = n * 2;
        let mut j: usize = 0;
        assert(table@.subrange(0, len as int) =~= fill(es@.take(0), len as nat));
        while j < n
            invariant
                j <= n,
                n == es@.len(),
                len == 2 * n,
                none_vacant(es@),
                len <= table@.len(),
                table@.len() == old(table)@.len(),
                table@.subrange(0, len as int) == fill(es@.take(j as int), len as nat),
                forall|x: int|
                    len <= x < table@.len() ==> (#[trigger] table@[x]) == (HashPos {
                        hash: 0,
                        pos: 0,
                    }),
            decreases n - j,
        {
            let e = es[j];
            let ghost t = table@.subrange(0, len as int);
            let ghost start = home(e.hash, len as nat);
            proof {
                let done = es@.take(j as int);
                assert(none_vacant(done)) by {
                    assert forall|i: int| 0 <= i < done.len() implies (#[trigger] done[i]).pos
                        != 0 by {
                        assert(done[i] == es@[i]);
                    }
                }
                lemma_fill(done, len as nat);
                lemma_home_in_table(e.hash, len as nat);
                lemma_vacancy(t, start);
                lemma_run_end(t, start, 0);
                let h = e.hash;
                assert(h >> 8 == h / 256) by (bit_vector);
            }
            let ghost d = run_end(t, start, 0);
            let mut wh: usize = ((e.hash >> 8) as usize) % len;
            let mut k: Ghost<nat> = Ghost(0);
            while table[wh].pos != 0
                invariant
                    len == t.len(),
                    len <= table@.len(),
                    t == table@.subrange(0, len as int),
                    0 <= start < len,
                    d == run_end(t, start, 0),
                    d < len,
                    k@ <= d,
                    wh == slot_after(start, k@ as int, len as nat),
                    forall|i: int|
                        0 <= i < d ==> (#[trigger] t[slot_after(start, i, len as nat)]).pos != 0,
                    t[slot_after(start, d as int, len as nat)].pos == 0,
                decreases d - k@,
            {
                assert(t[wh as int] == table@[wh as int]);
                wh += 1;
                if wh == len {
                    wh = 0;
                }
                proof {
                    k@ = k@ + 1;
                }
            }
            proof {
                assert(t[wh as int] == table@[wh as int]);
                if k@ < d {
                    assert(t[slot_after(start, k@ as int, len as nat)].pos != 0);
                }
                assert(k@ == d);
            }
            table[wh] = e;
            proof {
                assert(es@.take(j + 1).drop_last() =~= es@.take(j as int));
                assert(es@.take(j + 1).last() == e);
                assert(table@.subrange(0, len as int) =~= t.update(wh as int, e));
            }
            j += 1;
        }
        assert(es@.take(n as int) =~= es@);
    }

    /// Writes the first `len` slots of the working table behind what is
    /// written, and clears them.
    fn write_table(&mut self, table: &mut Vec<HashPos>, len: usize) -> (r: Result<(), Error>)
        requires
            len <= old(table)@.len(),
        ensures
            final(self).entries == old(self).entries,
            final(self).records == old(self).records,
            final(table)@.len() == old(table)@.len(),
            r is Ok <==> old(self).pos + 8 * len <= MAX_SIZE,
            r is Err ==> r == Err::<(), Error>(Error::TooBig),
            r is Ok ==> {
                &&& final(self).pos == old(self).pos + 8 * len
                &&& final(self).file@ == old(self).file@ + slots_bytes(
                    old(table)@.subrange(0, len as int),
                )
                &&& forall|x: int|
                    0 <= x < final(table)@.len() ==> (#[trigger] final(table)@[x]) == if x < len {
                        HashPos { hash: 0, pos: 0 }
                    } else {
                        old(table)@[x]
                    }
            },
    {
        let mut buf = [0u8; 8];
        let ghost t = table@.subrange(0, len as int);
        let mut k: usize = 0;
        assert(self.file@ =~= old(self).file@ + slots_bytes(t.take(0)));
        while k < len
            invariant
                k <= len,
                len <= table@.len(),
                table@.len() == old(table)@.len(),
                t == old(table)@.subrange(0, len as int),
                self.entries == old(self).entries,
                self.records == old(self).records,
                self.pos == old(self).pos + 8 * k,
                self.file@ == old(self).file@ + slots_bytes(t.take(k as int)),
                forall|x: int|
                    0 <= x < table@.len() ==> (#[trigger] table@[x]) == if x < k {
                        HashPos { hash: 0, pos: 0 }
                    } else {
                        old(table)@[x]
                    },
            decreases len - k,
        {
            let hp = table[k];
            hp.pack(&mut buf);
            self.file.extend_from_slice(&buf);
            self.pos_plus(8)?;
            table[k] = HashPos { hash: 0, pos: 0 };
            proof {
                assert(t.take(k + 1).drop_last() =~= t.take(k as int));
                assert(t.take(k + 1).last() == hp);
                assert(buf@ =~= le32_pair_bytes(hp.hash, hp.pos));
                assert(self.file@ =~= old(self).file@ + slots_bytes(t.take(k + 1)));
            }
            k += 1;
        }
        assert(t.take(len as int) =~= t);
        Ok(())
    }

    /// Lays out the bucket `i`: its directory entry goes to the end of
    /// `header`, its table behind what is written.
    fn seal_bucket(&mut self, i: usize, table: &mut Vec<HashPos>, header: &mut Vec<u8>) -> (r:
        Result<(), Error>)
        requires
            i < old(self).entries@.len(),
            none_vacant(old(self).entries@[i as int]@),
            2 * old(self).entries@[i as int]@.len() <= old(table)@.len(),
            2 * old(self).entries@[i as int]@.len() <= MAX_SIZE,
            old(table)@ == empty_table(old(table)@.len()),
        ensures
            final(self).entries == old(self).entries,
            final(self).records == old(self).records,
            r is Ok <==> old(self).pos + 16 * old(self).entries@[i as int]@.len() <= MAX_SIZE,
            r is Err ==> r == Err::<(), Error>(Error::TooBig),
            r is Ok ==> {
                &&& final(self).pos == old(self).pos + 16 * old(self).entries@[i as int]@.len()
                &&& final(self).file@ == old(self).file@ + slots_bytes(
                    table_of(old(self).entries@[i as int]@),
                )
                &&& final(header)@ == old(header)@ + le32_pair_bytes(
                    old(self).pos,
                    (2 * old(self).entries@[i as int]@.len()) as u32,
                )
                &&& final(table)@ == old(table)@
            },
    {
        let mut buf = [0u8; 8];
        let len = self.entries[i].len() * 2;
        pack2(&mut buf, self.pos, len as u32);
        header.extend_from_slice(&buf);
        assert(header@ =~= old(header)@ + le32_pair_bytes(old(self).pos, len as u32));
        Self::fill_table(&self.entries[i], table);
        self.write_table(table, len)?;
        assert(table@ =~= old(table)@);
        Ok(())
    }

    /// Seals the database and hands out its bytes.
    ///
    /// The table of each bucket, with twice as many slots as the bucket
    /// has records, is laid out behind the records; then the directory
    /// is written over the room at the start. A database that would be
    /// longer than `0xffff_ffff` bytes is refused as `TooBig`.
    pub fn finish(self) -> (r: Result<Vec<u8>, Error>)
        requires
            self.wf(),
        ensures
            r is Ok <==> sealable(self@),
            r is Err ==> r == Err::<Vec<u8>, Error>(Error::TooBig),
            r is Ok ==> r->Ok_0@ == image(self@),
    {
        let mut cdb = self;
        let ghost rs = cdb.records@;
        proof {
            lemma_data_len(rs);
            lemma_entries_total(rs);
            lemma_image_len(rs);
        }
        let (maxsize, count) = cdb.table_sizes();
        proof {
            lemma_largest_bound(rs, 256);
            assert forall|b: int| 0 <= b < 256 implies 2 * (#[trigger] cdb.entries@[b])@.len()
                <= maxsize by {
                lemma_largest_table(rs, 256, b);
            }
        }
        if maxsize + count > 0xffff_ffff / 8 {
            return err_toobig();
        }
        let mut table = vec![HashPos { hash: 0, pos: 0 }; maxsize];
        assert(table@ =~= empty_table(maxsize as nat));
        let mut header: Vec<u8> = Vec::new();
        let mut i: usize = 0;
        while i < 256
            invariant
                i <= 256,
                rs == self@,
                rs == cdb.records@,
                cdb.entries@.len() == 256,
                forall|b: int|
                    0 <= b < 256 ==> (#[trigger] cdb.entries@[b])@ == bucket_entries(rs, b),
                forall|b: int| 0 <= b < 256 ==> 2 * (#[trigger] cdb.entries@[b])@.len() <= maxsize,
                maxsize <= MAX_SIZE,
                data_end(rs) <= MAX_SIZE,
                entries_before(rs, 256) == rs.len(),
                cdb.pos == table_pos(rs, i as nat),
                cdb.file@ == zeros(HEADER_SIZE as nat) + data_bytes(rs) + tables_bytes(
                    rs,
                    i as nat,
                ),
                header@ == directory_bytes(rs, i as nat),
                table@ == empty_table(maxsize as nat),
                table@.len() == maxsize,
            decreases 256 - i,
        {
            let ghost es = bucket_entries(rs, i as int);
            let ghost file0 = cdb.file@;
            proof {
                lemma_bucket_step(rs, i as nat);
                assert(cdb.entries@[i as int]@ == es);
            }
            match cdb.seal_bucket(i, &mut table, &mut header) {
                Ok(()) => {},
                Err(e) => {
                    return Err(e);
                },
            }
            proof {
                let a = zeros(HEADER_SIZE as nat) + data_bytes(rs);
                let b = tables_bytes(rs, i as nat);
                let c = slots_bytes(table_of(es));
                assert(file0 == a + b);
                assert(cdb.file@ == file0 + c);
                assert((a + b) + c =~= a + (b + c));
            }
            i += 1;
        }
        proof {
            lemma_tables_len(rs, 256);
        }
        let mut j: usize = 0;
        while j < 2048
            invariant
                j <= 2048,
                header@.len() == 2048,
                cdb.file@.len() >= 2048,
                cdb.file@ == header@.take(j as int) + zeros((2048 - j) as nat) + data_bytes(rs)
                    + tables_bytes(rs, 256),
            decreases 2048 - j,
        {
            cdb.file[j] = header[j];
            assert(cdb.file@ =~= header@.take(j + 1) + zeros((2048 - (j + 1)) as nat) + data_bytes(
                rs,
            ) + tables_bytes(rs, 256));
            j += 1;
        }
        assert(cdb.file@ =~= image(rs));
        Ok(cdb.file)
    }
}

/// `String::push_str` appends `string` to `s`.
pub assume_specification[ String::push_str ](s: &mut String, string: &str)
    ensures
        final(s)@ == old(s)@ + string@,
;

/// What is left to do when a writer has sealed its database: `image` is
/// to be written to the file `tmpname`, which is then to be renamed to
/// `dstname`.
pub struct Commit {
    pub image: Vec<u8>,
    pub tmpname: String,
    pub dstname: String,
}

/// What is left to do when a writer could not seal its database: the
/// file `tmpname` is to be removed, and `error` is why. The destination
/// is not to be touched.
pub struct Abort {
    pub error: Error,
    pub tmpname: String,
}

/// A writer that replaces a database in one step.
///
/// The database is built beside its destination, under a temporary
/// name, and takes the destination's place only when it is sealed. The
/// writer decides what is to happen to the two files; it does not touch
/// them itself.
pub struct CDBWriter {
    dstname: String,
    tmpname: String,
    cdb: CDBMake,
}

impl CDBWriter {
    /// The records added so far, in the order in which they were added.
    pub closed spec fn view(&self) -> Seq<Record> {
        self.cdb@
    }

    /// The name that the database is to have in the end.
    pub closed spec fn spec_dstname(&self) -> Seq<char> {
        self.dstname@
    }

    /// The name under which the database is built.
    pub closed spec fn spec_tmpname(&self) -> Seq<char> {
        self.tmpname@
    }

    /// The builder inside the writer is sound.
    pub closed spec fn wf(&self) -> bool {
        self.cdb.wf()
    }

    /// The records of a writer fit, and end within reach of an offset.
    pub proof fn lemma_wf(&self)
        requires
            self.wf(),
        ensures
            records_fit(self@),
            data_end(self@) <= MAX_SIZE,
    {
        self.cdb.lemma_wf();
    }

    /// A writer for the database `filename`, built under that name with
    /// `.tmp` behind it.
    pub fn create(filename: &str) -> (r: CDBWriter)
        ensures
            r.wf(),
            r@ == Seq::<Record>::empty(),
            r.spec_dstname() == filename@,
            r.spec_tmpname() == filename@ + ".tmp"@,
    {
        CDBWriter::with_suffix(filename, ".tmp")
    }

    /// A writer for the database `filename`, built under that name with
    /// `suffix` behind it.
    pub fn with_suffix(filename: &str, suffix: &str) -> (r: CDBWriter)
        ensures
            r.wf(),
            r@ == Seq::<Record>::empty(),
            r.spec_dstname() == filename@,
            r.spec_tmpname() == filename@ + suffix@,
    {
        let mut tmpname = filename.to_owned();
        tmpname.push_str(suffix);
        CDBWriter::with_filenames(filename, tmpname.as_str())
    }

    /// A writer for the database `filename`, built under the name
    /// `tmpname`.
    pub fn with_filenames(filename: &str, tmpname: &str) -> (r: CDBWriter)
        ensures
            r.wf(),
            r@ == Seq::<Record>::empty(),
            r.spec_dstname() == filename@,
            r.spec_tmpname() == tmpname@,
    {
        let cdb = CDBMake::new();
        CDBWriter { dstname: filename.to_owned(), tmpname: tmpname.to_owned(), cdb: cdb }
    }

    /// The name that the database is to have in the end.
    pub fn dstname(&self) -> (r: &str)
        ensures
            r@ == self.spec_dstname(),
    {
        self.dstname.as_str()
    }

    /// The name under which the database is built.
    pub fn tmpname(&self) -> (r: &str)
        ensures
            r@ == self.spec_tmpname(),
    {
        self.tmpname.as_str()
    }

    /// Adds a record, as `CDBMake::add` does.
    pub fn add(&mut self, key: &[u8], data: &[u8]) -> (r: Result<(), Error>)
        requires
            old(self).wf(),
        ensures
            final(self).wf(),
            final(self).spec_dstname() == old(self).spec_dstname(),
            final(self).spec_tmpname() == old(self).spec_tmpname(),
            r is Ok ==> final(self)@ == old(self)@.push((key@, data@)),
            r is Err ==> final(self)@ == old(self)@,
            r == Err::<(), Error>(Error::InvalidInput) <==> !record_fits((key@, data@)),
            r == Err::<(), Error>(Error::TooBig) <==> record_fits((key@, data@)) && data_end(
                old(self)@.push((key@, data@)),
            ) > MAX_SIZE,
            r is Ok <==> record_fits((key@, data@)) && data_end(old(self)@.push((key@, data@)))
                <= MAX_SIZE,
    {
        self.cdb.add(key, data)
    }

    /// Seals the database and says what is to happen to the files.
    ///
    /// Where the database can be sealed, its bytes are to be written to
    /// the temporary file and that file renamed to the destination.
    /// Where it cannot, the temporary file is to be removed and the
    /// destination left alone.
    pub fn finish(self) -> (r: Result<Commit, Abort>)
        requires
            self.wf(),
        ensures
            r is Ok <==> sealable(self@),
            r is Ok ==> {
                &&& r->Ok_0.image@ == image(self@)
                &&& r->Ok_0.tmpname@ == self.spec_tmpname()
                &&& r->Ok_0.dstname@ == self.spec_dstname()
            },
            r is Err ==> {
                &&& r->Err_0.error == Error::TooBig
                &&& r->Err_0.tmpname@ == self.spec_tmpname()
            },
    {
        match self.cdb.finish() {
            Ok(image) => Ok(Commit { image: image, tmpname: self.tmpname, dstname: self.dstname }),
            Err(error) => Err(Abort { error: error, tmpname: self.tmpname }),
        }
    }

    /// Gives the database up: the temporary file is to be removed, and
    /// the destination left alone.
    pub fn abandon(self) -> (tmpname: String)
        ensures
            tmpname@ == self.spec_tmpname(),
    {
        self.tmpname
    }
}

} // verus!
