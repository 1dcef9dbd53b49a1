//! Reading a database: looking up the values of a key, and walking
//! through all records.
//!
//! What a lookup and a walk return is defined here for any bytes at all,
//! so that damaged bytes give an error and never a fault.

use vstd::prelude::*;
use vstd::slice::slice_to_vec;
use filebuffer::FileBuffer;
use crate::error::{err_badfile, Error};
use crate::hash::{hash, hash_of};
use crate::layout::{bucket_of, Record, HEADER_SIZE, MAX_SIZE};
use crate::table::{home, lemma_home_in_table, slot_after};
use crate::uint32::{le32, unpack, unpack2};

verus! {

/// The number of key bytes that are compared at a time.
pub const KEYSIZE: usize = 32;

/// The shortest database: the directory and room for one table slot and
/// one record header.
pub const MIN_SIZE: usize = 2048 + 8 + 8;

/// The two numbers that the eight bytes at `pos` spell.
pub open spec fn pair_at(file: Seq<u8>, pos: int) -> (u32, u32)
    recommends
        0 <= pos,
        pos + 8 <= file.len(),
{
    (le32(file.subrange(pos, pos + 4)), le32(file.subrange(pos + 4, pos + 8)))
}

/// The place and the number of slots of the table that holds `khash`.
pub open spec fn table_for(file: Seq<u8>, khash: u32) -> (u32, u32) {
    pair_at(file, 8 * bucket_of(khash))
}

/// The place of the slot that a lookup of `khash` reads after it has
/// visited `visited` slots.
pub open spec fn slot_pos(file: Seq<u8>, khash: u32, visited: nat) -> int {
    let (hpos, hslots) = table_for(file, khash);
    hpos + 8 * slot_after(home(khash, hslots as nat), visited as int, hslots as nat)
}

/// Whether the bytes at `pos` are those of `key`, compared `KEYSIZE`
/// bytes at a time from the byte `done` on: a chunk that reaches beyond
/// the file is an error, but only if no chunk before it differs.
pub open spec fn key_matches(file: Seq<u8>, key: Seq<u8>, pos: int, done: int) -> Result<
    bool,
    Error,
>
    decreases key.len() - done,
{
    if done >= key.len() {
        Ok(true)
    } else {
        let n = if key.len() - done < KEYSIZE {
            key.len() - done
        } else {
            KEYSIZE as int
        };
        if pos + done + n > file.len() {
            Err(Error::Format)
        } else if file.subrange(pos + done, pos + done + n) != key.subrange(done, done + n) {
            Ok(false)
        } else {
            key_matches(file, key, pos, done + n)
        }
    }
}

/// What the record at `pos` gives to a lookup of `key`: nothing if it is
/// the record of another key, else its value, or an error where the
/// record reaches beyond the file.
pub open spec fn record_match(file: Seq<u8>, key: Seq<u8>, pos: int) -> Option<
    Result<Seq<u8>, Error>,
> {
    if pos + 8 > file.len() {
        Some(Err(Error::Format))
    } else {
        let (klen, dlen) = pair_at(file, pos);
        if klen != key.len() {
            None
        } else {
            match key_matches(file, key, pos + 8, 0) {
                Err(e) => Some(Err(e)),
                Ok(false) => None,
                Ok(true) => if pos + 8 + klen + dlen > file.len() {
                    Some(Err(Error::Format))
                } else {
                    Some(Ok(file.subrange(pos + 8 + klen, pos + 8 + klen + dlen)))
                },
            }
        }
    }
}

/// What a lookup of `key` that has visited `visited` slots returns next,
/// and how many slots it has visited then.
///
/// It reads slot after slot of the key's table. A vacant slot ends the
/// lookup, as does the visit of every slot. A slot with the key's hash
/// leads to a record, and that record to the next value or error if it
/// is a record of the key.
pub open spec fn pull(file: Seq<u8>, key: Seq<u8>, visited: nat) -> (
    Option<Result<Seq<u8>, Error>>,
    nat,
)
    decreases table_for(file, hash_of(key)).1 - visited,
{
    let khash = hash_of(key);
    let hslots = table_for(file, khash).1;
    if visited >= hslots {
        (None, visited)
    } else {
        let kpos = slot_pos(file, khash, visited);
        if kpos + 8 > file.len() {
            (Some(Err(Error::Format)), visited)
        } else {
            let (shash, pos) = pair_at(file, kpos);
            if pos == 0 {
                (None, visited)
            } else if shash != khash {
                pull(file, key, visited + 1)
            } else {
                match record_match(file, key, pos as int) {
                    None => pull(file, key, visited + 1),
                    Some(r) => (Some(r), visited + 1),
                }
            }
        }
    }
}

/// A lookup never goes back nor visits more slots than the table has,
/// and with each value it returns it has visited one more slot at
/// least: it comes to an end.
pub proof fn lemma_pull_advances(file: Seq<u8>, key: Seq<u8>, visited: nat)
    ensures
        visited <= pull(file, key, visited).1,
        visited <= table_for(file, hash_of(key)).1 ==> pull(file, key, visited).1 <= table_for(
            file,
            hash_of(key),
        ).1,
        pull(file, key, visited).0 matches Some(Ok(_)) ==> visited < pull(file, key, visited).1,
    decreases table_for(file, hash_of(key)).1 - visited,
{
    let khash = hash_of(key);
    let hslots = table_for(file, khash).1;
    if visited < hslots {
        let kpos = slot_pos(file, khash, visited);
        if kpos + 8 <= file.len() {
            let (shash, pos) = pair_at(file, kpos);
            if pos != 0 {
                if shash != khash || record_match(file, key, pos as int) is None {
                    lemma_pull_advances(file, key, visited + 1);
                }
            }
        }
    }
}

/// All that a lookup of `key` returns once it has visited `visited`
/// slots, up to its end or to its first error.
pub open spec fn lookup(file: Seq<u8>, key: Seq<u8>, visited: nat) -> Seq<Result<Seq<u8>, Error>>
    decreases table_for(file, hash_of(key)).1 - visited,
{
    let (item, next) = pull(file, key, visited);
    match item {
        None => Seq::empty(),
        Some(Err(e)) => seq![Err(e)],
        Some(Ok(v)) => {
            proof {
                lemma_pull_advances(file, key, visited);
            }
            seq![Ok(v)] + lookup(file, key, next)
        },
    }
}

/// All that a lookup returns starts with what it returns next.
pub proof fn lemma_lookup_first(file: Seq<u8>, key: Seq<u8>, visited: nat)
    ensures
        pull(file, key, visited).0 is None <==> lookup(file, key, visited).len() == 0,
        pull(file, key, visited).0 is Some ==> pull(file, key, visited).0 == Some(
            lookup(file, key, visited)[0],
        ),
{
    let (item, next) = pull(file, key, visited);
    match item {
        None => {},
        Some(Err(e)) => {},
        Some(Ok(v)) => {
            assert(lookup(file, key, visited) == seq![Ok::<Seq<u8>, Error>(v)] + lookup(
                file,
                key,
                next,
            ));
        },
    }
}

/// When the bytes of a key all lie in the file, comparing them in chunks
/// tells whether they are the key.
pub proof fn lemma_key_matches(file: Seq<u8>, key: Seq<u8>, pos: int, done: int)
    requires
        0 <= pos,
        pos + key.len() <= file.len(),
        0 <= done <= key.len(),
        file.subrange(pos, pos + done) == key.subrange(0, done),
    ensures
        key_matches(file, key, pos, done) == Ok::<bool, Error>(
            file.subrange(pos, pos + key.len()) == key,
        ),
    decreases key.len() - done,
{
    let whole = file.subrange(pos, pos + key.len());
    if done >= key.len() {
        assert(whole =~= file.subrange(pos, pos + done));
        assert(key =~= key.subrange(0, done));
    } else {
        let n = if key.len() - done < KEYSIZE {
            key.len() - done
        } else {
            KEYSIZE as int
        };
        let here = file.subrange(pos + done, pos + done + n);
        let there = key.subrange(done, done + n);
        if here != there {
            if whole == key {
                assert(here =~= whole.subrange(done, done + n));
            }
        } else {
            assert(file.subrange(pos, pos + done + n) =~= file.subrange(pos, pos + done) + here);
            assert(key.subrange(0, done + n) =~= key.subrange(0, done) + there);
            lemma_key_matches(file, key, pos, done + n);
        }
    }
}

/// Where the records end according to the directory, but never beyond
/// the file.
pub open spec fn records_end(file: Seq<u8>) -> int {
    if le32(file.subrange(0, 4)) < file.len() {
        le32(file.subrange(0, 4)) as int
    } else {
        file.len() as int
    }
}

/// What a walk that stands at `pos` returns next, and where it stands
/// then.
///
/// The walk ends where no record header fits before the end of the
/// records. A record that would reach beyond that end is an error.
pub open spec fn scan(file: Seq<u8>, pos: int) -> (Option<Result<Record, Error>>, int) {
    let end = records_end(file);
    if pos + 8 >= end {
        (None, pos)
    } else {
        let (klen, dlen) = pair_at(file, pos);
        let stop = pos + 8 + klen + dlen;
        if stop > end {
            (Some(Err(Error::Format)), pos)
        } else {
            let key = file.subrange(pos + 8, pos + 8 + klen);
            let value = file.subrange(pos + 8 + klen, stop);
            (Some(Ok((key, value))), stop)
        }
    }
}

/// All that a walk returns from `pos` on, up to its end or to its first
/// error.
pub open spec fn walked(file: Seq<u8>, pos: int) -> Seq<Result<Record, Error>>
    decreases records_end(file) - pos,
{
    let (item, next) = scan(file, pos);
    match item {
        None => Seq::empty(),
        Some(Err(e)) => seq![Err(e)],
        Some(Ok(r)) => seq![Ok(r)] + walked(file, next),
    }
}

/// A value as a lookup returns it, seen as a sequence of bytes.
pub open spec fn value_view(r: Option<Result<Vec<u8>, Error>>) -> Option<Result<Seq<u8>, Error>> {
    match r {
        None => None,
        Some(Err(e)) => Some(Err(e)),
        Some(Ok(v)) => Some(Ok(v@)),
    }
}

/// A record as a walk returns it, seen as two sequences of bytes.
pub open spec fn record_view(r: Option<Result<(Vec<u8>, Vec<u8>), Error>>) -> Option<
    Result<Record, Error>,
> {
    match r {
        None => None,
        Some(Err(e)) => Some(Err(e)),
        Some(Ok(kv)) => Some(Ok((kv.0@, kv.1@))),
    }
}

/// A file that `filebuffer` has mapped into memory. Nothing of it is
/// known here but that it exists.
#[verifier::external_type_specification]
#[verifier::external_body]
pub struct ExFileBuffer(FileBuffer);

/// The number of bytes of a mapped file. `filebuffer` fixes it when it
/// maps the file and keeps it for as long as the mapping lives.
pub uninterp spec fn mapped_len(file: FileBuffer) -> nat;

/// The bytes of a mapped file, by `FileBuffer::as_ref`.
///
/// Their number is that of the mapping. Nothing is claimed of the bytes
/// themselves: they are what the file holds, and nothing here has seen
/// the file.
#[verifier::external_body]
fn mapped_bytes(file: &FileBuffer) -> (bytes: &[u8])
    ensures
        bytes@.len() == mapped_len(*file),
{
    file.as_ref()
}

/// Whether two byte strings are the same.
fn same_bytes(a: &[u8], b: &[u8]) -> (r: bool)
    ensures
        r == (a@ == b@),
{
    if a.len() != b.len() {
        return false;
    }
    let mut i: usize = 0;
    while i < a.len()
        invariant
            i <= a.len(),
            a.len() == b.len(),
            a@.take(i as int) == b@.take(i as int),
        decreases a.len() - i,
    {
        if a[i] != b[i] {
            return false;
        }
        assert(a@.take(i + 1) =~= a@.take(i as int).push(a@[i as int]));
        assert(b@.take(i + 1) =~= b@.take(i as int).push(b@[i as int]));
        i += 1;
    }
    assert(a@ =~= a@.take(a.len() as int));
    assert(b@ =~= b@.take(b.len() as int));
    true
}

/// A reader of the database that some bytes hold.
#[derive(Clone, Copy)]
pub struct CDB<'a> {
    file: &'a [u8],
    size: usize,
}

impl<'a> CDB<'a> {
    /// The bytes of the database.
    pub closed spec fn view(&self) -> Seq<u8> {
        self.file@
    }

    /// The reader knows the length of its bytes, which is that of a
    /// database.
    pub closed spec fn wf(&self) -> bool {
        &&& self.size == self.file@.len()
        &&& MIN_SIZE <= self.size <= MAX_SIZE
    }

    /// A reader's bytes are at least `MIN_SIZE` and at most `MAX_SIZE`
    /// long.
    pub proof fn lemma_wf(&self)
        requires
            self.wf(),
        ensures
            MIN_SIZE <= self@.len() <= MAX_SIZE,
    {
    }

    /// Makes a reader of `file`.
    ///
    /// Bytes that are too short to hold a directory, a table slot and a
    /// record header, or too long for 32-bit offsets, are refused.
    pub fn new(file: &'a [u8]) -> (r: Result<CDB<'a>, Error>)
        ensures
            r is Ok <==> MIN_SIZE <= file@.len() <= MAX_SIZE,
            r is Err ==> r == Err::<CDB<'a>, Error>(Error::Format),
            r is Ok ==> r->Ok_0.wf() && r->Ok_0@ == file@,
    {
        if file.len() < 2048 + 8 + 8 || file.len() > 0xffff_ffff {
            return err_badfile();
        }
        let size = file.len();
        Ok(CDB { file, size })
    }

    /// Makes a reader of a mapped file.
    ///
    /// A file that is too short or too long to be a database is refused.
    /// The reader takes the file's bytes to stay as they are for as long
    /// as it lives; `filebuffer` does not keep others from writing to the
    /// file.
    pub fn open(file: &'a FileBuffer) -> (r: Result<CDB<'a>, Error>)
        ensures
            r is Ok <==> MIN_SIZE <= mapped_len(*file) <= MAX_SIZE,
            r is Err ==> r == Err::<CDB<'a>, Error>(Error::Format),
            r is Ok ==> r->Ok_0.wf() && r->Ok_0@.len() == mapped_len(*file),
    {
        CDB::new(mapped_bytes(file))
    }

    /// The `len` bytes at `pos`, or an error if they are not all there.
    fn read(&self, pos: u64, len: usize) -> (r: Result<&'a [u8], Error>)
        requires
            self.wf(),
        ensures
            r is Ok <==> pos + len <= self@.len(),
            r is Err ==> r == Err::<&'a [u8], Error>(Error::Format),
            r is Ok ==> r->Ok_0@ == self@.subrange(pos as int, pos + len),
    {
        if pos > 0xffff_ffff || len > 0xffff_ffff || pos + len as u64 > self.size as u64 {
            return err_badfile();
        }
        let start = pos as usize;
        Ok(&self.file[start..start + len])
    }

    /// The place and the number of slots of the table that holds
    /// `khash`, and the place of the slot at which its lookup starts.
    fn hash_table(&self, khash: u32) -> (r: (u32, u32, u64))
        requires
            self.wf(),
        ensures
            (r.0, r.1) == table_for(self@, khash),
            r.2 == if r.1 > 0 {
                slot_pos(self@, khash, 0)
            } else {
                0
            },
    {
        assert(khash & 0xff == khash % 256) by (bit_vector);
        assert(khash >> 8 == khash / 256) by (bit_vector);
        let x = ((khash & 0xff) as usize) * 8;
        let (hpos, hslots) = unpack2(&self.file[x..x + 8]);
        proof {
            let entry = self.file@.subrange(x as int, x + 8);
            assert(entry.subrange(0, 4) =~= self.file@.subrange(x as int, x + 4));
            assert(entry.subrange(4, 8) =~= self.file@.subrange(x + 4, x + 8));
        }
        let kpos = if hslots > 0 {
            proof {
                lemma_home_in_table(khash, hslots as nat);
            }
            hpos as u64 + (((khash >> 8) % hslots) as u64) * 8
        } else {
            0
        };
        (hpos, hslots, kpos)
    }

    /// Whether the bytes at `pos` are those of `key`.
    fn match_key(&self, key: &[u8], pos: u64) -> (r: Result<bool, Error>)
        requires
            self.wf(),
            pos <= MAX_SIZE + 8,
        ensures
            r == key_matches(self@, key@, pos as int, 0),
    {
        let mut len = key.len();
        let mut keypos: usize = 0;
        while len > 0
            invariant
                self.wf(),
                pos <= MAX_SIZE + 8,
                keypos + len == key@.len(),
                keypos == 0 || pos + keypos <= self@.len(),
                key_matches(self@, key@, pos as int, keypos as int) == key_matches(
                    self@,
                    key@,
                    pos as int,
                    0,
                ),
            decreases len,
        {
            let n = if len < KEYSIZE {
                len
            } else {
                KEYSIZE
            };
            let buf = self.read(pos + keypos as u64, n)?;
            if !same_bytes(buf, &key[keypos..keypos + n]) {
                return Ok(false);
            }
            keypos += n;
            len -= n;
        }
        Ok(true)
    }

    /// The first value of `key`, if it has one.
    pub fn get(&self, key: &[u8]) -> (r: Option<Result<Vec<u8>, Error>>)
        requires
            self.wf(),
        ensures
            value_view(r) == pull(self@, key@, 0).0,
    {
        let mut values = self.find(key);
        values.next()
    }

    /// Starts a lookup of `key`. It returns the key's values one by one,
    /// in the order in which they were added.
    pub fn find(&self, key: &[u8]) -> (r: CDBValueIter<'a>)
        requires
            self.wf(),
        ensures
            r.wf(),
            r@ == (Lookup { file: self@, key: key@, visited: 0 }),
    {
        CDBValueIter::find(*self, key)
    }

    /// Starts a walk through all records, in the order in which they
    /// were added.
    pub fn iter(&self) -> (r: CDBKeyValueIter<'a>)
        requires
            self.wf(),
        ensures
            r.wf(),
            r@ == (Walk { file: self@, pos: HEADER_SIZE as int }),
    {
        CDBKeyValueIter::start(*self)
    }
}

/// Another name of `CDBValueIter`.
pub type CDBIter<'a> = CDBValueIter<'a>;

/// How far a lookup has come: the bytes it reads, the key it looks for,
/// and the number of slots it has visited.
pub ghost struct Lookup {
    pub file: Seq<u8>,
    pub key: Seq<u8>,
    pub visited: nat,
}

/// A lookup of one key: it returns the key's values one by one.
pub struct CDBValueIter<'a> {
    cdb: CDB<'a>,
    key: Vec<u8>,
    khash: u32,
    kloop: u32,
    kpos: u64,
    hpos: u32,
    hslots: u32,
}

impl<'a> CDBValueIter<'a> {
    /// How far the lookup has come.
    pub closed spec fn view(&self) -> Lookup {
        Lookup { file: self.cdb@, key: self.key@, visited: self.kloop as nat }
    }

    /// The lookup holds the key's hash and table, and stands at the slot
    /// that follows those it has visited.
    pub closed spec fn wf(&self) -> bool {
        &&& self.cdb.wf()
        &&& self.khash == hash_of(self.key@)
        &&& (self.hpos, self.hslots) == table_for(self.cdb@, self.khash)
        &&& self.kloop <= self.hslots
        &&& self.hslots > 0 ==> self.kpos == slot_pos(self.cdb@, self.khash, self.kloop as nat)
    }

    fn find(cdb: CDB<'a>, key: &[u8]) -> (r: Self)
        requires
            cdb.wf(),
        ensures
            r.wf(),
            r@ == (Lookup { file: cdb@, key: key@, visited: 0 }),
    {
        let khash = hash(key);
        let (hpos, hslots, kpos) = cdb.hash_table(khash);
        CDBValueIter {
            cdb: cdb,
            key: slice_to_vec(key),
            khash: khash,
            kloop: 0,
            kpos: kpos,
            hpos: hpos,
            hslots: hslots,
        }
    }

    /// The `dlen` bytes at `dpos`, as a value of their own.
    fn read_vec(&self, dpos: u64, dlen: u32) -> (r: Result<Vec<u8>, Error>)
        requires
            self.cdb.wf(),
        ensures
            r is Ok <==> dpos + dlen <= self.cdb@.len(),
            r is Err ==> r == Err::<Vec<u8>, Error>(Error::Format),
            r is Ok ==> r->Ok_0@ == self.cdb@.subrange(dpos as int, dpos + dlen),
    {
        let bytes = self.cdb.read(dpos, dlen as usize)?;
        Ok(slice_to_vec(bytes))
    }

    /// The next value of the key, or `None` when there is no further
    /// one. An error stands for a slot or a record that the file does
    /// not hold in full.
    #[verifier::rlimit(50)]
    pub fn next(&mut self) -> (r: Option<Result<Vec<u8>, Error>>)
        requires
            old(self).wf(),
        ensures
            final(self).wf(),
            final(self)@.file == old(self)@.file,
            final(self)@.key == old(self)@.key,
            (value_view(r), final(self)@.visited) == pull(
                old(self)@.file,
                old(self)@.key,
                old(self)@.visited,
            ),
    {
        let ghost file = self.cdb@;
        let ghost key = self.key@;
        while self.kloop < self.hslots
            invariant
                self.wf(),
                self.cdb@ == file,
                self.key@ == key,
                old(self)@.file == file,
                old(self)@.key == key,
                pull(file, key, self.kloop as nat) == pull(file, key, old(self).kloop as nat),
            decreases self.hslots - self.kloop,
        {
            let buf = match self.cdb.read(self.kpos, 8) {
                Err(x) => {
                    return Some(Err(x));
                },
                Ok(y) => y,
            };
            let (khash, pos) = unpack2(buf);
            if pos == 0 {
                return None;
            }
            self.kloop += 1;
            self.kpos += 8;
            if self.kpos == self.hpos as u64 + (self.hslots as u64) * 8 {
                self.kpos = self.hpos as u64;
            }
            proof {
                lemma_home_in_table(self.khash, self.hslots as nat);
            }
            if khash == self.khash {
                let head = match self.cdb.read(pos as u64, 8) {
                    Err(x) => {
                        return Some(Err(x));
                    },
                    Ok(y) => y,
                };
                let (klen, dlen) = unpack2(head);
                if klen as usize == self.key.len() {
                    let same = match self.cdb.match_key(self.key.as_slice(), pos as u64 + 8) {
                        Err(x) => {
                            return Some(Err(x));
                        },
                        Ok(y) => y,
                    };
                    if same {
                        return Some(self.read_vec(pos as u64 + 8 + klen as u64, dlen));
                    }
                }
            }
        }
        None
    }
}

/// Looking a key up leaves the reader as it was: two lookups of one key
/// in one reader start alike, whatever was looked up in between, and so
/// return the same values in the same order.
pub proof fn lemma_lookups_agree(cdb: CDB, key: Seq<u8>, first: CDBValueIter, second: CDBValueIter)
    requires
        first@ == (Lookup { file: cdb@, key: key, visited: 0 }),
        second@ == (Lookup { file: cdb@, key: key, visited: 0 }),
    ensures
        first@ == second@,
        pull(first@.file, first@.key, first@.visited) == pull(
            second@.file,
            second@.key,
            second@.visited,
        ),
        lookup(first@.file, first@.key, first@.visited) == lookup(
            second@.file,
            second@.key,
            second@.visited,
        ),
{
}

/// How far a walk has come: the bytes it reads and the place of the
/// record that it returns next.
pub ghost struct Walk {
    pub file: Seq<u8>,
    pub pos: int,
}

/// A walk through all records of a database.
pub struct CDBKeyValueIter<'a> {
    cdb: CDB<'a>,
    pos: u32,
    data_end: u32,
}

impl<'a> CDBKeyValueIter<'a> {
    /// How far the walk has come.
    pub closed spec fn view(&self) -> Walk {
        Walk { file: self.cdb@, pos: self.pos as int }
    }

    /// The walk knows where the records end.
    pub closed spec fn wf(&self) -> bool {
        &&& self.cdb.wf()
        &&& self.data_end == records_end(self.cdb@)
    }

    fn start(cdb: CDB<'a>) -> (r: Self)
        requires
            cdb.wf(),
        ensures
            r.wf(),
            r@ == (Walk { file: cdb@, pos: HEADER_SIZE as int }),
    {
        let first = unpack(&cdb.file[0..4]);
        let data_end = if first as u64 > cdb.size as u64 {
            cdb.size as u32
        } else {
            first
        };
        Self { cdb, pos: 2048, data_end }
    }

    /// The next record, or `None` at the end of the records. An error
    /// stands for a record that reaches beyond the end of the records;
    /// the walk does not get past it.
    pub fn next(&mut self) -> (r: Option<Result<(Vec<u8>, Vec<u8>), Error>>)
        requires
            old(self).wf(),
        ensures
            final(self).wf(),
            final(self)@.file == old(self)@.file,
            (record_view(r), final(self)@.pos) == scan(old(self)@.file, old(self)@.pos),
    {
        if self.pos as u64 + 8 >= self.data_end as u64 {
            None
        } else {
            let pos = self.pos as usize;
            let (klen, dlen) = unpack2(&self.cdb.file[pos..pos + 8]);
            proof {
                let head = self.cdb.file@.subrange(pos as int, pos + 8);
                assert(head.subrange(0, 4) =~= self.cdb.file@.subrange(pos as int, pos + 4));
                assert(head.subrange(4, 8) =~= self.cdb.file@.subrange(pos + 4, pos + 8));
            }
            let stop = self.pos as u64 + 8 + klen as u64 + dlen as u64;
            if stop > self.data_end as u64 {
                Some(err_badfile())
            } else {
                let kpos = pos + 8;
                let dpos = kpos + klen as usize;
                let key = slice_to_vec(&self.cdb.file[kpos..dpos]);
                let value = slice_to_vec(&self.cdb.file[dpos..dpos + dlen as usize]);
                self.pos = stop as u32;
                Some(Ok((key, value)))
            }
        }
    }
}

} // verus!
