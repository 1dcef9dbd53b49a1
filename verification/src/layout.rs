//! The bytes of a database, as a function of the records it holds.
//!
//! A database is three regions in a row: the directory, 256 pairs of a
//! table's place and its number of slots; the records, each a pair of
//! lengths followed by key and value; and the 256 tables.

use vstd::prelude::*;
use crate::hash::hash_of;
use crate::table::{lemma_fill_len, none_vacant, table_of, HashPos};
use crate::uint32::le32_pair_bytes;

verus! {

/// A key and a value.
pub type Record = (Seq<u8>, Seq<u8>);

/// The length of the directory, and so the place of the first record.
pub const HEADER_SIZE: u32 = 2048;

/// The longest database that 32-bit offsets can address.
pub const MAX_SIZE: u32 = 0xffff_ffff;

/// Key and value are short enough for their length fields.
pub open spec fn record_fits(r: Record) -> bool {
    r.0.len() < MAX_SIZE && r.1.len() < MAX_SIZE
}

/// Every record of `rs` fits.
pub open spec fn records_fit(rs: Seq<Record>) -> bool {
    forall|i: int| 0 <= i < rs.len() ==> record_fits(#[trigger] rs[i])
}

/// The bytes of one record: both lengths, the key, the value.
pub open spec fn record_bytes(r: Record) -> Seq<u8> {
    le32_pair_bytes(r.0.len() as u32, r.1.len() as u32) + r.0 + r.1
}

/// The region of the records.
pub open spec fn data_bytes(rs: Seq<Record>) -> Seq<u8>
    decreases rs.len(),
{
    if rs.len() == 0 {
        Seq::empty()
    } else {
        data_bytes(rs.drop_last()) + record_bytes(rs.last())
    }
}

/// Where the record `i` starts in the database.
pub open spec fn record_pos(rs: Seq<Record>, i: int) -> int {
    HEADER_SIZE + data_bytes(rs.take(i)).len()
}

/// Where the region of the records ends.
pub open spec fn data_end(rs: Seq<Record>) -> int {
    HEADER_SIZE + data_bytes(rs).len()
}

/// The bucket of a hash: its lowest byte.
pub open spec fn bucket_of(hash: u32) -> int {
    hash as int % 256
}

/// What the table of its bucket holds for the record `i`.
pub open spec fn entry(rs: Seq<Record>, i: int) -> HashPos {
    HashPos { hash: hash_of(rs[i].0), pos: record_pos(rs, i) as u32 }
}

/// The entries of the bucket `b`, in the order of their records.
pub open spec fn bucket_entries(rs: Seq<Record>, b: int) -> Seq<HashPos>
    decreases rs.len(),
{
    if rs.len() == 0 {
        Seq::empty()
    } else {
        let init = bucket_entries(rs.drop_last(), b);
        if bucket_of(hash_of(rs.last().0)) == b {
            init.push(entry(rs, rs.len() - 1))
        } else {
            init
        }
    }
}

/// The number of entries in the buckets before `b`.
pub open spec fn entries_before(rs: Seq<Record>, b: nat) -> nat
    decreases b,
{
    if b == 0 {
        0
    } else {
        entries_before(rs, (b - 1) as nat) + bucket_entries(rs, b - 1).len()
    }
}

/// The number of slots of the largest table among the buckets before
/// `b`, but at least 1: the size of the table that is worked in.
pub open spec fn largest_table(rs: Seq<Record>, b: nat) -> nat
    decreases b,
{
    if b == 0 {
        1
    } else {
        let before = largest_table(rs, (b - 1) as nat);
        let here = 2 * bucket_entries(rs, b - 1).len();
        if here > before {
            here
        } else {
            before
        }
    }
}

/// The bytes of a table: its slots in a row.
pub open spec fn slots_bytes(t: Seq<HashPos>) -> Seq<u8>
    decreases t.len(),
{
    if t.len() == 0 {
        Seq::empty()
    } else {
        slots_bytes(t.drop_last()) + le32_pair_bytes(t.last().hash, t.last().pos)
    }
}

/// The tables of the buckets before `b`, in a row.
pub open spec fn tables_bytes(rs: Seq<Record>, b: nat) -> Seq<u8>
    decreases b,
{
    if b == 0 {
        Seq::empty()
    } else {
        tables_bytes(rs, (b - 1) as nat) + slots_bytes(table_of(bucket_entries(rs, b - 1)))
    }
}

/// Where the table of the bucket `b` starts in the database.
pub open spec fn table_pos(rs: Seq<Record>, b: nat) -> int {
    data_end(rs) + 16 * entries_before(rs, b)
}

/// The directory entries of the buckets before `b`, in a row.
pub open spec fn directory_bytes(rs: Seq<Record>, b: nat) -> Seq<u8>
    decreases b,
{
    if b == 0 {
        Seq::empty()
    } else {
        directory_bytes(rs, (b - 1) as nat) + le32_pair_bytes(
            table_pos(rs, (b - 1) as nat) as u32,
            (2 * bucket_entries(rs, b - 1).len()) as u32,
        )
    }
}

/// The database that holds the records `rs`.
pub open spec fn image(rs: Seq<Record>) -> Seq<u8> {
    directory_bytes(rs, 256) + data_bytes(rs) + tables_bytes(rs, 256)
}

/// The length of the database that holds the records `rs`.
pub open spec fn image_len(rs: Seq<Record>) -> int {
    data_end(rs) + 16 * rs.len()
}

/// The records `rs` can be added to a database one after the other.
pub open spec fn addable(rs: Seq<Record>) -> bool {
    records_fit(rs) && data_end(rs) <= MAX_SIZE
}

/// The records `rs` make a database that 32-bit offsets can address.
pub open spec fn sealable(rs: Seq<Record>) -> bool {
    records_fit(rs) && image_len(rs) <= MAX_SIZE
}

/// The records take at least eight bytes each.
pub proof fn lemma_data_len(rs: Seq<Record>)
    ensures
        data_bytes(rs).len() >= 8 * rs.len(),
    decreases rs.len(),
{
    if rs.len() > 0 {
        lemma_data_len(rs.drop_last());
    }
}

/// Records start where the records before them end, whatever follows.
pub proof fn lemma_record_pos(rs: Seq<Record>, i: int, n: int)
    requires
        0 <= i <= n <= rs.len(),
    ensures
        record_pos(rs.take(n), i) == record_pos(rs, i),
        i < n ==> entry(rs.take(n), i) == entry(rs, i),
        record_pos(rs, i) <= data_end(rs.take(n)) <= data_end(rs),
        i < n ==> record_pos(rs, i) + record_bytes(rs[i]).len() <= data_end(rs.take(n)),
{
    assert(rs.take(n).take(i) =~= rs.take(i));
    lemma_data_grows(rs.take(n), i);
    lemma_data_grows(rs, n);
    if i < n {
        lemma_data_grows(rs.take(n), i + 1);
        assert(rs.take(n).take(i + 1) =~= rs.take(i + 1));
        assert(rs.take(i + 1).drop_last() =~= rs.take(i));
        assert(rs.take(i + 1).last() == rs[i]);
    }
}

/// A prefix of the records takes no more bytes than all of them.
pub proof fn lemma_data_grows(rs: Seq<Record>, n: int)
    requires
        0 <= n <= rs.len(),
    ensures
        data_bytes(rs.take(n)).len() <= data_bytes(rs).len(),
    decreases rs.len() - n,
{
    if n == rs.len() {
        assert(rs.take(n) =~= rs);
    } else {
        lemma_data_grows(rs, n + 1);
        assert(rs.take(n + 1).drop_last() =~= rs.take(n));
    }
}

/// A table takes eight bytes per slot.
pub proof fn lemma_slots_len(t: Seq<HashPos>)
    ensures
        slots_bytes(t).len() == 8 * t.len(),
    decreases t.len(),
{
    if t.len() > 0 {
        lemma_slots_len(t.drop_last());
    }
}

/// The tables before a bucket take sixteen bytes per entry, and its
/// directory entries eight bytes per bucket.
pub proof fn lemma_tables_len(rs: Seq<Record>, b: nat)
    ensures
        tables_bytes(rs, b).len() == 16 * entries_before(rs, b),
        directory_bytes(rs, b).len() == 8 * b,
    decreases b,
{
    if b > 0 {
        lemma_tables_len(rs, (b - 1) as nat);
        let es = bucket_entries(rs, b - 1);
        lemma_fill_len(es, 2 * es.len());
        lemma_slots_len(table_of(es));
    }
}

/// One more record adds one entry to the buckets before `b` if its own
/// bucket is among them.
pub proof fn lemma_entries_before_push(rs: Seq<Record>, b: nat)
    requires
        rs.len() > 0,
    ensures
        entries_before(rs, b) == entries_before(rs.drop_last(), b) + if bucket_of(
            hash_of(rs.last().0),
        ) < b {
            1nat
        } else {
            0nat
        },
    decreases b,
{
    if b > 0 {
        lemma_entries_before_push(rs, (b - 1) as nat);
    }
}

/// The buckets share out the records: every record is in one of them.
pub proof fn lemma_entries_total(rs: Seq<Record>)
    ensures
        entries_before(rs, 256) == rs.len(),
    decreases rs.len(),
{
    if rs.len() == 0 {
        assert(rs =~= Seq::<Record>::empty());
        lemma_entries_none(256);
    } else {
        lemma_entries_total(rs.drop_last());
        lemma_entries_before_push(rs, 256);
    }
}

/// Without records the buckets are empty.
pub proof fn lemma_entries_none(b: nat)
    ensures
        entries_before(Seq::<Record>::empty(), b) == 0,
    decreases b,
{
    if b > 0 {
        lemma_entries_none((b - 1) as nat);
    }
}

/// The entries before a bucket grow with the bucket.
pub proof fn lemma_entries_before_grows(rs: Seq<Record>, a: nat, b: nat)
    requires
        a <= b,
    ensures
        entries_before(rs, a) <= entries_before(rs, b),
    decreases b,
{
    if a < b {
        lemma_entries_before_grows(rs, a, (b - 1) as nat);
    }
}

/// The largest table holds every table before `b`, and is no larger
/// than if all entries were in one bucket.
pub proof fn lemma_largest_table(rs: Seq<Record>, b: nat, c: int)
    requires
        0 <= c < b,
    ensures
        2 * bucket_entries(rs, c).len() <= largest_table(rs, b),
        1 <= largest_table(rs, b) <= 2 * entries_before(rs, b) + 1,
    decreases b,
{
    lemma_largest_bound(rs, b);
    if c < b - 1 {
        lemma_largest_table(rs, (b - 1) as nat, c);
    }
}

/// The largest table is no larger than if all entries were in one
/// bucket.
pub proof fn lemma_largest_bound(rs: Seq<Record>, b: nat)
    ensures
        1 <= largest_table(rs, b) <= 2 * entries_before(rs, b) + 1,
    decreases b,
{
    if b > 0 {
        lemma_largest_bound(rs, (b - 1) as nat);
    }
}

/// The length of a database: directory, records, sixteen bytes of table
/// per record.
pub proof fn lemma_image_len(rs: Seq<Record>)
    ensures
        image(rs).len() == image_len(rs),
{
    lemma_tables_len(rs, 256);
    lemma_entries_total(rs);
}

/// The entries of a bucket point at records, in rising order of place.
pub proof fn lemma_bucket_entries(rs: Seq<Record>, b: int)
    requires
        data_end(rs) <= MAX_SIZE,
    ensures
        bucket_entries(rs, b).len() <= rs.len(),
        forall|j: int|
            0 <= j < bucket_entries(rs, b).len() ==> HEADER_SIZE <= (#[trigger] bucket_entries(
                rs,
                b,
            )[j]).pos,
    decreases rs.len(),
{
    if rs.len() > 0 {
        let init = rs.drop_last();
        lemma_data_grows(rs, rs.len() - 1);
        assert(rs.take(rs.len() - 1) =~= init);
        lemma_bucket_entries(init, b);
    }
}

/// What the bucket `b` adds to the directory and to the tables.
pub proof fn lemma_bucket_step(rs: Seq<Record>, b: nat)
    requires
        b < 256,
        data_end(rs) <= MAX_SIZE,
    ensures
        directory_bytes(rs, b + 1) == directory_bytes(rs, b) + le32_pair_bytes(
            table_pos(rs, b) as u32,
            (2 * bucket_entries(rs, b as int).len()) as u32,
        ),
        tables_bytes(rs, b + 1) == tables_bytes(rs, b) + slots_bytes(
            table_of(bucket_entries(rs, b as int)),
        ),
        table_pos(rs, b + 1) == table_pos(rs, b) + 16 * bucket_entries(rs, b as int).len(),
        table_pos(rs, b + 1) <= image_len(rs),
        none_vacant(bucket_entries(rs, b as int)),
        2 * bucket_entries(rs, b as int).len() <= 2 * rs.len(),
{
    lemma_entries_before_grows(rs, b + 1, 256);
    lemma_entries_total(rs);
    lemma_bucket_entries(rs, b as int);
}

/// The directory entry of the bucket `b`, as the directory spells it.
pub proof fn lemma_directory_entry(rs: Seq<Record>, n: nat, b: nat)
    requires
        b < n,
    ensures
        directory_bytes(rs, n).subrange(8 * b as int, 8 * b as int + 8) == le32_pair_bytes(
            table_pos(rs, b) as u32,
            (2 * bucket_entries(rs, b as int).len()) as u32,
        ),
    decreases n,
{
    let init = directory_bytes(rs, (n - 1) as nat);
    let last = le32_pair_bytes(
        table_pos(rs, (n - 1) as nat) as u32,
        (2 * bucket_entries(rs, n - 1).len()) as u32,
    );
    lemma_tables_len(rs, (n - 1) as nat);
    if b == n - 1 {
        assert((init + last).subrange(8 * b as int, 8 * b as int + 8) =~= last);
    } else {
        lemma_directory_entry(rs, (n - 1) as nat, b);
        let lo = 8 * b as int;
        assert((init + last).subrange(lo, lo + 8) =~= init.subrange(lo, lo + 8));
    }
}

/// The slot `j` of a table, as the table's bytes spell it.
pub proof fn lemma_slot_bytes(t: Seq<HashPos>, j: int)
    requires
        0 <= j < t.len(),
    ensures
        slots_bytes(t).subrange(8 * j, 8 * j + 8) == le32_pair_bytes(t[j].hash, t[j].pos),
    decreases t.len(),
{
    let init = slots_bytes(t.drop_last());
    let last = le32_pair_bytes(t.last().hash, t.last().pos);
    lemma_slots_len(t.drop_last());
    if j == t.len() - 1 {
        assert((init + last).subrange(8 * j, 8 * j + 8) =~= last);
    } else {
        lemma_slot_bytes(t.drop_last(), j);
        assert((init + last).subrange(8 * j, 8 * j + 8) =~= init.subrange(8 * j, 8 * j + 8));
    }
}

/// The table of the bucket `b`, as the region of the tables holds it.
pub proof fn lemma_table_bytes(rs: Seq<Record>, n: nat, b: nat)
    requires
        b < n,
    ensures
        16 * entries_before(rs, b + 1) <= tables_bytes(rs, n).len(),
        tables_bytes(rs, n).subrange(
            16 * entries_before(rs, b) as int,
            16 * entries_before(rs, b + 1) as int,
        ) == slots_bytes(table_of(bucket_entries(rs, b as int))),
    decreases n,
{
    let init = tables_bytes(rs, (n - 1) as nat);
    let last = slots_bytes(table_of(bucket_entries(rs, n - 1)));
    lemma_tables_len(rs, (n - 1) as nat);
    lemma_tables_len(rs, n);
    let lo = 16 * entries_before(rs, b) as int;
    let hi = 16 * entries_before(rs, b + 1) as int;
    if b == n - 1 {
        assert((init + last).subrange(lo, hi) =~= last);
    } else {
        lemma_table_bytes(rs, (n - 1) as nat, b);
        assert((init + last).subrange(lo, hi) =~= init.subrange(lo, hi));
    }
}

/// The record `i`, as the region of the records holds it.
pub proof fn lemma_record_bytes(rs: Seq<Record>, i: int)
    requires
        0 <= i < rs.len(),
    ensures
        record_pos(rs, i) + record_bytes(rs[i]).len() <= data_end(rs),
        data_bytes(rs).subrange(
            record_pos(rs, i) - HEADER_SIZE,
            record_pos(rs, i) - HEADER_SIZE + record_bytes(rs[i]).len(),
        ) == record_bytes(rs[i]),
    decreases rs.len(),
{
    let init = data_bytes(rs.drop_last());
    let last = record_bytes(rs.last());
    let lo = record_pos(rs, i) - HEADER_SIZE;
    let hi = lo + record_bytes(rs[i]).len();
    lemma_record_pos(rs, i, rs.len() as int);
    assert(rs.take(rs.len() as int) =~= rs);
    if i == rs.len() - 1 {
        assert(rs.take(i) =~= rs.drop_last());
        assert((init + last).subrange(lo, hi) =~= last);
    } else {
        lemma_record_bytes(rs.drop_last(), i);
        assert(rs.drop_last() =~= rs.take(rs.len() - 1));
        lemma_record_pos(rs, i, rs.len() - 1);
        assert(rs.drop_last()[i] == rs[i]);
        assert((init + last).subrange(lo, hi) =~= init.subrange(lo, hi));
    }
}

/// The records of a database that can be sealed can be added one after
/// the other.
pub proof fn lemma_sealable_addable(rs: Seq<Record>, n: int)
    requires
        sealable(rs),
        0 <= n <= rs.len(),
    ensures
        addable(rs.take(n)),
{
    lemma_data_grows(rs, n);
    let part = rs.take(n);
    assert forall|i: int| 0 <= i < part.len() implies record_fits(#[trigger] part[i]) by {
        assert(part[i] == rs[i]);
    }
}

/// A part of a part of a sequence is a part of the sequence.
pub proof fn lemma_subrange_twice<T>(s: Seq<T>, lo: int, hi: int, x: int, y: int)
    requires
        0 <= lo <= hi <= s.len(),
        0 <= x <= y <= hi - lo,
    ensures
        s.subrange(lo, hi).subrange(x, y) == s.subrange(lo + x, lo + y),
{
    assert(s.subrange(lo, hi).subrange(x, y) =~= s.subrange(lo + x, lo + y));
}

/// The three regions of a database, as parts of it.
pub proof fn lemma_image_parts(rs: Seq<Record>)
    ensures
        image(rs).len() == image_len(rs),
        HEADER_SIZE <= data_end(rs) <= image_len(rs),
        image(rs).subrange(0, HEADER_SIZE as int) == directory_bytes(rs, 256),
        image(rs).subrange(HEADER_SIZE as int, data_end(rs)) == data_bytes(rs),
        image(rs).subrange(data_end(rs), image_len(rs)) == tables_bytes(rs, 256),
{
    lemma_image_len(rs);
    lemma_tables_len(rs, 256);
    let a = directory_bytes(rs, 256);
    let b = data_bytes(rs);
    let c = tables_bytes(rs, 256);
    let whole = a + b + c;
    assert(whole.subrange(0, a.len() as int) =~= a);
    let mid = a.len() as int;
    let end = a.len() + b.len() as int;
    assert(whole.subrange(mid, end) =~= b);
    assert(whole.subrange(end, whole.len() as int) =~= c);
}

/// The parts of a record: the lengths, the key, the value.
pub proof fn lemma_record_parts(r: Record)
    ensures
        record_bytes(r).len() == 8 + r.0.len() + r.1.len(),
        record_bytes(r).subrange(0, 8) == le32_pair_bytes(r.0.len() as u32, r.1.len() as u32),
        record_bytes(r).subrange(8, 8 + r.0.len() as int) == r.0,
        record_bytes(r).subrange(8 + r.0.len() as int, 8 + r.0.len() as int + r.1.len() as int)
            == r.1,
{
    let bytes = record_bytes(r);
    let klen = r.0.len() as int;
    let dlen = r.1.len() as int;
    assert(bytes.subrange(0, 8) =~= le32_pair_bytes(r.0.len() as u32, r.1.len() as u32));
    assert(bytes.subrange(8, 8 + klen) =~= r.0);
    assert(bytes.subrange(8 + klen, 8 + klen + dlen) =~= r.1);
}

} // verus!
