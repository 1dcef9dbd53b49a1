//! What a reader finds in a database that a builder has sealed: the
//! values of each key in the order in which they were added, and all
//! records in that order.

use vstd::prelude::*;
use crate::error::Error;
use crate::hash::hash_of;
use crate::layout::{
    bucket_entries, bucket_of, data_end, entries_before, entry, image, image_len,
    lemma_bucket_entries, lemma_bucket_step, lemma_data_len, lemma_directory_entry,
    lemma_image_len, lemma_image_parts, lemma_record_bytes, lemma_record_parts,
    lemma_record_pos, lemma_slot_bytes, lemma_subrange_twice, lemma_table_bytes,
    lemma_tables_len, record_bytes, record_fits, record_pos, sealable, slots_bytes, table_pos,
    Record, HEADER_SIZE, MAX_SIZE,
};
use crate::reader::{
    lemma_key_matches, lemma_lookup_first, lookup, pair_at, pull, record_match, records_end,
    scan, slot_pos, table_for, walked, MIN_SIZE,
};
use crate::table::{
    home, lemma_fill_len, lemma_fill_members, lemma_fill_run, lemma_home_in_table,
    lemma_run_unfold, lemma_select_add, lemma_select_one, none_vacant, picks_at, run, select,
    slot_after, table_of, HashPos,
};
use crate::uint32::{le32_pair_bytes, lemma_le32_pair};

verus! {

/// The values that the records `rs` hold for `key`, in their order.
pub open spec fn values_of(rs: Seq<Record>, key: Seq<u8>) -> Seq<Seq<u8>>
    decreases rs.len(),
{
    if rs.len() == 0 {
        Seq::empty()
    } else {
        let init = values_of(rs.drop_last(), key);
        if rs.last().0 == key {
            init.push(rs.last().1)
        } else {
            init
        }
    }
}

/// The items `vs`, each returned without error.
pub open spec fn all_ok<T>(vs: Seq<T>) -> Seq<Result<T, Error>> {
    Seq::new(vs.len(), |i: int| Ok(vs[i]))
}

/// What a lookup of `key` in `file` takes from a slot of the key's
/// table.
pub open spec fn pick(file: Seq<u8>, key: Seq<u8>) -> spec_fn(HashPos) -> Option<
    Result<Seq<u8>, Error>,
> {
    |e: HashPos|
        if e.hash != hash_of(key) {
            None
        } else {
            record_match(file, key, e.pos as int)
        }
}

/// Eight bytes that spell a pair are read as that pair.
pub proof fn lemma_pair_at(file: Seq<u8>, pos: int, x: u32, y: u32)
    requires
        0 <= pos,
        pos + 8 <= file.len(),
        file.subrange(pos, pos + 8) == le32_pair_bytes(x, y),
    ensures
        pair_at(file, pos) == (x, y),
{
    lemma_le32_pair(x, y);
    let eight = file.subrange(pos, pos + 8);
    assert(file.subrange(pos, pos + 4) =~= eight.subrange(0, 4));
    assert(file.subrange(pos + 4, pos + 8) =~= eight.subrange(4, 8));
}

/// The directory of a sealed database gives each bucket's table its
/// place and its number of slots.
pub proof fn lemma_image_directory(rs: Seq<Record>, b: int)
    requires
        sealable(rs),
        0 <= b < 256,
    ensures
        data_end(rs) <= table_pos(rs, b as nat),
        table_pos(rs, b as nat) + 16 * bucket_entries(rs, b).len() <= image_len(rs),
        pair_at(image(rs), 8 * b) == (
            table_pos(rs, b as nat) as u32,
            (2 * bucket_entries(rs, b).len()) as u32,
        ),
{
    lemma_image_parts(rs);
    lemma_bucket_step(rs, b as nat);
    lemma_directory_entry(rs, 256, b as nat);
    lemma_subrange_twice(image(rs), 0, HEADER_SIZE as int, 8 * b, 8 * b + 8);
    lemma_pair_at(
        image(rs),
        8 * b,
        table_pos(rs, b as nat) as u32,
        (2 * bucket_entries(rs, b).len()) as u32,
    );
}

/// The tables of a sealed database hold the slots of each bucket's
/// table.
pub proof fn lemma_image_slot(rs: Seq<Record>, b: int, j: int)
    requires
        sealable(rs),
        0 <= b < 256,
        0 <= j < 2 * bucket_entries(rs, b).len(),
    ensures
        table_pos(rs, b as nat) + 8 * j + 8 <= image(rs).len(),
        pair_at(image(rs), table_pos(rs, b as nat) + 8 * j) == (
            table_of(bucket_entries(rs, b))[j].hash,
            table_of(bucket_entries(rs, b))[j].pos,
        ),
{
    let es = bucket_entries(rs, b);
    let t = table_of(es);
    let file = image(rs);
    lemma_image_parts(rs);
    lemma_tables_len(rs, 256);
    lemma_bucket_step(rs, b as nat);
    lemma_fill_len(es, 2 * es.len());
    lemma_table_bytes(rs, 256, b as nat);
    lemma_slot_bytes(t, j);
    let lo = 16 * entries_before(rs, b as nat) as int;
    let hi = 16 * entries_before(rs, (b + 1) as nat) as int;
    let pos = table_pos(rs, b as nat) + 8 * j;
    lemma_subrange_twice(file, data_end(rs), image_len(rs), lo, hi);
    assert(file.subrange(data_end(rs) + lo, data_end(rs) + hi) == slots_bytes(t));
    lemma_subrange_twice(file, data_end(rs) + lo, data_end(rs) + hi, 8 * j, 8 * j + 8);
    lemma_pair_at(file, pos, t[j].hash, t[j].pos);
}

/// The records of a sealed database lie where their places say.
pub proof fn lemma_image_record(rs: Seq<Record>, i: int)
    requires
        sealable(rs),
        0 <= i < rs.len(),
    ensures
        HEADER_SIZE <= record_pos(rs, i),
        record_pos(rs, i) + 8 + rs[i].0.len() + rs[i].1.len() <= data_end(rs),
        data_end(rs) <= image(rs).len(),
        pair_at(image(rs), record_pos(rs, i)) == (rs[i].0.len() as u32, rs[i].1.len() as u32),
        image(rs).subrange(record_pos(rs, i) + 8, record_pos(rs, i) + 8 + rs[i].0.len())
            == rs[i].0,
        image(rs).subrange(
            record_pos(rs, i) + 8 + rs[i].0.len(),
            record_pos(rs, i) + 8 + rs[i].0.len() + rs[i].1.len(),
        ) == rs[i].1,
{
    let pos = record_pos(rs, i);
    let r = rs[i];
    let klen = r.0.len() as int;
    let dlen = r.1.len() as int;
    let file = image(rs);
    lemma_image_parts(rs);
    lemma_record_bytes(rs, i);
    lemma_record_parts(r);
    let lo = pos - HEADER_SIZE;
    let size = 8 + klen + dlen;
    lemma_subrange_twice(file, HEADER_SIZE as int, data_end(rs), lo, lo + size);
    assert(file.subrange(pos, pos + size) == record_bytes(r));
    lemma_subrange_twice(file, pos, pos + size, 0, 8);
    lemma_subrange_twice(file, pos, pos + size, 8, 8 + klen);
    lemma_subrange_twice(file, pos, pos + size, 8 + klen, 8 + klen + dlen);
    lemma_pair_at(file, pos, r.0.len() as u32, r.1.len() as u32);
}

/// A sealed database with a record in it is one that a reader accepts.
pub proof fn lemma_image_opens(rs: Seq<Record>)
    requires
        sealable(rs),
        rs.len() > 0,
    ensures
        MIN_SIZE <= image(rs).len() <= MAX_SIZE,
{
    lemma_image_len(rs);
    lemma_data_len(rs);
}

/// In a sealed database, the record `i` gives its value to a lookup of
/// its own key, and nothing to a lookup of another key.
pub proof fn lemma_record_match(rs: Seq<Record>, key: Seq<u8>, i: int)
    requires
        sealable(rs),
        0 <= i < rs.len(),
    ensures
        record_match(image(rs), key, record_pos(rs, i)) == if rs[i].0 == key {
            Some(Ok::<Seq<u8>, Error>(rs[i].1))
        } else {
            None
        },
{
    let file = image(rs);
    let pos = record_pos(rs, i);
    lemma_image_record(rs, i);
    assert(record_fits(rs[i]));
    if rs[i].0.len() == key.len() {
        assert(file.subrange(pos + 8, pos + 8 + 0) =~= key.subrange(0, 0));
        lemma_key_matches(file, key, pos + 8, 0);
    }
}

/// Every entry of a bucket is the entry of one of the records.
pub proof fn lemma_bucket_members(rs: Seq<Record>, b: int, j: int)
    requires
        0 <= j < bucket_entries(rs, b).len(),
    ensures
        exists|i: int| 0 <= i < rs.len() && bucket_entries(rs, b)[j] == #[trigger] entry(rs, i),
    decreases rs.len(),
{
    let init = rs.drop_last();
    let n = rs.len() - 1;
    assert(init =~= rs.take(n));
    if bucket_of(hash_of(rs.last().0)) == b && j == bucket_entries(init, b).len() {
        assert(bucket_entries(rs, b)[j] == entry(rs, n));
    } else {
        lemma_bucket_members(init, b, j);
        let i = choose|i: int|
            0 <= i < init.len() && bucket_entries(init, b)[j] == #[trigger] entry(init, i);
        lemma_record_pos(rs, i, n);
        assert(bucket_entries(rs, b)[j] == entry(rs, i));
    }
}

/// What a lookup takes from the entry of the record `i`.
pub proof fn lemma_pick_entry(rs: Seq<Record>, key: Seq<u8>, i: int)
    requires
        sealable(rs),
        0 <= i < rs.len(),
    ensures
        pick(image(rs), key)(entry(rs, i)) == if rs[i].0 == key {
            Some(Ok::<Seq<u8>, Error>(rs[i].1))
        } else {
            None
        },
{
    lemma_image_record(rs, i);
    lemma_image_len(rs);
    lemma_record_match(rs, key, i);
}

/// From the entries of the key's bucket, a lookup takes the values of
/// the key.
pub proof fn lemma_select_bucket(rs: Seq<Record>, key: Seq<u8>, n: int)
    requires
        sealable(rs),
        0 <= n <= rs.len(),
    ensures
        select(bucket_entries(rs.take(n), bucket_of(hash_of(key))), pick(image(rs), key))
            == all_ok(values_of(rs.take(n), key)),
    decreases n,
{
    let b = bucket_of(hash_of(key));
    let f = pick(image(rs), key);
    let part = rs.take(n);
    if n == 0 {
        assert(all_ok(values_of(part, key)) =~= Seq::empty());
    } else {
        let init = part.drop_last();
        assert(init =~= rs.take(n - 1));
        lemma_select_bucket(rs, key, n - 1);
        let r = part.last();
        assert(r == rs[n - 1]);
        let e = entry(rs, n - 1);
        lemma_record_pos(rs, n - 1, n);
        assert(entry(part, n - 1) == e);
        lemma_pick_entry(rs, key, n - 1);
        let es = bucket_entries(part, b);
        let es0 = bucket_entries(init, b);
        let vs = values_of(part, key);
        let vs0 = values_of(init, key);
        assert(select(es0, f) == all_ok(vs0));
        if bucket_of(hash_of(r.0)) == b {
            assert(es == es0.push(e));
            assert(es.drop_last() =~= es0);
            assert(es.last() == e);
            if r.0 == key {
                assert(f(e) == Some(Ok::<Seq<u8>, Error>(r.1)));
                assert(select(es, f) == select(es0, f).push(Ok(r.1)));
                assert(vs == vs0.push(r.1));
                assert(all_ok(vs) =~= all_ok(vs0).push(Ok(r.1)));
            } else {
                assert(f(e) is None);
                assert(select(es, f) == select(es0, f));
                assert(vs == vs0);
            }
        } else {
            assert(es == es0);
            assert(r.0 != key);
            assert(vs == vs0);
        }
    }
}

/// A lookup in a sealed database takes from the run of slots that it
/// visits what `pick` takes from each of them.
pub proof fn lemma_lookup_run(rs: Seq<Record>, key: Seq<u8>, visited: nat)
    requires
        sealable(rs),
        visited <= 2 * bucket_entries(rs, bucket_of(hash_of(key))).len(),
    ensures
        lookup(image(rs), key, visited) == select(
            run(
                table_of(bucket_entries(rs, bucket_of(hash_of(key)))),
                home(hash_of(key), 2 * bucket_entries(rs, bucket_of(hash_of(key))).len()),
                visited,
            ),
            pick(image(rs), key),
        ),
    decreases 2 * bucket_entries(rs, bucket_of(hash_of(key))).len() - visited,
{
    let file = image(rs);
    let khash = hash_of(key);
    let b = bucket_of(khash);
    let es = bucket_entries(rs, b);
    let t = table_of(es);
    let len = 2 * es.len();
    let start = home(khash, len);
    let f = pick(file, key);
    lemma_image_directory(rs, b);
    lemma_image_len(rs);
    lemma_fill_len(es, len);
    assert(table_for(file, khash) == (table_pos(rs, b as nat) as u32, len as u32));
    if visited >= len {
        assert(run(t, start, visited) =~= Seq::empty());
    } else {
        lemma_home_in_table(khash, len);
        let x = slot_after(start, visited as int, len);
        lemma_image_slot(rs, b, x);
        let kpos = slot_pos(file, khash, visited);
        assert(kpos == table_pos(rs, b as nat) + 8 * x);
        assert(pair_at(file, kpos) == (t[x].hash, t[x].pos));
        lemma_run_unfold(t, start, visited);
        if t[x].pos != 0 {
            lemma_lookup_run(rs, key, visited + 1);
            let rest = run(t, start, visited + 1);
            lemma_select_add(seq![t[x]], rest, f);
            lemma_select_one(t[x], f);
            lemma_fill_members(es, len, x);
            let j = choose|j: int| 0 <= j < es.len() && #[trigger] es[j] == t[x];
            lemma_bucket_members(rs, b, j);
            let i = choose|i: int| 0 <= i < rs.len() && es[j] == #[trigger] entry(rs, i);
            lemma_pick_entry(rs, key, i);
            if rs[i].0 == key {
                assert(seq![Ok::<Seq<u8>, Error>(rs[i].1)] + select(rest, f) =~= select(
                    seq![t[x]],
                    f,
                ) + select(rest, f));
            } else {
                assert(Seq::<Result<Seq<u8>, Error>>::empty() + select(rest, f) =~= select(
                    rest,
                    f,
                ));
            }
        }
    }
}

/// A lookup in a sealed database returns the values that were added
/// under its key, all of them, each once, in the order in which they
/// were added, and no error.
pub proof fn lemma_round_trip(rs: Seq<Record>, key: Seq<u8>)
    requires
        sealable(rs),
    ensures
        lookup(image(rs), key, 0) == all_ok(values_of(rs, key)),
{
    let khash = hash_of(key);
    let b = bucket_of(khash);
    let es = bucket_entries(rs, b);
    let len = 2 * es.len();
    let f = pick(image(rs), key);
    lemma_lookup_run(rs, key, 0);
    lemma_select_bucket(rs, key, rs.len() as int);
    assert(rs.take(rs.len() as int) =~= rs);
    if es.len() == 0 {
        assert(run(table_of(es), home(khash, len), 0) =~= Seq::empty());
    } else {
        let start = home(khash, len);
        lemma_home_in_table(khash, len);
        lemma_image_len(rs);
        lemma_bucket_entries(rs, b);
        assert(none_vacant(es));
        assert(picks_at(f, start, len)) by {
            assert forall|e: HashPos| (#[trigger] f(e)) is Some implies home(e.hash, len)
                == start by {
                assert(e.hash == khash);
            }
        }
        lemma_fill_run(es, len, start, f);
    }
}

/// The first thing that a lookup in a sealed database returns is the
/// value that was added first under its key, or nothing where no value
/// was added under it.
pub proof fn lemma_first_value(rs: Seq<Record>, key: Seq<u8>)
    requires
        sealable(rs),
    ensures
        pull(image(rs), key, 0).0 == if values_of(rs, key).len() > 0 {
            Some(Ok::<Seq<u8>, Error>(values_of(rs, key)[0]))
        } else {
            None
        },
{
    lemma_round_trip(rs, key);
    lemma_lookup_first(image(rs), key, 0);
}

/// A lookup of a key that no record has returns nothing, and no error.
pub proof fn lemma_missing_key(rs: Seq<Record>, key: Seq<u8>)
    requires
        sealable(rs),
        forall|i: int| 0 <= i < rs.len() ==> (#[trigger] rs[i]).0 != key,
    ensures
        pull(image(rs), key, 0).0 is None,
        lookup(image(rs), key, 0) == Seq::<Result<Seq<u8>, Error>>::empty(),
{
    lemma_round_trip(rs, key);
    lemma_first_value(rs, key);
    lemma_no_values(rs, key);
    assert(all_ok(values_of(rs, key)) =~= Seq::empty());
}

/// Records without a key hold no value for it.
pub proof fn lemma_no_values(rs: Seq<Record>, key: Seq<u8>)
    requires
        forall|i: int| 0 <= i < rs.len() ==> (#[trigger] rs[i]).0 != key,
    ensures
        values_of(rs, key) == Seq::<Seq<u8>>::empty(),
    decreases rs.len(),
{
    if rs.len() > 0 {
        let init = rs.drop_last();
        assert forall|i: int| 0 <= i < init.len() implies (#[trigger] init[i]).0 != key by {
            assert(init[i] == rs[i]);
        }
        lemma_no_values(init, key);
        assert(rs.last() == rs[rs.len() - 1]);
    }
}

/// The last record, if there is one, has a byte of key or of value.
pub open spec fn ends_in_bytes(rs: Seq<Record>) -> bool {
    rs.len() > 0 ==> rs.last().0.len() + rs.last().1.len() > 0
}

/// The records that a walk returns: all of them, but for a last record
/// that has neither key nor value.
pub open spec fn walkable(rs: Seq<Record>) -> Seq<Record> {
    if ends_in_bytes(rs) {
        rs
    } else {
        rs.drop_last()
    }
}

/// In a sealed database the records end where the directory says.
pub proof fn lemma_records_end(rs: Seq<Record>)
    requires
        sealable(rs),
    ensures
        records_end(image(rs)) == data_end(rs),
{
    lemma_image_len(rs);
    lemma_image_directory(rs, 0);
    assert(entries_before(rs, 0) == 0);
}

/// Where a record ends, the next one starts, or the records end.
pub proof fn lemma_next_record(rs: Seq<Record>, i: int)
    requires
        0 <= i < rs.len(),
    ensures
        record_pos(rs, i + 1) == record_pos(rs, i) + 8 + rs[i].0.len() + rs[i].1.len(),
        i + 1 == rs.len() ==> record_pos(rs, i + 1) == data_end(rs),
        i + 1 < rs.len() ==> record_pos(rs, i + 1) + 8 <= data_end(rs),
{
    assert(rs.take(i + 1).drop_last() =~= rs.take(i));
    assert(rs.take(i + 1).last() == rs[i]);
    if i + 1 == rs.len() {
        assert(rs.take(i + 1) =~= rs);
    } else {
        lemma_record_bytes(rs, i + 1);
    }
}

/// A walk that stands at a record of a sealed database returns it and
/// goes on to the next one, unless it is a last record without key and
/// value: there the walk ends.
pub proof fn lemma_scan_record(rs: Seq<Record>, i: int)
    requires
        sealable(rs),
        0 <= i < rs.len(),
    ensures
        i < walkable(rs).len() ==> scan(image(rs), record_pos(rs, i)) == (
            Some(Ok::<Record, Error>(rs[i])),
            record_pos(rs, i + 1),
        ),
        i >= walkable(rs).len() ==> scan(image(rs), record_pos(rs, i)).0 is None,
{
    lemma_records_end(rs);
    lemma_image_record(rs, i);
    lemma_next_record(rs, i);
    assert(record_fits(rs[i]));
    if i + 1 == rs.len() {
        assert(rs.last() == rs[i]);
    }
}

/// A walk that stands at the record `i` of a sealed database returns
/// that record and all that follow, as far as a walk returns them.
pub proof fn lemma_walk_from(rs: Seq<Record>, i: int)
    requires
        sealable(rs),
        0 <= i <= walkable(rs).len(),
    ensures
        walked(image(rs), record_pos(rs, i)) == all_ok(walkable(rs).skip(i)),
    decreases rs.len() - i,
{
    let file = image(rs);
    let pos = record_pos(rs, i);
    let seen = walkable(rs);
    if i == seen.len() {
        if i == rs.len() {
            lemma_records_end(rs);
            assert(rs.take(i) =~= rs);
        } else {
            lemma_scan_record(rs, i);
        }
        assert(scan(file, pos).0 is None);
        assert(all_ok(seen.skip(i)) =~= Seq::empty());
    } else {
        lemma_scan_record(rs, i);
        lemma_walk_from(rs, i + 1);
        assert(seen[i] == rs[i]);
        assert(walked(file, pos) == seq![Ok::<Record, Error>(rs[i])] + walked(
            file,
            record_pos(rs, i + 1),
        ));
        assert(all_ok(seen.skip(i)) =~= seq![Ok::<Record, Error>(rs[i])] + all_ok(
            seen.skip(i + 1),
        ));
    }
}

/// A walk through a sealed database returns the records that were
/// added, all of them, in the order in which they were added, and no
/// error. This holds unless the last record has neither key nor value.
pub proof fn lemma_walk(rs: Seq<Record>)
    requires
        sealable(rs),
        ends_in_bytes(rs),
    ensures
        walked(image(rs), HEADER_SIZE as int) == all_ok(rs),
{
    lemma_walk_from(rs, 0);
    assert(rs.take(0) =~= Seq::<Record>::empty());
    assert(rs.skip(0) =~= rs);
}

/// A walk stops short of a last record that has neither key nor value:
/// it returns all records but that one.
pub proof fn lemma_walk_short(rs: Seq<Record>)
    requires
        sealable(rs),
        !ends_in_bytes(rs),
    ensures
        walked(image(rs), HEADER_SIZE as int) == all_ok(rs.drop_last()),
{
    lemma_walk_from(rs, 0);
    assert(rs.take(0) =~= Seq::<Record>::empty());
    assert(rs.drop_last().skip(0) =~= rs.drop_last());
}

} // verus!
