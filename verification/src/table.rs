//! One bucket's hash table: open addressing with linear probing.
//!
//! A table of `len` slots is filled by placing each entry, in the order
//! in which it was added, into the first vacant slot at or after its home
//! slot, wrapping at the end. A slot whose `pos` is 0 is vacant.

use vstd::prelude::*;
use crate::uint32::{le32_pair_bytes, pack2};

verus! {

/// A slot of a table: the hash of a key and the place of its record.
#[derive(Clone, Copy, Debug)]
pub struct HashPos {
    pub hash: u32,
    pub pos: u32,
}

impl HashPos {
    /// Writes the slot into the first eight bytes of `buf`.
    pub fn pack(&self, buf: &mut [u8])
        requires
            old(buf)@.len() >= 8,
        ensures
            final(buf)@ == le32_pair_bytes(self.hash, self.pos) + old(buf)@.skip(8),
    {
        pack2(buf, self.hash, self.pos);
    }
}

/// A table of `len` vacant slots.
pub open spec fn empty_table(len: nat) -> Seq<HashPos> {
    Seq::new(len, |i: int| HashPos { hash: 0, pos: 0 })
}

/// The slot at which the search for `hash` starts in a table of `len`
/// slots.
pub open spec fn home(hash: u32, len: nat) -> int
    recommends
        len > 0,
{
    (hash as int / 256) % (len as int)
}

/// The slot `k` steps after `start`, wrapping at `len`.
pub open spec fn slot_after(start: int, k: int, len: nat) -> int
    recommends
        0 <= start < len,
        0 <= k <= len,
{
    if start + k < len {
        start + k
    } else {
        start + k - len
    }
}

/// The number of steps that lead from `start` to `slot`.
pub open spec fn steps_to(start: int, slot: int, len: nat) -> int
    recommends
        0 <= start < len,
        0 <= slot < len,
{
    if slot >= start {
        slot - start
    } else {
        slot - start + len
    }
}

/// The first step at or after `k` whose slot is vacant, or the table's
/// length where there is none.
pub open spec fn run_end(t: Seq<HashPos>, start: int, k: nat) -> nat
    decreases t.len() - k,
{
    if k >= t.len() {
        t.len()
    } else if t[slot_after(start, k as int, t.len())].pos == 0 {
        k
    } else {
        run_end(t, start, k + 1)
    }
}

/// The occupied slots that a search meets from step `k` on, in the order
/// in which it meets them.
pub open spec fn run(t: Seq<HashPos>, start: int, k: nat) -> Seq<HashPos> {
    Seq::new(
        (run_end(t, start, k) - k) as nat,
        |i: int| t[slot_after(start, k + i, t.len())],
    )
}

/// The table `t` with `e` in the first vacant slot at or after its home.
pub open spec fn place(t: Seq<HashPos>, e: HashPos) -> Seq<HashPos> {
    let start = home(e.hash, t.len());
    t.update(slot_after(start, run_end(t, start, 0) as int, t.len()), e)
}

/// The table of `len` slots that holds `es`, placed in order.
pub open spec fn fill(es: Seq<HashPos>, len: nat) -> Seq<HashPos>
    decreases es.len(),
{
    if es.len() == 0 {
        empty_table(len)
    } else {
        place(fill(es.drop_last(), len), es.last())
    }
}

/// The table of a bucket with the entries `es`: twice as many slots as
/// entries.
pub open spec fn table_of(es: Seq<HashPos>) -> Seq<HashPos> {
    fill(es, 2 * es.len())
}

/// The number of occupied slots of `t`.
pub open spec fn occupied(t: Seq<HashPos>) -> nat
    decreases t.len(),
{
    if t.len() == 0 {
        0
    } else {
        occupied(t.drop_last()) + if t.last().pos != 0 {
            1nat
        } else {
            0nat
        }
    }
}

/// No occupied slot is cut off from its home by a vacant one.
pub open spec fn no_gaps(t: Seq<HashPos>) -> bool {
    forall|x: int|
        0 <= x < t.len() && (#[trigger] t[x]).pos != 0 ==> run_end(t, home(t[x].hash, t.len()), 0)
            > steps_to(home(t[x].hash, t.len()), x, t.len())
}

/// No entry of `es` looks like a vacant slot.
pub open spec fn none_vacant(es: Seq<HashPos>) -> bool {
    forall|j: int| 0 <= j < es.len() ==> (#[trigger] es[j]).pos != 0
}

/// The home slot lies in the table.
pub proof fn lemma_home_in_table(hash: u32, len: nat)
    requires
        len > 0,
    ensures
        0 <= home(hash, len) < len,
{
    let x = hash as int / 256;
    let l = len as int;
    assert(0 <= x % l < l) by (nonlinear_arith)
        requires
            l > 0,
    ;
}

/// What `run_end` returns: the steps before it lead to occupied slots,
/// and it leads to a vacant one unless the table ends first.
pub proof fn lemma_run_end(t: Seq<HashPos>, start: int, k: nat)
    requires
        0 <= start < t.len(),
        k <= t.len(),
    ensures
        k <= run_end(t, start, k) <= t.len(),
        forall|j: int|
            k <= j < run_end(t, start, k) ==> (#[trigger] t[slot_after(start, j, t.len())]).pos
                != 0,
        run_end(t, start, k) < t.len() ==> t[slot_after(
            start,
            run_end(t, start, k) as int,
            t.len(),
        )].pos == 0,
    decreases t.len() - k,
{
    if k < t.len() && t[slot_after(start, k as int, t.len())].pos != 0 {
        lemma_run_end(t, start, k + 1);
    }
}

/// `run_end` is the only step of which `lemma_run_end` holds.
pub proof fn lemma_run_end_is(t: Seq<HashPos>, start: int, k: nat, r: nat)
    requires
        0 <= start < t.len(),
        k <= r <= t.len(),
        forall|j: int| k <= j < r ==> (#[trigger] t[slot_after(start, j, t.len())]).pos != 0,
        r < t.len() ==> t[slot_after(start, r as int, t.len())].pos == 0,
    ensures
        run_end(t, start, k) == r,
    decreases r - k,
{
    if k < r {
        assert(t[slot_after(start, k as int, t.len())].pos != 0);
        lemma_run_end_is(t, start, k + 1, r);
    }
}

/// A run reaches at least as far as its occupied slots go.
pub proof fn lemma_run_end_reaches(t: Seq<HashPos>, start: int, k: nat, r: nat)
    requires
        0 <= start < t.len(),
        k <= r <= t.len(),
        forall|j: int| k <= j < r ==> (#[trigger] t[slot_after(start, j, t.len())]).pos != 0,
    ensures
        run_end(t, start, k) >= r,
    decreases r - k,
{
    if k < r {
        assert(t[slot_after(start, k as int, t.len())].pos != 0);
        lemma_run_end_reaches(t, start, k + 1, r);
    } else {
        lemma_run_end(t, start, k);
    }
}

/// A table of `fill` has the length it was asked for.
pub proof fn lemma_fill_len(es: Seq<HashPos>, len: nat)
    requires
        len > 0 || es.len() == 0,
    ensures
        fill(es, len).len() == len,
    decreases es.len(),
{
    if es.len() > 0 {
        let t = fill(es.drop_last(), len);
        lemma_fill_len(es.drop_last(), len);
        let start = home(es.last().hash, len);
        lemma_home_in_table(es.last().hash, len);
        lemma_run_end(t, start, 0);
    }
}

/// An empty table has no occupied slot.
pub proof fn lemma_occupied_empty(len: nat)
    ensures
        occupied(empty_table(len)) == 0,
    decreases len,
{
    if len > 0 {
        assert(empty_table(len).drop_last() =~= empty_table((len - 1) as nat));
        lemma_occupied_empty((len - 1) as nat);
    }
}

/// Filling a vacant slot adds one to the occupied slots.
pub proof fn lemma_occupied_update(t: Seq<HashPos>, q: int, e: HashPos)
    requires
        0 <= q < t.len(),
        t[q].pos == 0,
        e.pos != 0,
    ensures
        occupied(t.update(q, e)) == occupied(t) + 1,
    decreases t.len(),
{
    let u = t.update(q, e);
    if q == t.len() - 1 {
        assert(u.drop_last() =~= t.drop_last());
    } else {
        assert(u.drop_last() =~= t.drop_last().update(q, e));
        lemma_occupied_update(t.drop_last(), q, e);
    }
}

/// In a table that is not full, every search ends at a vacant slot.
pub proof fn lemma_vacancy(t: Seq<HashPos>, start: int)
    requires
        0 <= start < t.len(),
        occupied(t) < t.len(),
    ensures
        run_end(t, start, 0) < t.len(),
{
    lemma_run_end(t, start, 0);
    if run_end(t, start, 0) == t.len() {
        assert forall|x: int| 0 <= x < t.len() implies (#[trigger] t[x]).pos != 0 by {
            let j = steps_to(start, x, t.len());
            assert(slot_after(start, j, t.len()) == x);
        }
        lemma_occupied_full(t);
    }
}

/// A table without a vacant slot is full.
pub proof fn lemma_occupied_full(t: Seq<HashPos>)
    requires
        forall|x: int| 0 <= x < t.len() ==> (#[trigger] t[x]).pos != 0,
    ensures
        occupied(t) == t.len(),
    decreases t.len(),
{
    if t.len() > 0 {
        let init = t.drop_last();
        assert forall|x: int| 0 <= x < init.len() implies (#[trigger] init[x]).pos != 0 by {
            assert(init[x] == t[x]);
        }
        lemma_occupied_full(init);
    }
}

/// Placing an entry in a table that is not full keeps it free of gaps and
/// occupies one more slot.
pub proof fn lemma_place(t: Seq<HashPos>, e: HashPos)
    requires
        occupied(t) < t.len(),
        no_gaps(t),
        e.pos != 0,
    ensures
        place(t, e).len() == t.len(),
        occupied(place(t, e)) == occupied(t) + 1,
        no_gaps(place(t, e)),
{
    let len = t.len();
    let start = home(e.hash, len);
    lemma_home_in_table(e.hash, len);
    lemma_vacancy(t, start);
    lemma_run_end(t, start, 0);
    let d = run_end(t, start, 0);
    let q = slot_after(start, d as int, len);
    let u = place(t, e);
    assert(u == t.update(q, e));
    lemma_occupied_update(t, q, e);
    assert forall|x: int| 0 <= x < u.len() && (#[trigger] u[x]).pos != 0 implies run_end(
        u,
        home(u[x].hash, u.len()),
        0,
    ) > steps_to(home(u[x].hash, u.len()), x, u.len()) by {
        let hx = home(u[x].hash, len);
        lemma_home_in_table(u[x].hash, len);
        if x == q {
            assert forall|j: int| 0 <= j < d + 1 implies (#[trigger] u[slot_after(
                start,
                j,
                len,
            )]).pos != 0 by {
                if j < d {
                    assert(t[slot_after(start, j, len)].pos != 0);
                }
            }
            lemma_run_end_reaches(u, start, 0, d + 1);
        } else {
            assert(u[x] == t[x]);
            let r = run_end(t, hx, 0);
            lemma_run_end(t, hx, 0);
            assert forall|j: int| 0 <= j < r implies (#[trigger] u[slot_after(hx, j, len)]).pos
                != 0 by {
                assert(t[slot_after(hx, j, len)].pos != 0);
            }
            lemma_run_end_reaches(u, hx, 0, r);
        }
    }
}

/// A table filled with fewer entries than it has slots is free of gaps,
/// and each entry occupies a slot of its own.
pub proof fn lemma_fill(es: Seq<HashPos>, len: nat)
    requires
        none_vacant(es),
        es.len() <= len,
    ensures
        fill(es, len).len() == len,
        occupied(fill(es, len)) == es.len(),
        no_gaps(fill(es, len)),
    decreases es.len(),
{
    if es.len() == 0 {
        lemma_occupied_empty(len);
    } else {
        let init = es.drop_last();
        assert(none_vacant(init)) by {
            assert forall|j: int| 0 <= j < init.len() implies (#[trigger] init[j]).pos != 0 by {
                assert(init[j] == es[j]);
            }
        }
        lemma_fill(init, len);
        assert(es.last() == es[es.len() - 1]);
        lemma_place(fill(init, len), es.last());
    }
}

/// What `f` picks from the entries `es`, in their order.
pub open spec fn select<V>(es: Seq<HashPos>, f: spec_fn(HashPos) -> Option<V>) -> Seq<V>
    decreases es.len(),
{
    if es.len() == 0 {
        Seq::empty()
    } else {
        let init = select(es.drop_last(), f);
        match f(es.last()) {
            Some(v) => init.push(v),
            None => init,
        }
    }
}

/// `f` picks only entries whose home is `start`.
pub open spec fn picks_at<V>(f: spec_fn(HashPos) -> Option<V>, start: int, len: nat) -> bool {
    forall|e: HashPos| (#[trigger] f(e)) is Some ==> home(e.hash, len) == start
}

/// Picking from two sequences in a row is picking from each.
pub proof fn lemma_select_add<V>(a: Seq<HashPos>, b: Seq<HashPos>, f: spec_fn(HashPos) -> Option<V>)
    ensures
        select(a + b, f) == select(a, f) + select(b, f),
    decreases b.len(),
{
    if b.len() == 0 {
        assert(a + b =~= a);
        assert(select(a, f) + select(b, f) =~= select(a, f));
    } else {
        assert((a + b).drop_last() =~= a + b.drop_last());
        assert((a + b).last() == b.last());
        lemma_select_add(a, b.drop_last(), f);
        assert(select(a + b, f) =~= select(a, f) + select(b, f));
    }
}

/// Where `f` picks no entry, nothing is picked.
pub proof fn lemma_select_none<V>(es: Seq<HashPos>, f: spec_fn(HashPos) -> Option<V>)
    requires
        forall|i: int| 0 <= i < es.len() ==> f(#[trigger] es[i]) is None,
    ensures
        select(es, f) == Seq::<V>::empty(),
    decreases es.len(),
{
    if es.len() > 0 {
        let init = es.drop_last();
        assert forall|i: int| 0 <= i < init.len() implies f(#[trigger] init[i]) is None by {
            assert(init[i] == es[i]);
        }
        lemma_select_none(init, f);
        assert(es.last() == es[es.len() - 1]);
    }
}

/// What is picked from a single entry.
pub proof fn lemma_select_one<V>(e: HashPos, f: spec_fn(HashPos) -> Option<V>)
    ensures
        select(seq![e], f) == match f(e) {
            Some(v) => seq![v],
            None => Seq::<V>::empty(),
        },
{
    let one = seq![e];
    assert(one.drop_last() =~= Seq::<HashPos>::empty());
    assert(one.last() == e);
    assert(select(one.drop_last(), f) =~= Seq::<V>::empty());
    match f(e) {
        Some(v) => {
            assert(select(one, f) =~= seq![v]);
        },
        None => {},
    }
}

/// A run is its first slot followed by the run from the next step.
pub proof fn lemma_run_unfold(t: Seq<HashPos>, start: int, k: nat)
    requires
        0 <= start < t.len(),
        k < t.len(),
    ensures
        t[slot_after(start, k as int, t.len())].pos == 0 ==> run(t, start, k) == Seq::<
            HashPos,
        >::empty(),
        t[slot_after(start, k as int, t.len())].pos != 0 ==> run(t, start, k) == seq![
            t[slot_after(start, k as int, t.len())],
        ] + run(t, start, k + 1),
{
    let e = t[slot_after(start, k as int, t.len())];
    lemma_run_end(t, start, k);
    if e.pos == 0 {
        assert(run(t, start, k) =~= Seq::<HashPos>::empty());
    } else {
        lemma_run_end(t, start, k + 1);
        assert(run(t, start, k) =~= seq![e] + run(t, start, k + 1));
    }
}

/// An entry that is placed beyond the end of a run leaves the run as it
/// was, and its home is not the start of the run.
proof fn lemma_run_place_beyond(t: Seq<HashPos>, e: HashPos, start: int)
    requires
        occupied(t) < t.len(),
        0 <= start < t.len(),
        run_end(t, start, 0) < steps_to(
            start,
            slot_after(
                home(e.hash, t.len()),
                run_end(t, home(e.hash, t.len()), 0) as int,
                t.len(),
            ),
            t.len(),
        ),
    ensures
        run(place(t, e), start, 0) == run(t, start, 0),
        home(e.hash, t.len()) != start,
{
    let len = t.len();
    let he = home(e.hash, len);
    lemma_home_in_table(e.hash, len);
    lemma_vacancy(t, he);
    lemma_run_end(t, he, 0);
    let q = slot_after(he, run_end(t, he, 0) as int, len);
    let u = t.update(q, e);
    lemma_run_end(t, start, 0);
    let r = run_end(t, start, 0);
    assert forall|j: int| 0 <= j < r implies (#[trigger] u[slot_after(start, j, len)]).pos
        != 0 by {
        assert(t[slot_after(start, j, len)].pos != 0);
    }
    assert(u[slot_after(start, r as int, len)] == t[slot_after(start, r as int, len)]);
    lemma_run_end_is(u, start, 0, r);
    assert(run(u, start, 0) =~= run(t, start, 0));
}

/// An entry that is placed at the end of a run lengthens the run by
/// itself and by entries whose home is not the start of the run.
#[verifier::rlimit(50)]
proof fn lemma_run_place_at(t: Seq<HashPos>, e: HashPos, start: int) -> (rest: Seq<HashPos>)
    requires
        occupied(t) < t.len(),
        no_gaps(t),
        e.pos != 0,
        0 <= start < t.len(),
        run_end(t, start, 0) == steps_to(
            start,
            slot_after(
                home(e.hash, t.len()),
                run_end(t, home(e.hash, t.len()), 0) as int,
                t.len(),
            ),
            t.len(),
        ),
    ensures
        run(place(t, e), start, 0) == run(t, start, 0) + seq![e] + rest,
        forall|i: int| 0 <= i < rest.len() ==> home((#[trigger] rest[i]).hash, t.len()) != start,
{
    let len = t.len();
    let he = home(e.hash, len);
    lemma_home_in_table(e.hash, len);
    lemma_vacancy(t, he);
    lemma_run_end(t, he, 0);
    let q = slot_after(he, run_end(t, he, 0) as int, len);
    let u = t.update(q, e);
    lemma_run_end(t, start, 0);
    let r = run_end(t, start, 0);
    assert(slot_after(start, r as int, len) == q);
    assert forall|j: int| 0 <= j < r + 1 implies (#[trigger] u[slot_after(start, j, len)]).pos
        != 0 by {
        if j < r {
            assert(t[slot_after(start, j, len)].pos != 0);
        }
    }
    lemma_run_end_reaches(u, start, 0, r + 1);
    lemma_run_end(u, start, 0);
    let r2 = run_end(u, start, 0);
    let rest = Seq::new((r2 - (r + 1)) as nat, |i: int| u[slot_after(start, r + 1 + i, len)]);
    assert(run(u, start, 0) =~= run(t, start, 0) + seq![e] + rest);
    assert forall|i: int| 0 <= i < rest.len() implies home((#[trigger] rest[i]).hash, len)
        != start by {
        let j = r + 1 + i;
        let x = slot_after(start, j, len);
        assert(u[x].pos != 0);
        assert(x != q);
        assert(u[x] == t[x]);
        assert(rest[i] == t[x]);
        if home(t[x].hash, len) == start {
            assert(steps_to(start, x, len) == j);
            assert(run_end(t, start, 0) > j);
        }
    }
    rest
}

/// Placing an entry adds to what a search from `start` picks exactly
/// what is picked from that entry, behind all that was picked before.
pub proof fn lemma_run_place<V>(
    t: Seq<HashPos>,
    e: HashPos,
    start: int,
    f: spec_fn(HashPos) -> Option<V>,
)
    requires
        occupied(t) < t.len(),
        no_gaps(t),
        e.pos != 0,
        0 <= start < t.len(),
        picks_at(f, start, t.len()),
    ensures
        select(run(place(t, e), start, 0), f) == select(run(t, start, 0), f) + select(seq![e], f),
{
    let len = t.len();
    let he = home(e.hash, len);
    lemma_home_in_table(e.hash, len);
    lemma_vacancy(t, he);
    lemma_run_end(t, he, 0);
    let q = slot_after(he, run_end(t, he, 0) as int, len);
    lemma_run_end(t, start, 0);
    let r = run_end(t, start, 0);
    let dq = steps_to(start, q, len);
    assert(slot_after(start, dq, len) == q);
    if dq < r {
        assert(t[slot_after(start, dq, len)].pos != 0);
    }
    let before = select(run(t, start, 0), f);
    lemma_select_one(e, f);
    if r < dq {
        lemma_run_place_beyond(t, e, start);
        assert(f(e) is None);
        assert(before + Seq::<V>::empty() =~= before);
    } else {
        let rest = lemma_run_place_at(t, e, start);
        assert forall|i: int| 0 <= i < rest.len() implies f(#[trigger] rest[i]) is None by {
            assert(home(rest[i].hash, len) != start);
        }
        lemma_select_none(rest, f);
        lemma_select_add(run(t, start, 0) + seq![e], rest, f);
        lemma_select_add(run(t, start, 0), seq![e], f);
        assert(before + select(seq![e], f) + Seq::<V>::empty() =~= before + select(seq![e], f));
    }
}

/// A search in a filled table picks what would be picked from the
/// entries themselves, in the order in which they were placed.
pub proof fn lemma_fill_run<V>(
    es: Seq<HashPos>,
    len: nat,
    start: int,
    f: spec_fn(HashPos) -> Option<V>,
)
    requires
        none_vacant(es),
        es.len() < len,
        0 <= start < len,
        picks_at(f, start, len),
    ensures
        select(run(fill(es, len), start, 0), f) == select(es, f),
    decreases es.len(),
{
    if es.len() == 0 {
        let t = empty_table(len);
        assert(t[slot_after(start, 0, len)].pos == 0);
        assert(run(t, start, 0) =~= Seq::<HashPos>::empty());
    } else {
        let init = es.drop_last();
        assert(none_vacant(init)) by {
            assert forall|j: int| 0 <= j < init.len() implies (#[trigger] init[j]).pos != 0 by {
                assert(init[j] == es[j]);
            }
        }
        lemma_fill_run(init, len, start, f);
        lemma_fill(init, len);
        assert(es.last() == es[es.len() - 1]);
        lemma_run_place(fill(init, len), es.last(), start, f);
        lemma_select_one(es.last(), f);
        match f(es.last()) {
            Some(v) => {
                assert(select(init, f) + seq![v] =~= select(init, f).push(v));
            },
            None => {
                assert(select(init, f) + Seq::<V>::empty() =~= select(init, f));
            },
        }
    }
}

/// Every occupied slot of a filled table holds one of the entries.
pub proof fn lemma_fill_members(es: Seq<HashPos>, len: nat, x: int)
    requires
        es.len() <= len,
        0 <= x < len,
        fill(es, len)[x].pos != 0,
    ensures
        exists|j: int| 0 <= j < es.len() && #[trigger] es[j] == fill(es, len)[x],
    decreases es.len(),
{
    if es.len() > 0 {
        let init = es.drop_last();
        let t = fill(init, len);
        lemma_fill_len(init, len);
        let he = home(es.last().hash, len);
        lemma_home_in_table(es.last().hash, len);
        lemma_run_end(t, he, 0);
        let q = slot_after(he, run_end(t, he, 0) as int, len);
        if x == q {
            assert(es[es.len() - 1] == fill(es, len)[x]);
        } else {
            lemma_fill_members(init, len, x);
            let j = choose|j: int| 0 <= j < init.len() && #[trigger] init[j] == t[x];
            assert(es[j] == fill(es, len)[x]);
        }
    }
}

} // verus!
