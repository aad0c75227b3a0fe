//! The persistent statistics table of the self-play engine.
//!
//! The table maps a serialized board state to one statistics slot per
//! column: a cumulative score and a visit count. Scores are held in
//! fixed-point form — a score of `WEIGHT_SCALE` stands for `1.0` — so a
//! slot's win-rate `score / visits` always lies between `0` and
//! `WEIGHT_SCALE`.
//!
//! Rows are created lazily on first visit and never evicted. Internally
//! the table is a hash map from a 64-bit state code to a bucket of
//! entries; distinct states sharing a code live side by side in one
//! bucket, so lookups are exact even when codes collide.

use vstd::prelude::*;

use std::collections::HashMap;

verus! {

broadcast use vstd::std_specs::hash::group_hash_axioms;

/// The fixed-point representation of a win-rate of `1.0`.
pub const WEIGHT_SCALE: u64 = 1_000_000;

/// The fixed-point representation of the neutral win-rate `0.5`, the
/// prior of a never-visited slot.
pub const HALF_WEIGHT: u64 = WEIGHT_SCALE / 2;

/// Visit counters saturate here; a slot visited this often (far beyond
/// anything reachable in practice) stops accumulating.
pub const VISIT_CAP: u64 = 0x1_0000_0000;

/// One statistics slot: the cumulative score and the visit count of one
/// column at one state.
#[derive(Copy, Clone, PartialEq, Eq, Structural, Debug)]
pub struct Slot {
    /// Cumulative score, in units of `1 / WEIGHT_SCALE`.
    pub score: u64,
    /// How often this slot has been credited.
    pub visits: u64,
}

/// A slot never exceeds a perfect score — one full `WEIGHT_SCALE` per
/// visit — and its counter never passes the saturation cap.
pub open spec fn slot_ok(s: Slot) -> bool {
    &&& s.visits <= VISIT_CAP
    &&& s.score <= WEIGHT_SCALE * s.visits
}

/// Every slot of a record row is in range.
pub open spec fn records_ok(rs: Seq<Slot>) -> bool {
    forall|i: int| 0 <= i < rs.len() ==> slot_ok(#[trigger] rs[i])
}

/// The zero-initialized record row allocated when a state is first seen.
pub open spec fn zero_records(n: int) -> Seq<Slot> {
    Seq::new(n as nat, |i: int| Slot { score: 0, visits: 0 })
}

/// One credit applied to a slot: the score grows by `inc` and the visit
/// count by one, unless the counter has reached the saturation cap.
pub open spec fn bumped(s: Slot, inc: u64) -> Slot {
    if s.visits < VISIT_CAP {
        Slot { score: (s.score + inc) as u64, visits: (s.visits + 1) as u64 }
    } else {
        s
    }
}

/// A credit of at most one full weight keeps a slot in range.
pub proof fn lemma_bumped_ok(s: Slot, inc: u64)
    requires
        slot_ok(s),
        inc <= WEIGHT_SCALE,
    ensures
        slot_ok(bumped(s, inc)),
        bumped(s, inc).score <= WEIGHT_SCALE * VISIT_CAP,
{
    if s.visits < VISIT_CAP {
        assert(WEIGHT_SCALE * (s.visits + 1) == WEIGHT_SCALE * s.visits + WEIGHT_SCALE)
            by (nonlinear_arith);
        assert(WEIGHT_SCALE * (s.visits + 1) <= WEIGHT_SCALE * VISIT_CAP) by (nonlinear_arith)
            requires
                s.visits + 1 <= VISIT_CAP,
        ;
    } else {
        assert(WEIGHT_SCALE * s.visits <= WEIGHT_SCALE * VISIT_CAP) by (nonlinear_arith)
            requires
                s.visits <= VISIT_CAP,
        ;
    }
}

/// The 64-bit code of a serialized state: a polynomial hash of its bytes
/// reduced modulo `2^64`. A pure function of the state's contents.
pub open spec fn state_code(s: Seq<u8>) -> u64
    decreases s.len(),
{
    if s.len() == 0 {
        0xcbf29ce484222325u64
    } else {
        (((state_code(s.drop_last()) as int) * 0x100000001b3 + s.last() as int)
            % 0x10000000000000000) as u64
    }
}

/// Computes the 64-bit code of a serialized state.
pub fn hash_state(s: &Vec<u8>) -> (h: u64)
    ensures
        h == state_code(s@),
{
    let mut h: u64 = 0xcbf29ce484222325;
    let mut i: usize = 0;
    proof {
        assert(s@.subrange(0, 0) =~= Seq::<u8>::empty());
    }
    while i < s.len()
        invariant
            i <= s@.len(),
            h == state_code(s@.subrange(0, i as int)),
        decreases s@.len() - i,
    {
        let b = s[i];
        let wide: u128 = (h as u128) * 0x100000001b3 + (b as u128);
        let next: u64 = (wide % 0x1_0000_0000_0000_0000u128) as u64;
        proof {
            let pre = s@.subrange(0, i as int);
            let cur = s@.subrange(0, i + 1 as int);
            assert(cur.drop_last() =~= pre);
            assert(cur.last() == s@[i as int]);
            assert(wide as int == (h as int) * 0x100000001b3 + (b as int));
            assert(next as int == ((h as int) * 0x100000001b3 + (b as int))
                % 0x10000000000000000);
        }
        h = next;
        i += 1;
    }
    proof {
        assert(s@.subrange(0, s@.len() as int) =~= s@);
    }
    h
}

/// A bucket entry: one state and its per-column statistics row.
struct TableEntry {
    state: Vec<u8>,
    records: Vec<Slot>,
}

/// The bucket holds an entry for state `s`.
spec fn bucket_has(b: Seq<TableEntry>, s: Seq<u8>) -> bool {
    exists|i: int| 0 <= i < b.len() && (#[trigger] b[i].state@) == s
}

/// The index of the entry for state `s` in the bucket.
spec fn bucket_index_of(b: Seq<TableEntry>, s: Seq<u8>) -> int {
    choose|i: int| 0 <= i < b.len() && (#[trigger] b[i].state@) == s
}

/// The statistics row the bucket holds for state `s`.
spec fn bucket_records(b: Seq<TableEntry>, s: Seq<u8>) -> Seq<Slot> {
    b[bucket_index_of(b, s)].records@
}

/// Entries of a bucket carry pairwise distinct states, each coding to
/// the bucket's own hash key, and every slot is in range.
spec fn bucket_ok(b: Seq<TableEntry>, h: u64) -> bool {
    &&& forall|i: int| 0 <= i < b.len() ==> state_code(#[trigger] b[i].state@) == h
    &&& forall|i: int, j: int| 0 <= i < j < b.len() ==> b[i].state@ != b[j].state@
    &&& forall|i: int| 0 <= i < b.len() ==> records_ok(#[trigger] b[i].records@)
}

/// The statistics table: serialized state to one slot per column.
pub struct Memory {
    buckets: HashMap<u64, Vec<TableEntry>>,
}

impl View for Memory {
    type V = Map<Seq<u8>, Seq<Slot>>;

    closed spec fn view(&self) -> Map<Seq<u8>, Seq<Slot>> {
        Map::new(
            |s: Seq<u8>|
                self.buckets@.contains_key(state_code(s)) && bucket_has(
                    self.buckets@[state_code(s)]@,
                    s,
                ),
            |s: Seq<u8>| bucket_records(self.buckets@[state_code(s)]@, s),
        )
    }
}

impl Memory {
    /// Internal consistency of the bucket structure.
    pub closed spec fn inv(&self) -> bool {
        forall|h: u64|
            self.buckets@.contains_key(h) ==> bucket_ok((#[trigger] self.buckets@[h])@, h)
    }

    /// Every stored record row holds only in-range slots.
    pub proof fn lemma_records_ok(&self, s: Seq<u8>)
        requires
            self.inv(),
            self@.contains_key(s),
        ensures
            records_ok(self@[s]),
    {
        let h = state_code(s);
        let b = self.buckets@[h]@;
        let i = bucket_index_of(b, s);
        assert(0 <= i < b.len() && b[i].state@ == s);
        assert(records_ok(b[i].records@));
    }

    /// Creates an empty table.
    pub fn new() -> (r: Memory)
        ensures
            r.inv(),
            r@ == Map::<Seq<u8>, Seq<Slot>>::empty(),
    {
        let r = Memory { buckets: HashMap::new() };
        proof {
            assert(r@ =~= Map::<Seq<u8>, Seq<Slot>>::empty());
        }
        r
    }

    /// Whether the table has a row for `state`.
    pub fn contains(&self, state: &Vec<u8>) -> (r: bool)
        requires
            self.inv(),
        ensures
            r == self@.contains_key(state@),
    {
        let h = hash_state(state);
        match self.buckets.get(&h) {
            None => false,
            Some(bucket) => {
                match bucket_scan(bucket, state) {
                    Some(_) => true,
                    None => false,
                }
            },
        }
    }

    /// The statistics row of `state`, if the table has one.
    pub fn get_records(&self, state: &Vec<u8>) -> (r: Option<&Vec<Slot>>)
        requires
            self.inv(),
        ensures
            match r {
                Some(v) => self@.contains_key(state@) && v@ == self@[state@],
                None => !self@.contains_key(state@),
            },
    {
        let h = hash_state(state);
        match self.buckets.get(&h) {
            None => None,
            Some(bucket) => {
                match bucket_scan(bucket, state) {
                    Some(i) => {
                        proof {
                            let b = bucket@;
                            let j = bucket_index_of(b, state@);
                            assert(0 <= j < b.len() && b[j].state@ == state@);
                            assert(j == i as int);
                        }
                        Some(&bucket[i].records)
                    },
                    None => None,
                }
            },
        }
    }

    /// Allocates the zero-initialized row of a state seen for the first
    /// time, with one slot per column.
    pub fn insert_zero(&mut self, state: Vec<u8>, cols: usize)
        requires
            old(self).inv(),
            !old(self)@.contains_key(state@),
        ensures
            final(self).inv(),
            final(self)@ == old(self)@.insert(state@, zero_records(cols as int)),
    {
        let ghost s = state@;
        let h = hash_state(&state);
        let mut bucket: Vec<TableEntry> = match self.buckets.remove(&h) {
            Some(b) => b,
            None => Vec::new(),
        };
        let ghost oldb = bucket@;
        proof {
            if old(self).buckets@.contains_key(h) {
                assert(oldb == old(self).buckets@[h]@);
                assert(bucket_ok(oldb, h));
                assert(!bucket_has(oldb, s));
            } else {
                assert(oldb =~= Seq::<TableEntry>::empty());
            }
        }
        let mut records: Vec<Slot> = Vec::new();
        let mut k: usize = 0;
        while k < cols
            invariant
                k <= cols,
                records@ =~= zero_records(k as int),
            decreases cols - k,
        {
            records.push(Slot { score: 0, visits: 0 });
            proof {
                assert(records@ =~= zero_records(k + 1 as int));
            }
            k += 1;
        }
        bucket.push(TableEntry { state, records });
        let ghost newb = bucket@;
        self.buckets.insert(h, bucket);
        proof {
            assert(newb == oldb.push(newb.last()));
            assert(newb.last().state@ == s && newb.last().records@ =~= zero_records(cols as int));
            // The new bucket is consistent.
            assert(bucket_ok(newb, h)) by {
                assert forall|i: int| 0 <= i < newb.len() implies state_code(
                    #[trigger] newb[i].state@,
                ) == h by {
                    if i < oldb.len() {
                        assert(newb[i].state@ == oldb[i].state@);
                    }
                }
                assert forall|i: int, j: int| 0 <= i < j < newb.len() implies newb[i].state@
                    != newb[j].state@ by {
                    if j < oldb.len() {
                        assert(newb[i].state@ == oldb[i].state@ && newb[j].state@
                            == oldb[j].state@);
                    } else {
                        assert(newb[j].state@ == s);
                        assert(newb[i].state@ == oldb[i].state@);
                        if oldb[i].state@ == s {
                            assert(bucket_has(oldb, s));
                        }
                    }
                }
                assert forall|i: int| 0 <= i < newb.len() implies records_ok(
                    #[trigger] newb[i].records@,
                ) by {
                    if i < oldb.len() {
                        assert(newb[i].records@ == oldb[i].records@);
                    } else {
                        assert(records_ok(zero_records(cols as int)));
                    }
                }
            }
            assert(self.inv()) by {
                assert forall|hh: u64| self.buckets@.contains_key(hh) implies bucket_ok(
                    (#[trigger] self.buckets@[hh])@,
                    hh,
                ) by {
                    if hh != h {
                        assert(self.buckets@[hh] == old(self).buckets@[hh]);
                    }
                }
            }
            assert(self.buckets@ =~= old(self).buckets@.insert(h, self.buckets@[h]));
            // The abstract map gains exactly the one new row.
            let goal = old(self)@.insert(s, zero_records(cols as int));
            assert forall|t: Seq<u8>| #![trigger goal.contains_key(t), self@.contains_key(t)]
                (self@.contains_key(t) == goal.contains_key(t)) && (self@.contains_key(t)
                ==> self@[t] == goal[t]) by {
                lemma_lookup_after_push(old(self), self, h, oldb, newb, s, cols as int, t);
            }
            assert(self@ =~= goal);
        }
    }

    /// Credits slot `col` of the row of `state`: the score grows by
    /// `inc` and the visit count by one (saturating at the cap).
    pub fn bump(&mut self, state: &Vec<u8>, col: usize, inc: u64)
        requires
            old(self).inv(),
            old(self)@.contains_key(state@),
            col < old(self)@[state@].len(),
            inc <= WEIGHT_SCALE,
        ensures
            final(self).inv(),
            final(self)@ == old(self)@.insert(
                state@,
                old(self)@[state@].update(col as int, bumped(old(self)@[state@][col as int], inc)),
            ),
    {
        let ghost s = state@;
        let h = hash_state(state);
        let mut bucket: Vec<TableEntry> = match self.buckets.remove(&h) {
            Some(b) => b,
            None => {
                proof {
                    assert(false);
                }
                vstd::pervasive::unreached()
            },
        };
        let ghost oldb = bucket@;
        proof {
            assert(oldb == old(self).buckets@[h]@);
            assert(bucket_ok(oldb, h));
            let j = bucket_index_of(oldb, s);
            assert(0 <= j < oldb.len() && oldb[j].state@ == s);
        }
        let i = match bucket_scan(&bucket, state) {
            Some(i) => i,
            None => {
                proof {
                    assert(false);
                }
                vstd::pervasive::unreached()
            },
        };
        proof {
            assert(bucket_index_of(oldb, s) == i as int);
            assert(bucket_records(oldb, s) == oldb[i as int].records@);
            assert(old(self)@[s] == oldb[i as int].records@);
        }
        let entry = bucket.remove(i);
        let TableEntry { state: entry_state, records } = entry;
        let mut records = records;
        let slot = records[col];
        proof {
            assert(slot_ok(slot)) by {
                assert(records_ok(oldb[i as int].records@));
                assert(oldb[i as int].records@[col as int] == slot);
            }
            lemma_bumped_ok(slot, inc);
        }
        let ns = if slot.visits < VISIT_CAP {
            Slot { score: slot.score + inc, visits: slot.visits + 1 }
        } else {
            slot
        };
        proof {
            assert(ns == bumped(slot, inc));
        }
        records.set(col, ns);
        bucket.push(TableEntry { state: entry_state, records });
        let ghost newb = bucket@;
        self.buckets.insert(h, bucket);
        proof {
            let shrunk = oldb.remove(i as int);
            assert(newb == shrunk.push(newb.last()));
            assert(newb.last().state@ == s);
            assert(newb.last().records@ =~= oldb[i as int].records@.update(col as int, ns));
            assert(bucket_ok(newb, h)) by {
                lemma_bucket_ok_after_replace(oldb, newb, h, i as int, s);
            }
            assert(self.inv()) by {
                assert forall|hh: u64| self.buckets@.contains_key(hh) implies bucket_ok(
                    (#[trigger] self.buckets@[hh])@,
                    hh,
                ) by {
                    if hh != h {
                        assert(self.buckets@[hh] == old(self).buckets@[hh]);
                    }
                }
            }
            assert(self.buckets@ =~= old(self).buckets@.insert(h, self.buckets@[h]));
            let goal = old(self)@.insert(
                s,
                old(self)@[s].update(col as int, bumped(old(self)@[s][col as int], inc)),
            );
            assert forall|t: Seq<u8>| #![trigger goal.contains_key(t), self@.contains_key(t)]
                (self@.contains_key(t) == goal.contains_key(t)) && (self@.contains_key(t)
                ==> self@[t] == goal[t]) by {
                lemma_lookup_after_replace(
                    old(self),
                    self,
                    h,
                    oldb,
                    newb,
                    s,
                    i as int,
                    col as int,
                    ns,
                    t,
                );
            }
            assert(self@ =~= goal);
        }
    }
}

/// Finds the entry of `state` in a bucket by linear scan.
fn bucket_scan(b: &Vec<TableEntry>, state: &Vec<u8>) -> (r: Option<usize>)
    ensures
        match r {
            Some(i) => i < b@.len() && b@[i as int].state@ == state@,
            None => !bucket_has(b@, state@),
        },
{
    let mut i: usize = 0;
    while i < b.len()
        invariant
            i <= b@.len(),
            forall|j: int| 0 <= j < i ==> (#[trigger] b@[j].state@) != state@,
        decreases b@.len() - i,
    {
        if state_eq(&b[i].state, state) {
            return Some(i);
        }
        i += 1;
    }
    None
}

/// Byte-for-byte equality of two serialized states.
fn state_eq(a: &Vec<u8>, b: &Vec<u8>) -> (r: bool)
    ensures
        r == (a@ == b@),
{
    if a.len() != b.len() {
        proof {
            assert(a@ != b@) by {
                assert(a@.len() != b@.len());
            }
        }
        return false;
    }
    let mut i: usize = 0;
    while i < a.len()
        invariant
            a@.len() == b@.len(),
            i <= a@.len(),
            forall|j: int| 0 <= j < i ==> a@[j] == b@[j],
        decreases a@.len() - i,
    {
        if a[i] != b[i] {
            proof {
                assert(a@[i as int] != b@[i as int]);
            }
            return false;
        }
        i += 1;
    }
    proof {
        assert(a@ =~= b@);
    }
    true
}

/// After appending a fresh entry for `s` to its bucket, a lookup of any
/// state `t` sees the old table except at `s`, which now holds the
/// zero-initialized row.
proof fn lemma_lookup_after_push(
    m0: &Memory,
    m1: &Memory,
    h: u64,
    oldb: Seq<TableEntry>,
    newb: Seq<TableEntry>,
    s: Seq<u8>,
    cols: int,
    t: Seq<u8>,
)
    requires
        m0.inv(),
        h == state_code(s),
        !m0@.contains_key(s),
        oldb == if m0.buckets@.contains_key(h) {
            m0.buckets@[h]@
        } else {
            Seq::<TableEntry>::empty()
        },
        newb == oldb.push(newb.last()),
        newb.last().state@ == s,
        newb.last().records@ == zero_records(cols),
        bucket_ok(newb, h),
        m1.buckets@ == m0.buckets@.insert(h, m1.buckets@[h]),
        m1.buckets@.contains_key(h),
        m1.buckets@[h]@ == newb,
    ensures
        m1@.contains_key(t) == m0@.insert(s, zero_records(cols)).contains_key(t),
        m1@.contains_key(t) ==> m1@[t] == m0@.insert(s, zero_records(cols))[t],
{
    let goal = m0@.insert(s, zero_records(cols));
    if state_code(t) != h {
        if m0.buckets@.contains_key(state_code(t)) {
            assert(m1.buckets@[state_code(t)] == m0.buckets@[state_code(t)]);
        }
        assert(m1@.contains_key(t) == m0@.contains_key(t));
        assert(t != s);
        if m1@.contains_key(t) {
            assert(m1@[t] == m0@[t]);
        }
    } else {
        // Same bucket: the new entry sits at the end.
        let n = oldb.len() as int;
        if t == s {
            assert(newb[n].state@ == s);
            assert(bucket_has(newb, s));
            assert(m1@.contains_key(t));
            let j = bucket_index_of(newb, s);
            assert(0 <= j < newb.len() && newb[j].state@ == s);
            assert(j == n) by {
                if j < n {
                    assert(oldb[j].state@ == s);
                    assert(bucket_has(oldb, s));
                    assert(m0@.contains_key(s));
                }
            }
            assert(m1@[t] == zero_records(cols));
            assert(goal.contains_key(t) && goal[t] == zero_records(cols));
        } else {
            // A different state with the same code: its entry, if any,
            // is one of the old ones.
            assert(bucket_has(newb, t) == bucket_has(oldb, t)) by {
                if bucket_has(newb, t) {
                    let j = bucket_index_of(newb, t);
                    assert(0 <= j < newb.len() && newb[j].state@ == t);
                    assert(j < n) by {
                        assert(newb[n].state@ == s);
                    }
                    assert(oldb[j].state@ == t);
                }
                if bucket_has(oldb, t) {
                    let j = bucket_index_of(oldb, t);
                    assert(newb[j].state@ == t);
                }
            }
            if m0.buckets@.contains_key(h) {
                assert(m1@.contains_key(t) == m0@.contains_key(t));
            } else {
                assert(!bucket_has(oldb, t));
                assert(!m0@.contains_key(t));
            }
            if m1@.contains_key(t) {
                let j1 = bucket_index_of(newb, t);
                let j0 = bucket_index_of(oldb, t);
                assert(0 <= j1 < newb.len() && newb[j1].state@ == t);
                assert(0 <= j0 < oldb.len() && oldb[j0].state@ == t);
                assert(j1 < n) by {
                    assert(newb[n].state@ == s);
                }
                assert(newb[j0].state@ == t);
                assert(j1 == j0) by {
                    if j1 < j0 {
                        assert(newb[j1].state@ != newb[j0].state@);
                    }
                    if j0 < j1 {
                        assert(newb[j0].state@ != newb[j1].state@);
                    }
                }
                assert(m1@[t] == newb[j1].records@);
                assert(m0@[t] == oldb[j0].records@);
            }
        }
    }
}

/// Replacing one entry's records, with the entry moved to the bucket's
/// end, keeps the bucket consistent.
proof fn lemma_bucket_ok_after_replace(
    oldb: Seq<TableEntry>,
    newb: Seq<TableEntry>,
    h: u64,
    i: int,
    s: Seq<u8>,
)
    requires
        bucket_ok(oldb, h),
        0 <= i < oldb.len(),
        oldb[i].state@ == s,
        newb == oldb.remove(i).push(newb.last()),
        newb.last().state@ == s,
        records_ok(newb.last().records@),
    ensures
        bucket_ok(newb, h),
{
    let shrunk = oldb.remove(i);
    let n = shrunk.len() as int;
    assert forall|a: int| 0 <= a < n implies shrunk[a].state@ != s && state_code(
        #[trigger] shrunk[a].state@,
    ) == h && records_ok(shrunk[a].records@) by {
        if a < i {
            assert(shrunk[a] == oldb[a]);
            assert(state_code(oldb[a].state@) == h);
            assert(records_ok(oldb[a].records@));
            assert(oldb[a].state@ != oldb[i].state@);
        } else {
            assert(shrunk[a] == oldb[a + 1]);
            assert(state_code(oldb[a + 1].state@) == h);
            assert(records_ok(oldb[a + 1].records@));
            assert(oldb[i].state@ != oldb[a + 1].state@);
        }
    }
    assert forall|a: int, b: int| 0 <= a < b < n implies shrunk[a].state@ != shrunk[b].state@ by {
        if b < i {
            assert(shrunk[a] == oldb[a] && shrunk[b] == oldb[b]);
        } else if a < i {
            assert(shrunk[a] == oldb[a] && shrunk[b] == oldb[b + 1]);
        } else {
            assert(shrunk[a] == oldb[a + 1] && shrunk[b] == oldb[b + 1]);
        }
    }
    assert forall|a: int| 0 <= a < newb.len() implies state_code(#[trigger] newb[a].state@)
        == h by {
        if a < n {
            assert(newb[a] == shrunk[a]);
        } else {
            assert(newb[a].state@ == s);
            assert(state_code(oldb[i].state@) == h);
        }
    }
    assert forall|a: int, b: int| 0 <= a < b < newb.len() implies newb[a].state@
        != newb[b].state@ by {
        if b < n {
            assert(newb[a] == shrunk[a] && newb[b] == shrunk[b]);
        } else {
            assert(newb[a] == shrunk[a]);
            assert(newb[b].state@ == s);
        }
    }
    assert forall|a: int| 0 <= a < newb.len() implies records_ok(#[trigger] newb[a].records@) by {
        if a < n {
            assert(newb[a] == shrunk[a]);
        }
    }
}

/// After replacing the records of the entry of `s` (moved to the
/// bucket's end), a lookup of any state `t` sees the old table except at
/// `s`, which now holds the updated row.
proof fn lemma_lookup_after_replace(
    m0: &Memory,
    m1: &Memory,
    h: u64,
    oldb: Seq<TableEntry>,
    newb: Seq<TableEntry>,
    s: Seq<u8>,
    i: int,
    col: int,
    ns: Slot,
    t: Seq<u8>,
)
    requires
        m0.inv(),
        h == state_code(s),
        m0.buckets@.contains_key(h),
        oldb == m0.buckets@[h]@,
        0 <= i < oldb.len(),
        oldb[i].state@ == s,
        m0@.contains_key(s),
        m0@[s] == oldb[i].records@,
        newb == oldb.remove(i).push(newb.last()),
        newb.last().state@ == s,
        newb.last().records@ == oldb[i].records@.update(col, ns),
        bucket_ok(newb, h),
        m1.buckets@ == m0.buckets@.insert(h, m1.buckets@[h]),
        m1.buckets@.contains_key(h),
        m1.buckets@[h]@ == newb,
    ensures
        m1@.contains_key(t) == (m0@.contains_key(t) || t == s),
        m1@.contains_key(t) ==> m1@[t] == (if t == s {
            oldb[i].records@.update(col, ns)
        } else {
            m0@[t]
        }),
{
    let shrunk = oldb.remove(i);
    let n = shrunk.len() as int;
    if state_code(t) != h {
        if m0.buckets@.contains_key(state_code(t)) {
            assert(m1.buckets@[state_code(t)] == m0.buckets@[state_code(t)]);
        }
        assert(t != s);
        assert(m1@.contains_key(t) == m0@.contains_key(t));
        if m1@.contains_key(t) {
            assert(m1@[t] == m0@[t]);
        }
    } else {
        if t == s {
            assert(newb[n].state@ == s);
            assert(bucket_has(newb, s));
            assert(m1@.contains_key(t));
            let j = bucket_index_of(newb, s);
            assert(0 <= j < newb.len() && newb[j].state@ == s);
            assert(j == n) by {
                if j < n {
                    assert(newb[j].state@ != newb[n].state@);
                }
            }
            assert(m1@[t] == newb[n].records@);
        } else {
            assert(bucket_has(newb, t) == bucket_has(oldb, t)) by {
                if bucket_has(newb, t) {
                    let j = bucket_index_of(newb, t);
                    assert(0 <= j < newb.len() && newb[j].state@ == t);
                    assert(j < n) by {
                        assert(newb[n].state@ == s);
                    }
                    assert(shrunk[j].state@ == t);
                    if j < i {
                        assert(oldb[j].state@ == t);
                    } else {
                        assert(oldb[j + 1].state@ == t);
                    }
                }
                if bucket_has(oldb, t) {
                    let j = bucket_index_of(oldb, t);
                    assert(0 <= j < oldb.len() && oldb[j].state@ == t);
                    assert(j != i);
                    if j < i {
                        assert(shrunk[j].state@ == t);
                        assert(newb[j].state@ == t);
                    } else {
                        assert(shrunk[j - 1].state@ == t);
                        assert(newb[j - 1].state@ == t);
                    }
                }
            }
            assert(m1@.contains_key(t) == m0@.contains_key(t));
            if m1@.contains_key(t) {
                let j1 = bucket_index_of(newb, t);
                let j0 = bucket_index_of(oldb, t);
                assert(0 <= j1 < newb.len() && newb[j1].state@ == t);
                assert(0 <= j0 < oldb.len() && oldb[j0].state@ == t);
                assert(j1 < n) by {
                    assert(newb[n].state@ == s);
                }
                assert(j0 != i);
                let j0s = if j0 < i {
                    j0
                } else {
                    j0 - 1
                };
                assert(shrunk[j0s].state@ == t);
                assert(newb[j0s].state@ == t);
                assert(j1 == j0s) by {
                    if j1 < j0s {
                        assert(newb[j1].state@ != newb[j0s].state@);
                    }
                    if j0s < j1 {
                        assert(newb[j0s].state@ != newb[j1].state@);
                    }
                }
                assert(newb[j1].records@ == shrunk[j0s].records@);
                assert(shrunk[j0s].records@ == oldb[j0].records@);
                assert(m1@[t] == newb[j1].records@);
                assert(m0@[t] == oldb[j0].records@);
            }
        }
    }
}

} // verus!
