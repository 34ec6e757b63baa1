//! A table in which every item may sit in one of several buckets, one for
//! each of its hashes, and a full bucket makes room by pushing an item out
//! to another of its buckets.

use rand::rngs::SmallRng;
use rand::{Rng, SeedableRng};
use vstd::prelude::*;
use vstd::seq_lib::to_multiset_update;

verus! {

/// How often an insertion pushes an item out before it gives up.
pub const MAX_ATTEMPTS: usize = 50;

/// The state of `rand::rngs::SmallRng`, of which nothing is known here.
#[verifier::external_type_specification]
#[verifier::external_body]
pub struct ExSmallRng(SmallRng);

/// Calls `rand::SeedableRng::seed_from_u64` for `SmallRng`.
#[verifier::external_body]
fn seeded(seed: u64) -> SmallRng {
    SmallRng::seed_from_u64(seed)
}

/// Calls `rand::Rng::gen_range` with the range `0..n` of `u32`: some number
/// of the range. It panics on an empty range, which `requires` leaves out.
#[verifier::external_body]
fn below_u32(rng: &mut SmallRng, n: u32) -> (r: u32)
    requires
        n > 0,
    ensures
        r < n,
{
    rng.gen_range(0..n)
}

/// Calls `rand::Rng::gen_range` with the range `0..n` of `usize`: some
/// number of the range. It panics on an empty range, which `requires` leaves
/// out.
#[verifier::external_body]
fn below_usize(rng: &mut SmallRng, n: usize) -> (r: usize)
    requires
        n > 0,
    ensures
        r < n,
{
    rng.gen_range(0..n)
}

/// A key with its hashes, one for each seed that the table uses.
#[derive(Clone, Debug)]
pub struct Item {
    pub key: String,
    pub hashes: Vec<u32>,
}

/// What a table holds: each cell is free or holds an item.
pub type Cells = Seq<Option<Item>>;

/// The first free cell from `from` up to `to`.
pub open spec fn free_cell(cells: Cells, from: int, to: int) -> Option<int>
    decreases to - from,
{
    if from >= to {
        None
    } else if cells[from] is None {
        Some(from)
    } else {
        free_cell(cells, from + 1, to)
    }
}

/// Cell `at` lies in one of the buckets that the hashes name.
pub open spec fn in_bucket_of(hashes: Seq<u32>, num_slots: int, slot_capacity: int, at: int)
    -> bool {
    exists|i: int|
        0 <= i < hashes.len() && (#[trigger] hashes[i] as int % num_slots) * slot_capacity <= at < (
        hashes[i] as int % num_slots) * slot_capacity + slot_capacity
}

/// The cells of a bucket lie within the table.
pub proof fn lemma_bucket_within(hash: int, num_slots: int, slot_capacity: int, j: int)
    requires
        0 <= hash,
        0 < num_slots,
        0 <= j <= slot_capacity,
    ensures
        0 <= (hash % num_slots) * slot_capacity,
        (hash % num_slots) * slot_capacity + j <= num_slots * slot_capacity,
{
    let bucket = hash % num_slots;
    assert(0 <= bucket * slot_capacity && bucket * slot_capacity + slot_capacity <= num_slots
        * slot_capacity) by (nonlinear_arith)
        requires
            0 <= bucket < num_slots,
            0 <= slot_capacity,
    ;
}

/// `num_slots` buckets of `slot_capacity` cells each, for items with `num_hashes` hashes.
pub struct MultihashTable {
    num_hashes: u32,
    slot_capacity: usize,
    num_slots: usize,
    slots: Vec<Option<Item>>,
    prng: SmallRng,
}

impl MultihashTable {
    /// The number of hashes of an item.
    pub closed spec fn num_hashes(&self) -> u32 {
        self.num_hashes
    }

    /// The number of cells of a bucket.
    pub closed spec fn slot_capacity(&self) -> usize {
        self.slot_capacity
    }

    /// The number of buckets.
    pub closed spec fn num_slots(&self) -> usize {
        self.num_slots
    }

    /// The cells, bucket after bucket.
    pub closed spec fn cells(&self) -> Cells {
        self.slots@
    }

    /// The first cell of the bucket that a hash names.
    pub open spec fn base(&self, hash: u32) -> int {
        (hash as int % self.num_slots() as int) * self.slot_capacity()
    }

    /// The first free cell in the buckets of the hashes from `seed` on, in
    /// the order of the seeds.
    pub open spec fn first_free(&self, hashes: Seq<u32>, seed: int) -> Option<int>
        decreases hashes.len() - seed,
    {
        if seed < 0 || seed >= hashes.len() {
            None
        } else {
            match free_cell(
                self.cells(),
                self.base(hashes[seed]),
                self.base(hashes[seed]) + self.slot_capacity(),
            ) {
                Some(at) => Some(at),
                None => self.first_free(hashes, seed + 1),
            }
        }
    }

    /// The item has one hash for each seed.
    pub open spec fn takes(&self, item: Item) -> bool {
        item.hashes@.len() == self.num_hashes()
    }

    /// The table has all its cells, and every item sits in one of its buckets.
    pub open spec fn wf(&self) -> bool {
        &&& self.cells().len() == self.num_slots() * self.slot_capacity()
        &&& forall|at: int|
            0 <= at < self.cells().len() ==> (#[trigger] self.cells()[at] matches Some(item)
                ==> self.takes(item) && in_bucket_of(
                item.hashes@,
                self.num_slots() as int,
                self.slot_capacity() as int,
                at,
            ))
    }

    /// There is a bucket, a cell in it, and a hash to choose it by.
    pub open spec fn usable(&self) -> bool {
        self.num_hashes() > 0 && self.slot_capacity() > 0 && self.num_slots() > 0
    }

    /// An empty table.
    pub fn new(num_hashes: u32, slot_capacity: usize, num_slots: usize) -> (table: MultihashTable)
        requires
            num_slots * slot_capacity <= usize::MAX,
        ensures
            table.wf(),
            table.num_hashes() == num_hashes,
            table.slot_capacity() == slot_capacity,
            table.num_slots() == num_slots,
            table.cells() == Seq::new((num_slots * slot_capacity) as nat, |at: int| None::<Item>),
    {
        let cells = num_slots * slot_capacity;
        let mut slots: Vec<Option<Item>> = Vec::new();
        let mut at: usize = 0;
        while at < cells
            invariant
                at <= cells,
                slots@ == Seq::new(at as nat, |at: int| None::<Item>),
            decreases cells - at,
        {
            slots.push(None);
            at += 1;
            assert(slots@ =~= Seq::new(at as nat, |at: int| None::<Item>));
        }
        MultihashTable { num_hashes, slot_capacity, num_slots, slots, prng: seeded(42) }
    }

    /// Some cell of one of the item's buckets: the bucket and the cell in it
    /// are drawn at random.
    fn draw(&mut self, hashes: &Vec<u32>) -> (at: usize)
        requires
            old(self).usable(),
            old(self).cells().len() == old(self).num_slots() * old(self).slot_capacity(),
            hashes@.len() == old(self).num_hashes(),
        ensures
            final(self).num_hashes() == old(self).num_hashes(),
            final(self).slot_capacity() == old(self).slot_capacity(),
            final(self).num_slots() == old(self).num_slots(),
            final(self).cells() == old(self).cells(),
            at < old(self).cells().len(),
            in_bucket_of(
                hashes@,
                old(self).num_slots() as int,
                old(self).slot_capacity() as int,
                at as int,
            ),
    {
        let seed = below_u32(&mut self.prng, self.num_hashes);
        let h = hashes[seed as usize] as usize;
        proof {
            lemma_bucket_within(h as int, self.num_slots as int, self.slot_capacity as int, 0);
            lemma_bucket_within(
                h as int,
                self.num_slots as int,
                self.slot_capacity as int,
                self.slot_capacity as int,
            );
        }
        let total = self.slots.len();
        let bucket = h % self.num_slots;
        assert(bucket * self.slot_capacity + self.slot_capacity <= total);
        let base = bucket * self.slot_capacity;
        let cell = below_usize(&mut self.prng, self.slot_capacity);
        assert(hashes@[seed as int] as int % self.num_slots as int == bucket);
        base + cell
    }

    /// Puts the item into the first free cell of its buckets, in the order
    /// of its hashes. Where all are full, the item takes a cell of one of
    /// its buckets from another item, which then takes a cell of one of its
    /// own, and so on until a free cell is hit: the cells are drawn at
    /// random. Gives up after `MAX_ATTEMPTS` such moves, and the item that
    /// was pushed out last is lost.
    pub fn insert(&mut self, item: Item) -> (placed: bool)
        requires
            old(self).wf(),
            old(self).usable(),
            old(self).takes(item),
        ensures
            final(self).wf(),
            final(self).num_hashes() == old(self).num_hashes(),
            final(self).slot_capacity() == old(self).slot_capacity(),
            final(self).num_slots() == old(self).num_slots(),
            old(self).first_free(item.hashes@, 0) matches Some(at) ==> placed && final(self).cells() == old(self).cells().update(at, Some(item)),
            placed ==> final(self).cells().to_multiset().insert(None) == old(self).cells().to_multiset().insert(Some(item)),
            !placed ==> exists|lost: Item|
                final(self).cells().to_multiset().insert(Some(lost)) == old(self).cells().to_multiset().insert(Some(item)),
    {
        let ghost before = self.slots@;
        let mut i: u32 = 0;
        while i < self.num_hashes
            invariant
                i <= self.num_hashes,
                *self == *old(self),
                before == self.slots@,
                self.wf(),
                self.usable(),
                self.takes(item),
                self.first_free(item.hashes@, 0) == self.first_free(item.hashes@, i as int),
            decreases self.num_hashes - i,
        {
            let h = item.hashes[i as usize] as usize;
            proof {
                lemma_bucket_within(h as int, self.num_slots as int, self.slot_capacity as int, 0);
                lemma_bucket_within(
                    h as int,
                    self.num_slots as int,
                    self.slot_capacity as int,
                    self.slot_capacity as int,
                );
            }
            let total = self.slots.len();
            let bucket = h % self.num_slots;
            assert(bucket * self.slot_capacity + self.slot_capacity <= total);
            let base = bucket * self.slot_capacity;
            assert(base == self.base(item.hashes@[i as int]));
            let mut j: usize = 0;
            while j < self.slot_capacity
                invariant
                    j <= self.slot_capacity,
                    i < self.num_hashes,
                    *self == *old(self),
                    before == self.slots@,
                    self.wf(),
                    self.takes(item),
                    base == self.base(item.hashes@[i as int]),
                    base + self.slot_capacity <= self.slots@.len() <= usize::MAX,
                    self.first_free(item.hashes@, 0) == self.first_free(item.hashes@, i as int),
                    free_cell(self.slots@, base as int, base + self.slot_capacity) == free_cell(
                        self.slots@,
                        base + j,
                        base + self.slot_capacity,
                    ),
                decreases self.slot_capacity - j,
            {
                if self.slots[base + j].is_none() {
                    proof {
                        to_multiset_update(before, base + j, Some(item));
                        assert(before.to_multiset().contains(None)) by {
                            vstd::seq_lib::to_multiset_contains(before, None::<Item>);
                            assert(before[base + j] == None::<Item>);
                        }
                        assert(before.update(base + j, Some(item)).to_multiset().insert(None)
                            =~= before.to_multiset().insert(Some(item)));
                    }
                    self.slots.set(base + j, Some(item));
                    return true;
                }
                j += 1;
            }
            i += 1;
        }
        let ghost wanted = item;
        let ghost offered = before.to_multiset().insert(Some(item));
        let mut loc = self.draw(&item.hashes);
        let mut cur = item;
        let mut moves: usize = 0;
        while moves < MAX_ATTEMPTS
            invariant
                wanted == item,
                old(self).first_free(wanted.hashes@, 0) is None,
                offered == old(self).cells().to_multiset().insert(Some(wanted)),
                self.wf(),
                self.usable(),
                self.takes(cur),
                self.num_hashes() == old(self).num_hashes(),
                self.slot_capacity() == old(self).slot_capacity(),
                self.num_slots() == old(self).num_slots(),
                loc < self.slots@.len(),
                in_bucket_of(
                    cur.hashes@,
                    self.num_slots() as int,
                    self.slot_capacity() as int,
                    loc as int,
                ),
                self.slots@.to_multiset().insert(Some(cur)) == offered,
            decreases MAX_ATTEMPTS - moves,
        {
            let ghost cells = self.slots@;
            let mut held = Some(cur);
            core::mem::swap(&mut self.slots[loc], &mut held);
            proof {
                to_multiset_update(cells, loc as int, Some(cur));
                assert(cells.to_multiset().contains(cells[loc as int])) by {
                    vstd::seq_lib::to_multiset_contains(cells, cells[loc as int]);
                }
                assert(self.slots@ == cells.update(loc as int, Some(cur)));
                assert(self.slots@.to_multiset().insert(held) =~= offered);
            }
            match held {
                Some(prev) => {
                    cur = prev;
                    let mut tries: usize = 0;
                    while tries < MAX_ATTEMPTS
                        invariant
                            self.wf(),
                            self.usable(),
                            self.takes(cur),
                            self.num_hashes() == old(self).num_hashes(),
                            self.slot_capacity() == old(self).slot_capacity(),
                            self.num_slots() == old(self).num_slots(),
                            loc < self.slots@.len(),
                            in_bucket_of(
                                cur.hashes@,
                                self.num_slots() as int,
                                self.slot_capacity() as int,
                                loc as int,
                            ),
                            self.slots@.to_multiset().insert(Some(cur)) == offered,
                        decreases MAX_ATTEMPTS - tries,
                    {
                        let candidate = self.draw(&cur.hashes);
                        if candidate != loc {
                            loc = candidate;
                            break ;
                        }
                        tries += 1;
                    }
                },
                None => {
                    return true;
                },
            }
            moves += 1;
        }
        false
    }
}

} // verus!
