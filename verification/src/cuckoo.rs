//! Cuckoo placement: every entry ends up in one of its two home cells.
//!
//! An entry names two hashes; in a table of `cap` cells its homes are the
//! cells `h1 % cap` and `h2 % cap`. Entries are inserted in input order. An
//! entry whose first home is taken goes to its second home and pushes out
//! whoever sits there; the one pushed out moves to its other home, and so on,
//! until a free cell is hit or the chain has grown too long.

use vstd::prelude::*;

verus! {

/// Evictions that one insertion may cause; one more and the insertion is abandoned.
pub const MAX_ATTEMPTS: usize = 50;

/// Something that can be placed in a cuckoo table: it names two hashes.
///
/// An implementation says what the two hashes are, and returns them from
/// `h1` and `h2`: the same two on every call.
pub trait Entry: Copy + core::fmt::Debug {
    /// The first hash, as contracts speak of it.
    spec fn h1_spec(&self) -> usize;

    /// The second hash, as contracts speak of it.
    spec fn h2_spec(&self) -> usize;

    fn h1(&self) -> (h: usize)
        ensures
            h == self.h1_spec(),
    ;

    fn h2(&self) -> (h: usize)
        ensures
            h == self.h2_spec(),
    ;
}

/// The entry at position `index` of the input found no cell.
#[derive(Clone, Copy, Debug, PartialEq, Eq, Structural)]
pub struct PlacementError {
    pub index: usize,
}

/// None of the capacities that were tried admits a placement: one failure for
/// each capacity, in the order in which they were tried.
#[derive(Clone, Debug)]
pub struct AssemblyError {
    pub attempts: Vec<PlacementError>,
}

/// A table as contracts see it: each cell is free or holds the position of an entry.
pub type Cells = Seq<Option<usize>>;

/// The two home cells of every entry in a table of `cap` cells.
pub open spec fn homes<T: Entry>(input: Seq<T>, cap: int) -> Seq<(int, int)> {
    Seq::new(
        input.len(),
        |i: int| (input[i].h1_spec() as int % cap, input[i].h2_spec() as int % cap),
    )
}

/// Every home lies inside a table of `cap` cells.
pub open spec fn homes_within(h: Seq<(int, int)>, cap: int) -> bool {
    forall|j: int| 0 <= j < h.len() ==> 0 <= (#[trigger] h[j]).0 < cap && 0 <= h[j].1 < cap
}

/// The home of an entry that is not `loc` (its second home where both are `loc`).
pub open spec fn other_home(home: (int, int), loc: int) -> int {
    if home.0 != loc {
        home.0
    } else {
        home.1
    }
}

/// Seats `cur` at `loc` and re-homes whoever is pushed out, with `budget`
/// writes still allowed. `None` when the budget runs out before a free cell is
/// hit.
pub open spec fn settle(h: Seq<(int, int)>, table: Cells, cur: usize, loc: int, budget: nat)
    -> Option<Cells>
    decreases budget,
{
    if budget == 0 {
        None
    } else {
        let seated = table.update(loc, Some(cur));
        match table[loc] {
            None => Some(seated),
            Some(prev) => settle(
                h,
                seated,
                prev,
                other_home(h[prev as int], loc),
                (budget - 1) as nat,
            ),
        }
    }
}

/// Inserts entry `i`: into its first home if that is free, else into its
/// second home, pushing out the occupant.
pub open spec fn insert_entry(h: Seq<(int, int)>, table: Cells, i: int) -> Option<Cells> {
    if table[h[i].0] is None {
        Some(table.update(h[i].0, Some(i as usize)))
    } else {
        settle(h, table, i as usize, h[i].1, (MAX_ATTEMPTS + 1) as nat)
    }
}

/// The table after the first `n` entries were inserted in order into `cap`
/// free cells, or the position of the first entry whose insertion was
/// abandoned.
pub open spec fn place_prefix(h: Seq<(int, int)>, cap: nat, n: nat) -> Result<Cells, int>
    decreases n,
{
    if n == 0 {
        Ok(Seq::new(cap, |c: int| None))
    } else {
        match place_prefix(h, cap, (n - 1) as nat) {
            Err(i) => Err(i),
            Ok(table) => match insert_entry(h, table, n - 1) {
                Some(next) => Ok(next),
                None => Err(n - 1),
            },
        }
    }
}

/// What cuckoo placement of all entries into `cap` cells gives.
pub open spec fn placement(h: Seq<(int, int)>, cap: nat) -> Result<Cells, int> {
    place_prefix(h, cap, h.len())
}

/// Entry `j` sits in one of its two homes.
pub open spec fn seated(h: Seq<(int, int)>, table: Cells, j: int) -> bool {
    table[h[j].0] == Some(j as usize) || table[h[j].1] == Some(j as usize)
}

/// The cells hold the first `n` entries, all but `skip`: each of them sits in
/// one of its homes and in no other cell, and nothing else is in the table.
pub open spec fn holds_all_but(h: Seq<(int, int)>, table: Cells, n: int, skip: int) -> bool {
    &&& forall|c: int|
        0 <= c < table.len() ==> (#[trigger] table[c] matches Some(j) ==> j < n && j != skip && (
        h[j as int].0 == c || h[j as int].1 == c))
    &&& forall|j: int| 0 <= j < n && j != skip ==> #[trigger] seated(h, table, j)
    &&& forall|a: int, b: int|
        0 <= a < table.len() && 0 <= b < table.len() && #[trigger] table[a] is Some && table[a]
            == #[trigger] table[b] ==> a == b
}

/// The cells hold exactly the first `n` entries, each in one of its homes.
pub open spec fn holds_first(h: Seq<(int, int)>, table: Cells, n: int) -> bool {
    holds_all_but(h, table, n, -1)
}

/// One write of an eviction chain keeps the table in order: after `cur` is
/// seated at one of its homes, everyone but the one pushed out is in place.
pub proof fn lemma_seat(h: Seq<(int, int)>, table: Cells, n: int, cur: usize, loc: int)
    requires
        n <= h.len(),
        n <= usize::MAX + 1,
        homes_within(h, table.len() as int),
        holds_all_but(h, table, n, cur as int),
        0 <= cur < n,
        loc == h[cur as int].0 || loc == h[cur as int].1,
    ensures
        table[loc] is None ==> holds_first(h, table.update(loc, Some(cur)), n),
        table[loc] matches Some(prev) ==> {
            &&& prev < n
            &&& prev != cur
            &&& holds_all_but(h, table.update(loc, Some(cur)), n, prev as int)
            &&& other_home(h[prev as int], loc) == h[prev as int].0 || other_home(
                h[prev as int],
                loc,
            ) == h[prev as int].1
        },
{
    let next = table.update(loc, Some(cur));
    assert(0 <= loc < table.len());
    match table[loc] {
        None => {
            assert forall|j: int| 0 <= j < n && j != -1 implies #[trigger] seated(h, next, j) by {
                if j != cur {
                    assert(seated(h, table, j));
                }
            }
        },
        Some(prev) => {
            assert forall|j: int| 0 <= j < n && j != prev implies #[trigger] seated(
                h,
                next,
                j,
            ) by {
                if j != cur {
                    assert(seated(h, table, j));
                }
            }
            assert forall|c: int| 0 <= c < next.len() implies (#[trigger] next[c] matches Some(j)
                ==> j < n && j != prev && (h[j as int].0 == c || h[j as int].1 == c)) by {
                if c != loc {
                    assert(table[c] == next[c]);
                    if table[c] == Some(prev) {
                        assert(table[loc] == table[c]);
                    }
                }
            }
        },
    }
}

/// A chain that ends leaves every one of the first `n` entries in one of its homes.
pub proof fn lemma_settle_holds(
    h: Seq<(int, int)>,
    table: Cells,
    n: int,
    cur: usize,
    loc: int,
    budget: nat,
)
    requires
        n <= h.len(),
        n <= usize::MAX + 1,
        homes_within(h, table.len() as int),
        holds_all_but(h, table, n, cur as int),
        0 <= cur < n,
        loc == h[cur as int].0 || loc == h[cur as int].1,
    ensures
        settle(h, table, cur, loc, budget) matches Some(end) ==> end.len() == table.len()
            && holds_first(h, end, n),
    decreases budget,
{
    if budget > 0 {
        lemma_seat(h, table, n, cur, loc);
        match table[loc] {
            None => {},
            Some(prev) => {
                lemma_settle_holds(
                    h,
                    table.update(loc, Some(cur)),
                    n,
                    prev,
                    other_home(h[prev as int], loc),
                    (budget - 1) as nat,
                );
            },
        }
    }
}

/// Inserting entry `n` into a table that holds the first `n` entries gives,
/// where it succeeds, a table that holds the first `n + 1`.
pub proof fn lemma_insert_holds(h: Seq<(int, int)>, table: Cells, n: int)
    requires
        0 <= n < h.len(),
        n <= usize::MAX,
        homes_within(h, table.len() as int),
        holds_first(h, table, n),
    ensures
        insert_entry(h, table, n) matches Some(end) ==> end.len() == table.len() && holds_first(
            h,
            end,
            n + 1,
        ),
{
    let me = n as usize;
    assert(holds_all_but(h, table, n + 1, n)) by {
        assert forall|j: int| 0 <= j < n + 1 && j != n implies #[trigger] seated(h, table, j) by {
            assert(seated(h, table, j));
        }
    }
    if table[h[n].0] is None {
        lemma_seat(h, table, n + 1, me, h[n].0);
    } else {
        lemma_settle_holds(h, table, n + 1, me, h[n].1, (MAX_ATTEMPTS + 1) as nat);
    }
}

/// Placement, where it succeeds, seats every entry in one of its homes.
pub proof fn lemma_place_prefix_holds(h: Seq<(int, int)>, cap: nat, n: nat)
    requires
        n <= h.len(),
        n <= usize::MAX + 1,
        homes_within(h, cap as int),
    ensures
        place_prefix(h, cap, n) matches Ok(table) ==> table.len() == cap && holds_first(
            h,
            table,
            n as int,
        ),
        place_prefix(h, cap, n) matches Err(i) ==> 0 <= i < n,
    decreases n,
{
    if n > 0 {
        lemma_place_prefix_holds(h, cap, (n - 1) as nat);
        match place_prefix(h, cap, (n - 1) as nat) {
            Err(_) => {},
            Ok(table) => {
                lemma_insert_holds(h, table, n - 1);
            },
        }
    }
}

/// Once an entry was abandoned, the entries after it are not looked at.
pub proof fn lemma_place_prefix_fails_on(h: Seq<(int, int)>, cap: nat, n: nat, m: nat)
    requires
        n <= m,
        place_prefix(h, cap, n) is Err,
    ensures
        place_prefix(h, cap, m) == place_prefix(h, cap, n),
    decreases m,
{
    if n < m {
        lemma_place_prefix_fails_on(h, cap, n, (m - 1) as nat);
    }
}

/// Every entry of `input` is found in `table` at the cell that one of its two
/// hashes names.
pub open spec fn is_cuckoo_table<T: Entry>(input: Seq<T>, table: Cells) -> bool {
    &&& forall|i: int|
        0 <= i < input.len() ==> {
            ||| table[#[trigger] input[i].h1_spec() as int % table.len() as int] == Some(i as usize)
            ||| table[input[i].h2_spec() as int % table.len() as int] == Some(i as usize)
        }
    &&& forall|c: int|
        0 <= c < table.len() ==> (#[trigger] table[c] matches Some(i) ==> i < input.len())
}

/// Placer correctness: the table that placement gives, where it gives one,
/// has `cap` cells and holds every entry at the cell that one of its two
/// hashes names.
pub proof fn lemma_placement_seats_all<T: Entry>(input: Seq<T>, cap: nat)
    requires
        cap > 0 || input.len() == 0,
        input.len() <= usize::MAX,
    ensures
        placement(homes(input, cap as int), cap) matches Ok(table) ==> table.len() == cap
            && is_cuckoo_table(input, table),
        placement(homes(input, cap as int), cap) matches Err(i) ==> 0 <= i < input.len(),
{
    let h = homes(input, cap as int);
    if cap > 0 {
        assert(homes_within(h, cap as int));
    }
    lemma_place_prefix_holds(h, cap, h.len());
    if let Ok(table) = placement(h, cap) {
        assert forall|i: int| 0 <= i < input.len() implies {
            ||| table[#[trigger] input[i].h1_spec() as int % table.len() as int] == Some(
                i as usize,
            )
            ||| table[input[i].h2_spec() as int % table.len() as int] == Some(i as usize)
        } by {
            assert(seated(h, table, i));
        }
    }
}

/// Three entries that share both homes cannot be placed: two cells do not
/// hold three entries.
pub proof fn lemma_three_way_collision_fails<T: Entry>(
    input: Seq<T>,
    cap: nat,
    a: int,
    b: int,
    c: int,
)
    requires
        cap > 0,
        input.len() <= usize::MAX,
        0 <= a < b < c < input.len(),
        input[a].h1_spec() as int % cap as int == input[b].h1_spec() as int % cap as int,
        input[b].h1_spec() as int % cap as int == input[c].h1_spec() as int % cap as int,
        input[a].h2_spec() as int % cap as int == input[b].h2_spec() as int % cap as int,
        input[b].h2_spec() as int % cap as int == input[c].h2_spec() as int % cap as int,
    ensures
        placement(homes(input, cap as int), cap) is Err,
{
    lemma_placement_seats_all(input, cap);
    if let Ok(table) = placement(homes(input, cap as int), cap) {
        let first = input[a].h1_spec() as int % cap as int;
        let second = input[a].h2_spec() as int % cap as int;
        assert(table[first] == Some(a as usize) || table[second] == Some(a as usize));
        assert(table[first] == Some(b as usize) || table[second] == Some(b as usize));
        assert(table[first] == Some(c as usize) || table[second] == Some(c as usize));
    }
}

/// Places every entry of `input` into a table of `cap` cells, so that entry
/// `i` is found at cell `h1 % cap` or at cell `h2 % cap`. Fails with the
/// position of the first entry whose insertion caused more than
/// `MAX_ATTEMPTS` evictions.
pub fn assemble_cuckoo<T: Entry>(input: &[T], cap: usize) -> (res: Result<
    Vec<Option<usize>>,
    PlacementError,
>)
    requires
        cap > 0 || input@.len() == 0,
    ensures
        match res {
            Ok(table) => {
                &&& placement(homes(input@, cap as int), cap as nat) == Ok::<Cells, int>(table@)
                &&& table@.len() == cap
                &&& is_cuckoo_table(input@, table@)
            },
            Err(e) => placement(homes(input@, cap as int), cap as nat) == Err::<Cells, int>(
                e.index as int,
            ),
        },
{
    let ghost h = homes(input@, cap as int);
    let n = input.len();
    let mut table: Vec<Option<usize>> = Vec::new();
    let mut c: usize = 0;
    while c < cap
        invariant
            c <= cap,
            table@ == Seq::new(c as nat, |c: int| None::<usize>),
        decreases cap - c,
    {
        table.push(None);
        c += 1;
        assert(table@ =~= Seq::new(c as nat, |c: int| None::<usize>));
    }
    proof {
        if cap > 0 {
            assert(homes_within(h, cap as int));
        }
    }
    let mut i: usize = 0;
    while i < n
        invariant
            i <= n,
            n == input@.len(),
            h == homes(input@, cap as int),
            homes_within(h, cap as int),
            table@.len() == cap,
            place_prefix(h, cap as nat, i as nat) == Ok::<Cells, int>(table@),
            holds_first(h, table@, i as int),
        decreases n - i,
    {
        let ghost before = table@;
        let l1 = input[i].h1() % cap;
        proof {
            lemma_insert_holds(h, before, i as int);
        }
        if table[l1].is_none() {
            table.set(l1, Some(i));
        } else {
            let mut cur = i;
            let mut loc = input[cur].h2() % cap;
            let mut attempt: usize = 0;
            proof {
                assert(holds_all_but(h, before, i + 1, i as int)) by {
                    assert forall|j: int| 0 <= j < i + 1 && j != i implies #[trigger] seated(
                        h,
                        before,
                        j,
                    ) by {
                        assert(seated(h, before, j));
                    }
                }
            }
            loop
                invariant_except_break
                    attempt <= MAX_ATTEMPTS + 1,
                    settle(h, table@, cur, loc as int, (MAX_ATTEMPTS + 1 - attempt) as nat)
                        == insert_entry(h, before, i as int),
                    holds_all_but(h, table@, i + 1, cur as int),
                    cur <= i,
                    loc == h[cur as int].0 || loc == h[cur as int].1,
                invariant
                    i < n,
                    n == input@.len(),
                    h == homes(input@, cap as int),
                    homes_within(h, cap as int),
                    table@.len() == cap,
                    place_prefix(h, cap as nat, i as nat) == Ok::<Cells, int>(before),
                ensures
                    insert_entry(h, before, i as int) == Some(table@),
                decreases MAX_ATTEMPTS + 1 - attempt,
            {
                if attempt > MAX_ATTEMPTS {
                    proof {
                        lemma_place_prefix_fails_on(h, cap as nat, (i + 1) as nat, n as nat);
                    }
                    return Err(PlacementError { index: i });
                }
                proof {
                    lemma_seat(h, table@, i + 1, cur, loc as int);
                }
                let prev = table[loc];
                table.set(loc, Some(cur));
                match prev {
                    Some(p) => {
                        cur = p;
                        let first = input[p].h1() % cap;
                        if first != loc {
                            loc = first;
                        } else {
                            loc = input[p].h2() % cap;
                        }
                    },
                    None => {
                        break ;
                    },
                }
                attempt += 1;
            }
        }
        i += 1;
    }
    proof {
        lemma_placement_seats_all(input@, cap as nat);
    }
    Ok(table)
}

/// The table for the first capacity, from position `from` of `caps` on, that
/// admits a placement of `input`; `None` where none of them does.
pub open spec fn first_placement<T: Entry>(input: Seq<T>, caps: Seq<usize>, from: nat) -> Option<
    Cells,
>
    decreases caps.len() - from,
{
    if from >= caps.len() {
        None
    } else {
        match placement(homes(input, caps[from as int] as int), caps[from as int] as nat) {
            Ok(table) => Some(table),
            Err(_) => first_placement(input, caps, from + 1),
        }
    }
}

/// The table that the first fitting capacity gives holds every entry at the
/// cell that one of its two hashes names, and has as many cells as one of the
/// capacities says.
pub proof fn lemma_first_placement_seats_all<T: Entry>(input: Seq<T>, caps: Seq<usize>, from: nat)
    requires
        input.len() == 0 || forall|k: int| 0 <= k < caps.len() ==> caps[k] > 0,
        input.len() <= usize::MAX,
    ensures
        first_placement(input, caps, from) matches Some(table) ==> {
            &&& is_cuckoo_table(input, table)
            &&& exists|k: int| from <= k < caps.len() && table.len() == #[trigger] caps[k]
        },
    decreases caps.len() - from,
{
    if from < caps.len() {
        lemma_placement_seats_all(input, caps[from as int] as nat);
        lemma_first_placement_seats_all(input, caps, from + 1);
    }
}

/// Tries the capacities in order and returns the table for the first one that
/// admits a placement. Fails where none does, with the failure of each attempt.
pub fn try_assemble_cuckoo<T: Entry>(input: &[T], caps: &[usize]) -> (res: Result<
    Vec<Option<usize>>,
    AssemblyError,
>)
    requires
        input@.len() == 0 || forall|k: int| 0 <= k < caps@.len() ==> caps@[k] > 0,
    ensures
        match res {
            Ok(table) => {
                &&& first_placement(input@, caps@, 0) == Some(table@)
                &&& is_cuckoo_table(input@, table@)
            },
            Err(e) => {
                &&& first_placement(input@, caps@, 0) is None
                &&& e.attempts@.len() == caps@.len()
                &&& forall|k: int|
                    0 <= k < caps@.len() ==> placement(
                        homes(input@, caps@[k] as int),
                        caps@[k] as nat,
                    ) == Err::<Cells, int>(#[trigger] e.attempts@[k].index as int)
            },
        },
{
    let mut errs: Vec<PlacementError> = Vec::new();
    let mut k: usize = 0;
    while k < caps.len()
        invariant
            k <= caps@.len(),
            input@.len() == 0 || forall|k: int| 0 <= k < caps@.len() ==> caps@[k] > 0,
            first_placement(input@, caps@, 0) == first_placement(input@, caps@, k as nat),
            errs@.len() == k,
            forall|j: int|
                0 <= j < k ==> placement(homes(input@, caps@[j] as int), caps@[j] as nat) == Err::<
                    Cells,
                    int,
                >(#[trigger] errs@[j].index as int),
        decreases caps@.len() - k,
    {
        match assemble_cuckoo(input, caps[k]) {
            Ok(table) => {
                return Ok(table);
            },
            Err(err) => {
                errs.push(err);
            },
        }
        k += 1;
    }
    Err(AssemblyError { attempts: errs })
}

} // verus!
