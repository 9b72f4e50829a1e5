//! The greedy round-robin filling of the lookup table.
use vstd::arithmetic::div_mod::*;
use vstd::prelude::*;
use vstd::assert_by_contradiction;
use vstd::set_lib::*;
use crate::permutation::{is_slot_permutation, slot_reached};

verus! {

/// The state of a filling: for each node, the position of its row at which
/// its next scan starts, and for each slot, the node that claimed it.
pub struct Fill {
    pub next: Seq<int>,
    pub entry: Seq<Option<usize>>,
}

/// The first position at or after `j` whose slot in `row` is still unclaimed.
pub open spec fn first_free(row: Seq<usize>, entry: Seq<Option<usize>>, j: int) -> int
    decreases row.len() - j,
{
    if 0 <= j < row.len() && entry[row[j] as int] is Some {
        first_free(row, entry, j + 1)
    } else {
        j
    }
}

/// Node `i` claims the first unclaimed slot of its row, from where it stopped.
pub open spec fn claim(rows: Seq<Seq<usize>>, s: Fill, i: int) -> Fill {
    let j = first_free(rows[i], s.entry, s.next[i]);
    Fill { next: s.next.update(i, j + 1), entry: s.entry.update(rows[i][j] as int, Some(i as usize)) }
}

/// The state after `k` claims, the nodes taking turns in index order.
pub open spec fn fill_after(rows: Seq<Seq<usize>>, m: nat, k: nat) -> Fill
    decreases k,
{
    if k == 0 {
        Fill { next: Seq::new(rows.len(), |i: int| 0int), entry: Seq::new(m, |c: int| None) }
    } else {
        claim(rows, fill_after(rows, m, (k - 1) as nat), (k - 1) % (rows.len() as int))
    }
}

/// The lookup table that the greedy filling yields: slot `c` holds the index
/// of the node that claimed it once all `m` slots are claimed.
pub open spec fn maglev_table(rows: Seq<Seq<usize>>, m: nat) -> Seq<usize> {
    let e = fill_after(rows, m, m).entry;
    Seq::new(m, |c: int| e[c].unwrap())
}

/// Every row is a permutation of the `m` slots.
pub open spec fn rows_are_permutations(rows: Seq<Seq<usize>>, m: nat) -> bool {
    forall|i: int| 0 <= i < rows.len() ==> is_slot_permutation(#[trigger] rows[i], m)
}

/// The slots claimed so far.
pub open spec fn claimed(entry: Seq<Option<usize>>) -> Set<int> {
    Set::new(|c: int| 0 <= c < entry.len() && entry[c] is Some)
}

/// What holds of the state after `k` claims.
pub open spec fn fill_ok(rows: Seq<Seq<usize>>, m: nat, s: Fill, k: nat) -> bool {
    &&& s.next.len() == rows.len()
    &&& s.entry.len() == m
    &&& forall|i: int| 0 <= i < rows.len() ==> 0 <= #[trigger] s.next[i] <= m
    &&& forall|i: int, j: int|
        0 <= i < rows.len() && 0 <= j < s.next[i] ==> (#[trigger] s.entry[rows[i][j] as int]) is Some
    &&& claimed(s.entry).finite()
    &&& claimed(s.entry).len() == k
    &&& forall|c: int|
        0 <= c < m && (#[trigger] s.entry[c]) is Some ==> s.entry[c].unwrap() < rows.len()
}

proof fn lemma_claimed_bounds(entry: Seq<Option<usize>>)
    ensures
        claimed(entry).finite(),
        claimed(entry).len() <= entry.len(),
        claimed(entry).len() == entry.len() ==> forall|c: int|
            0 <= c < entry.len() ==> (#[trigger] entry[c]) is Some,
        claimed(entry).len() < entry.len() ==> exists|c: int|
            0 <= c < entry.len() && (#[trigger] entry[c]) is None,
{
    let range = set_int_range(0, entry.len() as int);
    lemma_int_range(0, entry.len() as int);
    assert(claimed(entry).subset_of(range));
    lemma_len_subset(claimed(entry), range);
    if claimed(entry).len() == entry.len() {
        lemma_subset_equality(claimed(entry), range);
        assert forall|c: int| 0 <= c < entry.len() implies (#[trigger] entry[c]) is Some by {
            assert(range.contains(c));
        }
    }
    if claimed(entry).len() < entry.len() {
        assert_by_contradiction!(exists|c: int| 0 <= c < entry.len() && (#[trigger] entry[c]) is None, {
            assert(claimed(entry) =~= range);
        });
    }
}

/// The scan of node `i` from `start` stops at an unclaimed slot no later
/// than `stop`, passing only claimed ones.
proof fn lemma_first_free(row: Seq<usize>, entry: Seq<Option<usize>>, start: int, stop: int)
    requires
        0 <= start <= stop < row.len(),
        0 <= row[stop] < entry.len(),
        entry[row[stop] as int] is None,
    ensures
        start <= first_free(row, entry, start) <= stop,
        entry[row[first_free(row, entry, start)] as int] is None,
        forall|j: int| start <= j < first_free(row, entry, start) ==> (#[trigger] entry[row[j] as int]) is Some,
    decreases stop - start,
{
    if entry[row[start] as int] is Some {
        lemma_first_free(row, entry, start + 1, stop);
    }
}

/// One claim keeps the filling's invariant and takes one new slot.
pub proof fn lemma_fill_step(rows: Seq<Seq<usize>>, m: nat, k: nat)
    requires
        rows.len() >= 1,
        rows_are_permutations(rows, m),
        k < m,
        fill_ok(rows, m, fill_after(rows, m, k), k),
    ensures
        ({
            let s = fill_after(rows, m, k);
            let i = (k as int) % (rows.len() as int);
            let j = first_free(rows[i], s.entry, s.next[i]);
            &&& s.next[i] <= j < m
            &&& s.entry[rows[i][j] as int] is None
        }),
        fill_ok(rows, m, fill_after(rows, m, k + 1), k + 1),
{
    let s = fill_after(rows, m, k);
    let n = rows.len() as int;
    let i = (k as int) % n;
    vstd::arithmetic::div_mod::lemma_mod_bound(k as int, n);
    let row = rows[i];
    assert(is_slot_permutation(row, m));
    lemma_claimed_bounds(s.entry);
    let c = choose|c: int| 0 <= c < m && s.entry[c] is None;
    assert(slot_reached(row, c));
    let stop = choose|j: int| 0 <= j < row.len() && row[j] as int == c;
    assert(stop >= s.next[i]) by {
        if stop < s.next[i] {
            assert(s.entry[rows[i][stop] as int] is Some);
        }
    }
    lemma_first_free(row, s.entry, s.next[i], stop);
    let j = first_free(row, s.entry, s.next[i]);
    let t = fill_after(rows, m, k + 1);
    assert(t == claim(rows, s, i));
    let slot = row[j] as int;
    assert(claimed(t.entry) =~= claimed(s.entry).insert(slot));
    assert forall|i2: int, j2: int|
        0 <= i2 < rows.len() && 0 <= j2 < t.next[i2] implies (#[trigger] t.entry[rows[i2][j2] as int]) is Some by {
        assert(is_slot_permutation(rows[i2], m));
        if rows[i2][j2] as int != slot {
            if i2 == i && j2 >= s.next[i] {
                assert(s.entry[row[j2] as int] is Some);
            }
        }
    }
}

/// The invariant holds after every number of claims up to `m`.
pub proof fn lemma_fill_ok(rows: Seq<Seq<usize>>, m: nat, k: nat)
    requires
        rows.len() >= 1,
        rows_are_permutations(rows, m),
        k <= m,
    ensures
        fill_ok(rows, m, fill_after(rows, m, k), k),
    decreases k,
{
    if k == 0 {
        let s = fill_after(rows, m, 0);
        assert(claimed(s.entry) =~= Set::empty());
    } else {
        lemma_fill_ok(rows, m, (k - 1) as nat);
        lemma_fill_step(rows, m, (k - 1) as nat);
    }
}

/// Once all `m` slots are claimed, every slot of the table holds the index
/// of a node: no slot is left unassigned.
pub proof fn lemma_table_complete(rows: Seq<Seq<usize>>, m: nat)
    requires
        rows.len() >= 1,
        rows_are_permutations(rows, m),
    ensures
        maglev_table(rows, m).len() == m,
        forall|c: int| 0 <= c < m ==> (#[trigger] maglev_table(rows, m)[c]) < rows.len(),
        forall|c: int|
            0 <= c < m ==> (#[trigger] fill_after(rows, m, m).entry[c]) == Some(
                maglev_table(rows, m)[c],
            ),
{
    let e = fill_after(rows, m, m).entry;
    lemma_fill_ok(rows, m, m);
    lemma_claimed_bounds(e);
    assert forall|c: int| 0 <= c < m implies (#[trigger] maglev_table(rows, m)[c]) < rows.len() by {
        assert(e[c] is Some);
    }
    assert forall|c: int| 0 <= c < m implies (#[trigger] e[c]) == Some(maglev_table(rows, m)[c]) by {
        assert(e[c] is Some);
    }
}

/// The turn after node `i` goes to the next index, wrapping to the first.
proof fn lemma_next_turn(k: int, n: int, i: int)
    requires
        0 <= k,
        0 <= i < n,
        i == k % n,
    ensures
        (k + 1) % n == if i + 1 == n { 0 } else { i + 1 },
{
    lemma_add_mod_noop(k, 1, n);
    if n == 1 {
        lemma_mod_self_0(1);
        lemma_small_mod(0, 1);
    } else {
        lemma_small_mod(1, n as nat);
        if i + 1 == n {
            lemma_mod_self_0(n);
        } else {
            lemma_small_mod((i + 1) as nat, n as nat);
        }
    }
}

/// The views of a list of rows.
pub open spec fn row_views(rows: Seq<Vec<usize>>) -> Seq<Seq<usize>> {
    Seq::new(rows.len(), |i: int| rows[i]@)
}

/// Fills a table of `m` slots from the permutation rows of the nodes, one row
/// per node in index order: the nodes take turns, each claiming the first
/// unclaimed slot along its row, until every slot is claimed.
pub fn populate_table(rows: &Vec<Vec<usize>>, m: usize) -> (table: Vec<usize>)
    requires
        rows@.len() >= 1,
        rows_are_permutations(row_views(rows@), m as nat),
    ensures
        table@ == maglev_table(row_views(rows@), m as nat),
{
    let n = rows.len();
    let ghost rv = row_views(rows@);
    let mut next: Vec<usize> = Vec::new();
    let mut t: usize = 0;
    while t < n
        invariant
            t <= n,
            next@ =~= Seq::new(t as nat, |x: int| 0usize),
        decreases n - t,
    {
        next.push(0);
        t = t + 1;
    }
    let mut entry: Vec<Option<usize>> = Vec::new();
    let mut c: usize = 0;
    while c < m
        invariant
            c <= m,
            entry@ =~= Seq::new(c as nat, |x: int| None::<usize>),
        decreases m - c,
    {
        entry.push(None);
        c = c + 1;
    }
    let mut filled: usize = 0;
    let mut i: usize = 0;
    while filled < m
        invariant
            n == rows@.len(),
            n >= 1,
            rv == row_views(rows@),
            rows_are_permutations(rv, m as nat),
            filled <= m,
            i < n,
            i as int == (filled as int) % (n as int),
            entry@ == fill_after(rv, m as nat, filled as nat).entry,
            next@.len() == n,
            forall|x: int| 0 <= x < n ==> next@[x] as int == #[trigger] fill_after(rv, m as nat, filled as nat).next[x],
        decreases m - filled,
    {
        proof {
            lemma_fill_ok(rv, m as nat, filled as nat);
            lemma_fill_step(rv, m as nat, filled as nat);
        }
        let ghost s = fill_after(rv, m as nat, filled as nat);
        let ghost target = first_free(rv[i as int], s.entry, s.next[i as int]);
        let row = &rows[i];
        assert(is_slot_permutation(row@, m as nat)) by {
            assert(rv[i as int] == row@);
        }
        let mut j: usize = next[i];
        while entry[row[j]].is_some()
            invariant
                row@ == rv[i as int],
                is_slot_permutation(row@, m as nat),
                entry@ == s.entry,
                entry@.len() == m,
                s.next[i as int] <= j <= target < m,
                first_free(row@, entry@, j as int) == target,
                entry@[row@[target] as int] is None,
            decreases target - j,
        {
            j = j + 1;
        }
        proof {
            lemma_next_turn(filled as int, n as int, i as int);
        }
        entry[row[j]] = Some(i);
        next[i] = j + 1;
        filled = filled + 1;
        i = if i + 1 == n {
            0
        } else {
            i + 1
        };
    }
    proof {
        lemma_fill_ok(rv, m as nat, m as nat);
        lemma_table_complete(rv, m as nat);
    }
    let ghost full = maglev_table(rv, m as nat);
    let mut table: Vec<usize> = Vec::new();
    let mut c: usize = 0;
    while c < m
        invariant
            c <= m,
            full.len() == m,
            entry@.len() == m,
            forall|x: int| 0 <= x < m ==> (#[trigger] entry@[x]) == Some(full[x]),
            table@ =~= full.take(c as int),
        decreases m - c,
    {
        table.push(entry[c].unwrap());
        c = c + 1;
    }
    table
}

} // verus!
