//! Per-node permutation rows over the slots of a prime-sized table.
use vstd::arithmetic::div_mod::*;
use vstd::prelude::*;
use vstd::relations::injective_on;
use vstd::set_lib::*;

verus! {

/// `m` is a prime number.
pub open spec fn is_prime(m: int) -> bool {
    &&& m >= 2
    &&& forall|d: int| 1 < d < m ==> #[trigger] (m % d) != 0
}

/// The slot that a row with the given offset and skip visits at position `j`.
pub open spec fn slot_at(offset: int, skip: int, m: int, j: int) -> int {
    (offset + j * skip) % m
}

/// The offset of a row, reduced from a keyed hash.
pub open spec fn offset_for(h: u64, m: nat) -> int {
    h as int % m as int
}

/// The skip of a row, reduced from a keyed hash into `[1, m - 1]`.
pub open spec fn skip_for(h: u64, m: nat) -> int {
    h as int % (m - 1) + 1
}

/// The permutation row of a node whose two keyed hashes are `offset_hash`
/// and `skip_hash`.
pub open spec fn permutation(offset_hash: u64, skip_hash: u64, m: nat) -> Seq<usize> {
    Seq::new(
        m,
        |j: int| slot_at(offset_for(offset_hash, m), skip_for(skip_hash, m), m as int, j) as usize,
    )
}

/// Slot `c` appears somewhere in `row`.
pub open spec fn slot_reached(row: Seq<usize>, c: int) -> bool {
    exists|j: int| 0 <= j < row.len() && row[j] as int == c
}

/// `row` lists every slot of `[0, m)` exactly once.
pub open spec fn is_slot_permutation(row: Seq<usize>, m: nat) -> bool {
    &&& row.len() == m
    &&& forall|j: int| 0 <= j < m ==> #[trigger] row[j] < m
    &&& forall|j1: int, j2: int|
        0 <= j1 < m && 0 <= j2 < m && j1 != j2 ==> #[trigger] row[j1] != #[trigger] row[j2]
    &&& forall|c: int| 0 <= c < m ==> #[trigger] slot_reached(row, c)
}

/// Euclid's lemma: a prime that divides `a * b`, with `b` not a multiple of
/// it, divides `a`.
pub proof fn lemma_prime_divides_factor(p: int, a: int, b: int)
    requires
        is_prime(p),
        0 < b < p,
        (a * b) % p == 0,
    ensures
        a % p == 0,
    decreases b,
{
    if b == 1 {
        assert(a * b == a);
    } else {
        let q = p / b;
        let r = p % b;
        assert(p % b != 0);
        lemma_fundamental_div_mod(p, b);
        lemma_mod_bound(p, b);
        let k = (a * b) / p;
        lemma_fundamental_div_mod(a * b, p);
        assert(a * r == (a - q * k) * p) by (nonlinear_arith)
            requires
                p == b * q + r,
                a * b == p * k + 0,
        ;
        lemma_mod_multiples_basic(a - q * k, p);
        lemma_prime_divides_factor(p, a, r);
    }
}

/// Two distinct positions of a row over a prime modulus visit distinct slots.
pub proof fn lemma_slots_distinct(offset: int, skip: int, m: int, j1: int, j2: int)
    requires
        is_prime(m),
        0 < skip < m,
        0 <= j2 < j1 < m,
    ensures
        slot_at(offset, skip, m, j1) != slot_at(offset, skip, m, j2),
{
    if slot_at(offset, skip, m, j1) == slot_at(offset, skip, m, j2) {
        lemma_mod_equivalence(offset + j1 * skip, offset + j2 * skip, m);
        assert((offset + j1 * skip) - (offset + j2 * skip) == (j1 - j2) * skip) by (nonlinear_arith);
        lemma_prime_divides_factor(m, j1 - j2, skip);
        lemma_small_mod((j1 - j2) as nat, m as nat);
    }
}

/// Over a prime modulus, every slot is visited by some position of a row.
pub proof fn lemma_slots_cover(offset: int, skip: int, m: int, c: int)
    requires
        is_prime(m),
        0 < skip < m,
        0 <= c < m,
    ensures
        exists|j: int| 0 <= j < m && slot_at(offset, skip, m, j) == c,
{
    let dom = set_int_range(0, m);
    let f = |j: int| slot_at(offset, skip, m, j);
    lemma_int_range(0, m);
    assert(injective_on(f, dom)) by {
        assert forall|j1: int, j2: int|
            dom.contains(j1) && dom.contains(j2) && #[trigger] f(j1) == #[trigger] f(j2) implies j1
            == j2 by {
            if j1 < j2 {
                lemma_slots_distinct(offset, skip, m, j2, j1);
            } else if j2 < j1 {
                lemma_slots_distinct(offset, skip, m, j1, j2);
            }
        }
    }
    lemma_map_size(dom, dom.map(f), f);
    assert(dom.map(f).subset_of(dom)) by {
        assert forall|x: int| dom.map(f).contains(x) implies dom.contains(x) by {
            let j = choose|j: int| dom.contains(j) && f(j) == x;
            lemma_mod_bound(offset + j * skip, m);
        }
    }
    lemma_subset_equality(dom.map(f), dom);
    assert(dom.map(f).contains(c));
}

/// Every permutation row over a prime table size visits each slot of
/// `[0, m)` exactly once.
pub proof fn lemma_permutation_is_bijection(offset_hash: u64, skip_hash: u64, m: nat)
    requires
        is_prime(m as int),
        m <= usize::MAX,
    ensures
        is_slot_permutation(permutation(offset_hash, skip_hash, m), m),
{
    let row = permutation(offset_hash, skip_hash, m);
    let o = offset_for(offset_hash, m);
    let s = skip_for(skip_hash, m);
    lemma_mod_bound(skip_hash as int, m - 1);
    assert forall|j: int| 0 <= j < m implies #[trigger] row[j] < m by {
        lemma_mod_bound(o + j * s, m as int);
    }
    assert forall|j1: int, j2: int|
        0 <= j1 < m && 0 <= j2 < m && j1 != j2 implies #[trigger] row[j1] != #[trigger] row[j2] by {
        lemma_mod_bound(o + j1 * s, m as int);
        lemma_mod_bound(o + j2 * s, m as int);
        if j1 < j2 {
            lemma_slots_distinct(o, s, m as int, j2, j1);
        } else {
            lemma_slots_distinct(o, s, m as int, j1, j2);
        }
    }
    assert forall|c: int| 0 <= c < m implies #[trigger] slot_reached(row, c) by {
        lemma_slots_cover(o, s, m as int, c);
        let j = choose|j: int| 0 <= j < m && slot_at(o, s, m as int, j) == c;
        lemma_mod_bound(o + j * s, m as int);
        assert(row[j] as int == c);
    }
}

/// Whether `m` is a prime number, by trial division.
pub fn check_prime(m: usize) -> (r: bool)
    ensures
        r == is_prime(m as int),
{
    if m < 2 {
        return false;
    }
    let mut d: usize = 2;
    while d < m
        invariant
            2 <= d <= m,
            forall|x: int| 1 < x < d ==> #[trigger] ((m as int) % x) != 0,
        decreases m - d,
    {
        if m % d == 0 {
            return false;
        }
        d = d + 1;
    }
    true
}

/// Builds the permutation row of a node from its two keyed hashes: position
/// `j` holds `(offset + j * skip) % m`, where `offset` is `offset_hash % m`
/// and `skip` is `skip_hash % (m - 1) + 1`.
pub fn permutation_row(offset_hash: u64, skip_hash: u64, m: usize) -> (row: Vec<usize>)
    requires
        is_prime(m as int),
    ensures
        row@ == permutation(offset_hash, skip_hash, m as nat),
        is_slot_permutation(row@, m as nat),
{
    let offset: usize = (offset_hash % (m as u64)) as usize;
    let skip: usize = (skip_hash % ((m - 1) as u64)) as usize + 1;
    proof {
        lemma_mod_bound(offset_hash as int, m as int);
        lemma_mod_bound(skip_hash as int, m - 1);
        lemma_permutation_is_bijection(offset_hash, skip_hash, m as nat);
    }
    let ghost o = offset as int;
    let ghost sk = skip as int;
    proof {
        assert(o + 0 * sk == o);
        lemma_small_mod(o as nat, m as nat);
    }
    let mut row: Vec<usize> = Vec::new();
    let mut cur: usize = offset;
    let mut j: usize = 0;
    while j < m
        invariant
            is_prime(m as int),
            o == offset_for(offset_hash, m as nat),
            sk == skip_for(skip_hash, m as nat),
            0 < sk < m,
            0 <= o < m,
            skip as int == sk,
            j <= m,
            cur < m,
            cur as int == slot_at(o, sk, m as int, j as int),
            row@ == permutation(offset_hash, skip_hash, m as nat).take(j as int),
        decreases m - j,
    {
        row.push(cur);
        proof {
            lemma_add_mod_noop(o + j * sk, sk, m as int);
            lemma_small_mod(sk as nat, m as nat);
            assert(o + j * sk + sk == o + (j + 1) * sk) by (nonlinear_arith);
            if cur + sk < m {
                lemma_small_mod((cur + sk) as nat, m as nat);
            } else {
                lemma_mod_sub_multiples_vanish((cur + sk) as int, m as int);
                lemma_small_mod((cur + sk - m) as nat, m as nat);
            }
            assert(slot_at(o, sk, m as int, j + 1) == (cur + sk) % (m as int));
            assert(row@ =~= permutation(offset_hash, skip_hash, m as nat).take(j + 1));
        }
        if cur >= m - skip {
            cur = cur - (m - skip);
        } else {
            cur = cur + skip;
        }
        j = j + 1;
    }
    proof {
        assert(row@ =~= permutation(offset_hash, skip_hash, m as nat));
    }
    row
}

} // verus!
