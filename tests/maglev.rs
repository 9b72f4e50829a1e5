use maglev::permutation::{check_prime, permutation_row};
use maglev::populate::populate_table;
use maglev::{Maglev, SMALL_M};

fn table_with(nodes: &[i64]) -> Maglev<i64> {
    let mut m: Maglev<i64> = Maglev::new(SMALL_M);
    for n in nodes {
        m.add(*n);
    }
    m
}

fn slot_owners(m: &Maglev<i64>) -> Vec<Option<i64>> {
    (0..SMALL_M as u64).map(|h| m.lookup_hash(h)).collect()
}

#[test]
fn fair_distribution() {
    let size: i64 = 10;

    let mut m: Maglev<i64> = Maglev::new(SMALL_M);
    for i in 0..size {
        m.add(i)
    }

    for j in 0..10000 {
        match m.get(&j) {
            Some(_index) => (),
            None => (),
        }
    }
}

#[test]
fn permutation_row_small_prime() {
    // offset 10 % 7 = 3, skip 4 % 6 + 1 = 5
    assert_eq!(permutation_row(10, 4, 7), vec![3, 1, 6, 4, 2, 0, 5]);
    // skip hash 0 gives skip 1
    assert_eq!(permutation_row(3, 0, 7), vec![3, 4, 5, 6, 0, 1, 2]);
}

#[test]
fn permutation_row_visits_each_slot_once() {
    for (oh, sh) in [(0u64, 0u64), (12345, 67890), (u64::MAX, u64::MAX - 1)] {
        let mut row = permutation_row(oh, sh, SMALL_M);
        assert_eq!(row.len(), SMALL_M);
        row.sort();
        assert!(row.iter().enumerate().all(|(i, c)| i == *c));
    }
}

#[test]
fn populate_table_three_rows() {
    let rows = vec![
        permutation_row(10, 4, 7),
        permutation_row(3, 0, 7),
        permutation_row(20, 9, 7),
    ];
    assert_eq!(populate_table(&rows, 7), vec![2, 0, 0, 0, 1, 1, 2]);
}

#[test]
fn populate_table_single_row_takes_all() {
    let rows = vec![permutation_row(10, 4, 7)];
    assert_eq!(populate_table(&rows, 7), vec![0; 7]);
}

#[test]
fn check_prime_sizes() {
    assert!(check_prime(2));
    assert!(check_prime(7));
    assert!(check_prime(SMALL_M));
    assert!(check_prime(maglev::BIG_M));
    assert!(!check_prime(0));
    assert!(!check_prime(1));
    assert!(!check_prime(4));
    assert!(!check_prime(65536));
}

#[test]
fn try_new_rejects_non_prime_size() {
    assert!(Maglev::<i64>::try_new(65536).is_none());
    assert!(Maglev::<i64>::try_new(1).is_none());
    let t = Maglev::<i64>::try_new(7).unwrap();
    assert_eq!(t.get(&5), None);
}

#[test]
fn empty_table_has_no_node() {
    let m: Maglev<i64> = Maglev::new(SMALL_M);
    assert_eq!(m.get(&1), None);
    assert_eq!(m.lookup_hash(0), None);
}

#[test]
fn removing_last_node_empties_table() {
    let mut m = table_with(&[7]);
    assert_eq!(m.get(&1), Some(7));
    m.remove(&7);
    assert_eq!(m.get(&1), None);
}

#[test]
fn every_slot_holds_a_node() {
    let m = table_with(&[1, 2, 3]);
    for owner in slot_owners(&m) {
        let n = owner.unwrap();
        assert!([1, 2, 3].contains(&n));
    }
}

#[test]
fn lookups_are_deterministic() {
    let a = table_with(&[1, 2, 3, 4]);
    let b = table_with(&[1, 2, 3, 4]);
    for k in 0..10000i64 {
        assert_eq!(a.get(&k), a.get(&k));
        assert_eq!(a.get(&k), b.get(&k));
    }
    assert!(slot_owners(&a) == slot_owners(&b));
}

#[test]
fn load_is_balanced() {
    let m = table_with(&(0..10).collect::<Vec<i64>>());
    let mut counts = vec![0usize; 10];
    for k in 0..10000i64 {
        counts[m.get(&k).unwrap() as usize] += 1;
    }
    for c in counts {
        assert!(c >= 800 && c <= 1200, "count {}", c);
    }
}

#[test]
fn removal_disrupts_few_slots() {
    let mut m = table_with(&(0..10).collect::<Vec<i64>>());
    let before = slot_owners(&m);
    m.remove(&4);
    let after = slot_owners(&m);
    let changed = before.iter().zip(after.iter()).filter(|(b, a)| b != a).count();
    let owned_by_removed = before.iter().filter(|b| **b == Some(4)).count();
    assert!(changed >= owned_by_removed);
    assert!((changed as f64) / (SMALL_M as f64) < 0.2);
}

#[test]
fn adding_twice_is_adding_once() {
    let once = table_with(&[1, 2, 3]);
    let mut twice = table_with(&[1, 2, 3]);
    twice.add(3);
    assert!(slot_owners(&once) == slot_owners(&twice));
}

#[test]
fn removing_absent_node_changes_nothing() {
    let mut m = table_with(&[1, 2, 3]);
    let before = slot_owners(&m);
    m.remove(&99);
    assert!(slot_owners(&m) == before);
}

#[test]
fn three_nodes_then_remove_one() {
    let (a, b, c) = (11i64, 22i64, 33i64);
    let mut m = table_with(&[a, b, c]);
    let mut before = [0usize; 3];
    for k in 0..10000i64 {
        let n = m.get(&k).unwrap();
        let idx = [a, b, c].iter().position(|x| *x == n).unwrap();
        before[idx] += 1;
    }
    for cnt in before {
        assert!(cnt >= 2667 && cnt <= 4000, "count {}", cnt);
    }
    m.remove(&b);
    let mut after = [0usize; 3];
    for k in 0..10000i64 {
        let n = m.get(&k).unwrap();
        assert_ne!(n, b);
        let idx = [a, b, c].iter().position(|x| *x == n).unwrap();
        after[idx] += 1;
    }
    assert_eq!(after[1], 0);
    assert!(after[0] >= before[0]);
    assert!(after[2] >= before[2]);
    assert_eq!(after[0] + after[2], 10000);
}
