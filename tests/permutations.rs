use hypersphere::even_permutations;

fn inversions(s: &[u64]) -> usize {
    let mut count = 0;
    for a in 0..s.len() {
        for b in a + 1..s.len() {
            if s[a] > s[b] {
                count += 1;
            }
        }
    }
    count
}

#[test]
fn three_distinct_values_give_the_cyclic_shifts() {
    let mut values = vec![3, 1, 2];
    let perms = even_permutations(&mut values);
    assert_eq!(perms, vec![vec![1, 2, 3], vec![2, 3, 1], vec![3, 1, 2]]);
    assert_eq!(values, vec![3, 2, 1]);
}

#[test]
fn four_distinct_values_give_twelve_even_permutations() {
    let mut values = vec![4, 3, 2, 1];
    let perms = even_permutations(&mut values);
    let expected: Vec<Vec<u64>> = vec![
        vec![1, 2, 3, 4],
        vec![1, 3, 4, 2],
        vec![1, 4, 2, 3],
        vec![2, 1, 4, 3],
        vec![2, 3, 1, 4],
        vec![2, 4, 3, 1],
        vec![3, 1, 2, 4],
        vec![3, 2, 4, 1],
        vec![3, 4, 1, 2],
        vec![4, 1, 3, 2],
        vec![4, 2, 1, 3],
        vec![4, 3, 2, 1],
    ];
    assert_eq!(perms, expected);
    assert_eq!(values, vec![4, 3, 2, 1]);
}

#[test]
fn every_reported_arrangement_is_even_and_in_lexicographic_order() {
    let mut values = vec![9, 0, 5, 2, 7];
    let perms = even_permutations(&mut values);
    assert_eq!(perms.len(), 60);
    for p in &perms {
        assert_eq!(inversions(p) % 2, 0);
        let mut sorted = p.clone();
        sorted.sort();
        assert_eq!(sorted, vec![0, 2, 5, 7, 9]);
    }
    for k in 1..perms.len() {
        assert!(perms[k - 1] < perms[k]);
    }
    assert_eq!(values, vec![9, 7, 5, 2, 0]);
}

#[test]
fn golden_ratio_levels_of_the_600_cell() {
    let mut values = vec![3, 2, 1, 0];
    let perms = even_permutations(&mut values);
    assert_eq!(perms.len(), 12);
    assert_eq!(perms[0], vec![0, 1, 2, 3]);
    assert_eq!(perms[1], vec![0, 2, 3, 1]);
    assert_eq!(perms[11], vec![3, 2, 1, 0]);
}

#[test]
fn single_value_is_reported_once() {
    let mut values = vec![5];
    assert_eq!(even_permutations(&mut values), vec![vec![5]]);
    assert_eq!(values, vec![5]);
}

#[test]
fn two_equal_values_are_reported_once() {
    let mut values = vec![7, 7];
    assert_eq!(even_permutations(&mut values), vec![vec![7, 7]]);
}

#[test]
fn four_equal_values_are_reported_once() {
    let mut values = vec![2, 2, 2, 2];
    assert_eq!(even_permutations(&mut values), vec![vec![2, 2, 2, 2]]);
    assert_eq!(values, vec![2, 2, 2, 2]);
}

#[test]
fn two_values_give_only_the_sorted_order() {
    let mut values = vec![2, 1];
    assert_eq!(even_permutations(&mut values), vec![vec![1, 2]]);
    assert_eq!(values, vec![2, 1]);
}

#[test]
fn repeated_values_follow_the_parity_of_each_step() {
    let mut values = vec![1, 1, 2];
    assert_eq!(even_permutations(&mut values), vec![vec![1, 1, 2]]);
    assert_eq!(values, vec![2, 1, 1]);

    let mut values = vec![3, 2, 2, 1];
    let expected: Vec<Vec<u64>> = vec![
        vec![1, 2, 2, 3],
        vec![2, 1, 3, 2],
        vec![2, 2, 1, 3],
        vec![2, 3, 2, 1],
        vec![3, 1, 2, 2],
        vec![3, 2, 1, 2],
    ];
    assert_eq!(even_permutations(&mut values), expected);
    assert_eq!(values, vec![3, 2, 2, 1]);
}

#[test]
fn six_distinct_values_give_half_of_all_orders() {
    let mut values = vec![6, 5, 4, 3, 2, 1];
    let perms = even_permutations(&mut values);
    assert_eq!(perms.len(), 360);
    for p in &perms {
        assert_eq!(inversions(p) % 2, 0);
    }
    for k in 1..perms.len() {
        assert!(perms[k - 1] < perms[k]);
    }
}

#[test]
fn largest_values_are_handled() {
    let mut values = vec![u64::MAX, 0, u64::MAX - 1];
    let perms = even_permutations(&mut values);
    assert_eq!(
        perms,
        vec![
            vec![0, u64::MAX - 1, u64::MAX],
            vec![u64::MAX - 1, u64::MAX, 0],
            vec![u64::MAX, 0, u64::MAX - 1],
        ]
    );
}
