use algs::algorithms::sorting::{
    bottom_up_merge_sort, bottom_up_merge_sort_by, insertion_sort, insertion_sort_by, merge_sort,
    merge_sort_by, quick_sort, quick_sort_by, selection_sort, selection_sort_by, shell_sort,
    shell_sort_by, shuffle_vec,
};

fn is_sorted<T>(v: &Vec<T>) -> bool
where
    T: Ord,
{
    let len = v.len();

    for (i, n) in v.iter().enumerate() {
        if i < len - 1 && n > &v[i + 1] {
            return false;
        }
    }

    true
}

fn gen_rand_vec(n: usize) -> Vec<usize> {
    let mut v = (0..n).collect();

    shuffle_vec(&mut v);

    v
}

#[test]
fn selection_sort_by_should_sort_the_vector() {
    let mut v = vec![12, 0, 3, 12, 23, 1, 9, 9, 10, 45, 6, 12, 100, 45, 3, 1, 2];

    selection_sort_by(&mut v, |n, m| n.cmp(m));

    assert!(is_sorted(&v));
}

#[test]
fn insertion_sort_by_should_sort_the_vector() {
    let mut v = vec![12, 0, 3, 12, 23, 1, 9, 9, 10, 45, 6, 12, 100, 45, 3, 1, 2];

    insertion_sort_by(&mut v, |n, m| n.cmp(m));

    assert!(is_sorted(&v));
}

#[test]
fn shell_sort_by_should_sort_the_vector() {
    let mut v = gen_rand_vec(1000);

    shell_sort_by(&mut v, |n, m| n.cmp(m));

    assert!(is_sorted(&v));
}

#[test]
fn merge_sort_by_should_sort_the_vector() {
    let mut v = gen_rand_vec(2701);

    merge_sort_by(&mut v, |n, m| n.cmp(m));

    assert!(is_sorted(&v));
}

#[test]
fn bottom_up_merge_sort_by_should_sort_the_vector() {
    let mut v = gen_rand_vec(2877);

    bottom_up_merge_sort_by(&mut v, |n, m| n.cmp(m));

    assert!(is_sorted(&v));
}

#[test]
fn quick_sort_by_should_sort_the_vector() {
    let mut v = gen_rand_vec(2877);

    quick_sort_by(&mut v, |n, m| n.cmp(m));

    assert!(is_sorted(&v));
}

#[test]
fn every_sort_gives_the_same_items_in_rising_order() {
    let given = vec![12, 0, 3, 12, 23, 1, 9, 9, 10, 45, 6, 12, 100, 45, 3, 1, 2];
    let expected = vec![0, 1, 1, 2, 3, 3, 6, 9, 9, 10, 12, 12, 12, 23, 45, 45, 100];

    let mut v = given.clone();
    selection_sort(&mut v);
    assert_eq!(v, expected);

    let mut v = given.clone();
    insertion_sort(&mut v);
    assert_eq!(v, expected);

    let mut v = given.clone();
    shell_sort(&mut v);
    assert_eq!(v, expected);

    let mut v = given.clone();
    merge_sort(&mut v);
    assert_eq!(v, expected);

    let mut v = given.clone();
    bottom_up_merge_sort(&mut v);
    assert_eq!(v, expected);

    let mut v = given.clone();
    quick_sort(&mut v);
    assert_eq!(v, expected);
}

#[test]
fn sorts_by_a_comparison_other_than_the_natural_one() {
    let given: Vec<i32> = (0..100).map(|x| (x * 37) % 101).collect();
    let mut expected = given.clone();
    expected.sort_by(|a, b| b.cmp(a));

    let mut v = given.clone();
    selection_sort_by(&mut v, |a, b| b.cmp(a));
    assert_eq!(v, expected);

    let mut v = given.clone();
    insertion_sort_by(&mut v, |a, b| b.cmp(a));
    assert_eq!(v, expected);

    let mut v = given.clone();
    shell_sort_by(&mut v, |a, b| b.cmp(a));
    assert_eq!(v, expected);

    let mut v = given.clone();
    merge_sort_by(&mut v, |a, b| b.cmp(a));
    assert_eq!(v, expected);

    let mut v = given.clone();
    bottom_up_merge_sort_by(&mut v, |a, b| b.cmp(a));
    assert_eq!(v, expected);

    let mut v = given.clone();
    quick_sort_by(&mut v, |a, b| b.cmp(a));
    assert_eq!(v, expected);
}

#[test]
fn merging_keeps_items_of_equal_rank_in_their_order() {
    let given: Vec<(u8, u8)> = (0..60).map(|x| ((x * 7) % 5, x)).collect();
    let mut expected = given.clone();
    expected.sort_by(|a, b| a.0.cmp(&b.0));

    let mut v = given.clone();
    bottom_up_merge_sort_by(&mut v, |a, b| a.0.cmp(&b.0));
    assert_eq!(v, expected);

    let mut v = given.clone();
    merge_sort_by(&mut v, |a, b| a.0.cmp(&b.0));
    assert_eq!(v, expected);
}

#[test]
fn sorts_of_short_vectors() {
    let mut v: Vec<u32> = vec![];
    selection_sort(&mut v);
    assert!(v.is_empty());
    shell_sort(&mut v);
    assert!(v.is_empty());
    bottom_up_merge_sort(&mut v);
    assert!(v.is_empty());

    let mut v = vec![7];
    insertion_sort(&mut v);
    merge_sort(&mut v);
    quick_sort(&mut v);
    selection_sort(&mut v);
    shell_sort(&mut v);
    bottom_up_merge_sort(&mut v);
    assert_eq!(v, vec![7]);

    let mut v = vec![2, 1];
    bottom_up_merge_sort(&mut v);
    assert_eq!(v, vec![1, 2]);
}

#[test]
fn shuffle_vec_keeps_the_items() {
    let mut v: Vec<usize> = (0..500).collect();

    shuffle_vec(&mut v);

    assert!(v.len() == 500);
    let moved = v.iter().enumerate().filter(|(i, x)| i != *x).count();
    assert!(moved > 0);
    v.sort();
    assert_eq!(v, (0..500).collect::<Vec<usize>>());
}

#[test]
fn insertion_sort_keeps_items_of_equal_rank_in_their_order() {
    let given: Vec<(u8, u8)> = (0..60).map(|x| ((x * 7) % 5, x)).collect();
    let mut expected = given.clone();
    expected.sort_by(|a, b| a.0.cmp(&b.0));

    let mut v = given.clone();
    insertion_sort_by(&mut v, |a, b| a.0.cmp(&b.0));

    assert_eq!(v, expected);
    for k in 0..v.len() - 1 {
        assert!(v[k].0 < v[k + 1].0 || (v[k].0 == v[k + 1].0 && v[k].1 < v[k + 1].1));
    }
}
