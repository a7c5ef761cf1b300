use wynn_browser::sorting;
use wynn_browser::sorting::Descending;
use wynn_browser::sorting::Then;

#[test]
fn orders_numbers_both_ways() {
    let keys: Vec<i64> = vec![3, -1, 2, 3, 0];
    assert_eq!(sorting::order_by(&keys), vec![1, 4, 2, 0, 3]);
    let keys: Vec<Descending<i64>> = vec![3, -1, 2, 3, 0].into_iter().map(Descending).collect();
    assert_eq!(sorting::order_by(&keys), vec![0, 3, 2, 4, 1]);
}

#[test]
fn equal_keys_keep_their_order() {
    let keys: Vec<i64> = vec![1; 6];
    assert_eq!(sorting::order_by(&keys), vec![0, 1, 2, 3, 4, 5]);
    let none: Vec<i64> = vec![];
    assert_eq!(sorting::order_by(&none), Vec::<usize>::new());
}

#[test]
fn the_second_key_decides_between_equal_first_keys() {
    let keys: Vec<Then<String, Descending<i64>>> = vec![
        Then("b".to_string(), Descending(1)),
        Then("a".to_string(), Descending(1)),
        Then("b".to_string(), Descending(9)),
        Then("a".to_string(), Descending(5)),
    ];
    assert_eq!(sorting::order_by(&keys), vec![3, 1, 2, 0]);
}

#[test]
fn agrees_with_a_stable_sort() {
    let keys: Vec<i64> = (0..60).map(|i: i64| (i * 7919) % 11).collect();
    let mut expected: Vec<usize> = (0..keys.len()).collect();
    expected.sort_by_key(|&i| keys[i]);
    assert_eq!(sorting::order_by(&keys), expected);
}
