use leptos_chartistry::tooltip::{
    skip_missing, sort_by_ascending, sort_by_descending, sort_by_f64_ascending,
    sort_by_f64_descending, x_heading, y_cell,
};
use std::cmp::Reverse;

fn keys(values: &[Option<f64>]) -> Vec<Option<u64>> {
    values.iter().map(|v| v.map(f64::to_bits)).collect()
}

#[test]
fn skip_missing_keeps_rows_with_values_in_order() {
    let rows = vec![("a", Some(1)), ("b", None), ("c", Some(3)), ("d", None)];
    assert_eq!(skip_missing(rows.clone(), true), vec![("a", Some(1)), ("c", Some(3))]);
    assert_eq!(skip_missing(rows.clone(), false), rows);
    let none: Vec<(&str, Option<i32>)> = vec![("x", None)];
    assert_eq!(skip_missing(none, true), Vec::new());
}

#[test]
fn ascending_sort_puts_missing_first_and_is_stable() {
    let k = keys(&[Some(3.0), None, Some(1.0), Some(3.0), None, Some(-2.0)]);
    assert_eq!(sort_by_f64_ascending(&k), vec![1, 4, 5, 2, 0, 3]);
}

#[test]
fn descending_sort_still_puts_missing_first() {
    let k = keys(&[Some(3.0), None, Some(1.0), Some(3.0), None, Some(-2.0)]);
    assert_eq!(sort_by_f64_descending(&k), vec![1, 4, 0, 3, 2, 5]);
}

#[test]
fn f64_sorts_follow_total_cmp() {
    let values = [Some(0.0), Some(-0.0), Some(f64::NAN), Some(f64::NEG_INFINITY), Some(-f64::NAN)];
    let k = keys(&values);
    assert_eq!(sort_by_f64_ascending(&k), vec![4, 3, 1, 0, 2]);
    assert_eq!(sort_by_f64_descending(&k), vec![2, 0, 1, 3, 4]);
    // The same order as std's stable sort by Option<total order>.
    let mut expected: Vec<usize> = (0..values.len()).collect();
    expected.sort_by(|&a, &b| match (values[a], values[b]) {
        (None, None) => std::cmp::Ordering::Equal,
        (None, Some(_)) => std::cmp::Ordering::Less,
        (Some(_), None) => std::cmp::Ordering::Greater,
        (Some(x), Some(y)) => x.total_cmp(&y),
    });
    assert_eq!(sort_by_f64_ascending(&k), expected);
}

#[test]
fn cells_fall_back_to_placeholders() {
    assert_eq!(x_heading(None), "no data");
    assert_eq!(x_heading(Some("12:00".to_string())), "12:00");
    assert_eq!(y_cell(None), "-");
    assert_eq!(y_cell(Some("3.5".to_string())), "3.5");
}

#[test]
fn ord_sorts_match_std_stable_sorts() {
    let values = vec![Some(3), None, Some(1), Some(3), None, Some(-2), Some(1)];
    assert_eq!(sort_by_ascending(&values), vec![1, 4, 5, 2, 6, 0, 3]);
    assert_eq!(sort_by_descending(&values), vec![0, 3, 2, 6, 5, 1, 4]);

    let mut ascending: Vec<usize> = (0..values.len()).collect();
    ascending.sort_by_key(|&i| values[i]);
    assert_eq!(sort_by_ascending(&values), ascending);
    let mut descending: Vec<usize> = (0..values.len()).collect();
    descending.sort_by_key(|&i| Reverse(values[i]));
    assert_eq!(sort_by_descending(&values), descending);
}

#[test]
fn ord_sorts_of_nothing() {
    let none: Vec<Option<u8>> = Vec::new();
    assert_eq!(sort_by_ascending(&none), Vec::<usize>::new());
}
