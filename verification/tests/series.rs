use leptos_chartistry::series::{
    find_min_max_index, map_min_max_range, reverse_get_y, Data, NearestX,
};

fn bits(values: &[f64]) -> Vec<u64> {
    values.iter().map(|v| v.to_bits()).collect()
}

fn sample() -> Data<&'static str, i32> {
    // Two series over three data points at x positions 1, 2 and 4.
    Data::from_series(
        vec!["a", "b", "c"],
        bits(&[1.0, 2.0, 4.0]),
        vec![vec![10, 20, 30], vec![40, 50, 60]],
        vec![bits(&[10.0, 20.0, 30.0]), bits(&[40.0, 50.0, 60.0])],
    )
}

#[test]
fn min_max_skips_nan_and_keeps_first() {
    let p = bits(&[f64::NAN, 3.0, 1.0, 1.0, 5.0, 5.0, f64::NAN]);
    assert_eq!(find_min_max_index(&p), Some((2, 4)));
}

#[test]
fn min_max_of_nothing() {
    assert_eq!(find_min_max_index(&Vec::new()), None);
    assert_eq!(find_min_max_index(&bits(&[f64::NAN, f64::NAN])), None);
}

#[test]
fn min_max_of_one_value() {
    assert_eq!(find_min_max_index(&bits(&[f64::NAN, 7.0])), Some((1, 1)));
}

#[test]
fn min_max_treats_zeros_as_equal() {
    assert_eq!(find_min_max_index(&bits(&[0.0, -0.0])), Some((0, 0)));
    assert_eq!(find_min_max_index(&bits(&[-0.0, 0.0])), Some((0, 0)));
}

#[test]
fn min_max_with_infinities() {
    let p = bits(&[0.0, f64::INFINITY, f64::NEG_INFINITY, 2.0]);
    assert_eq!(find_min_max_index(&p), Some((2, 1)));
}

#[test]
fn reverse_get_y_splits_flat_index() {
    assert_eq!(reverse_get_y(0, 3), (0, 0));
    assert_eq!(reverse_get_y(7, 3), (2, 1));
    assert_eq!(reverse_get_y(5, 5), (1, 0));
    for line in 0..4 {
        for point in 0..3 {
            assert_eq!(reverse_get_y(line * 3 + point, 3), (line, point));
        }
    }
}

#[test]
fn data_counts_and_extents() {
    let data = sample();
    assert_eq!(data.points(), 3);
    assert_eq!(data.lines(), 2);
    assert_eq!(data.x_extent(), Some((0, 2)));
    assert_eq!(data.y_extent(), Some((0, 5)));
    assert_eq!(*data.x_point(1), "b");
    assert_eq!(*data.y_point(4), 50);
    assert_eq!(data.x_positions(), &bits(&[1.0, 2.0, 4.0]));
}

#[test]
fn nearest_x_index_brackets() {
    let data = sample();
    assert_eq!(data.nearest_x_index(0.0f64.to_bits()), NearestX::At(0));
    assert_eq!(data.nearest_x_index(1.0f64.to_bits()), NearestX::At(0));
    assert_eq!(data.nearest_x_index(1.2f64.to_bits()), NearestX::Between(1));
    assert_eq!(data.nearest_x_index(2.0f64.to_bits()), NearestX::Between(1));
    assert_eq!(data.nearest_x_index(3.0f64.to_bits()), NearestX::Between(2));
    assert_eq!(data.nearest_x_index(4.0f64.to_bits()), NearestX::Between(2));
    assert_eq!(data.nearest_x_index(9.0f64.to_bits()), NearestX::At(2));
    assert_eq!(data.nearest_x_index(f64::NAN.to_bits()), NearestX::At(0));
}

#[test]
fn nearest_x_index_of_no_data() {
    let data: Data<f64, f64> = Data::from_series(
        Vec::new(),
        Vec::new(),
        vec![Vec::new(), Vec::new(), Vec::new()],
        vec![Vec::new(), Vec::new(), Vec::new()],
    );
    assert_eq!(data.lines(), 3);
    assert_eq!(data.nearest_x_index(1.0f64.to_bits()), NearestX::Empty);
    assert_eq!(NearestX::Empty.resolve(true), None);
    assert_eq!(data.series_positions(5), Vec::new());
}

#[test]
fn nearest_resolves_to_the_closer_neighbour() {
    assert_eq!(NearestX::At(4).resolve(true), Some(4));
    assert_eq!(NearestX::At(4).resolve(false), Some(4));
    assert_eq!(NearestX::Between(2).resolve(true), Some(2));
    assert_eq!(NearestX::Between(2).resolve(false), Some(1));
}

#[test]
fn nearest_y_reads_the_series_value() {
    let data = sample();
    assert_eq!(*data.nearest_y(0, 0), 10);
    assert_eq!(*data.nearest_y(2, 0), 30);
    assert_eq!(*data.nearest_y(0, 1), 40);
    assert_eq!(*data.nearest_y(2, 1), 60);
}

#[test]
fn series_positions_pair_x_with_the_series_y() {
    let data = sample();
    let second: Vec<(f64, f64)> = data
        .series_positions(1)
        .iter()
        .map(|(x, y)| (f64::from_bits(*x), f64::from_bits(*y)))
        .collect();
    assert_eq!(second, vec![(1.0, 40.0), (2.0, 50.0), (4.0, 60.0)]);
    assert_eq!(data.series_positions(0).len(), 3);
}

#[test]
fn range_bounds_only_widen() {
    assert_eq!(map_min_max_range(Some(0), None, (3, 5)), (0, 5));
    assert_eq!(map_min_max_range(Some(4), Some(9), (3, 5)), (3, 9));
    assert_eq!(map_min_max_range(Some(1), Some(2), (3, 5)), (1, 5));
    assert_eq!(map_min_max_range(None, None, (3, 5)), (3, 5));
    assert_eq!(map_min_max_range(Some(3), Some(5), (3, 5)), (3, 5));
    let (lo, hi) = map_min_max_range(Some(f64::NAN), Some(f64::NAN), (1.0, 2.0));
    assert_eq!((lo, hi), (1.0, 2.0));
    assert_eq!(map_min_max_range(Some(-1.0), Some(7.5), (1.0, 2.0)), (-1.0, 7.5));
}

#[test]
fn from_series_lays_out_series_after_series() {
    let data = sample();
    for line in 0..2 {
        for point in 0..3 {
            let index = line * 3 + point;
            assert_eq!(*data.y_point(index), [[10, 20, 30], [40, 50, 60]][line][point]);
            assert_eq!(reverse_get_y(index, data.points()), (line, point));
            assert_eq!(data.nearest_y(point, line), data.y_point(index));
        }
    }
    assert_eq!(data.y_positions(), &bits(&[10.0, 20.0, 30.0, 40.0, 50.0, 60.0]));
}

#[test]
fn widening_twice_changes_nothing() {
    for (lower, upper) in [(Some(0), Some(9)), (Some(4), Some(4)), (None, Some(2)), (Some(-1), None)] {
        let once = map_min_max_range(lower, upper, (3, 5));
        assert_eq!(map_min_max_range(lower, upper, once), once);
        assert!(once.0 <= 3 && once.1 >= 5);
    }
}
