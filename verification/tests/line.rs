use leptos_chartistry::line::{path_steps, PathStep};

fn points(values: &[(f64, f64)]) -> Vec<(u64, u64)> {
    values.iter().map(|(x, y)| (x.to_bits(), y.to_bits())).collect()
}

#[test]
fn path_breaks_at_nan() {
    let p = points(&[
        (0.0, 1.0),
        (1.0, 2.0),
        (2.0, f64::NAN),
        (3.0, 4.0),
        (f64::NAN, 5.0),
        (f64::NAN, f64::NAN),
        (6.0, 7.0),
        (7.0, 8.0),
    ]);
    assert_eq!(
        path_steps(&p),
        vec![
            PathStep::MoveTo,
            PathStep::LineTo,
            PathStep::Gap,
            PathStep::MoveTo,
            PathStep::Gap,
            PathStep::Gap,
            PathStep::MoveTo,
            PathStep::LineTo,
        ]
    );
}

#[test]
fn path_of_nothing() {
    assert_eq!(path_steps(&Vec::new()), Vec::new());
}

#[test]
fn path_starting_with_a_gap() {
    let p = points(&[(f64::NAN, 0.0), (1.0, 1.0), (2.0, 2.0)]);
    assert_eq!(path_steps(&p), vec![PathStep::Gap, PathStep::MoveTo, PathStep::LineTo]);
}
