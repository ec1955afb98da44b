use solarsim::alternatives::{one, Advance, Alternatives};

fn series(start: usize, increment: usize, cnt: usize) -> Alternatives<usize> {
    Alternatives::Parametric { start, increment, cnt }
}

#[test]
fn one_is_one() {
    assert_eq!(one(), 1);
}

#[test]
fn advance_adds_where_the_sum_fits() {
    assert_eq!(5usize.advance(&3), Some(8));
    assert_eq!(usize::MAX.advance(&0), Some(usize::MAX));
    assert_eq!(usize::MAX.advance(&1), None);
}

#[test]
fn series_counts_up_from_its_start() {
    assert_eq!(series(1, 2, 3).expand(), Some(vec![1, 3, 5]));
    assert_eq!(series(7, 0, 4).expand(), Some(vec![7, 7, 7, 7]));
    assert_eq!(series(7, 5, one()).expand(), Some(vec![7]));
    assert_eq!(series(7, 5, 0).expand(), Some(Vec::new()));
}

#[test]
fn series_ends_where_its_values_no_longer_fit() {
    assert_eq!(series(usize::MAX - 4, 2, 3).expand(), Some(vec![usize::MAX - 4, usize::MAX - 2, usize::MAX]));
    assert_eq!(series(usize::MAX - 4, 2, 4).expand(), None);
    assert_eq!(series(usize::MAX, 1, 1).expand(), Some(vec![usize::MAX]));
    assert_eq!(series(usize::MAX, 1, 2).expand(), None);
}

#[test]
fn choice_lists_its_alternatives_in_order() {
    let any = Alternatives::Any(vec![
        series(10, 1, 2),
        Alternatives::Any(vec![series(1, 1, 1), Alternatives::Any(Vec::new()), series(5, 5, 3)]),
        series(0, 0, 0),
        series(3, 0, 1),
    ]);
    assert_eq!(any.expand(), Some(vec![10, 11, 1, 5, 10, 15, 3]));
    assert_eq!(Alternatives::<usize>::Any(Vec::new()).expand(), Some(Vec::new()));
}

#[test]
fn choice_fails_where_one_alternative_fails() {
    let any = Alternatives::Any(vec![
        series(10, 1, 2),
        Alternatives::Any(vec![series(usize::MAX, 1, 2)]),
        series(3, 0, 1),
    ]);
    assert_eq!(any.expand(), None);
}
