use solarsim::range::{BasicRange, DayHours, Range, ValidationError, DAY, HOUR};

#[test]
fn crossed_bounds_are_rejected() {
    assert_eq!(Range::<BasicRange>::new(5, 2).err(), Some(ValidationError::Crossed));
    assert_eq!(Range::<DayHours>::new(5, 2).err(), Some(ValidationError::Crossed));
}

#[test]
fn negative_lower_bound_is_rejected() {
    assert_eq!(Range::<BasicRange>::new(-1, 5).err(), Some(ValidationError::Negative));
}

#[test]
fn end_beyond_the_day_is_rejected() {
    let r = Range::<DayHours>::new(10 * HOUR as i64, 25 * HOUR as i64);
    assert_eq!(r.err(), Some(ValidationError::BeyondDay));
}

#[test]
fn whole_day_is_accepted() {
    let r = Range::<DayHours>::new(0, 24 * HOUR as i64).unwrap();
    assert_eq!(r.from(), 0);
    assert_eq!(r.to(), DAY);
}
