use solarsim::random::{Scripted, ThreadSource};
use solarsim::range::{restrict_whole_day, Range, DAY, HOUR};
use solarsim::request::{Request, Schedule, ScheduleError};
use solarsim::usage::{Source, Usage};

fn schedule(interval: (u64, u64), hours: (u64, u64), delay_up_to: u64) -> Schedule {
    Schedule {
        interval: Range::new(interval.0 as i64, interval.1 as i64).unwrap(),
        restrict_hours: Range::new(hours.0 as i64, hours.1 as i64).unwrap(),
        delay_up_to,
    }
}

fn request(schedule: Option<Schedule>) -> Request {
    Request {
        schedule,
        usage: vec![Usage {
            power: Range::new(2000, 2000).unwrap(),
            duration: Range::new(HOUR as i64, HOUR as i64).unwrap(),
            source: Source::Line1,
        }],
        trigger: Vec::new(),
        delay: None,
    }
}

#[test]
fn new_schedule_admits_the_whole_day_without_delay() {
    let s = Schedule::new(Range::new(4, 6).unwrap());
    assert_eq!(s.interval.from(), 4);
    assert_eq!(s.interval.to(), 6);
    assert_eq!(s.restrict_hours.from(), restrict_whole_day().from());
    assert_eq!(s.restrict_hours.to(), DAY);
    assert_eq!(s.delay_up_to, 0);
}

#[test]
fn start_inside_the_restricted_hours_is_kept() {
    let s = schedule((0, 10), (8 * HOUR, 20 * HOUR), 2 * HOUR);
    assert_eq!(s.adjust(8 * HOUR), None);
    assert_eq!(s.adjust(20 * HOUR), None);
    assert_eq!(s.adjust(3 * DAY + 12 * HOUR), None);
    assert_eq!(s.place(DAY, 9 * HOUR, 777), Ok(DAY + 9 * HOUR));
}

#[test]
fn start_before_the_restricted_hours_moves_to_their_opening() {
    let s = schedule((0, 10), (8 * HOUR, 20 * HOUR), 2 * HOUR);
    assert_eq!(s.adjust(5 * HOUR), Some(3 * HOUR));
    assert_eq!(s.adjust(2 * DAY), Some(8 * HOUR));
    assert_eq!(s.place(DAY, 5 * HOUR, 0), Ok(DAY + 8 * HOUR));
    assert_eq!(s.place(DAY, 5 * HOUR, 90), Ok(DAY + 8 * HOUR + 90));
}

#[test]
fn start_after_the_restricted_hours_moves_to_the_next_opening() {
    let s = schedule((0, 10), (8 * HOUR, 20 * HOUR), 2 * HOUR);
    assert_eq!(s.adjust(21 * HOUR), Some(8 * HOUR + 3 * HOUR));
    assert_eq!(s.adjust(20 * HOUR + 1), Some(8 * HOUR + 4 * HOUR - 1));
    assert_eq!(s.place(DAY, 23 * HOUR, 0), Ok(2 * DAY + 8 * HOUR));
    assert_eq!(s.place(DAY, 23 * HOUR, 15), Ok(2 * DAY + 8 * HOUR + 15));
}

#[test]
fn extra_delay_is_capped_by_the_length_of_the_restricted_hours() {
    assert_eq!(schedule((0, 1), (8 * HOUR, 20 * HOUR), 2 * HOUR).extra_bound(), 2 * HOUR);
    assert_eq!(schedule((0, 1), (8 * HOUR, 9 * HOUR), 2 * HOUR).extra_bound(), HOUR);
    assert_eq!(schedule((0, 1), (8 * HOUR, 9 * HOUR), 0).extra_bound(), 0);
    assert_eq!(schedule((0, 1), (8 * HOUR, 8 * HOUR), 5).extra_bound(), 0);
}

#[test]
fn extra_delay_is_drawn_below_its_bound() {
    let s = schedule((0, 1), (8 * HOUR, 20 * HOUR), 100);
    assert_eq!(s.pick_extra(&mut Scripted::new(vec![250])), 50);
    let mut rng = ThreadSource;
    for _ in 0..100 {
        assert!(s.pick_extra(&mut rng) < 100);
    }
    let none = schedule((0, 1), (8 * HOUR, 20 * HOUR), 0);
    assert_eq!(none.pick_extra(&mut rng), 0);
}

#[test]
fn place_beyond_the_last_second_is_a_numeric_degeneracy() {
    let s = schedule((0, 10), (8 * HOUR, 20 * HOUR), 2 * HOUR);
    assert_eq!(s.place(u64::MAX, 1, 0), Err(ScheduleError::NumericDegeneracy));
    assert_eq!(s.place(u64::MAX - 5, 5, 0), Err(ScheduleError::NumericDegeneracy));
    let whole = Schedule::new(Range::new(0, 10).unwrap());
    assert_eq!(whole.place(u64::MAX - 5, 5, 0), Ok(u64::MAX));
    assert_eq!(whole.place(u64::MAX - 5, 6, 0), Err(ScheduleError::NumericDegeneracy));
}

#[test]
fn next_after_without_schedule_is_a_missing_schedule() {
    let r = request(None);
    assert_eq!(r.next_after(0, &mut ThreadSource), Err(ScheduleError::MissingSchedule));
}

#[test]
fn next_after_too_late_in_time_is_a_numeric_degeneracy() {
    let r = request(Some(Schedule::new(Range::new(4, 6).unwrap())));
    assert_eq!(r.next_after(u64::MAX - 3, &mut ThreadSource), Err(ScheduleError::NumericDegeneracy));
}

#[test]
fn next_after_adds_the_drawn_delay() {
    let r = request(Some(Schedule::new(Range::new(4 * HOUR as i64, 6 * HOUR as i64).unwrap())));
    let mut rng = Scripted::new(vec![0, 1800, 2 * HOUR - 1]);
    assert_eq!(r.next_after(0, &mut rng), Ok(4 * HOUR));
    assert_eq!(r.next_after(5 * HOUR, &mut rng), Ok(9 * HOUR + 1800));
    assert_eq!(r.next_after(100, &mut rng), Ok(100 + 6 * HOUR - 1));
}

#[test]
fn next_after_draws_the_extra_delay_only_for_a_moved_start() {
    let r = request(Some(schedule((HOUR, 2 * HOUR), (8 * HOUR, 20 * HOUR), 600)));
    // 0 + 1 h + 60 s lies before the opening: moved to 8 h, plus 615 % 600.
    let mut rng = Scripted::new(vec![60, 615]);
    assert_eq!(r.next_after(0, &mut rng), Ok(8 * HOUR + 15));
    // 9 h + 1 h + 60 s lies inside: kept, and the second number is not drawn.
    let mut rng = Scripted::new(vec![60, 615]);
    assert_eq!(r.next_after(9 * HOUR, &mut rng), Ok(10 * HOUR + 60));
    assert_eq!(r.next_after(9 * HOUR, &mut rng), Ok(10 * HOUR + 615));
}

#[test]
fn recurrence_respects_interval_and_restricted_hours() {
    let s = schedule((HOUR, 30 * HOUR), (6 * HOUR, 9 * HOUR), 2 * HOUR);
    let r = request(Some(s));
    let mut rng = ThreadSource;
    let mut end: u64 = 0;
    for _ in 0..500 {
        let start = r.next_after(end, &mut rng).unwrap();
        assert!(start - end >= HOUR);
        assert!(start - end < 30 * HOUR + DAY + 2 * HOUR);
        let part_of_day = start % DAY;
        assert!(6 * HOUR <= part_of_day && part_of_day <= 9 * HOUR);
        end = start + HOUR;
    }
}

#[test]
fn generate_consumption_samples_every_segment_in_order() {
    let mut r = request(None);
    r.usage.push(Usage {
        power: Range::new(10, 20).unwrap(),
        duration: Range::new(100, 200).unwrap(),
        source: Source::RandomLine,
    });
    let consumption = r.generate_consumption(&mut Scripted::new(vec![3, 50, 2]));
    assert_eq!(consumption.len(), 2);
    assert_eq!(consumption[0].power, 2000);
    assert_eq!(consumption[0].duration, HOUR);
    assert_eq!(consumption[0].source, Source::Line1);
    assert_eq!(consumption[1].power, 13);
    assert_eq!(consumption[1].duration, 150);
    assert_eq!(consumption[1].source, Source::Line3);
}
