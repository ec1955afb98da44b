use solarsim::random::{RandomSource, Scripted, ThreadSource};
use solarsim::range::{restrict_whole_day, BasicRange, Range, DAY};
use solarsim::usage::{Source, Usage, UsedPower};

#[test]
fn scripted_source_replays_its_list() {
    let mut rng = Scripted::new(vec![0, 7, 25]);
    assert_eq!(rng.uniform(10, 20), 10);
    assert_eq!(rng.uniform(10, 20), 17);
    assert_eq!(rng.uniform(10, 20), 15);
    assert_eq!(rng.uniform(10, 20), 10);
    assert_eq!(rng.replay(3, 4), 3);
}

#[test]
fn scripted_source_without_numbers_yields_the_lower_bound() {
    let mut rng = Scripted::new(Vec::new());
    assert_eq!(rng.uniform(5, 9), 5);
    assert_eq!(rng.uniform(0, 1), 0);
}

#[test]
fn thread_source_stays_below_the_upper_bound() {
    let mut rng = ThreadSource;
    for _ in 0..200 {
        assert_eq!(rng.uniform(7, 8), 7);
        let v = rng.uniform(100, 110);
        assert!(100 <= v && v < 110);
    }
}

#[test]
fn thread_source_does_not_repeat_one_number() {
    let mut rng = ThreadSource;
    let first = rng.uniform(0, u64::MAX);
    let mut differs = false;
    for _ in 0..64 {
        if rng.uniform(0, u64::MAX) != first {
            differs = true;
        }
    }
    assert!(differs);
}

#[test]
fn pick_of_a_single_value_is_that_value() {
    let range = Range::<BasicRange>::new(2000, 2000).unwrap();
    assert_eq!(range.pick(&mut ThreadSource), 2000);
    assert_eq!(range.pick(&mut Scripted::new(vec![99])), 2000);
}

#[test]
fn pick_leaves_the_upper_bound_out() {
    let range = Range::<BasicRange>::new(4, 6).unwrap();
    let mut rng = ThreadSource;
    for _ in 0..200 {
        let v = range.pick(&mut rng);
        assert!(v == 4 || v == 5);
    }
    let mut script = Scripted::new(vec![0, 1, 2, 3]);
    assert_eq!(range.pick(&mut script), 4);
    assert_eq!(range.pick(&mut script), 5);
    assert_eq!(range.pick(&mut script), 4);
    assert_eq!(range.pick(&mut script), 5);
}

#[test]
fn whole_day_restriction_spans_the_day() {
    let day = restrict_whole_day();
    assert_eq!(day.from(), 0);
    assert_eq!(day.to(), DAY);
    assert_eq!(DAY, 86_400);
}

#[test]
fn settle_turns_a_random_line_into_the_line_cast() {
    assert_eq!(Source::RandomLine.settle(1), Source::Line1);
    assert_eq!(Source::RandomLine.settle(2), Source::Line2);
    assert_eq!(Source::RandomLine.settle(3), Source::Line3);
}

#[test]
fn settle_leaves_other_sources_alone() {
    for source in [
        Source::Line1,
        Source::Line2,
        Source::Line3,
        Source::AnyLine,
        Source::AllLines,
        Source::HotWater,
    ] {
        for die in 1..=3 {
            assert_eq!(source.settle(die), source);
        }
    }
}

fn usage(power: (i64, i64), duration: (i64, i64), source: Source) -> Usage {
    Usage {
        power: Range::new(power.0, power.1).unwrap(),
        duration: Range::new(duration.0, duration.1).unwrap(),
        source,
    }
}

#[test]
fn usage_pick_draws_power_then_duration_then_line() {
    let u = usage((100, 200), (10, 20), Source::RandomLine);
    let mut rng = Scripted::new(vec![5, 3, 1]);
    assert_eq!(
        u.pick(&mut rng),
        UsedPower { power: 105, duration: 13, source: Source::Line2 }
    );
    let mut rng = Scripted::new(vec![0, 0, 0]);
    assert_eq!(
        u.pick(&mut rng),
        UsedPower { power: 100, duration: 10, source: Source::Line1 }
    );
    let mut rng = Scripted::new(vec![99, 9, 2]);
    assert_eq!(
        u.pick(&mut rng),
        UsedPower { power: 199, duration: 19, source: Source::Line3 }
    );
}

#[test]
fn usage_pick_passes_unresolved_sources_through() {
    let mut rng = ThreadSource;
    for source in [Source::AnyLine, Source::AllLines, Source::HotWater, Source::Line2] {
        let used = usage((0, 10), (1, 2), source).pick(&mut rng);
        assert_eq!(used.source, source);
        assert!(used.power < 10);
        assert_eq!(used.duration, 1);
    }
}

#[test]
fn usage_pick_resolves_a_random_line_at_each_sample() {
    let u = usage((1, 1), (1, 1), Source::RandomLine);
    let mut rng = ThreadSource;
    let mut seen = [false; 3];
    for _ in 0..300 {
        match u.pick(&mut rng).source {
            Source::Line1 => seen[0] = true,
            Source::Line2 => seen[1] = true,
            Source::Line3 => seen[2] = true,
            other => panic!("a random line came out as {:?}", other),
        }
    }
    assert_eq!(seen, [true, true, true]);
}
