use solarsim::alternatives::{Advance, Alternatives};
use solarsim::plant::{ExtraPower, Invertor, Panels, Plant, PlantAlternative, Report};
use std::sync::Arc;

fn panels(power: usize, price: usize, reference: &str) -> Panels {
    Panels { power, price, reference: Arc::new(reference.to_string()) }
}

fn invertor(power: usize, price: usize) -> Invertor {
    Invertor { power, price, asymetric: false }
}

fn plant(invertor_power: usize, prices: &[usize]) -> PlantAlternative {
    PlantAlternative {
        invertor: invertor(invertor_power, 1000),
        arrays: prices.iter().map(|price| panels(5000, *price, "south")).collect(),
    }
}

#[test]
fn extra_power_defaults_to_nothing() {
    assert_eq!(ExtraPower::default(), ExtraPower { power: 0, price: 0 });
}

#[test]
fn parts_advance_in_power_and_price() {
    let step = ExtraPower { power: 500, price: 70 };
    let next = panels(3000, 900, "east").advance(&step).unwrap();
    assert_eq!((next.power, next.price, next.reference.as_str()), (3500, 970, "east"));
    let next = Invertor { power: 10, price: 20, asymetric: true }.advance(&step).unwrap();
    assert_eq!(next, Invertor { power: 510, price: 90, asymetric: true });
    assert!(panels(usize::MAX, 0, "east").advance(&step).is_none());
    assert!(panels(0, usize::MAX - 69, "east").advance(&step).is_none());
    assert!(invertor(usize::MAX - 499, 0).advance(&step).is_none());
    assert_eq!(
        invertor(usize::MAX - 500, usize::MAX - 70).advance(&step),
        Some(invertor(usize::MAX, usize::MAX))
    );
}

#[test]
fn price_is_the_sum_of_all_parts() {
    assert_eq!(plant(1, &[]).price(), Some(1000));
    assert_eq!(plant(1, &[200, 30, 4]).price(), Some(1234));
    assert_eq!(plant(1, &[usize::MAX - 1000]).price(), Some(usize::MAX));
    assert_eq!(plant(1, &[usize::MAX - 1000, 1]).price(), None);
}

#[test]
fn invertor_passes_no_more_than_its_power() {
    let p = plant(100, &[10, 20]);
    let yields = vec![vec![30, 80, 0, 100], vec![20, 70, 0, 1]];
    // Together: 50, 150, 0, 101; passed: 50, 100, 0, 100; lost: 0, 50, 0, 1.
    assert_eq!(
        p.simulate(&yields),
        Some(Report {
            price: 1030,
            power_generated: 250,
            power_per_year: 250 * 8760 / 4,
            lost_to_invertor: 51,
        })
    );
}

#[test]
fn slots_are_those_of_the_first_array() {
    let p = plant(100, &[10, 20]);
    let yields = vec![vec![30, 80], vec![20, 70, 500, 500]];
    assert_eq!(
        p.simulate(&yields),
        Some(Report {
            price: 1030,
            power_generated: 150,
            power_per_year: 150 * 8760 / 2,
            lost_to_invertor: 50,
        })
    );
    assert_eq!(p.simulate(&vec![vec![30, 80, 5], vec![20, 70]]), None);
}

#[test]
fn yearly_power_is_rounded_down() {
    let p = plant(10, &[1]);
    let report = p.simulate(&vec![vec![1, 0, 0]]).unwrap();
    assert_eq!(report.power_generated, 1);
    assert_eq!(report.power_per_year, 2920);
    let report = p.simulate(&vec![vec![1, 0, 0, 0, 0, 0, 0]]).unwrap();
    assert_eq!(report.power_per_year, 1251);
}

#[test]
fn simulation_needs_yields_that_fit_the_arrays() {
    assert_eq!(plant(100, &[]).simulate(&Vec::new()), None);
    assert_eq!(plant(100, &[10]).simulate(&Vec::new()), None);
    assert_eq!(plant(100, &[10]).simulate(&vec![Vec::new()]), None);
    assert_eq!(plant(100, &[10]).simulate(&vec![vec![1], vec![1]]), None);
    assert_eq!(plant(100, &[10, 20]).simulate(&vec![vec![1]]), None);
}

#[test]
fn simulation_stops_where_numbers_no_longer_fit() {
    let big = usize::MAX;
    assert_eq!(plant(big, &[1, 1]).simulate(&vec![vec![big], vec![1]]), None);
    assert_eq!(plant(big, &[1]).simulate(&vec![vec![big / 8760 + 1]]), None);
    assert_eq!(plant(1, &[1]).simulate(&vec![vec![big, 3]]), None);
    assert_eq!(plant(1, &[1]).simulate(&vec![vec![big, 2]]).unwrap().lost_to_invertor, big);
    assert_eq!(plant(1, &[big - 1000, 1]).simulate(&vec![vec![1], vec![1]]), None);
    let report = plant(1, &[1]).simulate(&vec![vec![big, 1]]).unwrap();
    assert_eq!(report.power_generated, 2);
    assert_eq!(report.lost_to_invertor, big - 1);
    let report = plant(big, &[1]).simulate(&vec![vec![big / 8760]]).unwrap();
    assert_eq!(report.power_generated, big / 8760);
    assert_eq!(report.power_per_year, big / 8760 * 8760);
}

fn parts(plant: &PlantAlternative) -> (usize, Vec<(usize, String)>) {
    (
        plant.invertor.power,
        plant.arrays.iter().map(|a| (a.power, a.reference.to_string())).collect(),
    )
}

#[test]
fn combine_pairs_every_invertor_with_every_pick() {
    let invertors = vec![invertor(1, 0), invertor(2, 0)];
    let lists = vec![
        vec![panels(10, 0, "a"), panels(11, 0, "a")],
        vec![panels(20, 0, "b"), panels(21, 0, "b"), panels(22, 0, "b")],
    ];
    let tuples = vec![vec![1, 2], vec![0, 0], vec![1, 2]];
    let all = Plant::combine(&invertors, &lists, &tuples).unwrap();
    let got: Vec<_> = all.iter().map(parts).collect();
    let a = |power: usize| (power, "a".to_string());
    let b = |power: usize| (power, "b".to_string());
    assert_eq!(
        got,
        vec![
            (1, vec![a(11), b(22)]),
            (1, vec![a(10), b(20)]),
            (1, vec![a(11), b(22)]),
            (2, vec![a(11), b(22)]),
            (2, vec![a(10), b(20)]),
            (2, vec![a(11), b(22)]),
        ]
    );
    assert!(Plant::combine(&invertors, &lists, &Vec::new()).unwrap().is_empty());
    assert!(Plant::combine(&Vec::new(), &lists, &tuples).unwrap().is_empty());
}

#[test]
fn combine_turns_down_tuples_that_do_not_fit() {
    let invertors = vec![invertor(1, 0)];
    let lists = vec![vec![panels(10, 0, "a")], vec![panels(20, 0, "b"), panels(21, 0, "b")]];
    assert!(Plant::combine(&invertors, &lists, &vec![vec![0, 1]]).is_some());
    assert!(Plant::combine(&invertors, &lists, &vec![vec![0, 1], vec![0]]).is_none());
    assert!(Plant::combine(&invertors, &lists, &vec![vec![0, 1, 0]]).is_none());
    assert!(Plant::combine(&invertors, &lists, &vec![vec![1, 0]]).is_none());
    assert!(Plant::combine(&invertors, &lists, &vec![vec![0, 2]]).is_none());
    assert!(Plant::combine(&Vec::new(), &lists, &vec![vec![0, 2]]).is_none());
}

#[test]
fn plant_lists_all_its_variants_in_order() {
    let step = ExtraPower { power: 100, price: 1 };
    let plant = Plant {
        invertor: Alternatives::Parametric { start: invertor(1000, 50), increment: step, cnt: 2 },
        arrays: vec![
            Alternatives::Parametric { start: panels(10, 5, "a"), increment: step, cnt: 2 },
            Alternatives::Any(vec![
                Alternatives::Parametric { start: panels(20, 5, "b"), increment: step, cnt: 1 },
                Alternatives::Parametric { start: panels(30, 5, "c"), increment: step, cnt: 2 },
            ]),
        ],
    };
    let all = plant.into_alternatives().unwrap();
    let got: Vec<_> = all.iter().map(parts).collect();
    let of = |power: usize, reference: &str| (power, reference.to_string());
    let picks = vec![
        vec![of(10, "a"), of(20, "b")],
        vec![of(10, "a"), of(30, "c")],
        vec![of(10, "a"), of(130, "c")],
        vec![of(110, "a"), of(20, "b")],
        vec![of(110, "a"), of(30, "c")],
        vec![of(110, "a"), of(130, "c")],
    ];
    let mut expected = Vec::new();
    for power in [1000, 1100] {
        for pick in &picks {
            expected.push((power, pick.clone()));
        }
    }
    assert_eq!(got, expected);
    assert_eq!(all[11].invertor.price, 51);
    assert_eq!(all[11].price(), Some(51 + 6 + 6));
}

#[test]
fn plant_with_an_array_without_values_has_no_variants() {
    let step = ExtraPower::default();
    let plant = Plant {
        invertor: Alternatives::Parametric { start: invertor(1000, 50), increment: step, cnt: 2 },
        arrays: vec![
            Alternatives::Parametric { start: panels(10, 5, "a"), increment: step, cnt: 2 },
            Alternatives::Any(Vec::new()),
        ],
    };
    assert!(plant.into_alternatives().unwrap().is_empty());
}

#[test]
fn plant_whose_values_cannot_be_held_has_no_list() {
    let step = ExtraPower { power: 1, price: 0 };
    let plant = Plant {
        invertor: Alternatives::Parametric { start: invertor(usize::MAX, 50), increment: step, cnt: 2 },
        arrays: vec![Alternatives::Parametric { start: panels(10, 5, "a"), increment: step, cnt: 2 }],
    };
    assert!(plant.into_alternatives().is_none());
    let plant = Plant {
        invertor: Alternatives::Parametric { start: invertor(1, 50), increment: step, cnt: 2 },
        arrays: vec![Alternatives::Parametric {
            start: panels(usize::MAX, 5, "a"),
            increment: step,
            cnt: 2,
        }],
    };
    assert!(plant.into_alternatives().is_none());
}
