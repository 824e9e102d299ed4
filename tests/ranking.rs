use cargo_rank::error::RankError;
use cargo_rank::graph::{build_model, distinct_targets, find_package, other_positions};
use cargo_rank::package::{Dep, Package};
use cargo_rank::rank::{
    cargo_rank, iterate, l1_delta, order_by_score, rank, start_rank, step, Damping,
    DEFAULT_THRESHOLD, MAX_ROUNDS, SCALE,
};

fn dep(name: &str) -> Dep {
    Dep {
        name: name.to_string(),
        req: "^1".to_string(),
        features: Vec::new(),
        optional: false,
        default_features: true,
        target: None,
        kind: None,
    }
}

fn pkg(name: &str, deps: &[&str]) -> Package {
    Package {
        name: name.to_string(),
        vers: "1.0.0".to_string(),
        deps: deps.iter().map(|d| dep(d)).collect(),
        cksum: String::new(),
        features: serde_json::Value::Null,
        yanked: false,
    }
}

fn score_of(ranking: &[(usize, u64)], position: usize) -> u64 {
    ranking.iter().find(|e| e.0 == position).unwrap().1
}

fn as_fraction(score: u64) -> f64 {
    score as f64 / SCALE as f64
}

#[test]
fn chain_with_dangling_tail() {
    let packages = vec![pkg("A", &["B"]), pkg("B", &["C"]), pkg("C", &[])];
    let ranking = cargo_rank(&packages).unwrap();
    assert_eq!(ranking.len(), 3);
    let total: u64 = ranking.iter().map(|e| e.1).sum();
    assert_eq!(total, SCALE);
    // Stationary point of a = .05 + .425c, b = .05 + .85a + .425c, c = .05 + .85b.
    let c = 0.128625 / 0.3316875;
    let b = 0.0925 + 0.78625 * c;
    let a = 0.05 + 0.425 * c;
    assert!((as_fraction(score_of(&ranking, 0)) - a).abs() < 1e-5);
    assert!((as_fraction(score_of(&ranking, 1)) - b).abs() < 1e-5);
    assert!((as_fraction(score_of(&ranking, 2)) - c).abs() < 1e-5);
    let order: Vec<usize> = ranking.iter().map(|e| e.0).collect();
    assert_eq!(order, vec![1, 2, 0]);
}

#[test]
fn symmetric_four_packages() {
    let packages = vec![
        pkg("a", &["b", "c", "d"]),
        pkg("b", &["a", "c", "d"]),
        pkg("c", &["a", "b", "d"]),
        pkg("d", &["a", "b", "c"]),
    ];
    let ranking = cargo_rank(&packages).unwrap();
    assert_eq!(ranking, vec![(0, SCALE / 4), (1, SCALE / 4), (2, SCALE / 4), (3, SCALE / 4)]);
    for e in &ranking {
        assert!((as_fraction(e.1) - 0.25).abs() < 1e-9);
    }
}

#[test]
fn empty_collection_is_an_error() {
    let packages: Vec<Package> = Vec::new();
    assert_eq!(cargo_rank(&packages), Err(RankError::EmptyGraph));
    assert!(build_model(&packages).is_err());
}

#[test]
fn single_package_gets_everything() {
    let packages = vec![pkg("solo", &["solo", "elsewhere"])];
    assert_eq!(cargo_rank(&packages), Ok(vec![(0, SCALE)]));
    let lonely = vec![pkg("solo", &[])];
    assert_eq!(cargo_rank(&lonely), Ok(vec![(0, SCALE)]));
}

#[test]
fn ranking_twice_gives_the_same_order() {
    let packages = vec![
        pkg("a", &["b"]),
        pkg("b", &["c", "d"]),
        pkg("c", &[]),
        pkg("d", &["a", "c"]),
        pkg("e", &["a"]),
    ];
    let first = cargo_rank(&packages).unwrap();
    let second = cargo_rank(&packages).unwrap();
    assert_eq!(first, second);
    let total: u64 = first.iter().map(|e| e.1).sum();
    assert_eq!(total, SCALE);
}

#[test]
fn rows_are_distinct_known_dependencies() {
    let packages = vec![
        pkg("a", &["b", "b", "missing", "c"]),
        pkg("b", &["missing"]),
        pkg("c", &["c"]),
    ];
    let model = build_model(&packages).unwrap();
    assert_eq!(model.rows[0], vec![1, 2]);
    // only unknown dependencies: dangling, so every other package
    assert_eq!(model.rows[1], vec![0, 2]);
    // a self-dependency is an ordinary edge
    assert_eq!(model.rows[2], vec![2]);
    for row in &model.rows {
        assert!(!row.is_empty());
        let weight_sum: f64 = row.iter().map(|_| 1.0 / row.len() as f64).sum();
        assert!((weight_sum - 1.0).abs() < 1e-9);
    }
}

#[test]
fn dangling_package_feeds_all_others() {
    let packages = vec![pkg("a", &[]), pkg("b", &["a"]), pkg("c", &["a"]), pkg("d", &["a"])];
    let model = build_model(&packages).unwrap();
    assert_eq!(model.rows[0], vec![1, 2, 3]);
    // all mass on the dangling package, no damping loss: it splits three ways
    let rank_vec = vec![SCALE, 0, 0, 0];
    let next = step(&model, &rank_vec, &Damping { num: 1, den: 1 });
    let third = SCALE / 3;
    assert_eq!(next, vec![1, third, third, third]);
}

#[test]
fn one_round_keeps_the_mass() {
    let packages = vec![pkg("a", &["b"]), pkg("b", &["c"]), pkg("c", &[])];
    let model = build_model(&packages).unwrap();
    let start = start_rank(3);
    assert_eq!(start, vec![333_333_333_334, 333_333_333_333, 333_333_333_333]);
    let next = step(&model, &start, &Damping::standard());
    // a gets half of c's given mass, b gets all of a's and half of c's, c all of b's
    let give_a: u64 = 333_333_333_334 * 85 / 100;
    let give_b: u64 = 333_333_333_333 * 85 / 100;
    let give_c: u64 = 333_333_333_333 * 85 / 100;
    let half_c = give_c / 2;
    let pool = SCALE - give_a - give_b - half_c * 2;
    let base = pool / 3;
    let extra = pool % 3;
    let expect = vec![
        half_c + base + if extra > 0 { 1 } else { 0 },
        give_a + half_c + base + if extra > 1 { 1 } else { 0 },
        give_b + base,
    ];
    assert_eq!(next, expect);
    assert_eq!(next.iter().sum::<u64>(), SCALE);
}

#[test]
fn l1_delta_adds_absolute_differences() {
    assert_eq!(l1_delta(&vec![5, 0, 7], &vec![2, 4, 7]), 7);
    assert_eq!(l1_delta(&vec![], &vec![]), 0);
}

#[test]
fn order_breaks_ties_by_position() {
    let ordered = order_by_score(&vec![3, 9, 3, 1, 9]);
    assert_eq!(ordered, vec![(1, 9), (4, 9), (0, 3), (2, 3), (3, 1)]);
    assert_eq!(order_by_score(&vec![]), vec![]);
}

#[test]
fn too_few_rounds_do_not_converge() {
    let packages = vec![pkg("a", &["b"]), pkg("b", &["c"]), pkg("c", &[])];
    let model = build_model(&packages).unwrap();
    assert_eq!(
        iterate(&model, &Damping::standard(), 0, 1),
        Err(RankError::DidNotConverge)
    );
    assert!(iterate(&model, &Damping::standard(), DEFAULT_THRESHOLD, MAX_ROUNDS).is_ok());
}

#[test]
fn no_damping_gives_uniform_ranks() {
    let packages = vec![pkg("a", &["b"]), pkg("b", &["c"]), pkg("c", &[])];
    let ranking = rank(&packages, &Damping { num: 0, den: 100 }, DEFAULT_THRESHOLD).unwrap();
    assert_eq!(
        ranking,
        vec![(0, 333_333_333_334), (1, 333_333_333_333), (2, 333_333_333_333)]
    );
}

#[test]
fn lookup_and_targets() {
    let packages = vec![pkg("x", &["z", "y", "z"]), pkg("y", &[]), pkg("z", &[])];
    assert_eq!(find_package(&packages, &"z".to_string()), Some(2));
    assert_eq!(find_package(&packages, &"w".to_string()), None);
    assert_eq!(distinct_targets(&packages, 0), vec![2, 1]);
    assert_eq!(distinct_targets(&packages, 1), Vec::<usize>::new());
    assert_eq!(other_positions(4, 2), vec![0, 1, 3]);
}

#[test]
fn standard_damping_is_085() {
    let d = Damping::standard();
    assert_eq!((d.num, d.den), (85, 100));
}

#[test]
fn converges_well_before_the_round_limit() {
    let packages = vec![
        pkg("a", &["b", "c"]),
        pkg("b", &["c"]),
        pkg("c", &[]),
        pkg("d", &["c", "a"]),
    ];
    let model = build_model(&packages).unwrap();
    let scores = iterate(&model, &Damping::standard(), DEFAULT_THRESHOLD, 200).unwrap();
    assert_eq!(scores.iter().sum::<u64>(), SCALE);
}
