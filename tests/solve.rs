use rain::natural::Natural;
use rain::ratio::Ratio;
use rain::solutions::{self, Solution};
use rain::Problem;

#[derive(Clone, Debug)]
struct Case(u64, Vec<u64>, Vec<f64>);

fn natural_to_f64(n: &Natural) -> f64 {
    let mut value = 0.0;
    for limb in n.to_limbs().iter().rev() {
        value = value * 4294967296.0 + *limb as f64;
    }
    value
}

fn to_f64(r: &Ratio) -> f64 {
    natural_to_f64(r.numerator()) / natural_to_f64(r.denominator())
}

fn to_f64s(v: &[Ratio]) -> Vec<f64> {
    v.iter().map(to_f64).collect()
}

// near-equality of floats, with the tolerance of the comparisons of the levels
fn similar(a: f64, b: f64) -> bool {
    if a == b {
        return true;
    }
    let epsilon = 64.0 * 128.0 * f64::EPSILON;
    let relth = 64.0 * 16.0 * f64::EPSILON;
    let diff = (a - b).abs();
    let norm = (a.abs() + b.abs()).min(f64::MAX);
    diff < (epsilon * norm).max(relth)
}

fn vecf64similar(av: &[f64], bv: &[f64]) -> bool {
    av.len() == bv.len() && av.iter().zip(bv.iter()).all(|(&a, &b)| similar(a, b))
}

fn solve(duration: u64, profile: &[u64]) -> Solution {
    let problem = Problem::new(duration, profile).unwrap();
    let solver = solutions::select_fn(&problem);
    solver.solve(problem)
}

// simple test cases, pen-and-paper results
fn provide_cases(token: &str) -> Vec<Case> {
    let simple = vec![
        Case(
            0,
            vec![5, 5, 0, 0, 0, 0, 5, 5],
            vec![5.0, 5.0, 0.0, 0.0, 0.0, 0.0, 5.0, 5.0],
        ),
        Case(
            1,
            vec![5, 5, 0, 0, 0, 0, 5, 5],
            vec![5.0, 5.0, 2.0, 2.0, 2.0, 2.0, 5.0, 5.0],
        ),
        Case(
            2,
            vec![5, 5, 0, 0, 0, 0, 5, 5],
            vec![5.0, 5.0, 4.0, 4.0, 4.0, 4.0, 5.0, 5.0],
        ),
    ];
    let saturation = vec![
        // at saturation
        Case(1, vec![2, 0, 0, 2], vec![2.0, 2.0, 2.0, 2.0]),
        Case(
            2,
            vec![4, 4, 0, 0, 0, 0, 4, 4],
            vec![4.0, 4.0, 4.0, 4.0, 4.0, 4.0, 4.0, 4.0],
        ),
        // above saturation
        Case(
            3,
            vec![5, 5, 0, 0, 0, 0, 5, 5],
            vec![5.5, 5.5, 5.5, 5.5, 5.5, 5.5, 5.5, 5.5],
        ),
    ];
    let general = vec![
        Case(1, vec![5, 4, 3, 0, 0, 0], vec![5.0, 4.0, 3.0, 2.0, 2.0, 2.0]),
        Case(1, vec![0, 0, 0, 3, 4, 5], vec![2.0, 2.0, 2.0, 3.0, 4.0, 5.0]),
        Case(2, vec![7, 6, 5, 0, 0], vec![7.0, 6.0, 5.0, 5.0, 5.0]),
        Case(2, vec![0, 0, 5, 6, 7], vec![5.0, 5.0, 5.0, 6.0, 7.0]),
        Case(1, vec![3, 1, 6, 4, 8, 9], vec![4.0, 4.0, 6.0, 6.0, 8.0, 9.0]),
        Case(2, vec![3, 1, 6, 4, 8, 9], vec![6.5, 6.5, 6.5, 6.5, 8.0, 9.0]),
        Case(1, vec![1, 8, 8, 8, 1], vec![3.5, 8.0, 8.0, 8.0, 3.5]),
        Case(
            1,
            vec![1, 2, 3, 4, 5, 6, 7, 8, 9],
            vec![4.75, 4.75, 4.75, 4.75, 5.0, 6.0, 7.0, 8.0, 9.0],
        ),
        Case(1, vec![3, 1, 6, 4, 8, 9], vec![4.0, 4.0, 6.0, 6.0, 8.0, 9.0]),
    ];
    let watersheds = vec![
        Case(1, vec![0, 3, 0], vec![1.5, 3.0, 1.5]),
        Case(1, vec![0, 3, 3, 0], vec![2.0, 3.0, 3.0, 2.0]),
        Case(1, vec![6, 0, 4, 4, 0, 6], vec![6.0, 3.0, 4.0, 4.0, 3.0, 6.0]),
        Case(1, vec![0, 3, 4, 3, 0], vec![2.5, 3.0, 4.0, 3.0, 2.5]),
    ];

    if token == "simple" {
        return simple;
    }
    if token == "saturation" {
        return saturation;
    }
    if token == "all" {
        return [general.as_slice(), watersheds.as_slice()].concat();
    }
    vec![]
}

#[test]
fn water_conservation() {
    //tests amount of water before and after are equal
    let cases = provide_cases("simple");
    for case in cases.iter() {
        let Case(a, b, _) = case;
        let received = to_f64(&solve(*a, b).water_tot);
        let expected: f64 = *a as f64 * b.len() as f64;

        assert!((received - expected).abs() < 1e-12);
    }
}

#[test]
fn solve_simple() {
    let cases = provide_cases("simple");
    for case in cases.iter() {
        let Case(a, b, expected) = case;
        let received = to_f64s(&solve(*a, b).levels);

        assert!(vecf64similar(&received, expected));
    }
}

#[test]
fn solve_saturation() {
    let cases = provide_cases("saturation");
    for case in cases.iter() {
        let Case(a, b, expected) = case;
        let received = to_f64s(&solve(*a, b).levels);

        assert!(vecf64similar(&received, expected));
    }
}

#[test]
fn solve_oversaturation() {
    let cases = provide_cases("oversaturation");
    for case in cases.iter() {
        let Case(a, b, expected) = case;
        let received = to_f64s(&solve(*a, b).levels);

        assert!(vecf64similar(&received, expected));
    }
}

#[test]
fn solve_all() {
    let cases = provide_cases("all");
    for case in cases.iter() {
        let Case(a, b, expected) = case;
        println!("P{:?}", b);
        println!("E{:?}", &expected);
        let received = to_f64s(&solve(*a, b).levels);

        println!("R {:?}", &received);
        assert!(vecf64similar(&received, expected));
    }
}

#[test]
fn solutions_struct() {
    let a_vec: Vec<Ratio> = vec![Ratio::from_u64(3), Ratio::from_u64(2), Ratio::from_u64(2)];
    let bs: Vec<u64> = vec![3, 1, 0];
    let expected_1: Vec<f64> = vec![0.0, 1.0, 2.0];
    let expected_2: f64 = 3.0;
    let received = Solution::new(a_vec, &bs).unwrap();
    assert_eq!(expected_1, to_f64s(&received.water_covers));
    assert_eq!(expected_2, to_f64(&received.water_tot));
}

#[test]
fn solutions() {
    let a_vec: Vec<Ratio> = vec![Ratio::from_u64(3), Ratio::from_u64(2), Ratio::from_u64(2)];
    let bs: Vec<u64> = vec![3, 1, 0];
    let expected_1: Vec<f64> = vec![0.0, 1.0, 2.0];
    let expected_2: f64 = 3.0;
    let received = Solution::new(a_vec, &bs).unwrap();
    assert_eq!(expected_1, to_f64s(&received.water_covers));
    assert_eq!(expected_2, to_f64(&received.water_tot));
}
