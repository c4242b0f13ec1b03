use rain::algorithm::raise;
use rain::natural::Natural;
use rain::problem::ProblemError;
use rain::ratio::Ratio;
use rain::solutions::{self, categorise, select_fn, Method, Solution, SolutionError};
use rain::Problem;

fn value(n: &Natural) -> u128 {
    let mut v: u128 = 0;
    for limb in n.to_limbs().iter().rev() {
        v = (v << 32) + *limb as u128;
    }
    v
}

// a ratio as a reduced pair (numerator, denominator)
fn reduced(r: &Ratio) -> (u128, u128) {
    let (mut a, mut b) = (value(r.numerator()), value(r.denominator()));
    let (n, d) = (a, b);
    while b != 0 {
        let t = a % b;
        a = b;
        b = t;
    }
    (n / a, d / a)
}

fn levels(duration: u64, profile: &[u64]) -> Vec<(u128, u128)> {
    let problem = Problem::new(duration, profile).unwrap();
    let solver = select_fn(&problem);
    solver.solve(problem).levels.iter().map(reduced).collect()
}

fn ints(v: &[u128]) -> Vec<(u128, u128)> {
    v.iter().map(|&x| (x, 1)).collect()
}

#[test]
fn two_basins_one_day() {
    assert_eq!(levels(1, &[5, 5, 0, 0, 0, 0, 5, 5]), ints(&[5, 5, 2, 2, 2, 2, 5, 5]));
}

#[test]
fn exact_saturation() {
    assert_eq!(levels(1, &[2, 0, 0, 2]), ints(&[2, 2, 2, 2]));
}

#[test]
fn above_saturation_is_one_level() {
    assert_eq!(levels(3, &[5, 5, 0, 0, 0, 0, 5, 5]), vec![(11, 2); 8]);
}

#[test]
fn single_watershed_peak() {
    assert_eq!(levels(1, &[0, 3, 0]), vec![(3, 2), (3, 1), (3, 2)]);
}

#[test]
fn plateau_between_two_wells() {
    assert_eq!(levels(1, &[1, 8, 8, 8, 1]), vec![(7, 2), (8, 1), (8, 1), (8, 1), (7, 2)]);
}

#[test]
fn staircase_fills_the_low_end() {
    assert_eq!(
        levels(1, &[1, 2, 3, 4, 5, 6, 7, 8, 9]),
        vec![(19, 4), (19, 4), (19, 4), (19, 4), (5, 1), (6, 1), (7, 1), (8, 1), (9, 1)]
    );
}

#[test]
fn flat_ground_keeps_its_rain() {
    assert_eq!(levels(2, &[4, 4, 4]), ints(&[6, 6, 6]));
}

#[test]
fn dry_world_stays_dry() {
    assert_eq!(levels(0, &[3, 0, 2]), ints(&[3, 0, 2]));
}

#[test]
fn water_is_conserved_exactly() {
    let profiles: Vec<Vec<u64>> = vec![
        vec![0, 5, 0, 5, 0, 5, 0],
        vec![0, 0, 3, 2, 3, 1, 1],
        vec![3, 1, 6, 4, 8, 9],
        vec![8, 1, 8, 8, 1],
        vec![9, 0, 7, 1, 6, 2, 5, 3, 4],
    ];
    for profile in profiles.iter() {
        for duration in 0..4u64 {
            let problem = Problem::new(duration, profile).unwrap();
            let expected = (duration * profile.len() as u64) as u128;
            let total = select_fn(&problem).solve(problem).water_tot;
            let (n, d) = reduced(&total);
            assert_eq!((n, d), (expected, 1), "{:?} {}", profile, duration);
        }
    }
}

#[test]
fn levels_never_below_ground() {
    let profile = [9, 0, 7, 1, 6, 2, 5, 3, 4];
    let problem = Problem::new(1, &profile).unwrap();
    let solution = raise(problem);
    for (level, ground) in solution.levels.iter().zip(profile.iter()) {
        let (n, d) = reduced(level);
        assert!(n >= (*ground as u128) * d);
    }
}

#[test]
fn solving_twice_gives_the_same_levels() {
    let profile = [0, 0, 3, 2, 3, 1, 1];
    assert_eq!(levels(1, &profile), levels(1, &profile));
}

#[test]
fn reversed_profile_gives_reversed_levels() {
    let profiles: Vec<Vec<u64>> = vec![
        vec![0, 5, 0, 5, 0, 5, 0],
        vec![0, 0, 3, 2, 3, 1, 1],
        vec![3, 1, 6, 4, 8, 9],
    ];
    for profile in profiles.iter() {
        let reversed: Vec<u64> = profile.iter().rev().cloned().collect();
        let mut expected = levels(2, profile);
        expected.reverse();
        assert_eq!(levels(2, &reversed), expected);
    }
}

#[test]
fn general_core_at_saturation_matches_the_closed_form() {
    let profile = [4, 4, 0, 0, 0, 0, 4, 4];
    let problem = Problem::new(2, &profile).unwrap();
    assert_eq!(select_fn(&problem), Method::Saturation);
    let general: Vec<(u128, u128)> = raise(problem).levels.iter().map(reduced).collect();
    assert_eq!(general, ints(&[4; 8]));
}

#[test]
fn periodic_terrain_in_exact_arithmetic() {
    assert_eq!(levels(2, &[0, 5, 0, 5, 0, 5, 0]), ints(&[3, 5, 4, 5, 4, 5, 3]));
}

// levels 3 in every basin would hold 21 of the 26 units of water
#[test]
fn long_periodic_terrain() {
    assert_eq!(
        levels(2, &[0, 5, 0, 5, 0, 5, 0, 5, 0, 5, 0, 5, 0]),
        ints(&[3, 5, 4, 5, 4, 5, 4, 5, 4, 5, 4, 5, 3])
    );
}

// levels 1.5 on both sides would hold 5 of the 7 units of water
#[test]
fn two_peaks_with_a_dip() {
    assert_eq!(
        levels(1, &[0, 0, 3, 2, 3, 1, 1]),
        vec![(3, 2), (3, 2), (3, 1), (3, 1), (3, 1), (5, 2), (5, 2)]
    );
}

#[test]
fn problem_aggregates() {
    let problem = Problem::new(2, &[3, 1, 6, 4]).unwrap();
    assert_eq!(problem.water_0, 2);
    assert_eq!(problem.water_tot, 8);
    assert_eq!(problem.groundsize, 4);
    assert_eq!(problem.ground_min, 1);
    assert_eq!(problem.ground_max, 6);
    assert_eq!(problem.ground_vol, 14);
    assert_eq!(problem.saturation_water, 10);
}

#[test]
fn empty_profile_is_rejected() {
    assert!(matches!(Problem::new(1, &[]), Err(ProblemError::EmptyProfile)));
}

#[test]
fn oversized_volume_is_rejected() {
    assert!(matches!(Problem::new(u64::MAX, &[1, 2]), Err(ProblemError::TooLarge)));
    assert!(matches!(Problem::new(1, &[u64::MAX, 2]), Err(ProblemError::TooLarge)));
}

#[test]
fn classes_of_problems() {
    let cases: Vec<(u64, Vec<u64>, Method, &str)> = vec![
        (0, vec![5, 0, 5], Method::Dry, "dry"),
        (1, vec![2, 2, 2], Method::Flat, "flat_ground"),
        (1, vec![2, 0, 0, 2], Method::Saturation, "saturation"),
        (3, vec![5, 5, 0, 0, 0, 0, 5, 5], Method::Full, "above_saturation"),
        (1, vec![5, 5, 0, 0, 0, 0, 5, 5], Method::General, "general"),
    ];
    for (duration, profile, method, name) in cases.into_iter() {
        let problem = Problem::new(duration, &profile).unwrap();
        assert_eq!(select_fn(&problem), method);
        assert_eq!(categorise(problem), name);
    }
}

#[test]
fn solution_rejects_mismatched_lengths() {
    let result = Solution::new(vec![Ratio::from_u64(1)], &[1, 2]);
    assert!(matches!(result, Err(SolutionError::LengthMismatch)));
}

#[test]
fn solution_rejects_levels_below_ground() {
    let result = Solution::new(vec![Ratio::from_u64(1), Ratio::from_u64(0)], &[1, 2]);
    assert!(matches!(result, Err(SolutionError::BelowGround)));
}

#[test]
fn full_formula_level() {
    // saturation water 4, water 9: one level of 2 + 5 / 3
    let problem = Problem::new(3, &[2, 0, 0]).unwrap();
    assert_eq!(solutions::select_fn(&problem), Method::Full);
    assert_eq!(levels(3, &[2, 0, 0]), vec![(11, 3); 3]);
}
