//! The problem: a terrain profile and the rain that falls on it, with the
//! aggregates that the solvers read.

use vstd::prelude::*;
use vstd::slice::slice_to_vec;
use crate::terrain::{
    ground_sum, max_height, min_height, lemma_ground_sum_bounded, lemma_min_height,
    lemma_peak_index, find_peak,
};

verus! {

/// A terrain profile with `water_0` units of rain on each column.
pub struct Problem {
    /// Rain depth per column.
    pub water_0: u64,
    /// Ground height per column.
    pub grounds: Vec<u64>,
    /// Total volume of water, conserved by every solver.
    pub water_tot: u64,
    pub groundsize: usize,
    pub ground_min: u64,
    pub ground_max: u64,
    pub ground_vol: u64,
    /// Volume that fills every well level with the highest column.
    pub saturation_water: u64,
}

/// Why a profile cannot be a problem.
#[derive(Debug, PartialEq, Eq, Structural)]
pub enum ProblemError {
    /// The profile has no column.
    EmptyProfile,
    /// A total volume does not fit in 64 bits.
    TooLarge,
}

impl Problem {
    /// The aggregates agree with the profile.
    pub open spec fn wf(&self) -> bool {
        &&& self.grounds.len() >= 1
        &&& self.groundsize == self.grounds.len()
        &&& self.ground_min == min_height(self.grounds@)
        &&& self.ground_max == max_height(self.grounds@)
        &&& self.ground_vol == ground_sum(self.grounds@)
        &&& self.water_tot == self.water_0 * self.grounds.len()
        &&& self.saturation_water == self.grounds.len() * self.ground_max - self.ground_vol
    }

    /// The problem of `duration` units of rain per column on `profile`.
    pub fn new(duration: u64, profile: &[u64]) -> (r: Result<Problem, ProblemError>)
        ensures
            r is Ok <==> profile@.len() >= 1 && duration * profile@.len() <= u64::MAX
                && profile@.len() * max_height(profile@) <= u64::MAX,
            r == Err::<Problem, ProblemError>(ProblemError::EmptyProfile) <==> profile@.len() == 0,
            r is Ok ==> r->Ok_0.wf() && r->Ok_0.grounds@ == profile@ && r->Ok_0.water_0 == duration,
    {
        let grounds: Vec<u64> = slice_to_vec(profile);
        let groundsize = grounds.len();
        if groundsize == 0 {
            return Err(ProblemError::EmptyProfile);
        }
        proof {
            assert(grounds@.subrange(0, groundsize as int) =~= grounds@);
            lemma_peak_index(grounds@);
            lemma_min_height(grounds@);
        }
        let ground_max = grounds[find_peak(&grounds, 0, groundsize)];
        let ground_min = lowest(&grounds);
        let water_tot = match duration.checked_mul(groundsize as u64) {
            Some(w) => w,
            None => {
                return Err(ProblemError::TooLarge);
            },
        };
        let brim = match (groundsize as u64).checked_mul(ground_max) {
            Some(b) => b,
            None => {
                return Err(ProblemError::TooLarge);
            },
        };
        let ground_vol = total(&grounds, ground_max);
        // amount of water that fills all wells level with the highest peak
        let saturation_water = brim - ground_vol;
        Ok(
            Problem {
                water_0: duration,
                grounds,
                water_tot,
                groundsize,
                ground_min,
                ground_max,
                ground_vol,
                saturation_water,
            },
        )
    }
}

/// The height of the lowest column.
fn lowest(g: &Vec<u64>) -> (r: u64)
    requires
        g.len() >= 1,
    ensures
        r == min_height(g@),
{
    let mut m = g[0];
    let mut k: usize = 1;
    assert(g@.subrange(0, 1) =~= seq![g@[0]]);
    while k < g.len()
        invariant
            1 <= k <= g.len(),
            m == min_height(g@.subrange(0, k as int)),
        decreases g.len() - k,
    {
        assert(g@.subrange(0, k + 1).drop_last() =~= g@.subrange(0, k as int));
        if g[k] < m {
            m = g[k];
        }
        k = k + 1;
    }
    assert(g@.subrange(0, g.len() as int) =~= g@);
    m
}

/// The total ground volume of `g`, whose columns are at most `h` high.
fn total(g: &Vec<u64>, h: u64) -> (r: u64)
    requires
        forall|k: int| 0 <= k < g.len() ==> g@[k] <= h,
        g.len() * h <= u64::MAX,
    ensures
        r == ground_sum(g@),
        r <= g.len() * h,
{
    let mut acc: u64 = 0;
    let mut k: usize = 0;
    assert(g@.subrange(0, 0).len() == 0);
    while k < g.len()
        invariant
            k <= g.len(),
            forall|j: int| 0 <= j < g.len() ==> g@[j] <= h,
            g.len() * h <= u64::MAX,
            acc == ground_sum(g@.subrange(0, k as int)),
        decreases g.len() - k,
    {
        let ghost next = g@.subrange(0, k + 1);
        proof {
            assert(next.drop_last() =~= g@.subrange(0, k as int));
            assert forall|j: int| 0 <= j < next.len() implies next[j] <= h by {
                assert(next[j] == g@[j]);
            }
            lemma_ground_sum_bounded(next, h as int);
            assert((k + 1) * h <= g.len() * h) by (nonlinear_arith)
                requires
                    k + 1 <= g.len(),
            ;
        }
        acc = acc + g[k];
        k = k + 1;
    }
    proof {
        assert(g@.subrange(0, g.len() as int) =~= g@);
        lemma_ground_sum_bounded(g@, h as int);
    }
    acc
}

} // verus!
