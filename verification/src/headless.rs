//! Windowless run: advance the lattice and report diagnostics.
//!
//! Two uses.  It benchmarks the solver without the renderer competing for the
//! GPU, and it is how the physics is checked: the transition should complete,
//! the plasma should be stirred, and total energy should be conserved once
//! nucleation is over.  None of that is visible from a screenshot.

use vstd::prelude::*;

use crate::config::Config;
use crate::gpu::sim::Diagnostics;
use crate::scalar::{Scalar, THREE};

verus! {

#[derive(Clone, Copy, Debug, PartialEq, Eq, Structural)]
pub struct Report {
    pub time: Scalar,
    pub diag: Diagnostics,
    /// Radius of a single sphere with the same volume as the broken phase, in
    /// lattice cells.  Meaningful while bubbles are still separate.
    pub equivalent_radius: Scalar,
}

/// `4 pi`.
pub const FOUR_PI: u32 = 0x4149_0fdb;

/// The cube of the equivalent radius.
pub open spec fn radius_cubed_spec(diag: Diagnostics, cells: u64) -> Scalar {
    diag.broken_fraction.times(Scalar::of_integer(cells)).times(Scalar::of_bits(THREE)).over(
        Scalar::of_bits(FOUR_PI),
    )
}

/// The cube of the radius of a sphere with the volume of the broken phase.
#[verifier::when_used_as_spec(radius_cubed_spec)]
pub fn radius_cubed(diag: Diagnostics, cells: u64) -> (r: Scalar)
    ensures
        r == radius_cubed_spec(diag, cells),
{
    let volume: Scalar = diag.broken_fraction.times(Scalar::of_integer(cells));
    volume.times(Scalar::of_bits(THREE)).over(Scalar::of_bits(FOUR_PI))
}

/// How many steps to make without a window, and how often to report; nothing
/// where the run is to have one.
pub open spec fn plan_of(config: Config) -> Option<(u64, u64)> {
    if config.headless is Some || config.screenshot is Some {
        let steps = match config.headless {
            Some(n) => n,
            None => 0,
        };
        let every = match config.report_every {
            Some(n) => n,
            None => if steps / 20 > 1 {
                (steps / 20) as u64
            } else {
                1
            },
        };
        Some((steps, every))
    } else {
        None
    }
}

/// How many steps to make without a window, and how often to report.
pub fn plan(config: &Config) -> (r: Option<(u64, u64)>)
    ensures
        r == plan_of(*config),
{
    if config.headless.is_some() || config.screenshot.is_some() {
        let steps: u64 = match config.headless {
            Some(n) => n,
            None => 0,
        };
        let every: u64 = match config.report_every {
            Some(n) => n,
            None => if steps / 20 > 1 {
                steps / 20
            } else {
                1
            },
        };
        Some((steps, every))
    } else {
        None
    }
}

/// The solution is no longer finite.
#[derive(Clone, Copy, Debug, PartialEq, Eq, Structural)]
pub struct BlowUp {
    pub step: u64,
}

/// How far a windowless run has come.
#[derive(Clone, Copy, Debug, PartialEq, Eq, Structural)]
pub struct Progress {
    pub steps: u64,
    pub report_every: u64,
    pub done: u64,
    /// Total energy once every bubble is in.
    pub baseline: Option<Scalar>,
}

impl Progress {
    pub open spec fn wf(self) -> bool {
        self.done <= self.steps && (self.report_every > 0 || self.steps == 0)
    }

    pub fn new(steps: u64, report_every: u64) -> (r: Progress)
        requires
            report_every > 0 || steps == 0,
        ensures
            r.wf(),
            r == (Progress { steps, report_every, done: 0, baseline: None }),
    {
        Progress { steps, report_every, done: 0, baseline: None }
    }

    /// How many steps come before the next report.
    pub open spec fn chunk_spec(self) -> u64 {
        if self.report_every <= self.steps - self.done {
            self.report_every
        } else {
            (self.steps - self.done) as u64
        }
    }

    /// How many steps come before the next report; none when the run is over.
    pub fn next_chunk(&self) -> (r: Option<u64>)
        requires
            self.wf(),
        ensures
            r == if self.done < self.steps {
                Some(self.chunk_spec())
            } else {
                None
            },
    {
        if self.done >= self.steps {
            return None;
        }
        let left: u64 = self.steps - self.done;
        if self.report_every <= left {
            Some(self.report_every)
        } else {
            Some(left)
        }
    }

    /// The state after a report.  The conservation check is baselined only once
    /// every bubble is in, since stamping a bubble adds its energy to the box
    /// by hand.
    pub open spec fn reported(self, diag: Diagnostics, remaining: usize) -> Progress {
        Progress {
            done: (self.done + self.chunk_spec()) as u64,
            baseline: if self.baseline is None && remaining == 0 {
                Some(diag.mean_energy)
            } else {
                self.baseline
            },
            ..self
        }
    }

    /// Take in the report at the end of a chunk.  Says how the energy compares
    /// to the baseline; until every bubble is in there is nothing to compare
    /// against.
    pub fn record(&mut self, diag: &Diagnostics, remaining: usize) -> (r: Result<
        Option<Scalar>,
        BlowUp,
    >)
        requires
            old(self).wf(),
            old(self).done < old(self).steps,
        ensures
            final(self).wf(),
            final(self).done == old(self).reported(*diag, remaining).done,
            match r {
                Err(why) => {
                    &&& !(diag.mean_energy.is_finite() && diag.max_velocity.is_finite())
                    &&& why.step == final(self).done
                    &&& *final(self) == (Progress { done: final(self).done, ..*old(self) })
                },
                Ok(ratio) => {
                    &&& diag.mean_energy.is_finite() && diag.max_velocity.is_finite()
                    &&& *final(self) == old(self).reported(*diag, remaining)
                    &&& ratio == match final(self).baseline {
                        Some(b) => Some(diag.mean_energy.over(b)),
                        None => None,
                    }
                },
            },
    {
        let left: u64 = self.steps - self.done;
        let chunk: u64 = if self.report_every <= left {
            self.report_every
        } else {
            left
        };
        self.done = self.done + chunk;
        if !(diag.mean_energy.is_finite() && diag.max_velocity.is_finite()) {
            return Err(BlowUp { step: self.done });
        }
        if self.baseline.is_none() && remaining == 0 {
            self.baseline = Some(diag.mean_energy);
        }
        match self.baseline {
            Some(b) => Ok(Some(diag.mean_energy.over(b))),
            None => Ok(None),
        }
    }
}

/// How many reports a run makes.
pub open spec fn reports(steps: nat, done: nat, every: nat) -> nat
    decreases
            (if done < steps {
                steps - done
            } else {
                0
            }),
{
    if done >= steps || every == 0 {
        0
    } else {
        1 + reports(steps, done + every, every)
    }
}

/// A run ends, after as many reports as it takes, and makes all its steps.
pub proof fn law_run_makes_every_step(p: Progress, diag: Diagnostics, remaining: usize)
    requires
        p.wf(),
        p.done < p.steps,
    ensures
        p.reported(diag, remaining).wf(),
        p.done < p.reported(diag, remaining).done <= p.steps,
        reports(p.steps as nat, p.done as nat, p.report_every as nat) == 1 + reports(
            p.steps as nat,
            p.reported(diag, remaining).done as nat,
            p.report_every as nat,
        ),
{
    let steps = p.steps as nat;
    let every = p.report_every as nat;
    assert(reports(steps, p.done as nat, every) == 1 + reports(steps, p.done as nat + every, every));
    assert(reports(steps, steps, every) == 0);
}

/// The baseline, once there, stays.
pub proof fn law_baseline_stays(p: Progress, diag: Diagnostics, remaining: usize)
    requires
        p.baseline is Some,
    ensures
        p.reported(diag, remaining).baseline == p.baseline,
{
}

proof fn lemma_reports(steps: nat, done: nat, every: nat)
    requires
        every > 0,
        done <= steps,
    ensures
        (steps - done) <= reports(steps, done, every) * every,
        done < steps ==> (reports(steps, done, every) - 1) * every < steps - done,
    decreases steps - done,
{
    if done < steps {
        let next = done + every;
        if next < steps {
            lemma_reports(steps, next, every);
            let n = reports(steps, next, every);
            assert((n + 1) * every == n * every + every && n * every == (n - 1) * every + every)
                by (nonlinear_arith);
        } else {
            assert(reports(steps, next, every) == 0);
            assert(1 * every == every && 0 * every == 0);
        }
    } else {
        assert(0 * every == 0);
    }
}

/// Left to itself, a run of at least twenty steps reports twenty times, or up
/// to nineteen times more where its length is no multiple of twenty.
pub proof fn law_default_is_twenty_reports(config: Config)
    requires
        config.report_every is None,
        plan_of(config) matches Some(plan) && plan.0 >= 20,
    ensures
        ({
            let (steps, every) = plan_of(config)->0;
            let n = reports(steps as nat, 0, every as nat);
            &&& 20 <= n <= 39
            &&& steps % 20 == 0 ==> n == 20
        }),
{
    let (steps, every) = plan_of(config)->0;
    let n = reports(steps as nat, 0, every as nat);
    lemma_reports(steps as nat, 0, every as nat);
    assert(every == steps / 20);
    assert(n >= 20) by (nonlinear_arith)
        requires
            steps <= n * every,
            steps >= 20 * every,
            every > 0,
            n >= 0,
            steps > 19 * every,
    ;
    assert(n <= 39) by (nonlinear_arith)
        requires
            (n - 1) * every < steps,
            steps < 20 * every + 20,
            every >= 1,
    ;
    if steps % 20 == 0 {
        assert(n <= 20) by (nonlinear_arith)
            requires
                (n - 1) * every < steps,
                steps == 20 * every,
                every >= 1,
        ;
    }
}

} // verus!
