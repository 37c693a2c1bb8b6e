//! The flip engine as a state machine: it decides which register access
//! comes next and what to write; the caller performs the access and reports
//! how it went.

use crate::parse::BitSpec;
use crate::plan::{flip_plan, plan_of, Target};
use crate::register::{toggled, RegisterValue};
use vstd::prelude::*;

verus! {

/// The register access that the engine asks for next.
#[derive(Clone, Copy, Debug, PartialEq, Eq)]
pub enum Action {
    /// Read the register of `target.core`.
    Read { target: Target },
    /// Write `value` to the register of `target.core`.
    Write { target: Target, value: RegisterValue },
    /// Every position has been dealt with.
    Done,
}

/// How a register access went.
#[derive(Clone, Copy, Debug, PartialEq, Eq)]
pub enum Outcome {
    /// The read returned this value.
    Read(RegisterValue),
    /// The write went through.
    Written,
    /// The access failed.
    Failed,
}

/// The half of a read-modify-write cycle that an access belongs to.
#[derive(Clone, Copy, Debug, PartialEq, Eq, Structural)]
pub enum Stage {
    Read,
    Write,
}

/// A position that was not toggled, and the access that failed.
#[derive(Clone, Copy, Debug, PartialEq, Eq, Structural)]
pub struct Failure {
    pub target: Target,
    pub stage: Stage,
}

/// What an engine knows at one moment.
pub struct EngineState {
    /// All positions to toggle, in order.
    pub plan: Seq<Target>,
    /// How many of them have been dealt with.
    pub position: nat,
    /// The bytes to write to the current position, once its register was read.
    pub staged: Option<Seq<u8>>,
    /// The positions given up so far, in order.
    pub failures: Seq<Failure>,
}

impl EngineState {
    /// Whether every position has been dealt with.
    pub open spec fn is_done(self) -> bool {
        self.position >= self.plan.len()
    }

    /// The position that the engine is working on.
    pub open spec fn current(self) -> Target
        recommends
            !self.is_done(),
    {
        self.plan[self.position as int]
    }

    /// Whether `action` is what the engine asks for in this state: a read of
    /// the current position, then a write of the staged bytes to it, and
    /// `Done` when no position is left.
    pub open spec fn asks_for(self, action: Action) -> bool {
        if self.is_done() {
            action is Done
        } else {
            match self.staged {
                None => action == (Action::Read { target: self.current() }),
                Some(bytes) => action matches Action::Write { target, value }
                    && target == self.current() && value@ == bytes,
            }
        }
    }

    /// The state with the current position left behind.
    pub open spec fn moved_on(self) -> EngineState {
        EngineState { position: self.position + 1, staged: None, ..self }
    }

    /// The state with the current position given up at `stage`.
    pub open spec fn given_up(self, stage: Stage) -> EngineState {
        EngineState {
            failures: self.failures.push(Failure { target: self.current(), stage }),
            ..self.moved_on()
        }
    }

    /// The state after the access that was asked for ended in `outcome`.
    ///
    /// A value that was read is staged with the current bit toggled. A write
    /// that went through completes the position. Anything else gives the
    /// position up, and the engine moves on to the next one. Once done, the
    /// state no longer changes.
    pub open spec fn after(self, outcome: Outcome) -> EngineState {
        if self.is_done() {
            self
        } else {
            match (self.staged, outcome) {
                (None, Outcome::Read(value)) => EngineState {
                    staged: Some(toggled(value@, self.current().bit as int)),
                    ..self
                },
                (None, _) => self.given_up(Stage::Read),
                (Some(_), Outcome::Written) => self.moved_on(),
                (Some(_), _) => self.given_up(Stage::Write),
            }
        }
    }
}

impl EngineState {
    /// How many accesses are left at most: two for every position not yet
    /// dealt with, less the read of the current one if it is done.
    pub open spec fn accesses_left(self) -> nat {
        if self.is_done() {
            0
        } else if self.staged is Some {
            (2 * (self.plan.len() - self.position) - 1) as nat
        } else {
            (2 * (self.plan.len() - self.position)) as nat
        }
    }
}

/// Progress: whatever the outcome of an access, fewer accesses are left after
/// it, and the plan stays what it was. So every run ends, failures or not.
pub proof fn lemma_step_makes_progress(state: EngineState, outcome: Outcome)
    requires
        !state.is_done(),
    ensures
        state.after(outcome).plan == state.plan,
        state.after(outcome).accesses_left() < state.accesses_left(),
{
}

/// A failure costs the current position and nothing else: the engine goes on
/// with the next position of the plan.
pub proof fn lemma_failure_skips_one(state: EngineState)
    requires
        !state.is_done(),
    ensures
        state.after(Outcome::Failed).position == state.position + 1,
        state.after(Outcome::Failed).staged is None,
        state.after(Outcome::Failed).failures.len() == state.failures.len() + 1,
        state.after(Outcome::Failed).failures.last().target == state.current(),
{
}

/// The flip engine: walks the plan of a list of bit specifications, one
/// read-modify-write cycle per position.
pub struct FlipEngine {
    plan: Vec<Target>,
    position: usize,
    staged: Option<RegisterValue>,
    failures: Vec<Failure>,
}

impl View for FlipEngine {
    type V = EngineState;

    closed spec fn view(&self) -> EngineState {
        EngineState {
            plan: self.plan@,
            position: self.position as nat,
            staged: match self.staged {
                Some(value) => Some(value@),
                None => None,
            },
            failures: self.failures@,
        }
    }
}

impl FlipEngine {
    /// An engine at the start of the plan of `bitspecs` on a machine of
    /// `num_cores` cores.
    pub fn new(bitspecs: &Vec<BitSpec>, num_cores: u16) -> (engine: FlipEngine)
        ensures
            engine@ == (EngineState {
                plan: plan_of(bitspecs@, num_cores as nat),
                position: 0,
                staged: None,
                failures: Seq::empty(),
            }),
    {
        let plan = flip_plan(bitspecs, num_cores);
        FlipEngine { plan, position: 0, staged: None, failures: Vec::new() }
    }

    /// The access to perform next.
    pub fn action(&self) -> (action: Action)
        ensures
            self@.asks_for(action),
    {
        if self.position >= self.plan.len() {
            Action::Done
        } else {
            let target = self.plan[self.position];
            match self.staged {
                None => Action::Read { target },
                Some(value) => Action::Write { target, value },
            }
        }
    }

    /// Takes in how the access went that [`FlipEngine::action`] asked for.
    pub fn step(&mut self, outcome: Outcome)
        ensures
            final(self)@ == old(self)@.after(outcome),
    {
        if self.position >= self.plan.len() {
            return ;
        }
        let target = self.plan[self.position];
        match (self.staged, outcome) {
            (None, Outcome::Read(value)) => {
                self.staged = Some(value.toggle_bit(target.bit));
            },
            (None, _) => {
                self.failures.push(Failure { target, stage: Stage::Read });
                self.position = self.position + 1;
            },
            (Some(_), Outcome::Written) => {
                self.staged = None;
                self.position = self.position + 1;
            },
            (Some(_), _) => {
                self.failures.push(Failure { target, stage: Stage::Write });
                self.staged = None;
                self.position = self.position + 1;
            },
        }
    }

    /// The positions given up so far, in order.
    pub fn failures(&self) -> (failures: &Vec<Failure>)
        ensures
            failures@ == self@.failures,
    {
        &self.failures
    }
}

} // verus!
