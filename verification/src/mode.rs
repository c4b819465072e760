//! Execution modes.

use crate::text::same_text;
use vstd::prelude::*;

verus! {

/// How eagerly kernels are compiled and how hard workers wait for them.
#[derive(Debug, Clone, Copy, PartialEq, Eq, Structural)]
pub enum ExecutionMode {
    /// Kernels are compiled by the worker pool.
    Default,
    /// Kernels are compiled at once, by the caller.
    Eager,
    /// Workers stay awake while they wait.
    Hyper,
    /// One dedicated worker compiles everything, without an optimization pass.
    Xtreme,
}

/// The number of a mode.
pub open spec fn mode_code(m: ExecutionMode) -> u8 {
    match m {
        ExecutionMode::Default => 0,
        ExecutionMode::Eager => 1,
        ExecutionMode::Hyper => 2,
        ExecutionMode::Xtreme => 3,
    }
}

/// The mode with a number; unknown numbers stand for the first one.
pub open spec fn coded_mode(code: u8) -> ExecutionMode {
    if code == 1 {
        ExecutionMode::Eager
    } else if code == 2 {
        ExecutionMode::Hyper
    } else if code == 3 {
        ExecutionMode::Xtreme
    } else {
        ExecutionMode::Default
    }
}

/// The mode of a name; unknown names stand for the first one.
pub open spec fn mode_named(name: Seq<char>) -> ExecutionMode {
    if name == "eager"@ {
        ExecutionMode::Eager
    } else if name == "hyper"@ {
        ExecutionMode::Hyper
    } else if name == "xtreme"@ {
        ExecutionMode::Xtreme
    } else {
        ExecutionMode::Default
    }
}

/// A mode is found again by its number.
pub proof fn law_mode_code(m: ExecutionMode)
    ensures
        coded_mode(mode_code(m)) == m,
{
}

impl ExecutionMode {
    /// The number of the mode.
    pub fn code(self) -> (r: u8)
        ensures
            r == mode_code(self),
    {
        match self {
            ExecutionMode::Default => 0,
            ExecutionMode::Eager => 1,
            ExecutionMode::Hyper => 2,
            ExecutionMode::Xtreme => 3,
        }
    }

    /// The mode with a number.
    pub fn from_code(code: u8) -> (r: Self)
        ensures
            r == coded_mode(code),
    {
        match code {
            1 => ExecutionMode::Eager,
            2 => ExecutionMode::Hyper,
            3 => ExecutionMode::Xtreme,
            _ => ExecutionMode::Default,
        }
    }

    /// The mode of a name.
    pub fn from_name(name: &str) -> (r: Self)
        ensures
            r == mode_named(name@),
    {
        if same_text(name, "eager") {
            ExecutionMode::Eager
        } else if same_text(name, "hyper") {
            ExecutionMode::Hyper
        } else if same_text(name, "xtreme") {
            ExecutionMode::Xtreme
        } else {
            ExecutionMode::Default
        }
    }
}

/// The current mode, and what it has set going.
#[derive(Debug, Clone, Copy, PartialEq, Eq, Structural)]
pub struct ModeState {
    /// The number of the mode.
    pub code: u8,
    /// Whether workers see the dedicated mode.
    pub xtreme_active: bool,
    /// Whether the dedicated worker has been started.
    pub worker_started: bool,
}

/// What a change of mode asks for.
#[derive(Debug, Clone, Copy, PartialEq, Eq, Structural)]
pub struct ModeChange {
    /// Whether the process runs at the highest priority from now on.
    pub elevate: bool,
    /// Whether the dedicated worker is to be started now.
    pub start_worker: bool,
}

impl ModeState {
    /// That workers see the dedicated mode exactly while it is set.
    pub open spec fn wf(self) -> bool {
        self.xtreme_active == (coded_mode(self.code) is Xtreme)
    }

    /// The state at the start.
    pub fn new() -> (r: Self)
        ensures
            r.wf(),
            coded_mode(r.code) is Default,
            !r.worker_started,
    {
        ModeState { code: 0, xtreme_active: false, worker_started: false }
    }

    /// The current mode.
    pub fn get_execution_mode(&self) -> (r: ExecutionMode)
        ensures
            r == coded_mode(self.code),
    {
        ExecutionMode::from_code(self.code)
    }

    /// Changes the mode. The dedicated worker is started with the first change
    /// to its mode, and never again.
    pub fn set_execution_mode(&mut self, mode: ExecutionMode) -> (r: ModeChange)
        ensures
            final(self).wf(),
            coded_mode(final(self).code) == mode,
            final(self).code == mode_code(mode),
            final(self).xtreme_active == (mode is Xtreme),
            final(self).worker_started == (old(self).worker_started || mode is Xtreme),
            r.elevate == (mode is Xtreme),
            r.start_worker == (mode is Xtreme && !old(self).worker_started),
    {
        let is_xtreme: bool = match mode {
            ExecutionMode::Xtreme => true,
            _ => false,
        };
        self.code = mode.code();
        self.xtreme_active = is_xtreme;
        let start_worker: bool = self.update_pool_mode();
        ModeChange { elevate: is_xtreme, start_worker }
    }

    /// Whether the dedicated worker is to be started now; if so, it counts as
    /// started.
    pub fn update_pool_mode(&mut self) -> (start: bool)
        ensures
            start == (old(self).xtreme_active && !old(self).worker_started),
            final(self).worker_started == (old(self).worker_started || old(self).xtreme_active),
            final(self).code == old(self).code,
            final(self).xtreme_active == old(self).xtreme_active,
    {
        if self.xtreme_active && !self.worker_started {
            self.worker_started = true;
            true
        } else {
            false
        }
    }

    /// What is left of the state when the process is interrupted: the first
    /// mode, and no worker that spins.
    pub fn emergency_cleanup(&mut self)
        ensures
            final(self).wf(),
            final(self).code == 0,
            !final(self).xtreme_active,
            final(self).worker_started == old(self).worker_started,
    {
        self.xtreme_active = false;
        self.code = 0;
    }
}

} // verus!
