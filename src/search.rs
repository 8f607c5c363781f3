//! The decisions of the search driver: how much time a move gets under a
//! standard clock, when a search stops, and which combinations of budget
//! flags a request may carry.
use vstd::prelude::*;
use crate::board::BLACK;
use crate::tree::CHECKPOINT;

verus! {

/// The moves-to-go assumed when a clock gives none.
pub const DEFAULT_MOVES_TO_GO: u64 = 20;

/// The direct budget of a search: any of a node count, a depth and a time
/// in milliseconds; with none of them the search runs until stopped.
#[derive(Clone, Copy, Debug, PartialEq, Eq, Structural)]
pub struct Limits {
    pub maxnodes: Option<u64>,
    pub maxdepth: Option<u16>,
    pub movetime: Option<u64>,
    pub movestogo: Option<u64>,
}

/// Both sides' remaining time and increment, in milliseconds.
#[derive(Clone, Copy, Debug, PartialEq, Eq, Structural)]
pub struct StandardClock {
    pub btime: u64,
    pub wtime: u64,
    pub binc: u64,
    pub winc: u64,
    pub movestogo: Option<u64>,
}

/// The time a move gets: the remaining time shared over the moves to go,
/// plus half the increment.
pub open spec fn spec_allotted_time(remaining: u64, increment: u64, movestogo: Option<u64>) -> int {
    let moves = match movestogo {
        Some(m) => m,
        None => DEFAULT_MOVES_TO_GO,
    };
    remaining / moves + increment / 2
}

/// Computes the time a move gets under a standard clock.
pub fn allotted_time(remaining: u64, increment: u64, movestogo: Option<u64>) -> (r: u64)
    requires
        movestogo != Some(0u64),
        spec_allotted_time(remaining, increment, movestogo) <= u64::MAX,
    ensures
        r == spec_allotted_time(remaining, increment, movestogo),
{
    let moves = match movestogo {
        Some(m) => m,
        None => DEFAULT_MOVES_TO_GO,
    };
    remaining / moves + increment / 2
}

impl StandardClock {
    /// The limits of a search under this clock for the given side to move:
    /// a move time and nothing else.
    pub fn limits(&self, side_to_move: u8) -> (r: Limits)
        requires
            self.movestogo != Some(0u64),
            side_to_move == BLACK ==> spec_allotted_time(self.btime, self.binc, self.movestogo)
                <= u64::MAX,
            side_to_move != BLACK ==> spec_allotted_time(self.wtime, self.winc, self.movestogo)
                <= u64::MAX,
        ensures
            r.maxnodes.is_none(),
            r.maxdepth.is_none(),
            r.movestogo == self.movestogo,
            r.movetime == Some(
                if side_to_move == BLACK {
                    spec_allotted_time(self.btime, self.binc, self.movestogo)
                } else {
                    spec_allotted_time(self.wtime, self.winc, self.movestogo)
                } as u64,
            ),
    {
        let t = if side_to_move == BLACK {
            allotted_time(self.btime, self.binc, self.movestogo)
        } else {
            allotted_time(self.wtime, self.winc, self.movestogo)
        };
        Limits { maxnodes: None, maxdepth: None, movetime: Some(t), movestogo: self.movestogo }
    }
}

/// A search stops once it has materialized the node budget, gone deeper
/// than the depth budget, or run longer than the time budget.
pub open spec fn spec_should_stop(limits: Limits, nodes: u64, seldepth: u16, elapsed: u64) -> bool {
    (match limits.maxnodes {
        Some(n) => nodes >= n,
        None => false,
    }) || (match limits.maxdepth {
        Some(d) => seldepth > d,
        None => false,
    }) || (match limits.movetime {
        Some(t) => elapsed > t,
        None => false,
    })
}

impl Limits {
    /// Whether a search with these limits stops at a checkpoint where it
    /// has materialized `nodes` nodes, reached depth `seldepth` and run for
    /// `elapsed` milliseconds.
    pub fn should_stop(&self, nodes: u64, seldepth: u16, elapsed: u64) -> (r: bool)
        ensures
            r == spec_should_stop(*self, nodes, seldepth, elapsed),
    {
        let by_nodes = match self.maxnodes {
            Some(n) => nodes >= n,
            None => false,
        };
        let by_depth = match self.maxdepth {
            Some(d) => seldepth > d,
            None => false,
        };
        let by_time = match self.movetime {
            Some(t) => elapsed > t,
            None => false,
        };
        by_nodes || by_depth || by_time
    }
}

/// A search bounded by nodes alone, checked every `CHECKPOINT` playouts
/// with at most one node materialized per playout, halts with between the
/// budget and the budget plus `CHECKPOINT` nodes.
pub proof fn lemma_node_budget(limits: Limits, before: u64, after: u64, seldepth: u16, elapsed: u64)
    requires
        limits.maxnodes.is_some(),
        limits.maxdepth.is_none(),
        limits.movetime.is_none(),
        !spec_should_stop(limits, before, seldepth, elapsed),
        spec_should_stop(limits, after, seldepth, elapsed),
        after <= before + CHECKPOINT,
    ensures
        limits.maxnodes.unwrap() <= after < limits.maxnodes.unwrap() + CHECKPOINT,
{
}

/// Which flags of the `go` command a request carries.
#[derive(Clone, Copy, Debug, PartialEq, Eq, Structural)]
pub struct FlagSet {
    pub binc: bool,
    pub winc: bool,
    pub btime: bool,
    pub wtime: bool,
    pub depth: bool,
    pub nodes: bool,
    pub movetime: bool,
    pub infinite: bool,
    pub perft: bool,
    pub bulk: bool,
}

/// What a valid request asks for.
#[derive(Clone, Copy, Debug, PartialEq, Eq, Structural)]
pub enum Mode {
    /// A move-generation count, with or without bulk counting.
    Perft(bool),
    /// A search under a standard clock.
    Standard,
    /// A search under direct limits, possibly none.
    Direct,
}

/// Why a request was rejected.
#[derive(Clone, Copy, Debug, PartialEq, Eq, Structural)]
pub enum FlagError {
    /// Some but not all of the four standard clock flags.
    MissingClockFlags,
    /// Standard clock flags together with direct limits.
    MixedFamilies,
    /// A budget together with `infinite`.
    InfiniteWithLimits,
    /// `bulk` without `perft`.
    BulkWithoutPerft,
    /// `perft` together with a budget.
    PerftWithLimits,
}

impl FlagError {
    /// The message the command layer reports.
    pub fn message(&self) -> (r: &'static str) {
        match self {
            FlagError::MissingClockFlags => "bad flag set: missing standard time control flags",
            FlagError::MixedFamilies => "bad flag set: standard time control flags set alongside other limits",
            FlagError::InfiniteWithLimits => "bad flag set: time control flags set alongside infinite",
            FlagError::BulkWithoutPerft => "bad flag set: bulk flag set without perft flag",
            FlagError::PerftWithLimits => "bad flag set: time control flags set alongside perft",
        }
    }
}

impl FlagSet {
    pub open spec fn any_clock(&self) -> bool {
        self.btime || self.wtime || self.binc || self.winc
    }

    pub open spec fn all_clock(&self) -> bool {
        self.btime && self.wtime && self.binc && self.winc
    }

    pub open spec fn any_direct(&self) -> bool {
        self.depth || self.nodes || self.movetime
    }

    /// The outcome of validating a request, the first failing rule deciding
    /// the error.
    pub open spec fn spec_validate(&self) -> Result<Mode, FlagError> {
        if self.any_clock() && !self.all_clock() {
            Err(FlagError::MissingClockFlags)
        } else if self.any_clock() && self.any_direct() {
            Err(FlagError::MixedFamilies)
        } else if self.infinite && (self.any_clock() || self.any_direct()) {
            Err(FlagError::InfiniteWithLimits)
        } else if !self.perft && self.bulk {
            Err(FlagError::BulkWithoutPerft)
        } else if self.perft && (self.any_clock() || self.any_direct() || self.infinite) {
            Err(FlagError::PerftWithLimits)
        } else if self.perft {
            Ok(Mode::Perft(self.bulk))
        } else if self.any_clock() {
            Ok(Mode::Standard)
        } else {
            Ok(Mode::Direct)
        }
    }

    /// Checks that the flags name one budget family at most, and completely.
    pub fn validate(&self) -> (r: Result<Mode, FlagError>)
        ensures
            r == self.spec_validate(),
    {
        let any_clock = self.btime || self.wtime || self.binc || self.winc;
        let all_clock = self.btime && self.wtime && self.binc && self.winc;
        let any_direct = self.depth || self.nodes || self.movetime;
        if any_clock && !all_clock {
            Err(FlagError::MissingClockFlags)
        } else if any_clock && any_direct {
            Err(FlagError::MixedFamilies)
        } else if self.infinite && (any_clock || any_direct) {
            Err(FlagError::InfiniteWithLimits)
        } else if !self.perft && self.bulk {
            Err(FlagError::BulkWithoutPerft)
        } else if self.perft && (any_clock || any_direct || self.infinite) {
            Err(FlagError::PerftWithLimits)
        } else if self.perft {
            Ok(Mode::Perft(self.bulk))
        } else if any_clock {
            Ok(Mode::Standard)
        } else {
            Ok(Mode::Direct)
        }
    }
}

} // verus!
