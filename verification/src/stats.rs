//! Extremal statistics of a set of simulated deals, and the strict-inequality
//! policies by which one outcome is folded in and two partial results are
//! merged.

use vstd::prelude::*;

verus! {

/// Mathematical model of [`RunStatistics`]: the turn extremes, the hashes
/// that set them, and the count of suspicious games.
pub struct StatsModel {
    pub most_turns: nat,
    pub least_turns: nat,
    pub suspicious_games: nat,
    pub most_hash: Seq<char>,
    pub least_hash: Seq<char>,
}

/// The running extremal statistics of a batch: the longest and shortest games
/// seen with the hashes of the deals that set them, and how many games were
/// cut off as suspicious.
#[derive(Clone, PartialEq, Eq, Debug)]
pub struct RunStatistics {
    pub most_turns: usize,
    pub least_turns: usize,
    pub suspicious_games: usize,
    pub most_hash: Vec<char>,
    pub least_hash: Vec<char>,
}

impl View for RunStatistics {
    type V = StatsModel;

    open spec fn view(&self) -> StatsModel {
        StatsModel {
            most_turns: self.most_turns as nat,
            least_turns: self.least_turns as nat,
            suspicious_games: self.suspicious_games as nat,
            most_hash: self.most_hash@,
            least_hash: self.least_hash@,
        }
    }
}

/// The statistics before any game has been counted: no turns yet for the
/// maximum, the sentinel for the minimum, empty hashes.
pub open spec fn init_stats() -> StatsModel {
    StatsModel {
        most_turns: 0,
        least_turns: usize::MAX as nat,
        suspicious_games: 0,
        most_hash: Seq::empty(),
        least_hash: Seq::empty(),
    }
}

/// One simulated deal folded into the statistics. Each extreme updates only
/// on strict improvement: a tie never replaces the stored hash.
pub open spec fn fold_outcome(s: StatsModel, hash: Seq<char>, turns: nat, suspicious: bool) -> StatsModel {
    StatsModel {
        most_turns: if turns > s.most_turns {
            turns
        } else {
            s.most_turns
        },
        most_hash: if turns > s.most_turns {
            hash
        } else {
            s.most_hash
        },
        least_turns: if turns < s.least_turns {
            turns
        } else {
            s.least_turns
        },
        least_hash: if turns < s.least_turns {
            hash
        } else {
            s.least_hash
        },
        suspicious_games: s.suspicious_games + if suspicious {
            1nat
        } else {
            0nat
        },
    }
}

/// Two partial results merged: the numeric extremes combine by maximum and
/// minimum, the suspicious counts add, and on a tied extreme the accumulator
/// keeps its hash — so merging worker results in shard order makes the
/// earliest shard win a tie, a deterministic policy.
pub open spec fn merge_spec(acc: StatsModel, incoming: StatsModel) -> StatsModel {
    StatsModel {
        most_turns: if incoming.most_turns > acc.most_turns {
            incoming.most_turns
        } else {
            acc.most_turns
        },
        most_hash: if incoming.most_turns > acc.most_turns {
            incoming.most_hash
        } else {
            acc.most_hash
        },
        least_turns: if incoming.least_turns < acc.least_turns {
            incoming.least_turns
        } else {
            acc.least_turns
        },
        least_hash: if incoming.least_turns < acc.least_turns {
            incoming.least_hash
        } else {
            acc.least_hash
        },
        suspicious_games: acc.suspicious_games + incoming.suspicious_games,
    }
}

/// Builds the empty statistics value.
pub fn new_stats() -> (r: RunStatistics)
    ensures
        r@ == init_stats(),
{
    RunStatistics {
        most_turns: 0,
        least_turns: usize::MAX,
        suspicious_games: 0,
        most_hash: Vec::new(),
        least_hash: Vec::new(),
    }
}

/// Merges a second partial result into an accumulated one under the policy
/// of [`merge_spec`]. The suspicious counts must fit a machine word when
/// added; callers that cannot guarantee this must check first.
pub fn merge_stats(acc: RunStatistics, incoming: RunStatistics) -> (r: RunStatistics)
    requires
        acc.suspicious_games + incoming.suspicious_games <= usize::MAX,
    ensures
        r@ == merge_spec(acc@, incoming@),
{
    let mut r = acc;
    if incoming.most_turns > r.most_turns {
        r.most_turns = incoming.most_turns;
        r.most_hash = incoming.most_hash;
    }
    if incoming.least_turns < r.least_turns {
        r.least_turns = incoming.least_turns;
        r.least_hash = incoming.least_hash;
    }
    r.suspicious_games = r.suspicious_games + incoming.suspicious_games;
    r
}

} // verus!
