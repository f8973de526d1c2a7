//! Engine configuration: worker count, search-tree tuning and the endgame
//! policy knobs.  Ratios are carried as integers (permille) so the rest of
//! the crate can reason about them exactly.

use vstd::prelude::*;

verus! {

/// All the knobs the engine reads.
#[derive(Clone, Debug, PartialEq)]
pub struct Config {
    /// How many playout workers the coordinator spins up per search.
    pub threads: usize,
    /// Whether endgame positions are played out rather than counted.
    pub play_out_aftermath: bool,
    /// Whether a later search may reuse the matching subtree of the
    /// previous one.
    pub reuse_subtree: bool,
    /// A leaf is expanded once its play count has reached this threshold.
    pub expand_after: u64,
    /// `mostly_losses` cutoff, in permille of the win ratio.
    pub end_of_game_cutoff_permille: u64,
    /// Prior play count seeded into fresh nodes of the prior-based tree.
    pub priors_plays: u64,
    /// Prior win count seeded into fresh nodes of the prior-based tree.
    pub priors_wins: u64,
}

/// The configuration used when nothing else is asked for.
pub open spec fn spec_default_config() -> Config {
    Config {
        threads: 1,
        play_out_aftermath: false,
        reuse_subtree: true,
        expand_after: 1,
        end_of_game_cutoff_permille: 80,
        priors_plays: 10,
        priors_wins: 5,
    }
}

impl Default for Config {
    fn default() -> (r: Config)
        ensures
            r == spec_default_config(),
    {
        Config {
            threads: 1,
            play_out_aftermath: false,
            reuse_subtree: true,
            expand_after: 1,
            end_of_game_cutoff_permille: 80,
            priors_plays: 10,
            priors_wins: 5,
        }
    }
}

} // verus!
