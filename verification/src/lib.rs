//! Discord discovery in a numeric time series: the subsequences most
//! dissimilar to every non-overlapping other subsequence of the same
//! length, found by an exhaustive search, by the word-indexed HOT SAX
//! heuristic, or by an incremental clustering index, under one
//! discovery loop that masks each find and searches on.
//!
//! The core works on two plain derived forms of the series: the SAX
//! word of each window, and the table of pairwise window distances as
//! order-preserving keys (the IEEE bit pattern of a non-negative
//! distance compares exactly as the distance does, with `DIST_INF` for
//! infinity). Every search here is verified against those forms; the
//! floating-point preprocessing that produces them stays outside.

use vstd::prelude::*;

mod errors;
mod rng;
mod trie;
mod words;
mod squeezer;
mod table;
mod strategy;
mod discovery;
mod dim_reduction;
mod laws;

pub use errors::HotSaxError;
pub use errors::check_params;
pub use errors::check_range;
pub use rng::RandomSource;
pub use rng::shuffle_indexes;
pub use table::DIST_INF;
pub use strategy::brute_force_internal;
pub use strategy::hot_sax_internal;
pub use strategy::hs_squeezer_internal;
pub use discovery::brute_force_top_n;
pub use discovery::brute_force_min_dist;
pub use discovery::brute_force_best;
pub use discovery::hotsax_top_n;
pub use discovery::hotsax_min_dist;
pub use discovery::hotsax_best;
pub use discovery::hs_squeezer_top_n;
pub use discovery::hs_squeezer_min_dist;
pub use discovery::hs_squeezer_best;
pub use trie::AugmentedTrie;
pub use words::attach_freq_sax_words;
pub use words::extract_hotsax_items;
pub use squeezer::Threshold;
pub use squeezer::squeezer;
pub use dim_reduction::paa_partition;
pub use dim_reduction::rescale_location;
pub use laws::lemma_brute_force_deterministic;
pub use laws::lemma_heuristic_deterministic;
pub use laws::lemma_strategies_agree;
pub use laws::lemma_strategies_agree_on_distance;
pub use laws::lemma_discovery_run_deterministic;
pub use laws::lemma_zero_threshold_matches_plain;

verus! {

} // verus!
