//! Parameters of index construction and search.

use vstd::prelude::*;
use crate::distance::Metric;
use crate::error::{ends, invalid_input, overflow, PrismResult, Verdict};
use crate::single::{finite, is_finite, less, less_than, ONE};

verus! {

/// How many attribute projections the selection of cross-cell neighbours
/// covers at most.
pub const MAX_COVERING_SUBSETS: usize = 4_096;

/// Up to how many cells all pairs of cells may be ranked.
pub const MAX_CROSS_CELL_EXACT_RANKING_LIMIT: usize = 8_192;

/// Parameters of an index.  Fractions are single-precision bit patterns.
#[derive(Clone, Debug)]
pub struct PrismConfig {
    /// Number of neighbours that pruning within a cell aims at.
    pub m_local: usize,
    /// Number of neighbours in other cells that each point selects.
    pub m_greedy: usize,
    /// Number of random neighbours per point; zero, or even and at least four.
    pub m_random: usize,
    /// How many attributes the covered projections have.
    pub t: usize,
    /// How much distance counts against diversity; zero not at all.
    pub alpha: u32,
    /// How strict the second pruning pass within a cell is, at least one.
    pub vamana_alpha: u32,
    /// Width of the searches during construction.
    pub beam_width: usize,
    /// Up to how many cells all pairs of cells are ranked.
    pub cross_cell_exact_ranking_limit: usize,
    /// How vectors are compared.
    pub metric: Metric,
    /// From which selectivity on a filter is broad.
    pub sigma_high: u32,
    /// Up to which selectivity a filter is narrow.
    pub sigma_low: u32,
    /// How many bridges a search may use, per unit of width.
    pub beta: u32,
    /// How much farther than the worst result a search looks.
    pub epsilon: u32,
    /// How many candidates per unit of width sketches preselect; zero for none.
    pub binary_rerank: usize,
    /// Up to how many eligible points are scanned; zero for never.
    pub scan_threshold: usize,
    /// Up to how many eligible points in several cells, but not all, are
    /// scanned; zero for never.
    pub multi_cell_scan_threshold: usize,
    /// By how much searches in graphs are widened, at least one.
    pub graph_expansion: usize,
    /// Seed of all random choices.
    pub build_seed: u64,
}

impl Default for PrismConfig {
    fn default() -> (config: PrismConfig)
        ensures
            config.m_local == 48,
            config.m_greedy == 12,
            config.m_random == 4,
            config.t == 2,
            config.alpha == ONE,
            config.vamana_alpha == ONE,
            config.beam_width == 128,
            config.cross_cell_exact_ranking_limit == 4_096,
            config.metric == Metric::L2,
            config.sigma_high == 0x3dcc_cccd,
            config.sigma_low == 0x3a83_126f,
            config.beta == 0x4040_0000,
            config.epsilon == 0x3e4c_cccd,
            config.binary_rerank == 0,
            config.scan_threshold == 20_000,
            config.multi_cell_scan_threshold == 500_000,
            config.graph_expansion == 3,
            config.build_seed == 0x5052_4953_4d41_4e4e,
    {
        PrismConfig {
            m_local: 48,
            m_greedy: 12,
            m_random: 4,
            t: 2,
            alpha: ONE,
            vamana_alpha: ONE,
            beam_width: 128,
            cross_cell_exact_ranking_limit: 4_096,
            metric: Metric::L2,
            sigma_high: 0x3dcc_cccd,
            sigma_low: 0x3a83_126f,
            beta: 0x4040_0000,
            epsilon: 0x3e4c_cccd,
            binary_rerank: 0,
            scan_threshold: 20_000,
            multi_cell_scan_threshold: 500_000,
            graph_expansion: 3,
            build_seed: 0x5052_4953_4d41_4e4e,
        }
    }
}

/// A finite number that is not negative.
pub open spec fn nonnegative(bits: u32) -> bool {
    is_finite(bits) && !less(bits, 0)
}

/// A number between zero and one.
pub open spec fn is_fraction(bits: u32) -> bool {
    nonnegative(bits) && !less(ONE, bits)
}

/// The largest number of neighbours that can be represented.
pub open spec fn largest_parameter() -> int {
    if u32::MAX < isize::MAX {
        u32::MAX as int
    } else {
        isize::MAX as int
    }
}

impl PrismConfig {
    /// Every parameter is in its range, apart from what can be represented.
    pub open spec fn in_range(&self) -> bool {
        &&& self.m_local > 0
        &&& self.beam_width > 0
        &&& self.m_random == 0 || (self.m_random >= 4 && self.m_random % 2 == 0)
        &&& nonnegative(self.alpha)
        &&& is_finite(self.vamana_alpha) && !less(self.vamana_alpha, ONE)
        &&& is_fraction(self.sigma_low)
        &&& is_fraction(self.sigma_high)
        &&& !less(self.sigma_high, self.sigma_low)
        &&& nonnegative(self.beta)
        &&& nonnegative(self.epsilon)
        &&& self.graph_expansion > 0
        &&& self.cross_cell_exact_ranking_limit <= MAX_CROSS_CELL_EXACT_RANKING_LIMIT
    }

    /// Whether the parameters are valid.
    pub open spec fn verdict(&self) -> Verdict {
        if !self.in_range() {
            Verdict::InvalidInput
        } else if self.m_local > largest_parameter() || self.m_greedy > largest_parameter()
            || self.m_random > largest_parameter() || self.beam_width > largest_parameter() {
            Verdict::Overflow
        } else {
            Verdict::Accepted
        }
    }

    /// Checks the parameters.
    pub fn validate(&self) -> (result: PrismResult<()>)
        ensures
            ends(result, self.verdict()),
    {
        if self.m_local == 0 {
            return Err(invalid_input("m_local must be greater than zero"));
        }
        if self.beam_width == 0 {
            return Err(invalid_input("beam_width must be greater than zero"));
        }
        if self.m_random != 0 && (self.m_random < 4 || self.m_random % 2 != 0) {
            return Err(invalid_input("m_random must be 0 or an even value of at least 4"));
        }
        if !finite(self.alpha) || less_than(self.alpha, 0) {
            return Err(invalid_input("alpha must be finite and nonnegative"));
        }
        if !finite(self.vamana_alpha) || less_than(self.vamana_alpha, ONE) {
            return Err(invalid_input("vamana_alpha must be finite and at least 1"));
        }
        if !fraction_given(self.sigma_low) || !fraction_given(self.sigma_high) || less_than(
            self.sigma_high,
            self.sigma_low,
        ) {
            return Err(
                invalid_input(
                    "selectivity thresholds must satisfy 0 <= sigma_low <= sigma_high <= 1",
                ),
            );
        }
        if !finite(self.beta) || less_than(self.beta, 0) {
            return Err(invalid_input("beta must be finite and nonnegative"));
        }
        if !finite(self.epsilon) || less_than(self.epsilon, 0) {
            return Err(invalid_input("epsilon must be finite and nonnegative"));
        }
        if self.graph_expansion == 0 {
            return Err(invalid_input("graph_expansion must be greater than zero"));
        }
        if self.cross_cell_exact_ranking_limit > MAX_CROSS_CELL_EXACT_RANKING_LIMIT {
            return Err(
                invalid_input("cross_cell_exact_ranking_limit must be between 0 and 8192"),
            );
        }
        let limit: usize = parameter_limit();
        if self.m_local > limit || self.m_greedy > limit || self.m_random > limit
            || self.beam_width > limit {
            return Err(overflow("a graph parameter exceeds the maximum representable one"));
        }
        Ok(())
    }

    /// Searches may walk the graph across cells.
    pub open spec fn global_in_use(&self) -> bool {
        &&& self.metric != Metric::InnerProduct
        &&& less(self.sigma_low, self.sigma_high)
        &&& self.m_greedy > 0 || self.m_random > 0
    }

    /// Some search over `population` points walks a graph.
    pub open spec fn local_built(&self, population: int) -> bool {
        &&& self.metric != Metric::InnerProduct
        &&& self.scan_threshold == 0 || population > self.scan_threshold
    }

    /// Some search over `population` points in `cells` cells walks across cells.
    pub open spec fn global_built(&self, population: int, cells: int) -> bool {
        self.local_built(population) && cells > 1 && self.global_in_use()
    }

    /// Some search over `population` points uses quantized vectors.
    pub open spec fn sq8_built(&self, population: int) -> bool {
        &&& self.metric != Metric::InnerProduct
        &&& self.local_built(population) || self.binary_rerank > 0
    }

    /// Some search uses sketches.
    pub open spec fn binary_built(&self) -> bool {
        self.binary_rerank > 0 && self.metric != Metric::InnerProduct
    }

    /// Whether searches may walk the graph across cells.
    pub fn uses_global_graph(&self) -> (answer: bool)
        ensures
            answer == self.global_in_use(),
    {
        self.metric != Metric::InnerProduct && less_than(self.sigma_low, self.sigma_high) && (
        self.m_greedy > 0 || self.m_random > 0)
    }

    /// Whether some search over `population` points walks a graph.
    pub fn builds_local_graph(&self, population: usize) -> (answer: bool)
        ensures
            answer == self.local_built(population as int),
    {
        self.metric != Metric::InnerProduct && (self.scan_threshold == 0 || population
            > self.scan_threshold)
    }

    /// Whether some search over `population` points in `cells` cells walks
    /// across cells.
    pub fn builds_global_graph(&self, population: usize, cells: usize) -> (answer: bool)
        ensures
            answer == self.global_built(population as int, cells as int),
    {
        self.builds_local_graph(population) && cells > 1 && self.uses_global_graph()
    }

    /// Whether some search over `population` points uses quantized vectors.
    pub fn builds_sq8(&self, population: usize) -> (answer: bool)
        ensures
            answer == self.sq8_built(population as int),
    {
        self.metric != Metric::InnerProduct && (self.builds_local_graph(population)
            || self.binary_rerank > 0)
    }

    /// Whether some search uses sketches.
    pub fn builds_binary(&self) -> (answer: bool)
        ensures
            answer == self.binary_built(),
    {
        self.binary_rerank > 0 && self.metric != Metric::InnerProduct
    }
}

/// Whether a number lies between zero and one.
fn fraction_given(bits: u32) -> (answer: bool)
    ensures
        answer == is_fraction(bits),
{
    finite(bits) && !less_than(bits, 0) && !less_than(ONE, bits)
}

/// The largest number of neighbours that can be represented.
fn parameter_limit() -> (limit: usize)
    ensures
        limit == largest_parameter(),
{
    let largest: u64 = isize::MAX as u64;
    if (u32::MAX as u64) < largest {
        u32::MAX as usize
    } else {
        isize::MAX as usize
    }
}

} // verus!
