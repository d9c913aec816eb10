//! Edges between cells: which cells a cell looks to, and which of their points
//! a point selects.

use vstd::prelude::*;
use crate::config::{MAX_COVERING_SUBSETS, PrismConfig};
use crate::covering::{
    choice_rounds, choices_are_distinct, chosen, ids_at, select_cross_neighbors, subsets_fit,
};
use crate::distance::{ord_key, Metric};
use crate::error::{ends, overflow, PrismResult, Verdict};
use crate::graph::Graph;
use crate::order::{arranged, arranged_holds, arranged_is_sorted, lowest, sorted_copy};
use crate::partition::Cell;
use crate::point::PointStore;
use crate::pure::{compares_codes, total3, Measure};
use crate::quantize::SQ8Store;
use crate::reach::is_range;
use crate::select::{nearest, Scored};
use crate::single::order_of;
use crate::walk::{beam_found, beam_search_sq8, code_key, compare_codes, found_within, ids_below};

verus! {

/// Mark of the choices of cells.
pub const STRATUM_STREAM: u64 = 0x4352_4f53_5354_5241;

/// The output of the SplitMix64 generator that starts at `base + stream`.
pub open spec fn mixed(base: u64, stream: u64) -> u64 {
    let a = base.wrapping_add(stream).wrapping_add(0x9e37_79b9_7f4a_7c15);
    let b = (a ^ (a >> 30)).wrapping_mul(0xbf58_476d_1ce4_e5b9);
    let c = (b ^ (b >> 27)).wrapping_mul(0x94d0_49bb_1331_11eb);
    c ^ (c >> 31)
}

/// Seed of one stream of choices.
pub fn derive_build_seed(base: u64, stream: u64) -> (seed: u64)
    ensures
        seed == mixed(base, stream),
{
    let a: u64 = base.wrapping_add(stream).wrapping_add(0x9e37_79b9_7f4a_7c15);
    let b: u64 = (a ^ (a >> 30)).wrapping_mul(0xbf58_476d_1ce4_e5b9);
    let c: u64 = (b ^ (b >> 27)).wrapping_mul(0x94d0_49bb_1331_11eb);
    c ^ (c >> 31)
}

/// How many cells each cell looks to.
pub open spec fn target_count(cell_count: int, m_greedy: int, beam: int) -> int {
    let wanted = if m_greedy > 4 {
        m_greedy
    } else {
        4
    };
    let most = if cell_count - 1 < wanted {
        cell_count - 1
    } else {
        wanted
    };
    if most < beam {
        most
    } else {
        beam
    }
}

/// How many cells are ranked where not all are.
pub open spec fn pool_size(cell_count: int, targets: int, beam: int) -> int {
    let wanted = if beam > 4 * targets {
        beam
    } else {
        4 * targets
    };
    if cell_count - 1 < wanted {
        cell_count - 1
    } else {
        wanted
    }
}

/// The cell that stratum `s` of `pool` proposes to cell `source`.
pub open spec fn stratum_cell(cell_count: int, pool: int, seed: u64, source: int, s: int) -> int {
    let start = s * (cell_count - 1) / pool;
    let width = (s + 1) * (cell_count - 1) / pool - start;
    let stream = STRATUM_STREAM ^ ((source as u64) << 32) ^ (s as u64);
    let at = start + mixed(seed, stream) as int % width;
    if at >= source {
        at + 1
    } else {
        at
    }
}

/// The cells that are ranked for cell `source`: all others up to the limit, or
/// one of each stratum.
pub open spec fn ranked_cells(config: &PrismConfig, cell_count: int, beam: int, source: int) -> Seq<int> {
    if 0 < config.cross_cell_exact_ranking_limit && cell_count
        <= config.cross_cell_exact_ranking_limit {
        Seq::new(
            (cell_count - 1) as nat,
            |i: int|
                if i >= source {
                    i + 1
                } else {
                    i
                },
        )
    } else {
        let pool = pool_size(
            cell_count,
            target_count(cell_count, config.m_greedy as int, beam),
            beam,
        );
        Seq::new(
            pool as nat,
            |s: int| stratum_cell(cell_count, pool, config.build_seed, source, s),
        )
    }
}

/// Distances of the ranked cells' medoids from the medoid of `source`.
pub open spec fn cell_scores<Q: Fn(&[u8], &[u8], &[u32]) -> u32>(
    sq8: &SQ8Store,
    compare: Q,
    medoids: Seq<u32>,
    source: int,
    cells: Seq<int>,
) -> Seq<Scored> {
    cells.map_values(
        |c: int| (code_key(sq8, compare, medoids[source], medoids[c]), c as u32),
    )
}

/// The cells that cell `source` looks to, nearest medoid first.
pub open spec fn targets_of<Q: Fn(&[u8], &[u8], &[u32]) -> u32>(
    sq8: &SQ8Store,
    compare: Q,
    medoids: Seq<u32>,
    config: &PrismConfig,
    beam: int,
    source: int,
) -> Seq<u32> {
    let count = medoids.len() as int;
    lowest(
        cell_scores(sq8, compare, medoids, source, ranked_cells(config, count, beam, source)),
        target_count(count, config.m_greedy as int, beam),
    ).map_values(|entry: Scored| entry.1)
}

pub proof fn strata_split(s: int, foreign: int, pool: int)
    requires
        0 <= s < pool <= foreign,
    ensures
        0 <= s * foreign / pool < (s + 1) * foreign / pool <= foreign,
{
    assert((s + 1) * foreign == s * foreign + foreign) by (nonlinear_arith);
    assert(s * foreign >= 0) by (nonlinear_arith)
        requires
            s >= 0,
            foreign >= 0,
    ;
    vstd::arithmetic::div_mod::lemma_div_pos_is_pos(s * foreign, pool);
    vstd::arithmetic::div_mod::lemma_div_is_ordered(s * foreign + pool, (s + 1) * foreign, pool);
    vstd::arithmetic::div_mod::lemma_div_plus_one(s * foreign, pool);
    assert((s + 1) * foreign <= pool * foreign) by (nonlinear_arith)
        requires
            s + 1 <= pool,
            foreign >= 0,
    ;
    vstd::arithmetic::div_mod::lemma_div_is_ordered((s + 1) * foreign, pool * foreign, pool);
    vstd::arithmetic::div_mod::lemma_div_multiples_vanish(foreign, pool);
    assert(pool * foreign == foreign * pool) by (nonlinear_arith);
}

/// Every ranked cell is another cell.
pub proof fn ranked_cells_are_foreign(config: &PrismConfig, cell_count: int, beam: int, source: int)
    requires
        1 < cell_count <= u32::MAX,
        0 < beam,
        0 <= source < cell_count,
    ensures
        forall|i: int|
            0 <= i < ranked_cells(config, cell_count, beam, source).len() ==> {
                &&& 0 <= #[trigger] ranked_cells(config, cell_count, beam, source)[i] < cell_count
                &&& ranked_cells(config, cell_count, beam, source)[i] != source
            },
        target_count(cell_count, config.m_greedy as int, beam) <= ranked_cells(
            config,
            cell_count,
            beam,
            source,
        ).len(),
        0 < target_count(cell_count, config.m_greedy as int, beam) < cell_count,
{
    let all = ranked_cells(config, cell_count, beam, source);
    let targets = target_count(cell_count, config.m_greedy as int, beam);
    if !(0 < config.cross_cell_exact_ranking_limit && cell_count
        <= config.cross_cell_exact_ranking_limit) {
        let pool = pool_size(cell_count, targets, beam);
        assert forall|i: int| 0 <= i < all.len() implies 0 <= #[trigger] all[i] < cell_count && all[i] != source by {
            strata_split(i, cell_count - 1, pool);
            let start = i * (cell_count - 1) / pool;
            let width = (i + 1) * (cell_count - 1) / pool - start;
            let stream = STRATUM_STREAM ^ ((source as u64) << 32) ^ (i as u64);
            let offset = mixed(config.build_seed, stream) as int % width;
            assert(0 <= offset < width) by {
                vstd::arithmetic::div_mod::lemma_mod_bound(
                    mixed(config.build_seed, stream) as int,
                    width,
                );
            }
        }
    }
}

/// One of the cells that are ranked for a cell.
fn stratum_choice(cell_count: usize, pool: usize, seed: u64, source: usize, s: usize) -> (cell: usize)
    requires
        1 < cell_count <= u32::MAX,
        source < cell_count,
        s < pool < cell_count,
    ensures
        cell == stratum_cell(cell_count as int, pool as int, seed, source as int, s as int),
        cell < cell_count,
        cell != source,
{
    let foreign: u128 = (cell_count - 1) as u128;
    proof {
        strata_split(s as int, cell_count - 1, pool as int);
        assert(s * (cell_count - 1) <= 0xffff_ffff * 0xffff_ffff) by (nonlinear_arith)
            requires
                0 <= s <= 0xffff_ffff,
                0 <= cell_count - 1 <= 0xffff_ffff,
        ;
        assert((s + 1) * (cell_count - 1) <= 0x1_0000_0000 * 0xffff_ffff) by (nonlinear_arith)
            requires
                0 <= s <= 0xffff_ffff,
                0 <= cell_count - 1 <= 0xffff_ffff,
        ;
    }
    let start: usize = (s as u128 * foreign / pool as u128) as usize;
    let end: usize = ((s as u128 + 1) * foreign / pool as u128) as usize;
    let width: usize = end - start;
    let stream: u64 = STRATUM_STREAM ^ ((source as u64) << 32) ^ (s as u64);
    let offset: usize = (derive_build_seed(seed, stream) % width as u64) as usize;
    let at: usize = start + offset;
    if at >= source {
        at + 1
    } else {
        at
    }
}

/// How many cells are ranked for a cell where not all are.
pub fn bounded_cross_cell_pool_size(cell_count: usize, target_count: usize, beam: usize) -> (size: usize)
    ensures
        size == if cell_count == 0 {
            0
        } else {
            pool_size(cell_count as int, target_count as int, beam as int)
        },
{
    if cell_count == 0 {
        return 0;
    }
    let wanted: usize = if target_count <= beam / 4 {
        beam
    } else if target_count <= usize::MAX / 4 {
        4 * target_count
    } else {
        usize::MAX
    };
    if cell_count - 1 < wanted {
        cell_count - 1
    } else {
        wanted
    }
}

/// The cells that are ranked for a cell.
fn cells_to_rank(config: &PrismConfig, cell_count: usize, beam: usize, source: usize) -> (cells: Vec<usize>)
    requires
        1 < cell_count <= u32::MAX,
        0 < beam <= u32::MAX,
        source < cell_count,
    ensures
        cells@.len() == ranked_cells(config, cell_count as int, beam as int, source as int).len(),
        forall|i: int|
            0 <= i < cells@.len() ==> #[trigger] cells@[i] == ranked_cells(
                config,
                cell_count as int,
                beam as int,
                source as int,
            )[i],
{
    let ghost expected = ranked_cells(config, cell_count as int, beam as int, source as int);
    let mut cells: Vec<usize> = Vec::new();
    if 0 < config.cross_cell_exact_ranking_limit && cell_count
        <= config.cross_cell_exact_ranking_limit {
        while cells.len() < cell_count - 1
            invariant
                cells@.len() <= cell_count - 1,
                1 < cell_count <= u32::MAX,
                expected.len() == cell_count - 1,
                forall|i: int|
                    0 <= i < expected.len() ==> #[trigger] expected[i] == (if i >= source {
                        i + 1
                    } else {
                        i
                    }),
                forall|i: int| 0 <= i < cells@.len() ==> #[trigger] cells@[i] == expected[i],
            decreases cell_count - cells@.len(),
        {
            let i: usize = cells.len();
            cells.push(if i >= source { i + 1 } else { i });
        }
    } else {
        let targets: usize = count_targets(cell_count, config.m_greedy, beam);
        let pool: usize = bounded_cross_cell_pool_size(cell_count, targets, beam);
        while cells.len() < pool
            invariant
                cells@.len() <= pool < cell_count,
                1 < cell_count <= u32::MAX,
                source < cell_count,
                expected.len() == pool,
                forall|i: int|
                    0 <= i < expected.len() ==> #[trigger] expected[i] == stratum_cell(
                        cell_count as int,
                        pool as int,
                        config.build_seed,
                        source as int,
                        i,
                    ),
                forall|i: int| 0 <= i < cells@.len() ==> #[trigger] cells@[i] == expected[i],
            decreases pool - cells@.len(),
        {
            let s: usize = cells.len();
            cells.push(stratum_choice(cell_count, pool, config.build_seed, source, s));
        }
    }
    cells
}

/// How many cells each cell looks to.
pub fn count_targets(cell_count: usize, m_greedy: usize, beam: usize) -> (count: usize)
    requires
        cell_count > 0,
    ensures
        count == target_count(cell_count as int, m_greedy as int, beam as int),
{
    let wanted: usize = if m_greedy > 4 { m_greedy } else { 4 };
    let most: usize = if cell_count - 1 < wanted { cell_count - 1 } else { wanted };
    if most < beam {
        most
    } else {
        beam
    }
}

/// For every cell the cells that it looks to.
pub fn precompute_cross_cell_targets<Q: Fn(&[u8], &[u8], &[u32]) -> u32>(
    medoids: &Vec<u32>,
    sq8: &SQ8Store,
    compare: &Q,
    config: &PrismConfig,
    beam: usize,
) -> (result: PrismResult<Vec<Vec<u32>>>)
    requires
        sq8.wf(),
        1 < medoids@.len() <= u32::MAX,
        0 < beam <= u32::MAX,
        forall|c: int| 0 <= c < medoids@.len() ==> #[trigger] medoids@[c] < sq8.count(),
        compares_codes(*compare, sq8.dim as int),
    ensures
        ends(
            result,
            if medoids@.len() * target_count(
                medoids@.len() as int,
                config.m_greedy as int,
                beam as int,
            ) > usize::MAX {
                Verdict::Overflow
            } else {
                Verdict::Accepted
            },
        ),
        result matches Ok(table) ==> {
            &&& table@.len() == medoids@.len()
            &&& forall|c: int|
                0 <= c < medoids@.len() ==> (#[trigger] table@[c])@ == targets_of(
                    sq8,
                    *compare,
                    medoids@,
                    config,
                    beam as int,
                    c,
                )
        },
{
    let cell_count: usize = medoids.len();
    let targets: usize = count_targets(cell_count, config.m_greedy, beam);
    if cell_count.checked_mul(targets).is_none() {
        return Err(overflow("cross-cell target table length overflowed usize"));
    }
    let mut table: Vec<Vec<u32>> = Vec::new();
    while table.len() < cell_count
        invariant
            table@.len() <= cell_count,
            cell_count == medoids@.len(),
            targets == target_count(cell_count as int, config.m_greedy as int, beam as int),
            sq8.wf(),
            1 < cell_count <= u32::MAX,
            0 < beam <= u32::MAX,
            forall|c: int| 0 <= c < medoids@.len() ==> #[trigger] medoids@[c] < sq8.count(),
            compares_codes(*compare, sq8.dim as int),
            forall|c: int|
                0 <= c < table@.len() ==> (#[trigger] table@[c])@ == targets_of(
                    sq8,
                    *compare,
                    medoids@,
                    config,
                    beam as int,
                    c,
                ),
        decreases cell_count - table@.len(),
    {
        let source: usize = table.len();
        let cells = cells_to_rank(config, cell_count, beam, source);
        proof {
            ranked_cells_are_foreign(config, cell_count as int, beam as int, source as int);
        }
        let ghost expected = cell_scores(
            sq8,
            *compare,
            medoids@,
            source as int,
            ranked_cells(config, cell_count as int, beam as int, source as int),
        );
        let mut scores: Vec<Scored> = Vec::new();
        while scores.len() < cells.len()
            invariant
                scores@.len() <= cells@.len(),
                cell_count == medoids@.len(),
                source < cell_count <= u32::MAX,
                sq8.wf(),
                forall|c: int| 0 <= c < medoids@.len() ==> #[trigger] medoids@[c] < sq8.count(),
                compares_codes(*compare, sq8.dim as int),
                cells@.len() == ranked_cells(
                    config,
                    cell_count as int,
                    beam as int,
                    source as int,
                ).len(),
                forall|i: int|
                    0 <= i < cells@.len() ==> #[trigger] cells@[i] == ranked_cells(
                        config,
                        cell_count as int,
                        beam as int,
                        source as int,
                    )[i],
                forall|i: int|
                    0 <= i < cells@.len() ==> 0 <= #[trigger] ranked_cells(
                        config,
                        cell_count as int,
                        beam as int,
                        source as int,
                    )[i] < cell_count,
                expected == cell_scores(
                    sq8,
                    *compare,
                    medoids@,
                    source as int,
                    ranked_cells(config, cell_count as int, beam as int, source as int),
                ),
                forall|i: int| 0 <= i < scores@.len() ==> #[trigger] scores@[i] == expected[i],
            decreases cells@.len() - scores@.len(),
        {
            let i: usize = scores.len();
            let c: usize = cells[i];
            assert(cells@[i as int] == ranked_cells(
                config,
                cell_count as int,
                beam as int,
                source as int,
            )[i as int]);
            assert(medoids@[c as int] < sq8.count());
            assert(medoids@[source as int] < sq8.count());
            scores.push((compare_codes(sq8, compare, medoids[source], medoids[c]), c as u32));
        }
        assert(scores@ =~= expected);
        let best = nearest(&scores, targets);
        let mut row: Vec<u32> = Vec::new();
        while row.len() < best.len()
            invariant
                row@.len() <= best@.len(),
                forall|i: int| 0 <= i < row@.len() ==> #[trigger] row@[i] == best@[i].1,
            decreases best@.len() - row@.len(),
        {
            row.push(best[row.len()].1);
        }
        assert(row@ =~= targets_of(
            sq8,
            *compare,
            medoids@,
            config,
            beam as int,
            source as int,
        ));
        table.push(row);
    }
    Ok(table)
}

/// How many points each looked-to cell contributes.
pub open spec fn cell_share(beam: int, targets: int) -> int {
    beam / targets + (if beam % targets == 0 {
        0int
    } else {
        1int
    })
}

/// Width of the searches within looked-to cells.
pub open spec fn cell_width(beam: int, targets: int, m_local: int) -> int {
    let share = cell_share(beam, targets);
    let wanted = if share > m_local {
        share
    } else {
        m_local
    };
    if wanted < beam {
        wanted
    } else {
        beam
    }
}

/// Distances of all points of a cell from `p`.
pub open spec fn scan_scores<Q: Fn(&[u8], &[u8], &[u32]) -> u32>(
    sq8: &SQ8Store,
    compare: Q,
    p: u32,
    ids: Seq<u32>,
) -> Seq<Scored> {
    ids.map_values(|q: u32| (code_key(sq8, compare, p, q), q))
}

/// The points that cell `c` contributes for `p`: by inner product its nearest
/// ones; otherwise, going by the codes, those that a walk from its medoid finds
/// in a large cell and the nearest ones of a small cell.
pub open spec fn contributed<
    D: Fn(Metric, &[u32], &[u32]) -> u32,
    Q: Fn(&[u8], &[u8], &[u32]) -> u32,
>(
    store: &PointStore,
    measure: Measure<D>,
    sq8: &SQ8Store,
    compare: Q,
    local: &Graph,
    cells: Seq<Cell>,
    medoids: Seq<u32>,
    p: u32,
    c: int,
    share: int,
    width: int,
) -> Seq<u32> {
    if measure.metric == Metric::InnerProduct {
        exactly_nearest(store, measure, p, cells[c].point_ids@, share).map_values(
            |entry: (u32, u32)| entry.0,
        )
    } else if cells[c].point_ids@.len() > 2 * width {
        let found = beam_found(sq8, compare, local, p, medoids[c], width);
        found.take(
            if share < found.len() {
                share
            } else {
                found.len() as int
            },
        ).map_values(|entry: Scored| entry.1)
    } else {
        lowest(scan_scores(sq8, compare, p, cells[c].point_ids@), share).map_values(
            |entry: Scored| entry.1,
        )
    }
}

/// The points that the first `upto` looked-to cells contribute for `p`.
pub open spec fn all_contributed<
    D: Fn(Metric, &[u32], &[u32]) -> u32,
    Q: Fn(&[u8], &[u8], &[u32]) -> u32,
>(
    store: &PointStore,
    measure: Measure<D>,
    sq8: &SQ8Store,
    compare: Q,
    local: &Graph,
    cells: Seq<Cell>,
    medoids: Seq<u32>,
    p: u32,
    targets: Seq<u32>,
    share: int,
    width: int,
    upto: int,
) -> Seq<u32>
    decreases upto,
{
    if upto <= 0 {
        Seq::empty()
    } else {
        all_contributed(
            store,
            measure,
            sq8,
            compare,
            local,
            cells,
            medoids,
            p,
            targets,
            share,
            width,
            upto - 1,
        ) + contributed(
            store,
            measure,
            sq8,
            compare,
            local,
            cells,
            medoids,
            p,
            targets[upto - 1] as int,
            share,
            width,
        )
    }
}

/// Points with their positions, by exact distance from `p`; ties stay in their
/// order.
pub open spec fn exact_order<D: Fn(Metric, &[u32], &[u32]) -> u32>(
    store: &PointStore,
    measure: Measure<D>,
    p: u32,
    ids: Seq<u32>,
) -> Seq<(u64, u64)> {
    arranged(
        Seq::new(
            ids.len(),
            |i: int|
                (
                    order_of(measure.gives(store.row(p as int), store.row(ids[i] as int))) as u64,
                    i as u64,
                ),
        ),
    )
}

/// The `beam` points nearest to `p`, with their distances.
pub open spec fn exactly_nearest<D: Fn(Metric, &[u32], &[u32]) -> u32>(
    store: &PointStore,
    measure: Measure<D>,
    p: u32,
    ids: Seq<u32>,
    beam: int,
) -> Seq<(u32, u32)> {
    let order = exact_order(store, measure, p, ids);
    order.take(
        if beam < order.len() {
            beam
        } else {
            order.len() as int
        },
    ).map_values(
        |entry: (u64, u64)|
            (
                ids[entry.1 as int],
                measure.gives(store.row(p as int), store.row(ids[entry.1 as int] as int)),
            ),
    )
}

/// The neighbours in other cells that `p` selects.
pub open spec fn cross_neighbors<
    D: Fn(Metric, &[u32], &[u32]) -> u32,
    Q: Fn(&[u8], &[u8], &[u32]) -> u32,
    W: Fn(u32, usize, u32) -> u32,
>(
    store: &PointStore,
    measure: Measure<D>,
    sq8: &SQ8Store,
    compare: Q,
    score: W,
    local: &Graph,
    cells: Seq<Cell>,
    medoids: Seq<u32>,
    config: &PrismConfig,
    subsets: Seq<Vec<usize>>,
    beam: int,
    cell: int,
    p: u32,
) -> Seq<u32> {
    let targets = targets_of(sq8, compare, medoids, config, beam, cell);
    let count = target_count(medoids.len() as int, config.m_greedy as int, beam);
    let ids = all_contributed(
        store,
        measure,
        sq8,
        compare,
        local,
        cells,
        medoids,
        p,
        targets,
        cell_share(beam, count),
        cell_width(beam, count, config.m_local as int),
        targets.len() as int,
    );
    let candidates = exactly_nearest(store, measure, p, ids, beam);
    ids_at(
        candidates,
        chosen(
            store,
            candidates,
            subsets,
            config.alpha,
            score,
            choice_rounds(candidates, config.m_greedy as int),
        ),
    )
}

/// Every cell names points.
pub open spec fn cells_name_points(cells: Seq<Cell>, n: int) -> bool {
    forall|c: int, i: int|
        0 <= c < cells.len() && 0 <= i < cells[c].point_ids@.len() ==> #[trigger] cells[c].point_ids@[i] < n
}

/// The points that one cell contributes, going by the codes.
fn coded_contribution<Q: Fn(&[u8], &[u8], &[u32]) -> u32>(
    sq8: &SQ8Store,
    compare: &Q,
    local: &Graph,
    cells: &Vec<Cell>,
    medoids: &Vec<u32>,
    p: u32,
    c: usize,
    share: usize,
    width: usize,
) -> (found: Vec<Scored>)
    requires
        sq8.wf(),
        local.wf(),
        sq8.count() == local.n,
        p < local.n,
        c < cells@.len(),
        medoids@.len() == cells@.len(),
        forall|d: int| 0 <= d < medoids@.len() ==> #[trigger] medoids@[d] < local.n,
        cells_name_points(cells@, local.n as int),
        width > 0,
        compares_codes(*compare, sq8.dim as int),
    ensures
        found@ == if cells@[c as int].point_ids@.len() > 2 * width {
            let all = beam_found(sq8, *compare, local, p, medoids@[c as int], width as int);
            all.take(
                if share < all.len() {
                    share as int
                } else {
                    all.len() as int
                },
            )
        } else {
            lowest(scan_scores(sq8, *compare, p, cells@[c as int].point_ids@), share as int)
        },
        ids_below(found@, local.n as int),
        found@.len() <= share,
{
    let ids = &cells[c].point_ids;
    if width <= usize::MAX / 2 && ids.len() > 2 * width {
        assert(medoids@[c as int] < local.n);
        let mut found = beam_search_sq8(sq8, compare, local, p, medoids[c], width);
        let ghost all = found@;
        if share < found.len() {
            found.truncate(share);
        }
        assert(found@ =~= all.take(
            if share < all.len() {
                share as int
            } else {
                all.len() as int
            },
        ));
        assert forall|i: int| 0 <= i < found@.len() implies (#[trigger] found@[i]).1 < local.n by {
            assert(all[i].1 < local.n);
        }
        found
    } else {
        let ghost expected = scan_scores(sq8, *compare, p, ids@);
        let mut scores: Vec<Scored> = Vec::new();
        while scores.len() < ids.len()
            invariant
                scores@.len() <= ids@.len(),
                c < cells@.len(),
                *ids == cells@[c as int].point_ids,
                sq8.wf(),
                sq8.count() == local.n,
                p < local.n,
                cells_name_points(cells@, local.n as int),
                compares_codes(*compare, sq8.dim as int),
                expected == scan_scores(sq8, *compare, p, ids@),
                forall|i: int| 0 <= i < scores@.len() ==> #[trigger] scores@[i] == expected[i],
            decreases ids@.len() - scores@.len(),
        {
            let i: usize = scores.len();
            assert(cells@[c as int].point_ids@[i as int] < local.n);
            scores.push((compare_codes(sq8, compare, p, ids[i]), ids[i]));
        }
        assert(scores@ =~= expected);
        let found = nearest(&scores, share);
        proof {
            arranged_is_sorted(expected);
            assert forall|i: int| 0 <= i < found@.len() implies (#[trigger] found@[i]).1 < local.n by {
                assert(arranged(expected)[i] == found@[i]);
                assert(arranged(expected).contains(found@[i]));
                arranged_holds(expected, found@[i]);
                let w = choose|w: int| 0 <= w < expected.len() && expected[w] == found@[i];
                assert(cells@[c as int].point_ids@[w] < local.n);
            }
        }
        found
    }
}

/// The points that one cell contributes.
fn cell_contribution<D: Fn(Metric, &[u32], &[u32]) -> u32, Q: Fn(&[u8], &[u8], &[u32]) -> u32>(
    store: &PointStore,
    measure: &Measure<D>,
    sq8: &SQ8Store,
    compare: &Q,
    local: &Graph,
    cells: &Vec<Cell>,
    medoids: &Vec<u32>,
    p: u32,
    c: usize,
    share: usize,
    width: usize,
) -> (ids: Vec<u32>)
    requires
        store.wf(),
        store.len == local.n,
        sq8.wf(),
        local.wf(),
        sq8.count() == local.n,
        p < local.n,
        c < cells@.len(),
        medoids@.len() == cells@.len(),
        forall|d: int| 0 <= d < medoids@.len() ==> #[trigger] medoids@[d] < local.n,
        cells_name_points(cells@, local.n as int),
        width > 0,
        measure.fits(store.dim as int),
        compares_codes(*compare, sq8.dim as int),
    ensures
        ids@ == contributed(
            store,
            *measure,
            sq8,
            *compare,
            local,
            cells@,
            medoids@,
            p,
            c as int,
            share as int,
            width as int,
        ),
        forall|i: int| 0 <= i < ids@.len() ==> #[trigger] ids@[i] < local.n,
{
    if measure.metric == Metric::InnerProduct {
        assert forall|i: int| 0 <= i < cells@[c as int].point_ids@.len() implies (
        #[trigger] cells@[c as int].point_ids@[i]) < store.len by {}
        let found = rank_exactly(store, measure, p, &cells[c].point_ids, share);
        let mut ids: Vec<u32> = Vec::new();
        while ids.len() < found.len()
            invariant
                ids@.len() <= found@.len(),
                forall|i: int| 0 <= i < ids@.len() ==> #[trigger] ids@[i] == found@[i].0,
            decreases found@.len() - ids@.len(),
        {
            ids.push(found[ids.len()].0);
        }
        assert(ids@ =~= found@.map_values(|entry: (u32, u32)| entry.0));
        return ids;
    }
    let found = coded_contribution(sq8, compare, local, cells, medoids, p, c, share, width);
    let mut ids: Vec<u32> = Vec::new();
    while ids.len() < found.len()
        invariant
            ids@.len() <= found@.len(),
            forall|i: int| 0 <= i < ids@.len() ==> #[trigger] ids@[i] == found@[i].1,
        decreases found@.len() - ids@.len(),
    {
        ids.push(found[ids.len()].1);
    }
    assert(ids@ =~= found@.map_values(|entry: Scored| entry.1));
    ids
}

/// The points nearest to `p`, with their distances.
fn rank_exactly<D: Fn(Metric, &[u32], &[u32]) -> u32>(
    store: &PointStore,
    measure: &Measure<D>,
    p: u32,
    ids: &Vec<u32>,
    beam: usize,
) -> (candidates: Vec<(u32, u32)>)
    requires
        store.wf(),
        p < store.len,
        forall|i: int| 0 <= i < ids@.len() ==> #[trigger] ids@[i] < store.len,
        measure.fits(store.dim as int),
    ensures
        candidates@ == exactly_nearest(store, *measure, p, ids@, beam as int),
        forall|i: int| 0 <= i < candidates@.len() ==> (#[trigger] candidates@[i]).0 < store.len,
{
    let ghost patterns = Seq::new(
        ids@.len(),
        |i: int| measure.gives(store.row(p as int), store.row(ids@[i] as int)),
    );
    let mut distances: Vec<u32> = Vec::new();
    let mut pairs: Vec<(u64, u64)> = Vec::new();
    while pairs.len() < ids.len()
        invariant
            pairs@.len() <= ids@.len(),
            distances@.len() == pairs@.len(),
            store.wf(),
            p < store.len,
            forall|i: int| 0 <= i < ids@.len() ==> #[trigger] ids@[i] < store.len,
            measure.fits(store.dim as int),
            patterns == Seq::new(
                ids@.len(),
                |i: int| measure.gives(store.row(p as int), store.row(ids@[i] as int)),
            ),
            forall|i: int| 0 <= i < distances@.len() ==> #[trigger] distances@[i] == patterns[i],
            forall|i: int|
                0 <= i < pairs@.len() ==> #[trigger] pairs@[i] == (
                    order_of(patterns[i]) as u64,
                    i as u64,
                ),
        decreases ids@.len() - pairs@.len(),
    {
        let i: usize = pairs.len();
        assert(ids@[i as int] < store.len);
        let bits: u32 = measure.between(store.vector_unchecked(p), store.vector_unchecked(ids[i]));
        assert(bits == patterns[i as int]);
        distances.push(bits);
        pairs.push((ord_key(bits) as u64, i as u64));
    }
    let ghost keyed = Seq::new(
        ids@.len(),
        |i: int|
            (
                order_of(measure.gives(store.row(p as int), store.row(ids@[i] as int))) as u64,
                i as u64,
            ),
    );
    assert(pairs@ =~= keyed);
    let order = sorted_copy(pairs.as_slice());
    proof {
        arranged_is_sorted(keyed);
        assert forall|i: int| 0 <= i < order@.len() implies (#[trigger] order@[i]).1 < ids@.len() by {
            assert(order@.contains(order@[i]));
            arranged_holds(keyed, order@[i]);
            let w = choose|w: int| 0 <= w < keyed.len() && keyed[w] == order@[i];
            assert(keyed[w].1 == w as u64);
        }
    }
    let take: usize = if beam < order.len() { beam } else { order.len() };
    let mut candidates: Vec<(u32, u32)> = Vec::new();
    while candidates.len() < take
        invariant
            candidates@.len() <= take <= order@.len(),
            distances@.len() == ids@.len(),
            forall|i: int| 0 <= i < order@.len() ==> (#[trigger] order@[i]).1 < ids@.len(),
            forall|i: int| 0 <= i < ids@.len() ==> #[trigger] ids@[i] < store.len,
            forall|i: int| 0 <= i < distances@.len() ==> #[trigger] distances@[i] == patterns[i],
            forall|i: int|
                0 <= i < candidates@.len() ==> #[trigger] candidates@[i] == (
                    ids@[order@[i].1 as int],
                    patterns[order@[i].1 as int],
                ) && candidates@[i].0 < store.len,
        decreases take - candidates@.len(),
    {
        let i: usize = candidates.len();
        assert(order@[i as int].1 < ids@.len());
        let at: usize = order[i].1 as usize;
        assert(ids@[at as int] < store.len);
        candidates.push((ids[at], distances[at]));
    }
    assert(candidates@ =~= exactly_nearest(store, *measure, p, ids@, beam as int)) by {
        let expected = exactly_nearest(store, *measure, p, ids@, beam as int);
        assert forall|i: int| 0 <= i < candidates@.len() implies #[trigger] candidates@[i] == expected[i] by {
            let at = order@[i].1 as int;
            assert(patterns[at] == measure.gives(store.row(p as int), store.row(ids@[at] as int)));
        }
    }
    candidates
}

/// How many points each looked-to cell contributes.
pub fn share_of(beam: usize, targets: usize) -> (share: usize)
    requires
        0 < targets <= beam,
    ensures
        share == cell_share(beam as int, targets as int),
        0 < share <= beam,
{
    proof {
        let q = beam as int / targets as int;
        vstd::arithmetic::div_mod::lemma_fundamental_div_mod(beam as int, targets as int);
        vstd::arithmetic::div_mod::lemma_div_is_ordered(
            targets as int,
            beam as int,
            targets as int,
        );
        vstd::arithmetic::div_mod::lemma_div_by_self(targets as int);
        let r = beam as int % targets as int;
        assert(q + (if r == 0 {
            0int
        } else {
            1int
        }) <= beam) by (nonlinear_arith)
            requires
                beam == targets * q + r,
                0 <= r,
                q >= 1,
                targets >= 1,
        ;
    }
    beam / targets + (if beam % targets == 0 { 0 } else { 1 })
}

/// The neighbours in other cells that `p` selects.
pub fn find_cross_neighbors<
    D: Fn(Metric, &[u32], &[u32]) -> u32,
    Q: Fn(&[u8], &[u8], &[u32]) -> u32,
    W: Fn(u32, usize, u32) -> u32,
>(
    store: &PointStore,
    measure: &Measure<D>,
    sq8: &SQ8Store,
    compare: &Q,
    score: &W,
    local: &Graph,
    cells: &Vec<Cell>,
    medoids: &Vec<u32>,
    config: &PrismConfig,
    subsets: &Vec<Vec<usize>>,
    beam: usize,
    targets: &Vec<u32>,
    cell: usize,
    p: u32,
) -> (selected: Vec<u32>)
    requires
        store.wf(),
        sq8.wf(),
        local.wf(),
        store.len == local.n,
        sq8.count() == local.n,
        p < local.n,
        medoids@.len() == cells@.len(),
        1 < medoids@.len() <= u32::MAX,
        forall|d: int| 0 <= d < medoids@.len() ==> #[trigger] medoids@[d] < local.n,
        cells_name_points(cells@, local.n as int),
        0 < beam <= local.n,
        cell < cells@.len(),
        targets@ == targets_of(sq8, *compare, medoids@, config, beam as int, cell as int),
        subsets_fit(subsets@, store.attrs@.len() as int),
        subsets@.len() <= MAX_COVERING_SUBSETS,
        measure.fits(store.dim as int),
        compares_codes(*compare, sq8.dim as int),
        total3(*score),
    ensures
        selected@ == cross_neighbors(
            store,
            *measure,
            sq8,
            *compare,
            *score,
            local,
            cells@,
            medoids@,
            config,
            subsets@,
            beam as int,
            cell as int,
            p,
        ),
        selected@.len() <= config.m_greedy,
        forall|i: int| 0 <= i < selected@.len() ==> #[trigger] selected@[i] < store.len,
{
    let ghost all_cells = ranked_cells(config, medoids@.len() as int, beam as int, cell as int);
    let count: usize = count_targets(medoids.len(), config.m_greedy, beam);
    proof {
        ranked_cells_are_foreign(config, medoids@.len() as int, beam as int, cell as int);
        targets_are_cells(sq8, *compare, medoids@, config, beam as int, cell as int);
    }
    let share: usize = share_of(beam, count);
    let wanted: usize = if share > config.m_local { share } else { config.m_local };
    let width: usize = if wanted < beam { wanted } else { beam };
    let mut ids: Vec<u32> = Vec::new();
    let mut k: usize = 0;
    while k < targets.len()
        invariant
            k <= targets@.len() == count,
            store.wf(),
            store.len == local.n,
            measure.fits(store.dim as int),
            sq8.wf(),
            local.wf(),
            sq8.count() == local.n,
            p < local.n,
            medoids@.len() == cells@.len(),
            forall|d: int| 0 <= d < medoids@.len() ==> #[trigger] medoids@[d] < local.n,
            cells_name_points(cells@, local.n as int),
            width > 0,
            forall|i: int| 0 <= i < targets@.len() ==> #[trigger] targets@[i] < cells@.len(),
            compares_codes(*compare, sq8.dim as int),
            ids@ == all_contributed(
                store,
                *measure,
                sq8,
                *compare,
                local,
                cells@,
                medoids@,
                p,
                targets@,
                share as int,
                width as int,
                k as int,
            ),
            forall|i: int| 0 <= i < ids@.len() ==> #[trigger] ids@[i] < local.n,
        decreases targets@.len() - k,
    {
        assert(targets@[k as int] < cells@.len());
        let found = cell_contribution(
            store,
            measure,
            sq8,
            compare,
            local,
            cells,
            medoids,
            p,
            targets[k] as usize,
            share,
            width,
        );
        let ghost before = ids@;
        let mut j: usize = 0;
        while j < found.len()
            invariant
                j <= found@.len(),
                ids@.len() == before.len() + j,
                forall|i: int| 0 <= i < before.len() ==> ids@[i] == before[i],
                forall|i: int| 0 <= i < j ==> ids@[before.len() + i] == #[trigger] found@[i],
            decreases found@.len() - j,
        {
            ids.push(found[j]);
            j = j + 1;
        }
        proof {
            assert(ids@ =~= before + found@);
            assert forall|i: int| 0 <= i < ids@.len() implies #[trigger] ids@[i] < local.n by {
                if i >= before.len() {
                    assert(found@[i - before.len()] < local.n);
                }
            }
        }
        k = k + 1;
    }
    let candidates = rank_exactly(store, measure, p, &ids, beam);
    let selected = select_cross_neighbors(store, &candidates, config, subsets, score);
    proof {
        let rounds = choice_rounds(candidates@, config.m_greedy as int);
        choices_are_distinct(store, candidates@, subsets@, config.alpha, *score, rounds);
        let taken = chosen(store, candidates@, subsets@, config.alpha, *score, rounds);
        assert forall|i: int| 0 <= i < selected@.len() implies #[trigger] selected@[i] < store.len by {
            assert(0 <= taken[i] < candidates@.len());
            assert(candidates@[taken[i]].0 < store.len);
        }
    }
    selected
}

/// Every looked-to cell is another cell.
pub proof fn targets_are_cells<Q: Fn(&[u8], &[u8], &[u32]) -> u32>(
    sq8: &SQ8Store,
    compare: Q,
    medoids: Seq<u32>,
    config: &PrismConfig,
    beam: int,
    source: int,
)
    requires
        1 < medoids.len() <= u32::MAX,
        0 < beam,
        0 <= source < medoids.len(),
    ensures
        targets_of(sq8, compare, medoids, config, beam, source).len() == target_count(
            medoids.len() as int,
            config.m_greedy as int,
            beam,
        ),
        forall|i: int|
            0 <= i < targets_of(sq8, compare, medoids, config, beam, source).len() ==> {
                &&& (#[trigger] targets_of(sq8, compare, medoids, config, beam, source)[i])
                    < medoids.len()
                &&& targets_of(sq8, compare, medoids, config, beam, source)[i] != source
            },
{
    let count = medoids.len() as int;
    let cells = ranked_cells(config, count, beam, source);
    let scores = cell_scores(sq8, compare, medoids, source, cells);
    ranked_cells_are_foreign(config, count, beam, source);
    arranged_is_sorted(scores);
    let out = targets_of(sq8, compare, medoids, config, beam, source);
    let low = lowest(scores, target_count(count, config.m_greedy as int, beam));
    assert forall|i: int| 0 <= i < out.len() implies (#[trigger] out[i]) < medoids.len() && out[i] != source by {
        assert(arranged(scores)[i] == low[i]);
        assert(arranged(scores).contains(low[i]));
        arranged_holds(scores, low[i]);
        let w = choose|w: int| 0 <= w < scores.len() && scores[w] == low[i];
        assert(0 <= cells[w] < count && cells[w] != source);
    }
}

/// Some cell other than `cell` holds `id`.
pub open spec fn in_other_cell(cells: Seq<Cell>, cell: int, id: u32) -> bool {
    exists|c: int| 0 <= c < cells.len() && c != cell && #[trigger] cells[c].point_ids@.contains(id)
}

/// No edge leads out of cell `c`.
pub open spec fn cell_is_closed(local: &Graph, cells: Seq<Cell>, c: int) -> bool {
    let first = cells[c].point_ids@[0] as int;
    let end = first + cells[c].point_ids@.len();
    forall|a: int, b: u32| first <= a < end && #[trigger] local.edge(a, b) ==> first <= b < end
}

/// No edge leads out of a cell, and each cell is entered at one of its points.
pub open spec fn cells_are_closed(local: &Graph, cells: Seq<Cell>, medoids: Seq<u32>) -> bool {
    &&& medoids.len() == cells.len()
    &&& forall|c: int|
        0 <= c < cells.len() ==> {
            &&& is_range((#[trigger] cells[c]).point_ids@)
            &&& cells[c].point_ids@.contains(medoids[c])
            &&& cell_is_closed(local, cells, c)
        }
}

/// The nearest of some points are among them.
proof fn nearest_are_given<D: Fn(Metric, &[u32], &[u32]) -> u32>(
    store: &PointStore,
    measure: Measure<D>,
    p: u32,
    ids: Seq<u32>,
    beam: int,
)
    requires
        ids.len() <= u64::MAX,
        0 <= beam,
    ensures
        exactly_nearest(store, measure, p, ids, beam).len() <= beam,
        forall|i: int|
            0 <= i < exactly_nearest(store, measure, p, ids, beam).len() ==> ids.contains(
                (#[trigger] exactly_nearest(store, measure, p, ids, beam)[i]).0,
            ),
{
    let scores = Seq::new(
        ids.len(),
        |i: int|
            (
                order_of(measure.gives(store.row(p as int), store.row(ids[i] as int))) as u64,
                i as u64,
            ),
    );
    let order = exact_order(store, measure, p, ids);
    let near = exactly_nearest(store, measure, p, ids, beam);
    arranged_is_sorted(scores);
    assert forall|i: int| 0 <= i < near.len() implies ids.contains((#[trigger] near[i]).0) by {
        arranged_holds(scores, order[i]);
        assert(arranged(scores).contains(order[i]));
        let j = choose|j: int| 0 <= j < scores.len() && scores[j] == order[i];
        assert(order[i].1 == j as u64);
        assert(near[i].0 == ids[j]);
    }
}

proof fn contributed_is_there<
    D: Fn(Metric, &[u32], &[u32]) -> u32,
    Q: Fn(&[u8], &[u8], &[u32]) -> u32,
>(
    store: &PointStore,
    measure: Measure<D>,
    sq8: &SQ8Store,
    compare: Q,
    local: &Graph,
    cells: Seq<Cell>,
    medoids: Seq<u32>,
    p: u32,
    c: int,
    share: int,
    width: int,
)
    requires
        cells_are_closed(local, cells, medoids),
        0 <= c < cells.len(),
        0 <= share,
    ensures
        contributed(store, measure, sq8, compare, local, cells, medoids, p, c, share, width).len() <= share,
        forall|i: int|
            0 <= i < contributed(store, measure, sq8, compare, local, cells, medoids, p, c, share, width).len()
                ==> cells[c].point_ids@.contains(
                #[trigger] contributed(
                    store,
                    measure,
                    sq8,
                    compare,
                    local,
                    cells,
                    medoids,
                    p,
                    c,
                    share,
                    width,
                )[i],
            ),
{
    let ids = cells[c].point_ids@;
    let given = contributed(store, measure, sq8, compare, local, cells, medoids, p, c, share, width);
    assert(is_range(ids) && ids.contains(medoids[c]));
    let first = ids[0] as int;
    let last = first + ids.len() - 1;
    assert forall|i: int| 0 <= i < given.len() implies ids.contains(#[trigger] given[i]) by {
        if measure.metric == Metric::InnerProduct {
            assert(ids[ids.len() - 1] == ids[0] + (ids.len() - 1));
            nearest_are_given(store, measure, p, ids, share);
            let near = exactly_nearest(store, measure, p, ids, share);
            assert(near[i].0 == given[i]);
        } else if ids.len() > 2 * width {
            let m = choose|m: int| 0 <= m < ids.len() && ids[m] == medoids[c];
            assert(ids[m] == ids[0] + m);
            found_within(sq8, compare, local, p, medoids[c], width, first, last);
            let found = beam_found(sq8, compare, local, p, medoids[c], width);
            assert(given[i] == found[i].1);
            let at = given[i] - first;
            assert(ids[at] == ids[0] + at);
        } else {
            let scores = scan_scores(sq8, compare, p, ids);
            arranged_is_sorted(scores);
            let entry = arranged(scores)[i];
            assert(entry.1 == given[i]);
            arranged_holds(scores, entry);
            assert(arranged(scores).contains(entry));
            let j = choose|j: int| 0 <= j < scores.len() && scores[j] == entry;
            assert(ids[j] == given[i]);
        }
    }
}

proof fn all_contributed_is_foreign<
    D: Fn(Metric, &[u32], &[u32]) -> u32,
    Q: Fn(&[u8], &[u8], &[u32]) -> u32,
>(
    store: &PointStore,
    measure: Measure<D>,
    sq8: &SQ8Store,
    compare: Q,
    local: &Graph,
    cells: Seq<Cell>,
    medoids: Seq<u32>,
    p: u32,
    targets: Seq<u32>,
    share: int,
    width: int,
    upto: int,
    cell: int,
)
    requires
        cells_are_closed(local, cells, medoids),
        0 <= share,
        upto <= targets.len(),
        forall|i: int| 0 <= i < targets.len() ==> #[trigger] targets[i] < cells.len() && targets[i] != cell,
    ensures
        all_contributed(
            store,
            measure,
            sq8,
            compare,
            local,
            cells,
            medoids,
            p,
            targets,
            share,
            width,
            upto,
        ).len() <= if upto > 0 {
            upto * share
        } else {
            0
        },
        forall|i: int|
            0 <= i < all_contributed(
                store,
                measure,
                sq8,
                compare,
                local,
                cells,
                medoids,
                p,
                targets,
                share,
                width,
                upto,
            ).len() ==> in_other_cell(
                cells,
                cell,
                #[trigger] all_contributed(
                    store,
                    measure,
                    sq8,
                    compare,
                    local,
                    cells,
                    medoids,
                    p,
                    targets,
                    share,
                    width,
                    upto,
                )[i],
            ),
    decreases upto,
{
    if upto > 0 {
        let c = targets[upto - 1] as int;
        all_contributed_is_foreign(
            store,
            measure,
            sq8,
            compare,
            local,
            cells,
            medoids,
            p,
            targets,
            share,
            width,
            upto - 1,
            cell,
        );
        contributed_is_there(store, measure, sq8, compare, local, cells, medoids, p, c, share, width);
        let few = all_contributed(
            store,
            measure,
            sq8,
            compare,
            local,
            cells,
            medoids,
            p,
            targets,
            share,
            width,
            upto - 1,
        );
        let given = contributed(store, measure, sq8, compare, local, cells, medoids, p, c, share, width);
        let all = all_contributed(
            store,
            measure,
            sq8,
            compare,
            local,
            cells,
            medoids,
            p,
            targets,
            share,
            width,
            upto,
        );
        assert((upto - 1) * share + share == upto * share) by (nonlinear_arith);
        assert((upto - 1) * share >= 0) by (nonlinear_arith)
            requires
                upto > 0,
                share >= 0,
        ;
        assert forall|i: int| 0 <= i < all.len() implies in_other_cell(cells, cell, #[trigger] all[i]) by {
            if i < few.len() {
                assert(all[i] == few[i]);
            } else {
                assert(all[i] == given[i - few.len()]);
                assert(cells[c].point_ids@.contains(all[i]));
            }
        }
    }
}

/// Every neighbour that a point selects is in another cell, as long as the
/// edges so far stay within cells.
pub proof fn cross_neighbors_are_foreign<
    D: Fn(Metric, &[u32], &[u32]) -> u32,
    Q: Fn(&[u8], &[u8], &[u32]) -> u32,
    W: Fn(u32, usize, u32) -> u32,
>(
    store: &PointStore,
    measure: Measure<D>,
    sq8: &SQ8Store,
    compare: Q,
    score: W,
    local: &Graph,
    cells: Seq<Cell>,
    medoids: Seq<u32>,
    config: &PrismConfig,
    subsets: Seq<Vec<usize>>,
    beam: int,
    cell: int,
    p: u32,
    id: u32,
)
    requires
        cells_are_closed(local, cells, medoids),
        1 < medoids.len() <= u32::MAX,
        0 < beam <= u32::MAX,
        0 <= cell < medoids.len(),
        cross_neighbors(
            store,
            measure,
            sq8,
            compare,
            score,
            local,
            cells,
            medoids,
            config,
            subsets,
            beam,
            cell,
            p,
        ).contains(id),
    ensures
        in_other_cell(cells, cell, id),
{
    let targets = targets_of(sq8, compare, medoids, config, beam, cell);
    let count = target_count(medoids.len() as int, config.m_greedy as int, beam);
    targets_are_cells(sq8, compare, medoids, config, beam, cell);
    ranked_cells_are_foreign(config, medoids.len() as int, beam, cell);
    let share = cell_share(beam, count);
    let width = cell_width(beam, count, config.m_local as int);
    assert(0 <= beam / count) by (nonlinear_arith)
        requires
            beam > 0,
            count > 0,
    ;
    all_contributed_is_foreign(
        store,
        measure,
        sq8,
        compare,
        local,
        cells,
        medoids,
        p,
        targets,
        share,
        width,
        targets.len() as int,
        cell,
    );
    let ids = all_contributed(
        store,
        measure,
        sq8,
        compare,
        local,
        cells,
        medoids,
        p,
        targets,
        share,
        width,
        targets.len() as int,
    );
    assert(count * share <= 2 * 0x1_0000_0000) by (nonlinear_arith)
        requires
            share <= beam / count + 1,
            0 < count <= beam <= u32::MAX,
    ;
    nearest_are_given(store, measure, p, ids, beam);
    let candidates = exactly_nearest(store, measure, p, ids, beam);
    let rounds = choice_rounds(candidates, config.m_greedy as int);
    choices_are_distinct(store, candidates, subsets, config.alpha, score, rounds);
    let taken = chosen(store, candidates, subsets, config.alpha, score, rounds);
    let picked = ids_at(candidates, taken);
    let at = choose|at: int| 0 <= at < picked.len() && picked[at] == id;
    let i = taken[at];
    assert(0 <= i < candidates.len());
    assert(ids.contains(candidates[i].0));
    let j = choose|j: int| 0 <= j < ids.len() && ids[j] == candidates[i].0;
    assert(in_other_cell(cells, cell, ids[j]));
}

} // verus!
