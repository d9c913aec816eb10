//! What is computed from points depends on their contents alone.

use vstd::prelude::*;
use crate::assemble::{
    cells_told, covers_attributes, cross_beam, cross_edge, linked_in, local_edge, strength_used,
    table_fits,
};
use crate::config::PrismConfig;
use crate::construct::{assembled, due_edge, is_assembled, is_local};
use crate::covering::{
    agree, candidate_score, choice_rounds, chosen, ids_at, is_new, new_tuples, subsets_fit,
};
use crate::cross::{
    all_contributed, cell_scores, cell_share, cell_width, contributed, cross_neighbors, exact_order,
    exactly_nearest, ranked_cells, scan_scores, target_count, targets_are_cells, targets_of,
};
use crate::distance::Metric;
use crate::graph::Graph;
use crate::medoid::{mean_row, medoid_of};
use crate::order::arranged;
use crate::partition::Cell;
use crate::point::PointStore;
use crate::pure::Measure;
use crate::quantize::{coordinate_range, greatest, least, sample_keys, SQ8Store};
use crate::single::order_of;
use crate::vamana::{
    all_answered, answered, gap, gap_key, is_dominated, linked, nearest_first, others, pruned,
    ranked, refined, robustly_pruned, searched, vamana_lists,
};
use crate::walk::{beam_found, code_key};

verus! {

/// The stores hold the same coordinates and attributes.
pub open spec fn same_points(one: &PointStore, two: &PointStore) -> bool {
    &&& one.dim == two.dim
    &&& one.len == two.len
    &&& one.vectors@ == two.vectors@
    &&& one.attrs@.len() == two.attrs@.len()
    &&& forall|j: int| 0 <= j < one.attrs@.len() ==> (#[trigger] one.attrs@[j])@ == two.attrs@[j]@
}

/// The stores hold the same codes and the same scales.
pub open spec fn codes_alike(one: &SQ8Store, two: &SQ8Store) -> bool {
    &&& one.dim == two.dim
    &&& one.codes@ == two.codes@
    &&& one.mins@ == two.mins@
    &&& one.scales@ == two.scales@
}

/// The cells hold the same points.
pub open spec fn same_cells(one: Seq<Cell>, two: Seq<Cell>) -> bool {
    &&& one.len() == two.len()
    &&& forall|c: int| 0 <= c < one.len() ==> (#[trigger] one[c]).point_ids@ == two[c].point_ids@
}

proof fn gaps_agree<D: Fn(Metric, &[u32], &[u32]) -> u32>(one: &PointStore, two: &PointStore, first: int, measure: Measure<D>)
    requires
        same_points(one, two),
    ensures
        forall|a: u32, b: u32|
            gap(one, first, measure, a, b) == #[trigger] gap(two, first, measure, a, b),
        forall|a: u32, b: u32|
            gap_key(one, first, measure, a, b) == #[trigger] gap_key(two, first, measure, a, b),
{
    assert forall|a: u32, b: u32|
        gap(one, first, measure, a, b) == #[trigger] gap(two, first, measure, a, b) by {
        assert(one.row(first + a) == two.row(first + a));
        assert(one.row(first + b) == two.row(first + b));
    }
}

proof fn searches_agree<D: Fn(Metric, &[u32], &[u32]) -> u32>(
    one: &PointStore,
    two: &PointStore,
    first: int,
    measure: Measure<D>,
    graph: Seq<Seq<u32>>,
    entry: u32,
    query: u32,
    beam: int,
)
    requires
        same_points(one, two),
    ensures
        searched(one, first, measure, graph, entry, query, beam) == searched(
            two,
            first,
            measure,
            graph,
            entry,
            query,
            beam,
        ),
{
    gaps_agree(one, two, first, measure);
    let a = |w: u32| gap_key(one, first, measure, query, w);
    let b = |w: u32| gap_key(two, first, measure, query, w);
    assert(a =~= b);
}

proof fn prunings_agree<D: Fn(Metric, &[u32], &[u32]) -> u32, P: Fn(u32, u32, u32, u32) -> bool>(
    one: &PointStore,
    two: &PointStore,
    first: int,
    measure: Measure<D>,
    covers: P,
    alpha: u32,
    p: u32,
    order: Seq<u32>,
    r: int,
    upto: int,
)
    requires
        same_points(one, two),
    ensures
        pruned(one, first, measure, covers, alpha, p, order, r, upto) == pruned(
            two,
            first,
            measure,
            covers,
            alpha,
            p,
            order,
            r,
            upto,
        ),
    decreases upto,
{
    if upto > 0 {
        prunings_agree(one, two, first, measure, covers, alpha, p, order, r, upto - 1);
        gaps_agree(one, two, first, measure);
        let before = pruned(one, first, measure, covers, alpha, p, order, r, upto - 1);
        let c = order[upto - 1];
        assert(is_dominated(one, first, measure, covers, alpha, p, before, c) == is_dominated(
            two,
            first,
            measure,
            covers,
            alpha,
            p,
            before,
            c,
        ));
    }
}

proof fn robust_prunings_agree<D: Fn(Metric, &[u32], &[u32]) -> u32, P: Fn(u32, u32, u32, u32) -> bool>(
    one: &PointStore,
    two: &PointStore,
    first: int,
    measure: Measure<D>,
    covers: P,
    alpha: u32,
    p: u32,
    candidates: Seq<u32>,
    r: int,
)
    requires
        same_points(one, two),
    ensures
        robustly_pruned(one, first, measure, covers, alpha, p, candidates, r) == robustly_pruned(
            two,
            first,
            measure,
            covers,
            alpha,
            p,
            candidates,
            r,
        ),
{
    gaps_agree(one, two, first, measure);
    let a = |w: u32| gap_key(one, first, measure, p, w);
    let b = |w: u32| gap_key(two, first, measure, p, w);
    assert(a =~= b);
    let rest = others(candidates, p, candidates.len() as int);
    assert(ranked(rest, a) == ranked(rest, b));
    let order = nearest_first(one, first, measure, p, candidates);
    assert(order == nearest_first(two, first, measure, p, candidates));
    prunings_agree(one, two, first, measure, covers, alpha, p, order, r, order.len() as int);
}

proof fn answers_agree<D: Fn(Metric, &[u32], &[u32]) -> u32, P: Fn(u32, u32, u32, u32) -> bool>(
    one: &PointStore,
    two: &PointStore,
    first: int,
    measure: Measure<D>,
    covers: P,
    alpha: u32,
    r: int,
    graph: Seq<Seq<u32>>,
    i: u32,
    neighbors: Seq<u32>,
    upto: int,
)
    requires
        same_points(one, two),
    ensures
        all_answered(one, first, measure, covers, alpha, r, graph, i, neighbors, upto) == all_answered(
            two,
            first,
            measure,
            covers,
            alpha,
            r,
            graph,
            i,
            neighbors,
            upto,
        ),
    decreases upto,
{
    if upto > 0 {
        answers_agree(one, two, first, measure, covers, alpha, r, graph, i, neighbors, upto - 1);
        let before = all_answered(
            one,
            first,
            measure,
            covers,
            alpha,
            r,
            graph,
            i,
            neighbors,
            upto - 1,
        );
        let j = neighbors[upto - 1];
        let longer = before[j as int].push(i);
        robust_prunings_agree(one, two, first, measure, covers, alpha, j, longer, r);
        assert(answered(one, first, measure, covers, alpha, r, before, i, j) == answered(
            two,
            first,
            measure,
            covers,
            alpha,
            r,
            before,
            i,
            j,
        ));
    }
}

proof fn refinements_agree<D: Fn(Metric, &[u32], &[u32]) -> u32, P: Fn(u32, u32, u32, u32) -> bool>(
    one: &PointStore,
    two: &PointStore,
    first: int,
    measure: Measure<D>,
    covers: P,
    alpha: u32,
    r: int,
    beam: int,
    entry: u32,
    graph: Seq<Seq<u32>>,
    order: Seq<usize>,
    upto: int,
)
    requires
        same_points(one, two),
    ensures
        refined(one, first, measure, covers, alpha, r, beam, entry, graph, order, upto) == refined(
            two,
            first,
            measure,
            covers,
            alpha,
            r,
            beam,
            entry,
            graph,
            order,
            upto,
        ),
    decreases upto,
{
    if upto > 0 {
        refinements_agree(
            one,
            two,
            first,
            measure,
            covers,
            alpha,
            r,
            beam,
            entry,
            graph,
            order,
            upto - 1,
        );
        let before = refined(
            one,
            first,
            measure,
            covers,
            alpha,
            r,
            beam,
            entry,
            graph,
            order,
            upto - 1,
        );
        let i = order[upto - 1] as u32;
        searches_agree(one, two, first, measure, before, entry, i, beam);
        let found = searched(one, first, measure, before, entry, i, beam);
        let candidates = crate::vamana::joined(
            found,
            before[i as int],
            before[i as int].len() as int,
        );
        robust_prunings_agree(one, two, first, measure, covers, alpha, i, candidates, r);
        let own = robustly_pruned(one, first, measure, covers, alpha, i, candidates, r);
        answers_agree(
            one,
            two,
            first,
            measure,
            covers,
            alpha,
            r,
            before.update(i as int, own),
            i,
            own,
            own.len() as int,
        );
        assert(linked(one, first, measure, covers, alpha, r, beam, entry, before, i) == linked(
            two,
            first,
            measure,
            covers,
            alpha,
            r,
            beam,
            entry,
            before,
            i,
        ));
    }
}

proof fn lists_agree<D: Fn(Metric, &[u32], &[u32]) -> u32, P: Fn(u32, u32, u32, u32) -> bool>(
    one: &PointStore,
    two: &PointStore,
    first: int,
    n: int,
    measure: Measure<D>,
    covers: P,
    alpha: u32,
    r: int,
    beam: int,
    entry: u32,
    state: Seq<u32>,
)
    requires
        same_points(one, two),
    ensures
        vamana_lists(one, first, n, measure, covers, alpha, r, beam, entry, state) == vamana_lists(
            two,
            first,
            n,
            measure,
            covers,
            alpha,
            r,
            beam,
            entry,
            state,
        ),
{
    let (start, drawn) = crate::vamana::chance_lists(state, n, r, n);
    let order = crate::chance::shuffled(drawn, n as nat);
    let last = crate::chance::shuffled(crate::chance::arrange(drawn, n as nat).1, n as nat);
    refinements_agree(
        one,
        two,
        first,
        measure,
        covers,
        crate::single::ONE,
        r,
        beam,
        entry,
        start,
        order,
        n,
    );
    let middle = refined(
        one,
        first,
        measure,
        covers,
        crate::single::ONE,
        r,
        beam,
        entry,
        start,
        order,
        n,
    );
    refinements_agree(one, two, first, measure, covers, alpha, r, beam, entry, middle, last, n);
}

/// The medoid depends on the contents of the store alone.
pub proof fn medoids_agree<D: Fn(Metric, &[u32], &[u32]) -> u32, C: Fn(&[u32], usize) -> Vec<u32>>(
    one: &PointStore,
    two: &PointStore,
    first: int,
    n: int,
    measure: Measure<D>,
    centroid: C,
)
    requires
        same_points(one, two),
    ensures
        medoid_of(one, first, n, measure, centroid) == medoid_of(two, first, n, measure, centroid),
{
    let mean = mean_row(one, first, n, centroid);
    assert(mean == mean_row(two, first, n, centroid));
    let a = |p: int| order_of(measure.gives(mean, one.row(first + p))) as int;
    let b = |p: int| order_of(measure.gives(mean, two.row(first + p))) as int;
    assert forall|p: int| #[trigger] a(p) == b(p) by {
        assert(one.row(first + p) == two.row(first + p));
    }
    assert(a =~= b);
}

proof fn tables_agree<
    D: Fn(Metric, &[u32], &[u32]) -> u32,
    C: Fn(&[u32], usize) -> Vec<u32>,
    P: Fn(u32, u32, u32, u32) -> bool,
>(
    one: &PointStore,
    two: &PointStore,
    config: &PrismConfig,
    measure: Measure<D>,
    centroid: C,
    covers: P,
    first: Seq<Cell>,
    second: Seq<Cell>,
    table: Seq<Seq<u32>>,
    c: int,
)
    requires
        same_points(one, two),
        same_cells(first, second),
        0 <= c < first.len(),
        table_fits(one, config, measure, centroid, covers, first, table, c),
    ensures
        table_fits(two, config, measure, centroid, covers, second, table, c),
{
    assert(first[c].point_ids@ == second[c].point_ids@);
    let n = first[c].point_ids@.len() as int;
    let begin = first[c].point_ids@[0] as int;
    medoids_agree(one, two, begin, n, measure, centroid);
    assert(crate::weave::apart(one, begin, measure) =~= crate::weave::apart(two, begin, measure));
    lists_agree(
        one,
        two,
        begin,
        n,
        measure,
        covers,
        config.vamana_alpha,
        config.m_local as int,
        if config.beam_width < n {
            config.beam_width as int
        } else {
            n
        },
        medoid_of(one, begin, n, measure, centroid) as u32,
        crate::chance::started(
            crate::cross::mixed(
                config.build_seed,
                crate::assemble::LOCAL_STREAM ^ (c as u64),
            ),
        ),
    );
}

proof fn local_edge_agrees(
    first: Seq<Cell>,
    second: Seq<Cell>,
    m_local: int,
    tables: Seq<Seq<Seq<u32>>>,
    a: int,
    b: int,
)
    requires
        same_cells(first, second),
    ensures
        local_edge(first, m_local, tables, a, b) ==> local_edge(second, m_local, tables, a, b),
{
    if local_edge(first, m_local, tables, a, b) {
        let c = choose|c: int| #[trigger] linked_in(first, m_local, tables, c, a, b);
        assert(first[c].point_ids@ == second[c].point_ids@);
        assert(linked_in(second, m_local, tables, c, a, b));
    }
}

proof fn code_keys_agree<Q: Fn(&[u8], &[u8], &[u32]) -> u32>(one: &SQ8Store, two: &SQ8Store, compare: Q)
    requires
        codes_alike(one, two),
    ensures
        forall|a: u32, b: u32|
            code_key(one, compare, a, b) == #[trigger] code_key(two, compare, a, b),
{
    assert forall|a: u32, b: u32|
        code_key(one, compare, a, b) == #[trigger] code_key(two, compare, a, b) by {
        assert(one.code_of(a as int) == two.code_of(a as int));
        assert(one.code_of(b as int) == two.code_of(b as int));
    }
}

proof fn contribution_agrees<
    D: Fn(Metric, &[u32], &[u32]) -> u32,
    Q: Fn(&[u8], &[u8], &[u32]) -> u32,
>(
    left: &PointStore,
    right: &PointStore,
    measure: Measure<D>,
    one: &SQ8Store,
    two: &SQ8Store,
    compare: Q,
    local: &Graph,
    first: Seq<Cell>,
    second: Seq<Cell>,
    medoids: Seq<u32>,
    p: u32,
    targets: Seq<u32>,
    share: int,
    width: int,
    upto: int,
)
    requires
        same_points(left, right),
        codes_alike(one, two),
        same_cells(first, second),
        upto <= targets.len(),
        forall|i: int| 0 <= i < targets.len() ==> #[trigger] targets[i] < first.len(),
    ensures
        all_contributed(left, measure, one, compare, local, first, medoids, p, targets, share, width, upto)
            == all_contributed(
            right,
            measure,
            two,
            compare,
            local,
            second,
            medoids,
            p,
            targets,
            share,
            width,
            upto,
        ),
    decreases upto,
{
    if upto > 0 {
        contribution_agrees(
            left,
            right,
            measure,
            one,
            two,
            compare,
            local,
            first,
            second,
            medoids,
            p,
            targets,
            share,
            width,
            upto - 1,
        );
        let c = targets[upto - 1] as int;
        assert(first[c].point_ids@ == second[c].point_ids@);
        code_keys_agree(one, two, compare);
        let a = |w: u32| code_key(one, compare, p, w);
        let b = |w: u32| code_key(two, compare, p, w);
        assert(a =~= b);
        assert(beam_found(one, compare, local, p, medoids[c], width) == beam_found(
            two,
            compare,
            local,
            p,
            medoids[c],
            width,
        ));
        let ids = first[c].point_ids@;
        assert(scan_scores(one, compare, p, ids) =~= scan_scores(two, compare, p, ids));
        nearest_agree(left, right, measure, p, ids, share);
        assert(contributed(left, measure, one, compare, local, first, medoids, p, c, share, width) == contributed(
            right,
            measure,
            two,
            compare,
            local,
            second,
            medoids,
            p,
            c,
            share,
            width,
        ));
    }
}

proof fn targets_agree<Q: Fn(&[u8], &[u8], &[u32]) -> u32>(
    one: &SQ8Store,
    two: &SQ8Store,
    compare: Q,
    medoids: Seq<u32>,
    config: &PrismConfig,
    beam: int,
    source: int,
)
    requires
        codes_alike(one, two),
    ensures
        targets_of(one, compare, medoids, config, beam, source) == targets_of(
            two,
            compare,
            medoids,
            config,
            beam,
            source,
        ),
{
    code_keys_agree(one, two, compare);
    let cells = ranked_cells(config, medoids.len() as int, beam, source);
    assert(cell_scores(one, compare, medoids, source, cells) =~= cell_scores(
        two,
        compare,
        medoids,
        source,
        cells,
    ));
}

proof fn nearest_agree<D: Fn(Metric, &[u32], &[u32]) -> u32>(
    one: &PointStore,
    two: &PointStore,
    measure: Measure<D>,
    p: u32,
    ids: Seq<u32>,
    beam: int,
)
    requires
        same_points(one, two),
    ensures
        exactly_nearest(one, measure, p, ids, beam) == exactly_nearest(two, measure, p, ids, beam),
{
    assert(one.row(p as int) == two.row(p as int));
    assert forall|q: int| #[trigger] one.row(q) == two.row(q) by {}
    let a = Seq::new(
        ids.len(),
        |i: int|
            (
                order_of(measure.gives(one.row(p as int), one.row(ids[i] as int))) as u64,
                i as u64,
            ),
    );
    let b = Seq::new(
        ids.len(),
        |i: int|
            (
                order_of(measure.gives(two.row(p as int), two.row(ids[i] as int))) as u64,
                i as u64,
            ),
    );
    assert(a =~= b);
    assert(exact_order(one, measure, p, ids) == arranged(a));
    assert(exact_order(two, measure, p, ids) == arranged(b));
    assert(exactly_nearest(one, measure, p, ids, beam) =~= exactly_nearest(
        two,
        measure,
        p,
        ids,
        beam,
    ));
}

proof fn counts_agree(
    one: &PointStore,
    two: &PointStore,
    q: u32,
    taken: Seq<u32>,
    subsets: Seq<Vec<usize>>,
    upto: int,
)
    requires
        same_points(one, two),
        subsets_fit(subsets, one.attrs@.len() as int),
        upto <= subsets.len(),
    ensures
        new_tuples(one, q, taken, subsets, upto) == new_tuples(two, q, taken, subsets, upto),
    decreases upto,
{
    if upto > 0 {
        counts_agree(one, two, q, taken, subsets, upto - 1);
        let combo = subsets[upto - 1]@;
        assert forall|s: u32| agree(one, q, s, combo) == #[trigger] agree(two, q, s, combo) by {
            assert forall|i: int, x: u32| 0 <= i < combo.len() implies one.attr_at(
                x as int,
                (#[trigger] combo[i]) as int,
            ) == #[trigger] two.attr_at(x as int, combo[i] as int) by {
                assert(subsets[upto - 1]@[i] < one.attrs@.len());
                assert(one.attrs@[combo[i] as int]@ == two.attrs@[combo[i] as int]@);
            }
        }
        assert(is_new(one, q, taken, combo) == is_new(two, q, taken, combo));
    }
}

proof fn choices_are_alike<W: Fn(u32, usize, u32) -> u32>(
    one: &PointStore,
    two: &PointStore,
    candidates: Seq<(u32, u32)>,
    subsets: Seq<Vec<usize>>,
    alpha: u32,
    score: W,
    rounds: int,
)
    requires
        same_points(one, two),
        subsets_fit(subsets, one.attrs@.len() as int),
    ensures
        chosen(one, candidates, subsets, alpha, score, rounds) == chosen(
            two,
            candidates,
            subsets,
            alpha,
            score,
            rounds,
        ),
    decreases rounds,
{
    if rounds > 0 {
        choices_are_alike(one, two, candidates, subsets, alpha, score, rounds - 1);
        let before = chosen(one, candidates, subsets, alpha, score, rounds - 1);
        let a = |i: int| candidate_score(one, candidates, subsets, alpha, score, before, i);
        let b = |i: int| candidate_score(two, candidates, subsets, alpha, score, before, i);
        assert forall|i: int| #[trigger] a(i) == b(i) by {
            counts_agree(
                one,
                two,
                candidates[i].0,
                ids_at(candidates, before),
                subsets,
                subsets.len() as int,
            );
        }
        assert(a =~= b);
    }
}

proof fn cross_edges_agree<
    D: Fn(Metric, &[u32], &[u32]) -> u32,
    Q: Fn(&[u8], &[u8], &[u32]) -> u32,
    W: Fn(u32, usize, u32) -> u32,
>(
    one: &PointStore,
    two: &PointStore,
    measure: Measure<D>,
    codes: &SQ8Store,
    others: &SQ8Store,
    compare: Q,
    score: W,
    local: &Graph,
    first: Seq<Cell>,
    second: Seq<Cell>,
    medoids: Seq<u32>,
    config: &PrismConfig,
    subsets: Seq<Vec<usize>>,
    beam: int,
    cell: int,
    p: u32,
)
    requires
        same_points(one, two),
        codes_alike(codes, others),
        same_cells(first, second),
        subsets_fit(subsets, one.attrs@.len() as int),
        medoids.len() == first.len(),
        1 < medoids.len() <= u32::MAX,
        0 < beam,
        0 <= cell < medoids.len(),
    ensures
        cross_neighbors(
            one,
            measure,
            codes,
            compare,
            score,
            local,
            first,
            medoids,
            config,
            subsets,
            beam,
            cell,
            p,
        ) == cross_neighbors(
            two,
            measure,
            others,
            compare,
            score,
            local,
            second,
            medoids,
            config,
            subsets,
            beam,
            cell,
            p,
        ),
{
    targets_agree(codes, others, compare, medoids, config, beam, cell);
    targets_are_cells(codes, compare, medoids, config, beam, cell);
    let targets = targets_of(codes, compare, medoids, config, beam, cell);
    let count = target_count(medoids.len() as int, config.m_greedy as int, beam);
    let share = cell_share(beam, count);
    let width = cell_width(beam, count, config.m_local as int);
    contribution_agrees(
        one,
        two,
        measure,
        codes,
        others,
        compare,
        local,
        first,
        second,
        medoids,
        p,
        targets,
        share,
        width,
        targets.len() as int,
    );
    let ids = all_contributed(
        one,
        measure,
        codes,
        compare,
        local,
        first,
        medoids,
        p,
        targets,
        share,
        width,
        targets.len() as int,
    );
    nearest_agree(one, two, measure, p, ids, beam);
    let candidates = exactly_nearest(one, measure, p, ids, beam);
    choices_are_alike(
        one,
        two,
        candidates,
        subsets,
        config.alpha,
        score,
        choice_rounds(candidates, config.m_greedy as int),
    );
}

/// A graph that is assembled for some points is assembled for points with the
/// same contents.
pub proof fn assembly_depends_on_contents<
    D: Fn(Metric, &[u32], &[u32]) -> u32,
    C: Fn(&[u32], usize) -> Vec<u32>,
    P: Fn(u32, u32, u32, u32) -> bool,
    Q: Fn(&[u8], &[u8], &[u32]) -> u32,
    W: Fn(u32, usize, u32) -> u32,
>(
    graph: &Graph,
    one: &PointStore,
    two: &PointStore,
    measure: Measure<D>,
    centroid: C,
    covers: P,
    codes: &SQ8Store,
    others: &SQ8Store,
    compare: Q,
    score: W,
    first: Seq<Cell>,
    second: Seq<Cell>,
    medoids: Seq<u32>,
    config: &PrismConfig,
    point_cell: Seq<u32>,
)
    requires
        one.wf(),
        one.len > 0,
        same_points(one, two),
        codes_alike(codes, others),
        same_cells(first, second),
        medoids.len() == first.len(),
        first.len() <= one.len,
        cells_told(first, point_cell, one.len as int),
        config.beam_width > 0,
        is_assembled(
            graph,
            one,
            measure,
            centroid,
            covers,
            codes,
            compare,
            score,
            first,
            medoids,
            config,
            point_cell,
        ),
    ensures
        is_assembled(
            graph,
            two,
            measure,
            centroid,
            covers,
            others,
            compare,
            score,
            second,
            medoids,
            config,
            point_cell,
        ),
{
    let n = one.len as int;
    let m = config.m_local as int;
    let (tables, local, subsets) = choose|tables: Seq<Seq<Seq<u32>>>, local: Graph, subsets: Seq<Vec<usize>>|
        #[trigger] assembled(
            graph,
            one,
            measure,
            centroid,
            covers,
            codes,
            compare,
            score,
            first,
            medoids,
            config,
            point_cell,
            tables,
            &local,
            subsets,
        );
    assert forall|a: int, b: int| local_edge(first, m, tables, a, b) == #[trigger] local_edge(
        second,
        m,
        tables,
        a,
        b,
    ) by {
        local_edge_agrees(first, second, m, tables, a, b);
        local_edge_agrees(second, first, m, tables, a, b);
    }
    if config.local_built(n) {
        assert forall|c: int| 0 <= c < second.len() implies table_fits(
            two,
            config,
            measure,
            centroid,
            covers,
            second,
            #[trigger] tables[c],
            c,
        ) by {
            tables_agree(
                one,
                two,
                config,
                measure,
                centroid,
                covers,
                first,
                second,
                tables[c],
                c,
            );
        }
    }
    if config.global_built(n, first.len() as int) {
        assert(is_local(&local, second, m, tables, n));
        if config.m_greedy > 0 {
            let t = strength_used(config, one.arity());
            assert(covers_attributes(subsets, one.arity(), t));
            assert(subsets_fit(subsets, one.attrs@.len() as int)) by {
                assert forall|r: int, i: int|
                    0 <= r < subsets.len() && 0 <= i < subsets[r]@.len() implies #[trigger] subsets[r]@[i]
                    < one.attrs@.len() by {
                    assert(crate::covering::is_subset(subsets[r]@, one.arity(), t));
                }
            }
        }
    }
    assert forall|a: int, b: u32| 0 <= a < n implies (#[trigger] graph.edge(a, b) <==> due_edge(
        two,
        measure,
        others,
        compare,
        score,
        second,
        medoids,
        config,
        point_cell,
        tables,
        &local,
        subsets,
        a,
        b,
    )) by {
        assert(local_edge(first, m, tables, a, b as int) == local_edge(second, m, tables, a, b as int));
        if config.global_built(n, first.len() as int) && config.m_greedy > 0 {
            cross_edges_agree(
                one,
                two,
                measure,
                codes,
                others,
                compare,
                score,
                &local,
                first,
                second,
                medoids,
                config,
                subsets,
                cross_beam(config, n),
                point_cell[a] as int,
                a as u32,
            );
            assert(cross_edge(
                one,
                measure,
                codes,
                compare,
                score,
                &local,
                first,
                medoids,
                config,
                subsets,
                point_cell,
                a,
                b,
            ) == cross_edge(
                two,
                measure,
                others,
                compare,
                score,
                &local,
                second,
                medoids,
                config,
                subsets,
                point_cell,
                a,
                b,
            ));
        }
        assert(graph.edge(a, b) <==> due_edge(
            one,
            measure,
            codes,
            compare,
            score,
            first,
            medoids,
            config,
            point_cell,
            tables,
            &local,
            subsets,
            a,
            b,
        ));
    }
    assert(assembled(
        graph,
        two,
        measure,
        centroid,
        covers,
        others,
        compare,
        score,
        second,
        medoids,
        config,
        point_cell,
        tables,
        &local,
        subsets,
    ));
}

proof fn extremes_agree(one: &PointStore, two: &PointStore, d: int, upto: int)
    requires
        same_points(one, two),
    ensures
        least(one, d, upto) == least(two, d, upto),
        greatest(one, d, upto) == greatest(two, d, upto),
    decreases upto,
{
    if upto > 0 {
        extremes_agree(one, two, d, upto - 1);
        assert(one.row(upto - 1) == two.row(upto - 1));
    }
}

/// The range of a coordinate depends on the contents of the store alone.
pub proof fn ranges_agree(one: &PointStore, two: &PointStore, d: int)
    requires
        same_points(one, two),
    ensures
        coordinate_range(one, d) == coordinate_range(two, d),
{
    extremes_agree(one, two, d, one.len as int);
    let count = if one.len < crate::quantize::SAMPLE_LIMIT {
        one.len as int
    } else {
        crate::quantize::SAMPLE_LIMIT as int
    };
    assert forall|q: int| #[trigger] one.row(q) == two.row(q) by {}
    assert(sample_keys(one, d, count) =~= sample_keys(two, d, count));
}

} // verus!
