//! The index: points in cells, edges between them, and what speeds up searches.

use vstd::prelude::*;
use crate::binary::{packed, seeded_signs, standard_signs, BinaryStore};
use crate::config::PrismConfig;
use crate::covering::{checked_covering_subset_count, covering_verdict};
use crate::distance::Metric;
use crate::error::{ends, invalid_format, invalid_input, refused_format, PrismResult, Verdict};
use crate::graph::Graph;
use crate::partition::{catalogs, holds_tuple, Cell, PartitionTree};
use crate::point::{parts_valid, whole_rows, PointStore};
use crate::pure::{flags_of, gives_flags, numbers_rows, of1, row_number, total1, total2, total3};
use crate::quantize::SQ8Store;
use crate::reach::{
    cell_spanned, cells_are_ranges, is_canonical, is_range, spans, stays_in_cells,
    validate_canonical_graph, validate_local_reachability, validate_no_cross_cell_edges,
    validate_reachable,
};
use crate::single::{ONE, SIGN};
use crate::walk::clear_flags;
use crate::wipe::blank_long_words;

verus! {

/// Double-precision pattern of the least squared norm that counts as one.
pub const LEAST_UNIT: u64 = 0x3fef_ff2e_48e8_a71e;

/// Double-precision pattern of the greatest squared norm that counts as one.
pub const GREATEST_UNIT: u64 = 0x3ff0_0068_db8b_ac71;

/// Double-precision pattern of minus zero.
pub const MINUS_NOTHING: u64 = 0x8000_0000_0000_0000;

/// A squared norm, as a double-precision pattern, that is zero or differs from
/// one by at most a ten-thousandth.
pub open spec fn unit_or_zero(squared: u64) -> bool {
    ||| squared == 0
    ||| squared == MINUS_NOTHING
    ||| LEAST_UNIT <= squared <= GREATEST_UNIT
}

/// The norms of the points, as double-precision patterns; none where searches
/// do not need them.
pub struct CosineNormCache {
    pub values: Vec<u64>,
}

/// Every point is normalized.
pub open spec fn normalized<N: Fn(&[u32]) -> u64>(store: &PointStore, squared: N) -> bool {
    forall|p: int| 0 <= p < store.len ==> unit_or_zero(row_number(squared, #[trigger] store.row(p)))
}

impl CosineNormCache {
    /// The cache that such a store has.
    pub open spec fn caches<N: Fn(&[u32]) -> u64, R: Fn(u64) -> u64>(
        &self,
        store: &PointStore,
        metric: Metric,
        squared: N,
        root: R,
    ) -> bool {
        if metric == Metric::Cosine {
            &&& self.values@.len() == store.len
            &&& forall|p: int|
                0 <= p < store.len ==> #[trigger] self.values@[p] == of1(
                    root,
                    row_number(squared, store.row(p)),
                )
        } else {
            self.values@.len() == 0
        }
    }

    /// A cache that holds nothing.
    pub fn empty() -> (cache: CosineNormCache)
        ensures
            cache.values@.len() == 0,
    {
        CosineNormCache { values: Vec::new() }
    }

    /// Number of norms.
    pub fn len(&self) -> (count: usize)
        ensures
            count == self.values@.len(),
    {
        self.values.len()
    }

    /// Norm of a point.
    pub fn get(&self, point: u32) -> (norm: u64)
        requires
            point < self.values@.len(),
        ensures
            norm == self.values@[point as int],
    {
        self.values[point as usize]
    }

    /// Overwrites every norm with zero.
    pub fn zeroize(&mut self)
        ensures
            final(self).values@ == Seq::new(old(self).values@.len(), |i: int| 0u64),
        opens_invariants none
        no_unwind
    {
        blank_long_words(&mut self.values);
    }
}

impl Drop for CosineNormCache {
    /// Clears the norms before their memory is released.
    fn drop(&mut self)
        opens_invariants none
        no_unwind
    {
        self.zeroize();
    }
}

/// The norms of the points of a store whose points are normalized.  `squared`
/// gives the squared norm of a vector, `root` the square root.
pub fn derive_cosine_norm_cache<N: Fn(&[u32]) -> u64, R: Fn(u64) -> u64>(
    store: &PointStore,
    metric: Metric,
    squared: &N,
    root: &R,
) -> (result: PrismResult<CosineNormCache>)
    requires
        store.wf(),
        numbers_rows(*squared, store.dim as int),
        total1(*root),
    ensures
        result is Ok <==> (metric == Metric::Cosine ==> normalized(store, *squared)),
        result is Err ==> refused_format(result),
        result matches Ok(cache) ==> cache.caches(store, metric, *squared, *root),
{
    let mut values: Vec<u64> = Vec::new();
    if metric != Metric::Cosine {
        return Ok(CosineNormCache { values });
    }
    let n: usize = store.len();
    let mut p: usize = 0;
    while p < n
        invariant
            p <= n,
            n == store.len,
            store.wf(),
            metric == Metric::Cosine,
            numbers_rows(*squared, store.dim as int),
            total1(*root),
            values@.len() == p,
            forall|q: int|
                0 <= q < p ==> unit_or_zero(row_number(*squared, #[trigger] store.row(q))),
            forall|q: int|
                0 <= q < p ==> #[trigger] values@[q] == of1(
                    *root,
                    row_number(*squared, store.row(q)),
                ),
        decreases n - p,
    {
        let norm: u64 = squared(store.vector_unchecked(p as u32));
        if !(norm == 0 || norm == MINUS_NOTHING || (LEAST_UNIT <= norm && norm <= GREATEST_UNIT)) {
            assert(!unit_or_zero(row_number(*squared, store.row(p as int))));
            return Err(invalid_format("cosine point must be zero or unit-normalized"));
        }
        values.push(root(norm));
        p = p + 1;
    }
    Ok(CosineNormCache { values })
}

/// Some point differs from the first one in some attribute.
pub open spec fn several_tuples(attrs: Seq<Vec<u32>>, n: int) -> bool {
    exists|j: int, p: int|
        0 <= j < attrs.len() && 0 <= p < n && #[trigger] attrs[j]@[p] != attrs[j]@[0]
}

/// Whether the points have more than one tuple of attribute values.
pub fn has_multiple_attribute_tuples(attrs: &[Vec<u32>], point_count: usize) -> (answer: bool)
    requires
        forall|j: int| 0 <= j < attrs@.len() ==> (#[trigger] attrs@[j])@.len() == point_count,
    ensures
        answer == several_tuples(attrs@, point_count as int),
{
    if point_count <= 1 {
        return false;
    }
    let mut j: usize = 0;
    while j < attrs.len()
        invariant
            j <= attrs@.len(),
            point_count > 1,
            forall|i: int| 0 <= i < attrs@.len() ==> (#[trigger] attrs@[i])@.len() == point_count,
            forall|i: int, p: int|
                0 <= i < j && 0 <= p < point_count ==> #[trigger] attrs@[i]@[p] == attrs@[i]@[0],
        decreases attrs@.len() - j,
    {
        let column = &attrs[j];
        assert(attrs@[j as int]@.len() == point_count);
        let first: u32 = column[0];
        let mut p: usize = 0;
        while p < point_count
            invariant
                p <= point_count,
                point_count > 1,
                j < attrs@.len(),
                *column == attrs@[j as int],
                column@.len() == point_count,
                first == column@[0],
                forall|q: int| 0 <= q < p ==> #[trigger] column@[q] == first,
            decreases point_count - p,
        {
            if column[p] != first {
                assert(attrs@[j as int]@[p as int] != attrs@[j as int]@[0]);
                return true;
            }
            p = p + 1;
        }
        j = j + 1;
    }
    false
}

/// Whether an index can be built, as far as it depends on the settings, the
/// number of attributes and of points, and on whether there are several
/// tuples.
pub open spec fn build_verdict(
    config: &PrismConfig,
    attributes: int,
    population: int,
    several: bool,
) -> Verdict {
    let cells: int = if several {
        2
    } else {
        1
    };
    if population == 0 {
        Verdict::InvalidInput
    } else if !(config.verdict() is Accepted) {
        config.verdict()
    } else if config.m_greedy > 0 && config.global_built(population, cells) {
        covering_verdict(
            attributes,
            if config.t < attributes {
                config.t as int
            } else {
                attributes
            },
        )
    } else {
        Verdict::Accepted
    }
}

/// Checks what a build depends on besides the points.
pub fn validate_build_configuration(
    config: &PrismConfig,
    num_attributes: usize,
    population: usize,
    multiple_cells: bool,
) -> (result: PrismResult<()>)
    ensures
        ends(
            result,
            build_verdict(config, num_attributes as int, population as int, multiple_cells),
        ),
{
    if population == 0 {
        return Err(invalid_input("cannot build index from empty point store"));
    }
    match config.validate() {
        Ok(()) => {},
        Err(error) => {
            return Err(error);
        },
    }
    let cells: usize = if multiple_cells { 2 } else { 1 };
    if config.m_greedy > 0 && config.builds_global_graph(population, cells) {
        let t: usize = if config.t < num_attributes { config.t } else { num_attributes };
        match checked_covering_subset_count(num_attributes, t) {
            Ok(_) => {},
            Err(error) => {
                return Err(error);
            },
        }
    }
    Ok(())
}

/// The index.
pub struct PrismIndex {
    /// The points, cell after cell.
    pub store: PointStore,
    /// The cells.
    pub tree: PartitionTree,
    /// The edges between points.
    pub graph: Graph,
    /// For each cell, where searches in it start.
    pub medoids: Vec<u32>,
    /// Where searches in the whole index start.
    pub global_medoid: u32,
    /// For each point, its cell.
    pub point_cell: Vec<u32>,
    /// For each point, the number it had when it was added.
    pub original_ids: Vec<u32>,
    /// Byte codes of the points.
    pub sq8: SQ8Store,
    /// Sketches of the points.
    pub binary: BinaryStore,
    /// Norms of the points.
    pub cosine_norms: CosineNormCache,
    /// The settings.
    pub config: PrismConfig,
}

/// Cell `c` holds consecutive points that have its tuple and know it, among
/// them the one where searches start.
pub open spec fn cell_fits(
    store: &PointStore,
    tree: &PartitionTree,
    medoids: Seq<u32>,
    point_cell: Seq<u32>,
    config: &PrismConfig,
    c: int,
) -> bool {
    let ids = tree.cells@[c].point_ids@;
    &&& ids.len() > 0
    &&& is_range(ids)
    &&& ids.contains(medoids[c])
    &&& !config.local_built(store.len as int) ==> medoids[c] == ids[0]
    &&& forall|i: int|
        0 <= i < ids.len() ==> (#[trigger] ids[i]) < store.len && point_cell[ids[i] as int] == c
            && store.tuple(ids[i] as int) == tree.cells@[c].values@
}

/// Point `p` is in the cell that it knows.
pub open spec fn point_placed(cells: Seq<Cell>, point_cell: Seq<u32>, p: int) -> bool {
    point_cell[p] < cells.len() && cells[point_cell[p] as int].point_ids@.contains(p as u32)
}

/// `ids` names each of `0..n` once.
pub open spec fn is_renaming(ids: Seq<u32>, n: int) -> bool {
    &&& ids.len() == n
    &&& ids.no_duplicates()
    &&& forall|p: int| 0 <= p < n ==> #[trigger] ids[p] < n
}

/// Points, cells and the tables about them belong together.
pub open spec fn layout_fits(
    store: &PointStore,
    tree: &PartitionTree,
    medoids: Seq<u32>,
    global_medoid: u32,
    point_cell: Seq<u32>,
    original_ids: Seq<u32>,
    config: &PrismConfig,
) -> bool {
    &&& store.len > 0
    &&& tree.k == store.arity()
    &&& medoids.len() == tree.cells@.len()
    &&& global_medoid < store.len
    &&& !config.global_built(store.len as int, tree.cells@.len() as int) ==> global_medoid == 0
    &&& point_cell.len() == store.len
    &&& is_renaming(original_ids, store.len as int)
    &&& forall|c: int|
        0 <= c < tree.cells@.len() ==> #[trigger] cell_fits(
            store,
            tree,
            medoids,
            point_cell,
            config,
            c,
        )
    &&& forall|p: int| 0 <= p < store.len ==> #[trigger] point_placed(tree.cells@, point_cell, p)
}

/// The edges are those that searches with these settings need.
pub open spec fn graph_fits(
    graph: &Graph,
    cells: Seq<Cell>,
    medoids: Seq<u32>,
    global_medoid: u32,
    point_cell: Seq<u32>,
    config: &PrismConfig,
    n: int,
) -> bool {
    &&& graph.n == n
    &&& is_canonical(graph)
    &&& if !config.local_built(n) {
        graph.neighbors@.len() == 0
    } else {
        &&& forall|c: int| 0 <= c < cells.len() ==> #[trigger] cell_spanned(graph, cells, medoids, c)
        &&& if config.global_built(n, cells.len() as int) {
            spans(graph, 0, n - 1, global_medoid)
        } else {
            stays_in_cells(graph, point_cell)
        }
    }
}

/// Two patterns of the same number.
pub open spec fn same_number(a: u32, b: u32) -> bool {
    a == b || ((a == 0 || a == SIGN) && (b == 0 || b == SIGN))
}

/// Two lists of patterns of the same numbers.
pub open spec fn same_numbers(a: Seq<u32>, b: Seq<u32>) -> bool {
    a.len() == b.len() && forall|i: int| 0 <= i < a.len() ==> same_number(#[trigger] a[i], b[i])
}

/// Byte codes that agree.
pub open spec fn same_codes(a: &SQ8Store, b: &SQ8Store) -> bool {
    a.codes@ == b.codes@ && same_numbers(a.mins@, b.mins@) && same_numbers(a.scales@, b.scales@)
}

/// No byte codes, for vectors of this dimension.
pub open spec fn no_codes(sq8: &SQ8Store, dim: int) -> bool {
    &&& sq8.dim == dim
    &&& sq8.codes@.len() == 0
    &&& sq8.mins@.len() == dim
    &&& sq8.scales@.len() == dim
    &&& forall|d: int| 0 <= d < dim ==> #[trigger] sq8.mins@[d] == 0
    &&& forall|d: int| 0 <= d < dim ==> #[trigger] sq8.scales@[d] == ONE
}

/// The byte codes that an index with these settings has.
pub open spec fn due_codes<S: Fn(u32, u32) -> u32, E: Fn(u32, u32, u32) -> u8>(
    sq8: &SQ8Store,
    store: &PointStore,
    config: &PrismConfig,
    step: S,
    encode: E,
) -> bool {
    if config.sq8_built(store.len as int) {
        sq8.quantizes(store, step, encode)
    } else {
        no_codes(sq8, store.dim as int)
    }
}

/// Whether an index can be built from vectors and attributes.
pub open spec fn input_verdict(
    vectors: Seq<u32>,
    dim: int,
    attrs: Seq<Vec<u32>>,
    config: &PrismConfig,
) -> Verdict {
    if !parts_valid(vectors, dim, attrs) {
        if whole_rows(vectors.len() as int, dim) && vectors.len() as int / dim > u32::MAX {
            Verdict::Overflow
        } else {
            Verdict::InvalidInput
        }
    } else {
        let n = vectors.len() as int / dim;
        build_verdict(config, attrs.len() as int, n, several_tuples(attrs, n))
    }
}

/// The byte codes agree with those that an index with these settings has.
pub open spec fn codes_fit<S: Fn(u32, u32) -> u32, E: Fn(u32, u32, u32) -> u8>(
    sq8: &SQ8Store,
    store: &PointStore,
    config: &PrismConfig,
    step: S,
    encode: E,
) -> bool {
    &&& sq8.dim == store.dim
    &&& exists|due: SQ8Store|
        #[trigger] due_codes(&due, store, config, step, encode) && same_codes(sq8, &due)
}

/// The sketches are those that an index with these settings has.
pub open spec fn sketches_fit<F: Fn(&[u32], &[u32], usize) -> Vec<bool>>(
    binary: &BinaryStore,
    store: &PointStore,
    config: &PrismConfig,
    rotate: F,
) -> bool {
    &&& binary.signs@.len() == store.dim
    &&& binary.is_standard()
    &&& if config.binary_built() {
        &&& binary.count() == store.len
        &&& forall|p: int|
            0 <= p < store.len ==> #[trigger] binary.code_of(p) == packed(
                flags_of(rotate, store.row(p), binary.signs@, binary.block_size),
            )
    } else {
        binary.codes@.len() == 0
    }
}

impl PrismIndex {
    /// What holds of every valid value.
    pub open spec fn wf(&self) -> bool {
        let n = self.store.len as int;
        &&& self.config.verdict() is Accepted
        &&& self.store.wf()
        &&& self.tree.wf()
        &&& self.graph.wf()
        &&& self.sq8.wf()
        &&& self.binary.wf()
        &&& layout_fits(
            &self.store,
            &self.tree,
            self.medoids@,
            self.global_medoid,
            self.point_cell@,
            self.original_ids@,
            &self.config,
        )
        &&& graph_fits(
            &self.graph,
            self.tree.cells@,
            self.medoids@,
            self.global_medoid,
            self.point_cell@,
            &self.config,
            n,
        )
        &&& self.sq8.dim == self.store.dim
        &&& self.sq8.count() == (if self.config.sq8_built(n) {
            n
        } else {
            0
        })
        &&& self.binary.signs@.len() == self.store.dim
        &&& self.binary.count() == (if self.config.binary_built() {
            n
        } else {
            0
        })
        &&& self.cosine_norms.values@.len() == (if self.config.metric == Metric::Cosine {
            n
        } else {
            0
        })
    }

    /// Immutable point storage used by this index.
    pub fn store(&self) -> (store: &PointStore)
        ensures
            *store == self.store,
    {
        &self.store
    }

    /// The cells.
    pub fn tree(&self) -> (tree: &PartitionTree)
        ensures
            *tree == self.tree,
    {
        &self.tree
    }

    /// The edges between points.
    pub fn graph(&self) -> (graph: &Graph)
        ensures
            *graph == self.graph,
    {
        &self.graph
    }

    /// For each cell, where searches in it start.
    pub fn medoids(&self) -> (medoids: &[u32])
        ensures
            medoids@ == self.medoids@,
    {
        self.medoids.as_slice()
    }

    /// Where searches in the whole index start.
    pub fn global_medoid(&self) -> (medoid: u32)
        ensures
            medoid == self.global_medoid,
    {
        self.global_medoid
    }

    /// For each point, its cell.
    pub fn point_cell(&self) -> (cells: &[u32])
        ensures
            cells@ == self.point_cell@,
    {
        self.point_cell.as_slice()
    }

    /// For each point, the number it had when it was added.
    pub fn original_ids(&self) -> (ids: &[u32])
        ensures
            ids@ == self.original_ids@,
    {
        self.original_ids.as_slice()
    }

    /// Byte codes of the points.
    pub fn sq8(&self) -> (codes: &SQ8Store)
        ensures
            *codes == self.sq8,
    {
        &self.sq8
    }

    /// Sketches of the points.
    pub fn binary(&self) -> (sketches: &BinaryStore)
        ensures
            *sketches == self.binary,
    {
        &self.binary
    }

    /// The settings.
    pub fn config(&self) -> (config: &PrismConfig)
        ensures
            *config == self.config,
    {
        &self.config
    }

    /// Norm of a point of an index that compares by angle.
    pub fn cached_cosine_norm(&self, point: u32) -> (norm: u64)
        requires
            point < self.cosine_norms.values@.len(),
        ensures
            norm == self.cosine_norms.values@[point as int],
    {
        self.cosine_norms.get(point)
    }

    /// How many norms are kept.
    pub fn cached_cosine_norm_count(&self) -> (count: usize)
        ensures
            count == self.cosine_norms.values@.len(),
    {
        self.cosine_norms.len()
    }

    /// Checks the input of a build without taking it over.
    pub fn validate_build_input(
        vectors: &[u32],
        dim: usize,
        attrs: &[Vec<u32>],
        config: &PrismConfig,
    ) -> (result: PrismResult<()>)
        ensures
            ends(result, input_verdict(vectors@, dim as int, attrs@, config)),
    {
        match PointStore::validate_parts(vectors, dim, attrs) {
            Err(error) => Err(error),
            Ok(population) => {
                let several = has_multiple_attribute_tuples(attrs, population);
                validate_build_configuration(config, attrs.len(), population, several)
            },
        }
    }
}

/// Whether two lists hold patterns of the same numbers.
fn compare_numbers(a: &Vec<u32>, b: &Vec<u32>) -> (answer: bool)
    ensures
        answer == same_numbers(a@, b@),
{
    if a.len() != b.len() {
        return false;
    }
    let mut i: usize = 0;
    while i < a.len()
        invariant
            i <= a@.len(),
            a@.len() == b@.len(),
            forall|j: int| 0 <= j < i ==> same_number(#[trigger] a@[j], b@[j]),
        decreases a@.len() - i,
    {
        let x: u32 = a[i];
        let y: u32 = b[i];
        if !(x == y || ((x == 0 || x == SIGN) && (y == 0 || y == SIGN))) {
            assert(!same_number(a@[i as int], b@[i as int]));
            return false;
        }
        i = i + 1;
    }
    true
}

/// Whether two lists of bytes are equal.
fn compare_bytes(a: &Vec<u8>, b: &Vec<u8>) -> (answer: bool)
    ensures
        answer == (a@ == b@),
{
    if a.len() != b.len() {
        return false;
    }
    let mut i: usize = 0;
    while i < a.len()
        invariant
            i <= a@.len(),
            a@.len() == b@.len(),
            forall|j: int| 0 <= j < i ==> #[trigger] a@[j] == b@[j],
        decreases a@.len() - i,
    {
        if a[i] != b[i] {
            return false;
        }
        i = i + 1;
    }
    assert(a@ =~= b@);
    true
}

/// Whether two lists of words are equal.
fn compare_words(a: &[u64], b: &Vec<u64>) -> (answer: bool)
    ensures
        answer == (a@ == b@),
{
    if a.len() != b.len() {
        return false;
    }
    let mut i: usize = 0;
    while i < a.len()
        invariant
            i <= a@.len(),
            a@.len() == b@.len(),
            forall|j: int| 0 <= j < i ==> #[trigger] a@[j] == b@[j],
        decreases a@.len() - i,
    {
        if a[i] != b[i] {
            return false;
        }
        i = i + 1;
    }
    assert(a@ =~= b@);
    true
}

/// The byte codes that are due are determined.
proof fn one_due<S: Fn(u32, u32) -> u32, E: Fn(u32, u32, u32) -> u8>(
    a: &SQ8Store,
    b: &SQ8Store,
    store: &PointStore,
    config: &PrismConfig,
    step: S,
    encode: E,
)
    requires
        due_codes(a, store, config, step, encode),
        due_codes(b, store, config, step, encode),
    ensures
        a.codes@ == b.codes@,
        a.mins@ == b.mins@,
        a.scales@ == b.scales@,
{
    assert(a.mins@ =~= b.mins@);
    assert(a.scales@ =~= b.scales@);
    assert(a.codes@ =~= b.codes@);
}

/// The byte codes that are due.
pub fn make_codes<S: Fn(u32, u32) -> u32, E: Fn(u32, u32, u32) -> u8>(
    store: &PointStore,
    config: &PrismConfig,
    step: &S,
    encode: &E,
) -> (due: SQ8Store)
    requires
        store.wf(),
        total2(*step),
        total3(*encode),
    ensures
        due.wf(),
        due.dim == store.dim,
        due.count() == (if config.sq8_built(store.len as int) {
            store.len as int
        } else {
            0
        }),
        due_codes(&due, store, config, *step, *encode),
{
    if config.builds_sq8(store.len()) {
        SQ8Store::build(store, step, encode)
    } else {
        let due = SQ8Store::empty(store.dim());
        proof {
            assert(0int / due.dim as int == 0) by (nonlinear_arith)
                requires
                    due.dim > 0,
            ;
        }
        due
    }
}

/// Whether byte codes agree with those that are due.
fn check_codes<S: Fn(u32, u32) -> u32, E: Fn(u32, u32, u32) -> u8>(
    sq8: &SQ8Store,
    store: &PointStore,
    config: &PrismConfig,
    step: &S,
    encode: &E,
) -> (answer: bool)
    requires
        sq8.wf(),
        store.wf(),
        total2(*step),
        total3(*encode),
    ensures
        answer == codes_fit(sq8, store, config, *step, *encode),
        answer ==> sq8.count() == (if config.sq8_built(store.len as int) {
            store.len as int
        } else {
            0
        }),
{
    if sq8.dim != store.dim {
        return false;
    }
    let due = make_codes(store, config, step, encode);
    let answer = compare_bytes(&sq8.codes, &due.codes) && compare_numbers(&sq8.mins, &due.mins)
        && compare_numbers(&sq8.scales, &due.scales);
    proof {
        if codes_fit(sq8, store, config, *step, *encode) {
            let other = choose|other: SQ8Store|
                #[trigger] due_codes(&other, store, config, *step, *encode) && same_codes(
                    sq8,
                    &other,
                );
            one_due(&other, &due, store, config, *step, *encode);
        }
        if answer {
            assert(due_codes(&due, store, config, *step, *encode) && same_codes(sq8, &due));
        }
    }
    answer
}

/// Whether sketches are those that are due.
fn check_sketches<F: Fn(&[u32], &[u32], usize) -> Vec<bool>>(
    binary: &BinaryStore,
    store: &PointStore,
    config: &PrismConfig,
    rotate: &F,
) -> (answer: bool)
    requires
        binary.wf(),
        store.wf(),
        gives_flags(*rotate, store.dim as int),
    ensures
        answer == sketches_fit(binary, store, config, *rotate),
{
    let dim: usize = store.dim();
    if binary.signs.len() != dim {
        return false;
    }
    let signs = seeded_signs(dim);
    let mut d: usize = 0;
    while d < dim
        invariant
            d <= dim,
            signs@.len() == dim,
            binary.signs@.len() == dim,
            signs@ == standard_signs(dim as int),
            dim == store.dim,
            forall|e: int| 0 <= e < d ==> #[trigger] binary.signs@[e] == signs@[e],
        decreases dim - d,
    {
        if binary.signs[d] != signs[d] {
            return false;
        }
        d = d + 1;
    }
    assert(binary.signs@ =~= signs@);
    if (dim / binary.block_size) % 2 != 1 {
        return false;
    }
    if !config.builds_binary() {
        return binary.codes.len() == 0;
    }
    let n: usize = store.len();
    if binary.len() != n {
        return false;
    }
    let mut p: usize = 0;
    while p < n
        invariant
            p <= n,
            n == store.len,
            dim == store.dim,
            store.wf(),
            binary.wf(),
            binary.signs@.len() == dim,
            binary.is_standard(),
            config.binary_built(),
            binary.count() == n,
            gives_flags(*rotate, store.dim as int),
            forall|q: int|
                0 <= q < p ==> #[trigger] binary.code_of(q) == packed(
                    flags_of(*rotate, store.row(q), binary.signs@, binary.block_size),
                ),
        decreases n - p,
    {
        let row = store.vector_unchecked(p as u32);
        let flags = rotate(row, binary.signs.as_slice(), binary.block_size);
        let due = crate::binary::pack(flags.as_slice());
        if !compare_words(binary.code_unchecked(p as u32), &due) {
            assert(binary.code_of(p as int) != packed(
                flags_of(*rotate, store.row(p as int), binary.signs@, binary.block_size),
            ));
            return false;
        }
        p = p + 1;
    }
    true
}

/// Whether identifiers name each of `0..n` once.
fn check_renaming(ids: &Vec<u32>, n: usize) -> (answer: bool)
    requires
        n <= u32::MAX,
    ensures
        answer == is_renaming(ids@, n as int),
{
    if ids.len() != n {
        return false;
    }
    let mut seen = clear_flags(n);
    let mut p: usize = 0;
    while p < n
        invariant
            p <= n <= u32::MAX,
            ids@.len() == n,
            seen@.len() == n,
            forall|q: int| 0 <= q < p ==> #[trigger] ids@[q] < n,
            forall|x: int| 0 <= x < n ==> (#[trigger] seen@[x] <==> ids@.take(p as int).contains(x as u32)),
            forall|q: int, r: int| 0 <= q < r < p ==> ids@[q] != ids@[r],
        decreases n - p,
    {
        let id: usize = ids[p] as usize;
        if id >= n {
            return false;
        }
        if seen[id] {
            proof {
                let few = ids@.take(p as int);
                let q = choose|q: int| 0 <= q < few.len() && few[q] == id as u32;
                assert(ids@[q] == ids@[p as int] && q != p);
            }
            return false;
        }
        proof {
            let few = ids@.take(p as int);
            let more = ids@.take(p + 1);
            assert(more =~= few.push(ids@[p as int]));
            assert forall|q: int| 0 <= q < p implies #[trigger] ids@[q] != ids@[p as int] by {
                assert(few[q] == ids@[q]);
            }
            assert forall|x: int| 0 <= x < n implies (seen@.update(id as int, true)[x]
                <==> #[trigger] more.contains(x as u32)) by {
                assert(more[p as int] == ids@[p as int]);
                if few.contains(x as u32) {
                    let q = choose|q: int| 0 <= q < few.len() && few[q] == x as u32;
                    assert(more[q] == x as u32);
                }
                if more.contains(x as u32) && x != id {
                    let q = choose|q: int| 0 <= q < more.len() && more[q] == x as u32;
                    assert(few[q] == x as u32);
                }
            }
        }
        seen[id] = true;
        p = p + 1;
    }
    true
}

/// Whether a cell and its points know each other.
fn check_cell(
    store: &PointStore,
    tree: &PartitionTree,
    medoids: &Vec<u32>,
    point_cell: &Vec<u32>,
    config: &PrismConfig,
    c: usize,
) -> (answer: bool)
    requires
        store.wf(),
        tree.wf(),
        tree.k == store.arity(),
        medoids@.len() == tree.cells@.len(),
        point_cell@.len() == store.len,
        c < tree.cells@.len(),
    ensures
        answer == cell_fits(store, tree, medoids@, point_cell@, config, c as int),
{
    let cell = &tree.cells[c];
    let ids = &cell.point_ids;
    if ids.len() == 0 {
        return false;
    }
    let first: u32 = ids[0];
    let medoid: u32 = medoids[c];
    let mut found: bool = false;
    let mut i: usize = 0;
    while i < ids.len()
        invariant
            i <= ids@.len(),
            ids@.len() > 0,
            c < tree.cells@.len(),
            *cell == tree.cells@[c as int],
            *ids == cell.point_ids,
            first == ids@[0],
            store.wf(),
            tree.wf(),
            tree.k == store.arity(),
            cell.values@.len() == store.attrs@.len(),
            medoids@.len() == tree.cells@.len(),
            medoid == medoids@[c as int],
            point_cell@.len() == store.len,
            found <==> ids@.take(i as int).contains(medoid),
            forall|j: int| 0 <= j < i ==> #[trigger] ids@[j] == first + j,
            forall|j: int|
                0 <= j < i ==> (#[trigger] ids@[j]) < store.len && point_cell@[ids@[j] as int] == c
                    && store.tuple(ids@[j] as int) == cell.values@,
        decreases ids@.len() - i,
    {
        let id: u32 = ids[i];
        if id as usize >= store.len {
            return false;
        }
        if id < first || (id - first) as usize != i {
            assert(ids@[i as int] != ids@[0] + i);
            return false;
        }
        if point_cell[id as usize] as usize != c {
            return false;
        }
        let mut j: usize = 0;
        while j < cell.values.len()
            invariant
                j <= cell.values@.len(),
                id < store.len,
                store.wf(),
                i < ids@.len(),
                id == ids@[i as int],
                c < tree.cells@.len(),
                *cell == tree.cells@[c as int],
                *ids == cell.point_ids,
                cell.values@.len() == store.attrs@.len(),
                forall|e: int| 0 <= e < j ==> #[trigger] cell.values@[e] == store.attrs@[e]@[id as int],
            decreases cell.values@.len() - j,
        {
            if store.attr_unchecked(id, j) != cell.values[j] {
                assert(store.tuple(id as int)[j as int] != cell.values@[j as int]);
                return false;
            }
            j = j + 1;
        }
        assert(store.tuple(id as int) =~= cell.values@);
        proof {
            let few = ids@.take(i as int);
            let more = ids@.take(i + 1);
            assert(more =~= few.push(id));
            assert(more[i as int] == id);
            if few.contains(medoid) {
                let q = choose|q: int| 0 <= q < few.len() && few[q] == medoid;
                assert(more[q] == medoid);
            }
            if more.contains(medoid) && medoid != id {
                let q = choose|q: int| 0 <= q < more.len() && more[q] == medoid;
                assert(few[q] == medoid);
            }
        }
        if id == medoid {
            found = true;
        }
        i = i + 1;
    }
    assert(ids@.take(ids@.len() as int) =~= ids@);
    if !found {
        return false;
    }
    config.builds_local_graph(store.len()) || medoid == first
}

/// Whether points, cells and the tables about them belong together.
fn check_layout(
    store: &PointStore,
    tree: &PartitionTree,
    medoids: &Vec<u32>,
    global_medoid: u32,
    point_cell: &Vec<u32>,
    original_ids: &Vec<u32>,
    config: &PrismConfig,
) -> (answer: bool)
    requires
        store.wf(),
        tree.wf(),
    ensures
        answer == layout_fits(
            store,
            tree,
            medoids@,
            global_medoid,
            point_cell@,
            original_ids@,
            config,
        ),
{
    let n: usize = store.len();
    if n == 0 || tree.k != store.k() || medoids.len() != tree.cells.len() || global_medoid as usize
        >= n || point_cell.len() != n {
        return false;
    }
    if !config.builds_global_graph(n, tree.cells.len()) && global_medoid != 0 {
        return false;
    }
    if !check_renaming(original_ids, n) {
        return false;
    }
    let mut c: usize = 0;
    while c < tree.cells.len()
        invariant
            c <= tree.cells@.len(),
            store.wf(),
            tree.wf(),
            tree.k == store.arity(),
            medoids@.len() == tree.cells@.len(),
            point_cell@.len() == store.len,
            forall|d: int|
                0 <= d < c ==> #[trigger] cell_fits(
                    store,
                    tree,
                    medoids@,
                    point_cell@,
                    config,
                    d,
                ),
        decreases tree.cells@.len() - c,
    {
        if !check_cell(store, tree, medoids, point_cell, config, c) {
            return false;
        }
        c = c + 1;
    }
    let mut p: usize = 0;
    while p < n
        invariant
            p <= n,
            n == store.len,
            n <= u32::MAX,
            point_cell@.len() == n,
            forall|d: int|
                0 <= d < tree.cells@.len() ==> #[trigger] cell_fits(
                    store,
                    tree,
                    medoids@,
                    point_cell@,
                    config,
                    d,
                ),
            forall|q: int| 0 <= q < p ==> #[trigger] point_placed(tree.cells@, point_cell@, q),
        decreases n - p,
    {
        let at: usize = point_cell[p] as usize;
        if at >= tree.cells.len() {
            assert(!point_placed(tree.cells@, point_cell@, p as int));
            return false;
        }
        let ids = &tree.cells[at].point_ids;
        assert(cell_fits(store, tree, medoids@, point_cell@, config, at as int));
        let first: usize = ids[0] as usize;
        if p < first || p - first >= ids.len() {
            proof {
                if ids@.contains(p as u32) {
                    let i = choose|i: int| 0 <= i < ids@.len() && ids@[i] == p as u32;
                    assert(ids@[i] == ids@[0] + i);
                }
                assert(!point_placed(tree.cells@, point_cell@, p as int));
            }
            return false;
        }
        assert(ids@[p - first] == ids@[0] + (p - first));
        assert(ids@.contains(p as u32));
        assert(point_placed(tree.cells@, point_cell@, p as int));
        p = p + 1;
    }
    true
}

/// The cells of a layout catalog the points.
pub proof fn layout_is_catalog(
    store: &PointStore,
    tree: &PartitionTree,
    medoids: Seq<u32>,
    global_medoid: u32,
    point_cell: Seq<u32>,
    original_ids: Seq<u32>,
    config: &PrismConfig,
)
    requires
        tree.wf(),
        store.wf(),
        layout_fits(store, tree, medoids, global_medoid, point_cell, original_ids, config),
    ensures
        catalogs(tree, store),
        cells_are_ranges(tree.cells@),
        forall|c: int, p: u32|
            0 <= c < tree.cells@.len() ==> (#[trigger] tree.cells@[c].point_ids@.contains(p) <==> p
                < store.len && point_cell[p as int] == c),
{
    let cells = tree.cells@;
    assert forall|c: int| 0 <= c < cells.len() implies (#[trigger] cells[c]).point_ids@.len() > 0
        && is_range(cells[c].point_ids@) by {
        assert(cell_fits(store, tree, medoids, point_cell, config, c));
    }
    assert forall|c: int, p: u32| 0 <= c < cells.len() implies (#[trigger] cells[c].point_ids@.contains(p)
        <==> p < store.len && point_cell[p as int] == c) && (cells[c].point_ids@.contains(p) <==> p
        < store.len && store.tuple(p as int) == cells[c].values@) by {
        assert(cell_fits(store, tree, medoids, point_cell, config, c));
        let ids = cells[c].point_ids@;
        if ids.contains(p) {
            let i = choose|i: int| 0 <= i < ids.len() && ids[i] == p;
            assert(ids[i] < store.len);
        }
        if p < store.len {
            assert(point_placed(cells, point_cell, p as int));
            let d = point_cell[p as int] as int;
            assert(cell_fits(store, tree, medoids, point_cell, config, d));
            let own = cells[d].point_ids@;
            let i = choose|i: int| 0 <= i < own.len() && own[i] == p;
            assert(own[i] < store.len);
            assert(store.tuple(p as int) == cells[d].values@);
            if store.tuple(p as int) == cells[c].values@ {
                assert(cells[c].values@ == cells[d].values@);
            }
        }
    }
    assert forall|p: int| 0 <= p < store.len implies holds_tuple(cells, #[trigger] store.tuple(p)) by {
        assert(point_placed(cells, point_cell, p));
        let d = point_cell[p] as int;
        assert(cell_fits(store, tree, medoids, point_cell, config, d));
        let own = cells[d].point_ids@;
        let i = choose|i: int| 0 <= i < own.len() && own[i] == p as u32;
        assert(own[i] < store.len);
        assert(cells[d].values@ == store.tuple(p));
    }
}

/// Checks that the edges are those that searches need.
fn check_graph(
    graph: &Graph,
    tree: &PartitionTree,
    medoids: &Vec<u32>,
    global_medoid: u32,
    point_cell: &Vec<u32>,
    config: &PrismConfig,
    n: usize,
) -> (result: PrismResult<()>)
    requires
        graph.wf(),
        n > 0,
        global_medoid < n,
        point_cell@.len() == n,
        medoids@.len() == tree.cells@.len(),
        cells_are_ranges(tree.cells@),
        forall|c: int|
            0 <= c < tree.cells@.len() ==> (#[trigger] tree.cells@[c]).point_ids@.len() > 0
                && tree.cells@[c].point_ids@.contains(medoids@[c]),
        forall|c: int, i: int|
            0 <= c < tree.cells@.len() && 0 <= i < tree.cells@[c].point_ids@.len()
                ==> #[trigger] tree.cells@[c].point_ids@[i] < n,
    ensures
        result is Ok <==> graph_fits(
            graph,
            tree.cells@,
            medoids@,
            global_medoid,
            point_cell@,
            config,
            n as int,
        ),
        result is Err ==> refused_format(result),
{
    if graph.len() != n {
        return Err(invalid_format("graph node count must equal point count"));
    }
    match validate_canonical_graph(graph) {
        Ok(()) => {},
        Err(error) => {
            return Err(error);
        },
    }
    let local = config.builds_local_graph(n);
    match validate_local_reachability(graph, tree.cells(), medoids, local) {
        Ok(()) => {},
        Err(error) => {
            return Err(error);
        },
    }
    if !local {
        if graph.num_edges() != 0 {
            return Err(
                invalid_format("an exact/scan-only index must not persist unused graph edges"),
            );
        }
        Ok(())
    } else if config.builds_global_graph(n, tree.cells.len()) {
        validate_reachable(graph, global_medoid)
    } else {
        validate_no_cross_cell_edges(graph, point_cell)
    }
}

/// Everything that reassembled parts have to satisfy together.
pub open spec fn parts_fit<
    S: Fn(u32, u32) -> u32,
    E: Fn(u32, u32, u32) -> u8,
    F: Fn(&[u32], &[u32], usize) -> Vec<bool>,
    N: Fn(&[u32]) -> u64,
>(
    store: &PointStore,
    tree: &PartitionTree,
    graph: &Graph,
    medoids: Seq<u32>,
    global_medoid: u32,
    point_cell: Seq<u32>,
    original_ids: Seq<u32>,
    sq8: &SQ8Store,
    binary: &BinaryStore,
    config: &PrismConfig,
    step: S,
    encode: E,
    rotate: F,
    squared: N,
) -> bool {
    &&& layout_fits(store, tree, medoids, global_medoid, point_cell, original_ids, config)
    &&& graph_fits(
        graph,
        tree.cells@,
        medoids,
        global_medoid,
        point_cell,
        config,
        store.len as int,
    )
    &&& codes_fit(sq8, store, config, step, encode)
    &&& sketches_fit(binary, store, config, rotate)
    &&& config.metric == Metric::Cosine ==> normalized(store, squared)
}

impl PrismIndex {
    /// Reassembles an index from parts that were kept.  Parts that do not
    /// belong together are refused.
    pub fn from_parts<
        S: Fn(u32, u32) -> u32,
        E: Fn(u32, u32, u32) -> u8,
        F: Fn(&[u32], &[u32], usize) -> Vec<bool>,
        N: Fn(&[u32]) -> u64,
        R: Fn(u64) -> u64,
    >(
        store: PointStore,
        tree: PartitionTree,
        graph: Graph,
        medoids: Vec<u32>,
        global_medoid: u32,
        point_cell: Vec<u32>,
        original_ids: Vec<u32>,
        sq8: SQ8Store,
        binary: BinaryStore,
        config: PrismConfig,
        step: &S,
        encode: &E,
        rotate: &F,
        squared: &N,
        root: &R,
    ) -> (result: PrismResult<PrismIndex>)
        requires
            store.wf(),
            tree.wf(),
            graph.wf(),
            sq8.wf(),
            binary.wf(),
            total2(*step),
            total3(*encode),
            gives_flags(*rotate, store.dim as int),
            numbers_rows(*squared, store.dim as int),
            total1(*root),
        ensures
            ends(
                result,
                if !(config.verdict() is Accepted) {
                    config.verdict()
                } else if parts_fit(
                    &store,
                    &tree,
                    &graph,
                    medoids@,
                    global_medoid,
                    point_cell@,
                    original_ids@,
                    &sq8,
                    &binary,
                    &config,
                    *step,
                    *encode,
                    *rotate,
                    *squared,
                ) {
                    Verdict::Accepted
                } else {
                    Verdict::InvalidFormat
                },
            ),
            result matches Ok(index) ==> {
                &&& index.wf()
                &&& index.store == store
                &&& index.tree == tree
                &&& index.graph == graph
                &&& index.medoids == medoids
                &&& index.global_medoid == global_medoid
                &&& index.point_cell == point_cell
                &&& index.original_ids == original_ids
                &&& index.sq8 == sq8
                &&& index.binary == binary
                &&& index.config == config
                &&& index.cosine_norms.caches(&store, config.metric, *squared, *root)
            },
    {
        match config.validate() {
            Ok(()) => {},
            Err(error) => {
                return Err(error);
            },
        }
        if !check_renaming(&original_ids, store.len()) {
            return Err(invalid_format("original_ids must be a permutation of the points"));
        }
        if !check_layout(
            &store,
            &tree,
            &medoids,
            global_medoid,
            &point_cell,
            &original_ids,
            &config,
        ) {
            return Err(invalid_format("points, cells and identifiers do not belong together"));
        }
        proof {
            layout_is_catalog(
                &store,
                &tree,
                medoids@,
                global_medoid,
                point_cell@,
                original_ids@,
                &config,
            );
            assert forall|c: int| 0 <= c < tree.cells@.len() implies (#[trigger] tree.cells@[c]).point_ids@.len()
                > 0 && tree.cells@[c].point_ids@.contains(medoids@[c]) by {
                assert(cell_fits(&store, &tree, medoids@, point_cell@, &config, c));
            }
            assert forall|c: int, i: int|
                0 <= c < tree.cells@.len() && 0 <= i < tree.cells@[c].point_ids@.len() implies #[trigger] tree.cells@[c].point_ids@[i]
                < store.len by {
                assert(cell_fits(&store, &tree, medoids@, point_cell@, &config, c));
            }
        }
        if !config.builds_sq8(store.len()) && sq8.codes.len() != 0 {
            assert(!codes_fit(&sq8, &store, &config, *step, *encode));
            return Err(invalid_format("SQ8 store must have 0 point codes for this configuration"));
        }
        let cosine_norms = match derive_cosine_norm_cache(&store, config.metric, squared, root) {
            Ok(cache) => cache,
            Err(error) => {
                return Err(error);
            },
        };
        if !check_codes(&sq8, &store, &config, step, encode) {
            return Err(invalid_format("SQ8 codes or metadata do not match the point store"));
        }
        if !check_sketches(&binary, &store, &config, rotate) {
            return Err(
                invalid_format("binary codes or transform metadata do not match the point store"),
            );
        }
        match check_graph(
            &graph,
            &tree,
            &medoids,
            global_medoid,
            &point_cell,
            &config,
            store.len(),
        ) {
            Ok(()) => {},
            Err(error) => {
                return Err(error);
            },
        }
        proof {
            if !config.binary_built() {
                assert(0int / binary.code_words as int == 0) by (nonlinear_arith)
                    requires
                        binary.code_words > 0,
                ;
            }
        }
        Ok(
            PrismIndex {
                store,
                tree,
                graph,
                medoids,
                global_medoid,
                point_cell,
                original_ids,
                sq8,
                binary,
                cosine_norms,
                config,
            },
        )
    }
}

} // verus!
