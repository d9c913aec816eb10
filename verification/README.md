# prism_ann

Filtered approximate nearest-neighbour search, verified with Verus.

Points carry a vector and one value for each of a few attributes. A query asks
for the points nearest to a vector among those that pass a filter on the
attributes. Points are grouped into cells, one for each combination of values
that occurs; an index keeps them cell after cell, with a graph whose edges
connect every cell within itself and, where searches cross cells, the cells
with each other. A second index clusters vectors by k-means and answers queries
that require a set of tags.

## Layout

- `src/` is the library. Every item in it is verified, except that the small
  functions of `chance`, `io` and `wipe` that call other crates are trusted to
  do what their contracts say.
- `tests/` runs the library on concrete values.
- `app/` holds what needs files, clocks, threads, Python or floating point: two
  benchmarks, the bindings, and the numeric kernels.

## Numbers

Coordinates, distances and thresholds are IEEE-754 bit patterns in the library
(`u32` for single and `u64` for double precision). Where an algorithm needs
floating-point arithmetic it takes a function, and its contract speaks of that
function's values (`pure.rs`). Such a function is handed every setting that its
value depends on. `app/kernels.rs` has the functions in use.

Random choices come from a seeded generator (`chance.rs`). The contracts say
what is built in terms of the generator's answers, so equal points, settings
and seeds give equal indexes.

## Where to start

| Module | Subject |
| --- | --- |
| `point`, `filter`, `partition` | points, filters, cells |
| `quantize`, `binary` | byte codes and one-bit sketches of vectors |
| `graph`, `walk`, `select`, `reach` | adjacency, best-first walks, connectivity |
| `vamana`, `covering`, `cross`, `assemble`, `construct` | building the graph |
| `index`, `relayout`, `indexing` | putting an index together, or back together |
| `search`, `crossing`, `descent`, `single`, `query` | answering queries |
| `kmeans`, `ivf`, `probe`, `sparse` | the clustered index |
| `io`, `text`, `session`, `evaluate` | files, arguments, requests, measures |
| `answers`, `coverage`, `likeness`, `reassembly`, `reproduce` | laws that span modules |

The main promises are stated as follows.

- `query::PrismIndex::search` gives as many results as there are eligible
  points, up to `k`; each passes the filter, none comes twice, and they stand
  in order of distance (`outcome_serves`).
- `query::exact_searches_are_exact`: a search that scans has the nearest
  eligible points.
- `construct::assembled_edges_serve`: every cell can be walked from its medoid,
  and the whole graph from the global one wherever it is built.
- `indexing::built_parts_fit`: the parts of a built index are accepted back, and
  `reassembly::reassembled_index_answers_alike`: what they make answers alike.
- `reproduce::construction_is_reproducible`: equal input gives an equal index.
- `binary::BinaryStore::encode_query`: queries are sketched with the signs and
  blocks of the store that they are compared with.
- `covering::rating`: `alpha` is the weight of proximity in the choice of
  neighbours in other cells. Without weight the number of new attribute tuples
  alone decides, and then greedy choice covers at least the classical share of
  what any choice could (`coverage::greedy_choice_is_near_best`).
- `vamana::alpha_power`: pruning applies the square of its strictness to squared
  distances.
- `answers::answers_name_passing_points`: answers name points that were inserted
  and pass the filter, and all of those where there are fewer than `k`.
- `answers::tagged_answers_have_the_tags`: clustered answers carry every tag that
  was asked for.
