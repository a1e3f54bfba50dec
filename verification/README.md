# hnsw

Hierarchical navigable small world graphs for approximate nearest neighbor search, as a
Verus library: executable Rust whose behavior is stated in contracts and proved.

`Hnsw` has its degrees fixed at compile time, `HnswRuntime` at run time. Both insert
features, search for the nearest of them, search under a filter, and soft-delete nodes.
Features live in a `Vec` or in any other `FeatureStore`. Distances come from a `Metric`,
the levels of insertions from a `LevelSource`.

## Layout

- `src/` is the library.
  - `hnsw_const`, `hnsw_runtime`: the two types of index. `index` is what they share,
    whatever their neighbor lists are made of.
  - `model`: what an index holds (`IndexView`), what a search reports
    (`IndexView::nearest`), and what an insertion leaves behind (`IndexView::inserted`).
    The contracts of both types speak of it.
  - `traverse`: the model of a search over one layer, depth-first or best-first.
    `search` and `heap` run it. `sound` and `thorough` say what holds of it.
  - `select`, `join`: which links a node keeps, and how a node joins a layer. `growth`
    proves that an insertion leaves an index as it should be.
  - `nodes`, `parts`, `wire`: neighbor lists, how they make up an index, and how they are
    written.
  - `laws`: what holds of an index as a whole. Results are ascending, exact, distinct,
    live, the best of what the search came upon, and locally the best there is; results
    that fall short of `ef` are complete; insertions keep ids, degrees, simple links and
    the order of the layers, whatever is soft-deleted in between; soft deletion marks one
    id; both types agree after the same changes; what is written is read back.
  - `seen`: the set of visited ids, a `hashbrown::HashSet`. Its wrappers are the only
    items that are believed without proof, together with what the implementations of
    `Metric` and `FeatureStore` outside of the library promise.
- `tests/` holds tests on concrete values, and on recall and work.
- `app/` ties the index to `space`, `rand_core` and `serde`.
