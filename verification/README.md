# geo_rtree

A packed, immutable R-tree: a spatial index over bounding boxes that is stored in two flat arrays
and is searched without unpacking it. The library is written in Verus; what its functions return is
stated in their contracts and proved.

- `src/rtree/layout.rs` says what a packed tree is.
- `src/rtree/index.rs` holds the `RTreeIndex` trait: searches by bounding box (`search`) and
  nearest neighbor searches (`neighbors` and its variants), with `src/rtree/search.rs` and
  `src/rtree/neighbors.rs` saying what they find, and `src/rtree/progress.rs` how a nearest neighbor
  search goes on.
- `src/rtree/distance.rs` holds the traits by which distances are measured.
- `src/rtree/tree.rs` holds the trees, which check on construction that they are packed.
- `src/rtree/intersection.rs` pairs the items of two trees that intersect.
- `src/rtree/sort/` sorts items into tiles before they are packed (sort-tile-recursive).
- `src/num.rs` holds the numbers that coordinates and distances can be.

`app/` holds what surrounds the library: floating-point coordinates, metrics on geometries,
searches by coordinates of other crates, sorting on several threads and a Python interface.

The trusted base is two calls into the standard library, `slice::sort_unstable_by` and
`slice::select_nth_unstable_by`, in `src/rtree/sort/util.rs`.
