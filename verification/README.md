# knipsa

Exact integer polygon geometry with machine-checked contracts: path
validation and normalization, orientation and point location, path
transforms, and Boolean operations (intersection, union, difference, XOR)
on closed rings and open polylines.

The library in `src/` is verified with Verus, with contracts over
mathematical models of the paths (`Seq` of points, rationals as
numerator/denominator pairs). The geometry primitives, validation and
exact arithmetic have exact contracts. Open lines are clipped into
fragments that cover each line in order, cut at every point where it meets
a boundary edge, each decided by the operation's rule at its midpoint (a
fragment on a boundary takes its neighbours' decision), and the output is
the maximal runs of kept fragments. The certified integer clipper answers
whenever every crossing is an integer point and every product fits in
`i128`; with nothing to cut against, lines come back whole. For closed rings the contracts state the errors, the cases
answered without an arrangement (empty sides, disjoint simple rings: the
result rings are the inputs), that the face-labelling boundary is exactly
the edges whose faces differ in membership under labels that differ by
each edge's winding deltas, and where every result vertex comes from; they
do not state which region a general result covers.

Layout:

- `geometry`, `request`, `complexity`, `error`: the public integer API and
  its validation rules.
- `rational`, `bigint`, `exact`: exact rational arithmetic on top of
  `num-bigint`, and exact point predicates and winding numbers.
- `arrangement`, `overlay`, `faces`, `rings`: the exact Boolean kernel
  (noding, face labelling or per-edge sampling, ring tracing).
- `open_exact`, `open64`: clipping of open polylines, exactly and with
  certified `i128` arithmetic.
- `vertex_origin`: where result points come from; every closed result
  vertex lies on an input edge, every open result line lies along one input
  line.
- `broad_phase`, `boolean`, `winding`, `sorting`, `offset`, `ffi`,
  `geo_conversions`, `benchmark`: supporting pieces.

`app/` holds what cannot be verified: the C API, `serde` copies of the
public value types and the `geo-types` conversions.
