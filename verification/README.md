# tdigest_stats

Quantile digests over binary64 numbers, verified with Verus.

A digest is a list of centroids (means with weights) together with the count, the sum and the
extremes of the values it was built from. The library holds the steps of the aggregates that build
and merge digests, the queries on them (values at a quantile, shares up to a value, histograms,
densities and kernel density estimates, plain or with centroids weighted by a power of their mean),
and the byte format in which digests travel between workers.

Numbers are held as bit patterns and computed with the correctly rounded arithmetic of
`src/binary64`, so every contract says to the last bit what a query returns. Powers, exponentials
and the estimates of the digest engine are functions that the caller passes in.

- `src/binary64`: the number format, rounding, arithmetic and its laws.
- `src/digest.rs`, `src/weights.rs`, `src/cells.rs`: digests, weights of centroids, and the interval
  of values that each centroid stands for.
- `src/aggregate.rs`, `src/wire.rs`, `src/summary.rs`: aggregate steps, the byte format, and the
  figures that a digest keeps exactly.
- `src/quantile.rs`, `src/distribution.rs`, `src/histogram.rs`, `src/density.rs`, `src/kernel.rs`:
  the queries.
- `src/laws`: what holds of all answers, or relates several queries.
- `app`: native floating point numbers, the text form, and the aggregates around a digest engine.
