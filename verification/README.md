# mlpcs

Pairing-based multilinear polynomial commitment schemes over BLS12-381, written
in Verus. Every function of the library carries a contract that Verus proves;
field, group and pairing arithmetic comes from the `ark` crates and the
Fiat-Shamir transcript from `merlin`, behind a small set of trusted declarations
in `src/field.rs`, `src/group.rs`, `src/tensor.rs` and `src/transcript.rs`.

This is research software without zero knowledge or hiding. The functions named
`gen_srs_for_testing` take their trapdoors as arguments and serve tests and
benchmarks only.

## Schemes

| module | scheme | proof |
| --- | --- | --- |
| `recipcs` | reciprocal openings | 2 G1 + 4 F |
| `nested_grid_kzg` | nested reciprocal grid openings | 4 G1 + 8 F |
| `chopin` | bivariate KZG with one symmetric witness | 7 G1 + 7 F |
| `mercury` | folding by a binomial | 8 G1 + 6 F |
| `gemini` | even-odd folding, batched with Shplonk | grows with the number of variables |
| `mulcs` | the Claymore identity, and its symmetric variant | constant |

## What is proved

A scalar is viewed as an integer below the field's order, a group element as
its discrete logarithm, and a transcript as the history of what it absorbed and
squeezed. In these terms the contracts say exactly which inputs are refused and
with which error, what the prover sends for given challenges, and on which
equations the verifier accepts. Of a challenge nothing is assumed but that it is
determined by its label and by what stands before it.

The modules named `laws`, `bdfg_laws`, `batching_laws` and `reciprocal_laws`
hold the theorems about several functions. Each scheme has a completeness
theorem: for all challenges with which the honest prover comes to an end, the
verifier that draws the same challenges accepts under the matching key. The
modules named `roundtrip` say of the interface that `verify` accepts what `open`
returned, that a run's challenges are determined by what is sent, and that two
openings for one commitment agree. They say it of a batched opening too, where
prover and verifier use the same weights.

## Layout

- `field`, `group`, `transcript`, `errors`: the ground types
- `poly`, `tensor`, `dims`, `quadratic`, `laurent`, `grid`, `kzg`: polynomial
  algebra with its lemmas
- `bdfg`: batched openings at several points
- `batching`: many claims at many points reduced to one by a sumcheck, which the
  caller runs between the two stages of a batched opening
- `reciprocal`: what `recipcs` and `mulcs::symmetric` share
- `carina`: the grid key of `nested_grid_kzg`
- `bench`, `mulcs::profile`: settings, statistics and timers of the benchmark
- `app/`: the benchmark program
