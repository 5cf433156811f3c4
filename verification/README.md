# subroutines

Sum-check provers and sum-check based batch openings for multilinear polynomial
commitments, verified with [Verus](https://github.com/verus-lang/verus).

## Layout

- `src/math`: the mathematics that the contracts speak of, over integers:
  congruences, finite sums, multilinear extensions, interpolation, sums of
  products, sparse tables, grouped sums.
- `src/field.rs`, `src/bls12_381`: prime fields as the provers see them; the
  scalar field and the two source groups of BLS12-381, computed by the arkworks
  crates.
- `src/arithmetic`: multilinear polynomials as tables, equality tables, virtual
  polynomials.
- `src/poly_iop`: the sum-check provers, dense (`dense_prover`) and mixed with
  sparse products (`mixed_prover`), and what ties the messages of a proof
  together (`consistency`).
- `src/pcs`: batch openings (`opening`, `batch_proof`), why they convince
  (`completeness`) and depend on values alone (`sharing`), reference strings
  (`srs`), and the bookkeeping of the logs (`timing`, `memory`, `rss`).
- `app`: transcripts, commitment schemes, serialization and logs around the
  library.
- `tests`: the library on concrete values, against the arkworks crates.

## Model

A field element stands for an integer below the modulus, and a contract says
which expression it is the residue of. A multilinear polynomial is the sequence
of its values on the Boolean hypercube; bit `i` of an index is the variable `i`.

## What is trusted

The arithmetic of the scalar field, the membership tests, the multiples, the
linear combinations and the random choice of group elements come from `ark-ff`,
`ark-ec` and `ark-bls12-381`; `ark_std::log2`, `Arc::ptr_eq` and
`slice::sort_by_key` come with contracts of their own. Each such item says above
it what it claims.
