# radix_div

Verified quotient and remainder of radix integers: integers split into
blocks of a few message bits, each block with room for carries, as used by
homomorphic integer arithmetic. Blocks are modelled in the clear: each one
holds its plaintext value and its degree (the public bound on that value that
the server key tracks), and lookup tables are tables of plaintext values.

The library is written in Verus. Every function states what it computes over
the integers the blocks hold, and Verus proves it.

## Layout

- `src/shortint.rs`: blocks, lookup tables and the block-level operations of
  the shortint key.
- `src/radix.rs`: unsigned and signed radix integers, their value, and the
  facts about radix values.
- `src/server_key.rs`: the integer server key, carry propagation, addition and
  overflowing subtraction.
- `src/radix_ops.rs`, `src/radix_arith.rs`: shifts, resizing, comparisons with
  zero, negation, absolute value, selection on a condition block.
- `src/div_mod.rs`: the division entry points (unchecked, propagating, smart,
  assigning, checked), signed and floor division, and the base-4 long division
  for two-bit blocks.
- `src/long_division.rs`: the bit-by-bit restoring long division used for the
  other parameters, with its loop invariant and step.
- `src/division_lemmas.rs`: bit-level arithmetic facts behind the long division.
- `src/division_laws.rs`: what quotient and remainder satisfy (Euclid's
  relation, rounding and sign rules, division by zero, the checked flag).
- `src/parallel.rs`: the calls into rayon (`join`, and parallel maps over
  slices) that run computations in parallel.
- `tests/division.rs`: tests over concrete values, exhaustive on small integers.
