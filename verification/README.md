# modlin

Modular rank and linear-complexity tests for pseudorandom number generators
over prime fields **F**ₚ (*p* < 2⁶³), written in Verus.

## Layout

- `src/fp.rs`: the field **F**ₚ with Barrett reduction; `reduce_u128` is proved
  equal to `t % p` for every 128-bit input.
- `src/rank.rs`: the rank of an *n* × *n* matrix by blocked, parallel Gaussian
  elimination, proved equal to plain column-by-column Gaussian elimination;
  `RankElimination` runs it one panel at a time. The two parallel row loops
  (`par_rows_eliminate`, `par_rows_update`) are trusted: each hands the rows
  to rayon's `par_chunks_mut(n).for_each` with a verified row kernel, and its
  contract (every row gets the kernel once) is believed, not proved.
- `src/rank_bound.rs`: the rank is the dimension of the row space (at most
  the number of vectors of any spanning set, and the pivot rows span); hence a
  matrix filled with a stream of linear complexity *L* has rank at most *L*.
- `src/lfsr.rs`: linear complexity by the Berlekamp–Massey algorithm, with the
  proof that the register it finds generates the sequence, that no shorter
  register does (Massey's lemma), and that a prefix of twice the complexity
  already shows it; `BerlekampMassey` runs it one element at a time.
- `src/fermat.rs`: Fermat's little theorem, which makes the Fermat inverses
  used by the field true inverses when *p* is prime.
- `src/prng/`: the generators (SplitMix, xoroshiro128++, three MIXMAX
  variants), each specified by its state transition; for MIXMAX, a vector
  application is proved to be the MIXMAX matrix acting modulo 2⁶¹ − 1, and the
  running sum to stay congruent to the sum of the vector.
- `src/sample.rs`: filling a buffer with reduced generator outputs.
- `src/cli.rs`: the parsing of durations (with the law that concatenation adds)
  and the checks on the arguments.
- `app/`: the command-line program (argument parsing, logging, p-values).
