# m6algs

A library of classic algorithms and data structures, written in Rust and
verified with Verus. Every function in `src/` carries a `requires`/`ensures`
contract, and Verus proves that its body meets that contract.

## Contents

- **Number theory** (`number`, `gcd`, `math`, `num`): integer square roots and
  logarithms, gcd and lcm, primality by trial division.
- **Prime sieves** (`prime_sieves`, `wheel`, `fixed_wheel`, `mairson`,
  `sundaram`, `inf_sieve`): Eratosthenes (plain, incremental and segmented),
  wheel sieves, Mairson's sieve and Sundaram's sieve. Each of them is proved to
  return exactly the primes of its range, in ascending order (`prime_spec`).
- **String search** (`horspool`, `sunday`, `b5s`, `spm_bm`, `kmp`, `z`,
  `border`, `ac`): each search is proved to return every occurrence of the
  pattern (`spm_spec`). Aho–Corasick gives the occurrences of every key.
- **Suffix arrays** (`sa`, `sais`, `sa16`, over `sa_spec`): a naive sort, prefix
  doubling with comparison and radix sorts, SA-IS, and an in-place induced
  sort. Each public entry point checks its output against the definition of a
  suffix array before returning it.
- **Sorting** (`sort`): merge sort, heap sort, counting sort.
- **Search trees** (`tree` and one module for each scheme): a plain search
  tree, splay, AVL, AA, left-leaning red-black, red-black, 2-3, scapegoat and
  treap. Each tree is viewed as a `Map`, and its operations are stated over that
  view. The balance rules are stated too. AVL height balance, the AA level
  rules, red-black colouring, 2-3 shape and treap heap order are type
  invariants that every operation keeps. For left-leaning red-black trees,
  insertion is proved to keep the colour rules, and `self_validate` checks
  them at run time. Used as a max-heap, a treap's `top` is proved to be its
  greatest weight.
- **Small collections** (`bytes_set`, `bloom_filter`, `collections`,
  `custom_hash_set`, `easycoll`): sets of bytes and small Bloom filters.
- **Laws** (`laws`): properties that span several functions. For example, the
  different algorithms for one question must return the same result, maps read
  back what was written, and filters give no false negatives.

## Layout

- `src/`: the verified library.
- `tests/`: tests that run the compiled library.
- `app/`: the unverified code around the library (threads, random input).

The outside crates are `bit-vec`, used behind small trusted wrappers in
`src/bits.rs`, and `rand`, which draws treap weights.
