//! Verified algorithms and collections: prime sieves and number theory,
//! string pattern matching (one pattern, and many keys at once with the
//! Aho-Corasick automaton), suffix arrays, sorting, ordered maps (balanced
//! search trees, 2-3 trees, scapegoat trees) and small collections.

pub mod bits;
pub mod number;
pub mod prime_spec;
pub mod prime_sieves;
pub mod spm_spec;
pub mod horspool;
pub mod sunday;
pub mod b5s;
pub mod spm_bm;
pub mod border;
pub mod text;
pub mod kmp;
pub mod z;
pub mod sort;
pub mod math;
pub mod algs;
pub mod num;
pub mod bytes_set;
pub mod bloom_filter;
pub mod collections;
pub mod tree;
pub mod avl;
pub mod rawst;
pub mod splay;
pub mod aa;
pub mod easycoll;
pub mod roadmap;
pub mod llrb;
pub mod rb;
pub mod b3;
pub mod sg;
pub mod ac;
pub mod custom_hash_set;
pub mod treap;
pub mod laws;
pub mod inf_sieve;
pub mod sa_spec;
pub mod sa;
pub mod sais;
pub mod sa16;
pub mod wheel;
pub mod mairson;
pub mod fixed_wheel;
pub mod gcd;
pub mod sundaram;
