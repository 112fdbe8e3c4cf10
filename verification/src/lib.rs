//! A Markov-chain text engine: a token dictionary, a compact frequency
//! multiset of token identifiers, a bidirectional transition index over
//! bigram contexts, and a generator that assembles word sequences by
//! walking the index forward and backward from a seed context.

pub mod chain;
pub mod dict;
pub mod entries;
pub mod paths;
pub mod rng;
pub mod tokset;
pub mod words;
