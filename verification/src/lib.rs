pub mod automaton;
pub mod borders;
pub mod boyer_moore;
pub mod kmp;
pub mod matching;
pub mod metrics;
pub mod naive;
pub mod rabin_karp;
pub mod suffix;
