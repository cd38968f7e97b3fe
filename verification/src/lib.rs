//! A keyed container with two extra accessors: a positional one, which
//! returns the value whose key has a given rank in ascending key order, and
//! a predicate one, which returns the entries whose key, read as a tuple of
//! numbers, satisfies a comparison written as text.

pub mod binary64;
pub mod expr_ast;
pub mod iloc;
pub mod iter;
pub mod key;
pub mod map;
pub mod matching;
pub mod natural;
pub mod rounding;

pub use map::ExtendedHashMap;
