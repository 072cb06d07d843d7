//! A growable array of slots, laid out as a tree of fixed-size segments, and a sorted list set.

pub mod growable_array;
pub mod list_set;
