//! Sorted-array containers with a functional update and merge protocol.
//!
//! [`map::VecSortedMap`] and [`set::VecSortedSet`] keep their entries in a
//! `Vec`, strictly ascending by key. Lookup, insertion and removal go by
//! binary search; union, intersection, difference and symmetric difference
//! of two sets go by merge-join, into a new set or as a lazy walk.
//!
//! Every function states what it returns and what it changes over the
//! sequence of entries that a container stands for. The key type has to be
//! totally ordered, see [`order::total_order`]; [`laws`] gathers what holds of
//! the containers whatever they hold.

pub mod entries;
pub mod laws;
pub mod map;
pub mod merge_join;
pub mod order;
pub mod search;
pub mod set;
pub mod set_iter;
pub mod sorted;
pub mod storage;
pub mod vec_sorted_map;
pub mod vec_sorted_set;
pub mod walk;
