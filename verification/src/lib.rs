//! A bubble sort that can be walked one primitive action at a time, forwards
//! and backwards, together with the plain one-shot sort it is measured
//! against, and the rules of two small programs that sit beside it.
//!
//! The sorting engine:
//!
//! * [`model`] is the mathematical description: the engine as a state
//!   machine over sequences, and the textbook sort as a function.
//! * [`laws`] proves what the state machine guarantees: a walk can be taken
//!   back exactly, it ends where the textbook sort ends, its log counts its
//!   comparisons, and neither the walk nor the log grows faster than the
//!   square of the length.
//! * [`sortedness`] proves what the sort achieves: the output is the input
//!   rearranged, in ascending order, with ties in their original order.
//! * [`order`] names what the engine assumes of its element type.
//! * [`bubble_sort`] is the executable engine, whose contracts are stated
//!   over the model.
//!
//! Beside it:
//!
//! * [`rangoli`] writes alphabet rangoli patterns.
//! * [`blocks`] holds the rules of the blocks game that do not depend on
//!   where anything is drawn.
//! * [`text`] writes numbers as text for the descriptions that actions and
//!   patterns give of themselves.

pub mod blocks;
pub mod bubble_sort;
pub mod laws;
pub mod model;
pub mod order;
pub mod rangoli;
pub mod sortedness;
pub mod text;
