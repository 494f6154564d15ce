//! Contraction of tensor networks, planned on shapes and labels.
//!
//! A network is a list of dense arrays whose axes carry integer labels. A
//! positive label sits on two axes, which are summed over; a negative label
//! sits on one axis, which is an axis of the result. This crate decides how
//! such a network is contracted: it checks the labels, chooses greedily which
//! two arrays to contract next, finds the axes that a trace or a pairwise
//! contraction works on, and says what shape and which labels come out. It
//! never touches the elements of an array: what it returns are plans, to be
//! carried out on the elements by whoever holds them.
//!
//! - [`trace`] and [`tendot`] plan the two operations on single arrays and
//!   pairs of arrays.
//! - [`planner`] scores pairs of arrays, in natural numbers of any size
//!   ([`natural`]), and selects the pair to contract next.
//! - [`tencon`] plans the contraction of a whole network.
//! - [`shape`] and [`labels`] hold what these share about shapes and label
//!   orders, and [`error`] what can be wrong with a request.
//! - [`pairing`], [`counting`], [`origin`], [`sizes`], [`steps`], [`hub`] and
//!   [`laws`] prove what the plans have in common with the network they
//!   were made for.

pub mod counting;
pub mod error;
pub mod hub;
pub mod labels;
pub mod laws;
pub mod natural;
pub mod origin;
pub mod pairing;
pub mod planner;
pub mod shape;
pub mod sizes;
pub mod steps;
pub mod tencon;
pub mod tendot;
pub mod trace;
