//! Planning for a program that moves the files of one folder into another.
//!
//! A pass takes the listing of the source folder and decides which of its
//! entries are transferred, in which order, from which path to which path,
//! and whether the source is removed afterwards ([`pass::start`]). Around the
//! passes stands a loop that runs one at once and, if it repeats, another
//! after every pause ([`control::next_step`]).
//!
//! Nothing here touches the disk: listing the folder and carrying the
//! transfers out is the caller's part. What the transfers do to the files is
//! described by a model ([`store`]), over which the guarantees of a pass are
//! proved ([`laws`]).

pub mod control;
pub mod entry;
pub mod laws;
pub mod pass;
pub mod path;
pub mod store;
