//! A tree of values in which every node can reach its parent and its children.
//!
//! Records live in a [`Forest`]: an arena whose slots are never reused, so a link
//! (a slot index) either finds its record or finds the slot vacant once the record
//! has expired. A [`TreeBox`] is an owning handle; links between records own
//! nothing. Each record tracks its own guards, so that overlapping access is
//! reported as a [`BorrowError`].
use vstd::prelude::*;

pub mod forest;
pub mod guard;
pub mod laws;
pub mod lemmas;
pub mod node;
pub mod walk;

pub use forest::{BorrowError, Forest, TreeBox};
pub use guard::{ReadGuard, WriteGuard};

verus! {

} // verus!
