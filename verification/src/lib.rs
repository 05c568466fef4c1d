//! Verified state machines of four pallets of a movie-festival platform.

use vstd::prelude::*;

pub mod table;
pub mod dispatch;
pub mod hashing;
pub mod movie;
pub mod social_space;
pub mod festival;
pub mod anon_festival;
pub mod laws;
pub mod market;
pub mod schedule;
pub mod walk;

verus! {

} // verus!
