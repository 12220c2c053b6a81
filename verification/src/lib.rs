pub mod clock;
pub mod config;
pub mod diff;
pub mod errors;
pub mod models;
pub mod revision;
pub mod strutil;
pub mod tree;

use vstd::prelude::*;

verus! {

} // verus!
