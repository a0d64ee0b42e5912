//! The names most callers need.

use vstd::prelude::*;

pub use crate::error::KvsError;

verus! {

/// A plain wrapper around a value of another type.
pub struct W<T>(pub T);

} // verus!
