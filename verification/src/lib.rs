use vstd::prelude::*;

pub mod a;
pub mod polyhash;
pub mod f;
pub mod c;
pub mod d;
pub mod buf;
pub mod scan;
pub mod lazy_static;

verus! {
} // verus!
