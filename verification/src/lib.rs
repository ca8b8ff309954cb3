//! Verified layout, selection and input logic of the Moon terminal components.

use vstd::prelude::*;

pub mod dock;
pub mod dropdown;
pub mod foundation;
pub mod index_path;
pub mod input_mask;
pub mod keys;
pub mod notification;
pub mod text;

verus! {

} // verus!
