//! Buffers whose capacity is fixed by a const generic parameter.
use vstd::prelude::*;
use crate::memory::StackBuffer;

verus! {

/// A buffer of at most `N` bytes, whose capacity is known at compile time.
pub type FixedSizeBuffer<const N: usize> = StackBuffer<N>;

} // verus!
