//! Scalars that may stand as direct operands in arithmetic with arrays.
use vstd::prelude::*;

verus! {

/// Elements that can be used as direct operands in arithmetic with arrays.
///
/// For example, `i64` is a `ScalarOperand`, so a scalar of that type may be
/// combined with every element of an array.
///
/// This trait does not limit which elements can be stored in an array in
/// general.
pub trait ScalarOperand: 'static + Clone {}

impl ScalarOperand for bool {}

impl ScalarOperand for i8 {}

impl ScalarOperand for u8 {}

impl ScalarOperand for i16 {}

impl ScalarOperand for u16 {}

impl ScalarOperand for i32 {}

impl ScalarOperand for u32 {}

impl ScalarOperand for i64 {}

impl ScalarOperand for u64 {}

impl ScalarOperand for isize {}

impl ScalarOperand for usize {}

} // verus!
