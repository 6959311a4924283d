//! An n-dimensional array core: shapes and strides, borrowed views with
//! slicing and broadcasting, a strided odometer iterator, and numerically
//! careful reductions, with their behaviour proved.
pub mod array;
pub mod dimension;
pub mod error;
pub mod impl_ops;
pub mod impl_views;
pub mod iterators;
pub mod numeric;
pub mod numeric_util;
pub mod quantile;
pub mod wrapping;

pub use array::Array;
pub use error::{ErrorKind, ShapeError};
pub use impl_ops::ScalarOperand;
pub use impl_views::{ArrayView, ArrayViewMut, AxisIter, Iter, Zip};
pub use numeric::iterator_pairwise_sum;
pub use numeric_util::{pairwise_sum, pure_pairwise_sum, unrolled_dot, unrolled_eq, unrolled_fold};
pub use quantile::{select_nth, Interpolate};
