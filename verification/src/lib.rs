//! Kernels for traces of sparse, timestamped events, and a comparator for
//! such traces.
//!
//! A trace is a file of lines, each a JSON object: a header, meta records,
//! and events. The kernels are
//!
//! - the bucket sum (`bucket`): which samples of a stream are summed
//!   together, by contiguous runs of equal bucket;
//! - the coincidence detector (`fuse`, with `window`, `arrivals` and
//!   `order`) and the optical flow by shift, delay and fuse that is built on
//!   it (`flow`, `kernels`);
//! - the trace comparator (`compare`), on traces that the reader (`trace`,
//!   with `json` and `text`) makes from lines.
//!
//! Timestamps are integers. The crate holds no floating-point number: where
//! values are summed or numbers are compared within a tolerance, it says
//! which, and the caller does the arithmetic.

pub mod arrivals;
pub mod bucket;
pub mod compare;
pub mod flow;
pub mod fuse;
pub mod json;
pub mod kernels;
pub mod order;
pub mod text;
pub mod trace;
pub mod window;
