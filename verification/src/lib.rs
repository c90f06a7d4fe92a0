//! A bounded object pool that recycles values of one element type.
//!
//! The pool keeps its values in [`bucket::Bucket`]s of [`bucket::SLOT_CAP`]
//! slots each, hands them out with `get` and takes them back with `put`,
//! probing the buckets in a ring that starts at a rotating cursor. Growth of
//! the bucket array is guarded by a [`barrier::VisitorBarrier`].
//!
//! Every operation takes the structure it works on by exclusive reference.
//! Each call is therefore one indivisible step of the protocol, and the
//! contracts say exactly which step it is: what is returned, and what the
//! structure holds afterwards.
pub mod barrier;
pub mod bucket;
pub mod model;
pub mod pool;
pub mod utils;
