//! Minimum, mean and maximum per key over a text of `key;value` lines.
//!
//! The text may be far larger than memory. It is read through a window of
//! fixed size and cut into chunks that end at line terminators
//! ([`chunk`]); each chunk is parsed by itself into the statistics of its
//! keys ([`record`], [`aggregate`]); the partial statistics are merged in
//! whatever order they arrive, and the merged statistics are ordered by key
//! and written out ([`report`]). [`pipeline`] holds the order in which the
//! stages of such a run have to finish, [`run`] the whole computation on an
//! input that is held in memory, and [`laws`] the proofs that neither the
//! window nor the order of merging changes the result.
//!
//! Values are decimal numbers. They are held exactly, as whole numbers of
//! tenths ([`decimal`]), so that sums do not depend on the order in which
//! they are formed; the mean is rounded to the nearest tenth.

pub mod aggregate;
pub mod chunk;
pub mod decimal;
pub mod error;
pub mod laws;
pub mod order;
pub mod pipeline;
pub mod record;
pub mod report;
pub mod run;
pub mod stat;
pub mod table;
pub mod text;
