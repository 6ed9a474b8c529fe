//! Adaptive parallel merge sort for large in-memory batches of values, and the
//! decoding of PostgreSQL `COPY ... WITH (FORMAT BINARY)` streams that feed it.
pub mod order;
pub mod sorted;
pub mod slice_std;
pub mod multimerge;
pub mod parallel;
pub mod trend;
pub mod copy_binary;
pub mod text;
pub mod pipeline;
pub mod laws;
pub mod copy_laws;
