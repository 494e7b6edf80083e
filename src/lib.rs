//! A streaming quantile sketch with relative-error guarantees.
//!
//! Samples are binary64 values held as their bit patterns (`bits`). A caller's logarithmic
//! mapping turns each magnitude into an integer bucket key; the summary routes the sample by
//! sign into one of two bounded bucket stores (`store`) or into a zero count, keeps the lowest
//! and highest samples exactly, and answers quantiles and merges (`summary`).
pub mod bits;
pub mod store;
pub mod summary;
