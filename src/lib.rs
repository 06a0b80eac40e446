//! An index from IP address ranges to the autonomous systems that announce
//! them, built from a gzip-compressed tab-separated feed, and a holder that
//! swaps whole snapshots of it under concurrent readers.
mod gzip;
pub mod index;
pub mod ip;
pub mod record;
pub mod snapshot;
pub mod text;
