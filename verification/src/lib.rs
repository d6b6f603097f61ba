//! Verified core of git-ai's history-rewrite and notes bookkeeping.
pub mod pairing;
pub mod attribution;
pub mod authorship;
pub mod rewrite;
pub mod text;
pub mod cherry_pick;
pub mod decode;
pub mod batch;
pub mod notes;
pub mod telemetry;
