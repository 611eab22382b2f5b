//! Key-space bookkeeping for a distributed brute-force key search.
//!
//! A key is split into a fixed most-significant prefix, a block of
//! "dynamic" bytes that is counted through like an odometer, and a fixed
//! least-significant suffix.  A [`KeyPool`] describes one range of that
//! count; it can be split into partitions for several workers, stepped
//! forward one key at a time, and asked whether its range is exhausted.
//! Around it stand the decisions of the search itself: reading the
//! master's commands, decoding `.r4c` hex files, judging trial decryptions
//! and collecting the workers' reports.

pub mod overflow;
pub mod util;
pub mod odometer;
pub mod text;
pub mod keypool;
pub mod node;
pub mod command;
pub mod hexfile;
pub mod crack;

pub use overflow::{WrappedInc, WrappedStep};
pub use util::{is_english, u8_vector};
pub use keypool::{KeyPool, KeyPoolView};
pub use node::Worker;
pub use command::{parse, sanitize, Op};
pub use hexfile::{decode_r4c, first_bad_digit};
pub use crack::{coordinate, plan_jobs, try_key, Progress, Trial};
