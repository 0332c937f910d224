//! A fixed-size worker pool, as a verified state machine: the dispatch queue
//! shared by the workers, each worker's lifecycle, and the shutdown protocol
//! that queues one terminate message per worker and then joins them all.

pub mod lottery;
pub mod pool;
