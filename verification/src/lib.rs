//! Verified core of a distributed shuffle worker: the index-addressed random
//! number generator, batch search, lease scheduling, the server dialogue, the
//! record keeping and the settings rules.

pub mod calendar;
pub mod cli;
pub mod compute;
pub mod config;
pub mod dashboard;
pub mod device;
pub mod device_laws;
pub mod gpu;
pub mod history;
pub mod lease_laws;
pub mod messages;
pub mod net;
pub mod notices;
pub mod period;
pub mod primes;
pub mod record_laws;
pub mod rng;
pub mod rng_laws;
pub mod schedule_laws;
pub mod scheduler;
pub mod settings;
pub mod text;
pub mod worker;
