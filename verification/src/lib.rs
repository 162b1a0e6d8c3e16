//! Prime numbers in an inclusive range of `u64`, found by trial division and
//! scanned on a pool of worker threads.

pub mod config;
pub mod primality;
pub mod scan;

pub use config::{Argument, Config, ParseError};
pub use primality::is_prime;
pub use scan::{primes, RangeError};
