//! Divisors of large unsigned integers: a finder that splits trial division
//! up to the integer square root across workers, and a lazy filter over any
//! sequence of candidates.

pub mod arithmetic;
pub mod filter;
pub mod finder;
pub mod listing;

pub use filter::{Divisors, IntoDivisors};
pub use finder::{find_divisors, find_divisors_with};
