//! A habit tracker: named habits, the days on which each was done, and the
//! current run of consecutive days that ends today.
pub mod habit;
pub mod streak;
pub mod tracker;
