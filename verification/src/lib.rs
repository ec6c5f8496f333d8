//! Bookkeeping for a contest archive that rates users and problems against
//! each other: problem letters of a contest, the submission counts that the
//! rating schedule reads, and the choices made while importing and listing
//! contests.

pub mod fetcher;
pub mod ranking;
pub mod web;
