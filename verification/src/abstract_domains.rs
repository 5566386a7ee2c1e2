//! Numeric abstract domains: extended integers and intervals.

pub mod abstract_domain;
pub mod ext_int;
pub mod interval;
pub mod interval_laws;
pub mod range;
pub mod range_laws;
pub mod widening_laws;
