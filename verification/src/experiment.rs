//! Experimental byte-addressed variant of the fixed-capacity ring.

pub mod hadron;
