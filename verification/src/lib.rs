//! Derived recovery metrics for a distributed storage cluster.
//!
//! Each poll yields one snapshot of the cluster's placement groups. The
//! snapshot carries no velocity, so rates and remaining times are rebuilt
//! from bounded histories of earlier snapshots: per recovery category, per
//! storage node and per inconsistent placement group.

pub mod common;
pub mod monitor;
