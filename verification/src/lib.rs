//! Consensus resolution of a host's external IPv4 address, and reconciliation
//! of that address against a published DNS record.
//!
//! The resolver takes the bodies that a set of independent IP-echo services
//! returned, extracts a dotted-quad candidate from each, and decides on a
//! single address either by first success or by a two-thirds quorum of the
//! respondents. The reconciler compares the decided address with the record a
//! DNS provider currently publishes and plans an update only on mismatch,
//! preserving the record's other attributes.

pub mod extract;
pub mod ip;
pub mod reconcile;
pub mod resolve;
