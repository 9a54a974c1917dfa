//! Route origin validation statistics: the IP address model, range and
//! prefix algebra, resource sets, an interval index over ranges, and the
//! validation rules that classify announcements and validated ROA payloads.

pub mod text;
pub mod announcements;
pub mod asn;
pub mod delegations;
pub mod ip;
pub mod range_tree;
pub mod report;
pub mod resource_set;
pub mod validation;
pub mod vrps;
