//! Selective game-backend redirection through a managed block of the hosts
//! file, and classification of IPv4 addresses by published CIDR ranges.

pub mod text;
pub mod section;
pub mod region;
pub mod policy;
pub mod conflicts;
pub mod hosts;
pub mod aws_ranges;
pub mod traffic;
