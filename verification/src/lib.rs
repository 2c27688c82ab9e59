//! Verified planning logic for a polar access constellation: which satellites
//! to light, how a schedule is smoothed, how many optical terminals a backbone
//! topology costs, how sessions route along a ring, and the IPv4/UDP framing
//! the simulator carries.

pub mod routing;
pub mod tally;
pub mod order;
pub mod activation;
pub mod greedy;
pub mod cover_bound;
pub mod exact_cover;
pub mod schedule;
pub mod switching;
pub mod distinct;
pub mod topology;
pub mod window_pool;
pub mod udp;
pub mod constellation;
pub mod placement;
