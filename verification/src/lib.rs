//! Hardware-aware rebalancing of the nodes of a cluster between a target
//! group and the pool of free nodes that it draws on.
//!
//! A user says how many hardware components of which kind the target group
//! is to hold. The library reads that request ([`pattern`]), reads the
//! hardware inventory of each node from its document ([`json`]) and turns
//! it into counters ([`fingerprint`], gathered under [`fetch`]), sums them
//! over the groups ([`aggregate`]), works out
//! what is to leave the target and what is to enter it ([`delta`]), scores
//! the candidates ([`score`]) and plans the moves ([`planner`]). What holds
//! of every plan is proved in [`laws`].
//!
//! Beside it stand the rebalancing by numbers of nodes of a hardware
//! profile ([`profile`], [`node_quantity`]), scores in whole numbers
//! ([`simple_score`]), the artifacts of a node ([`artifact`]) and the
//! pattern that a group already meets ([`hsm_pattern`]).
pub mod aggregate;
pub mod artifact;
pub mod counts;
pub mod delta;
pub mod fetch;
pub mod fingerprint;
pub mod hsm_pattern;
pub mod inventory;
pub mod json;
pub mod laws;
pub mod node_quantity;
pub mod pattern;
pub mod planner;
pub mod profile;
pub mod samples;
pub mod score;
pub mod simple_score;
pub mod text;
