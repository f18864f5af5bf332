//! Finite groups: a group trait with small instances, permutation groups
//! indexed by rank, and presentations by generators and relations.

pub mod group;
pub mod group_presentation;
pub mod map;
