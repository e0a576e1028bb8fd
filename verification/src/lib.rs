//! Typed MQTT topic engine: topic pattern parsing, matching and routing.
use vstd::prelude::*;

pub mod analysis;
pub mod cache_strategy;
pub mod connection;
pub mod match_cache;
pub mod message_serializer;
pub mod qos;
pub mod structured;
pub mod subscription_builder;
pub mod subscription_manager;
pub mod subscription_table;
pub mod text;
pub mod topic_error;
pub mod topic_match;
pub mod topic_matcher;
pub mod topic_pattern_path;
pub mod topic_router;
pub mod topic_pattern_item;

verus! {

} // verus!
