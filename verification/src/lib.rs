//! Modular audio patch graphs, with stable buffer and module-slot planning
//! across successive re-plans.
mod keys;
mod seq_util;
mod text;

pub mod allocation;
pub mod audio_state;
pub mod buffers;
pub mod cables;
pub mod engine_state;
pub mod builder;
pub mod float_bits;
pub mod graph;
pub mod graph_doc;
pub mod graph_record;
pub mod graph_index;
pub mod instance_id;
pub mod layout;
pub mod midi;
pub mod modules;
pub mod order;
pub mod parameter_map;
pub mod planner;
pub mod receivers;
pub mod replan_laws;
pub mod round_trip;
pub mod validation;

pub use allocation::{ModuleAllocDiff, ModuleAllocState};
pub use instance_id::InstanceId;
pub use planner::PlanError;
