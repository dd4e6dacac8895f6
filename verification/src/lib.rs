use vstd::prelude::*;

pub mod blend_mode;
pub mod clients;
pub mod event_loop;
pub mod ids;
pub mod input_count;
pub mod network;
pub mod network_model;
pub mod patch;
pub mod patch_message;
pub mod reactor;
pub mod show_library;
pub mod simple_hash;

verus! {

} // verus!
