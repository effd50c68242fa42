//! Verified decision logic of a driver-assistance perception core: traffic
//! light voting and colour counting, greedy box suppression, track
//! bookkeeping, lane-line extraction and region masking.
pub mod detection;
pub mod frame;
pub mod lane_detect;
pub mod lane_manager;
pub mod object_proc;
pub mod traffic_light;
