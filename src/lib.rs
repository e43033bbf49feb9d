//! Scene lifecycle management for UI scenes bound to application states.
//!
//! A marker type gives a stable key. The registry maps keys to setup
//! handles, the object store holds tagged object trees, and the scene
//! schedule reacts to state transitions by queueing deferred commands.
pub mod commands;
pub mod controls;
pub mod markers;
pub mod one_shot_system;
pub mod scenes;
pub mod store;
pub mod ui;
pub mod unity_scenes;
pub mod widgets;
