//! A single-purpose display appliance, as a library of decisions: commands in,
//! scenes and render specs out.

pub mod command;
pub mod config;
pub mod double;
pub mod history;
pub mod laws;
pub mod layout;
pub mod markup;
pub mod net;
pub mod osc;
pub mod render;
pub mod scene;
pub mod seconds;
pub mod size_laws;
pub mod state;
pub mod status;
pub mod text;
pub mod time;
