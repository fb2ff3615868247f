//! Verified core of the KestrelCut editor.

pub mod text;
pub mod arabic;
pub mod history;
pub mod subs;
pub mod model;
pub mod media;
pub mod exporter;
pub mod player;
pub mod app;
pub mod util;
pub mod decoder;
pub mod textshape;
pub mod browser;
pub mod scopes;
pub mod grouping;
pub mod probe;
