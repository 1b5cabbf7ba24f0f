pub mod actor;
pub mod config;
pub mod extender;
pub mod model;
pub mod net;
pub mod plan;
pub mod producer;
pub mod query;
pub mod score;
pub mod state;
pub mod text;
pub mod watch;
