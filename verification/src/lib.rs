//! Configuration core of a small CI runner: variable substitution,
//! the `dynconf` expression language and the runner's configuration
//! decisions, each stated and proved with Verus.

pub mod text;
pub mod keyed;
pub mod vars;
pub mod pipeline;
pub mod api;
pub mod services;
pub mod permissions;
pub mod matched;
pub mod loading;
pub mod bind;
pub mod codegen;
pub mod caddy;
pub mod caddyfile;
pub mod dynconf;
pub mod actions;
pub mod repos;
pub mod repo_actions;
pub mod auth;
