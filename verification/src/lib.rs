//! Routing of Luau scripts and Roblox models into a Rojo project tree,
//! specified and verified with Verus.
//!
//! A build scans a source folder (`sources`, `scan`), routes each script by its
//! folders and the ending of its name (`routing`, `suffix`, `route`), and
//! places it in a project tree (`project`, `builder`). The configuration
//! (`config`, read from JSON by `json`), the command line (`cli`), the
//! decisions of `serve` (`serve`) and the install decisions (`install`)
//! complete the tool; `text` holds the string primitives.

pub mod text;
pub mod routing;
pub mod sources;
pub mod scan;
pub mod suffix;
pub mod route;
pub mod project;
pub mod json;
pub mod config;
pub mod builder;
pub mod install;
pub mod cli;
pub mod serve;
