//! The engine server's logic: binary geometry frames and how an output's
//! drawables become them, the display cache and pick ids, the scrub-cache
//! queue, auto-layout, file-listing paths, the git panel's parsers and
//! rules, the lowering walk and its targets, script-port notation and
//! return checks, integer expressions, value summaries, and a client
//! socket's decisions — each stated as a contract and proved.

pub mod bytes;
pub mod frames;
pub mod text;
pub mod protocol;
pub mod scrub;
pub mod display;
pub mod budget;
pub mod layout;
pub mod files;
pub mod git;
pub mod status;
pub mod hunks;
pub mod survey;
pub mod runs;
pub mod targets;
pub mod notation;
pub mod routes;
pub mod walk;
pub mod calls;
pub mod socket;
pub mod draw;
pub mod conform;
pub mod expr;
pub mod summary;
