//! Verified core of XaeroTools: reading and merging XaeroPlus databases,
//! discovering Xaero save trees and admitting region uploads.
//!
//! Everything here works on plain values. The program around the library reads
//! directories, runs SQL and moves bytes; it asks the library what to run and
//! hands back what came out.

pub mod corpus;
pub mod database;
pub mod discovery;
pub mod drawing;
pub mod drawing_merge;
pub mod drawing_union;
pub mod highlights;
pub mod ingest;
pub mod layers;
pub mod listing;
pub mod naming;
pub mod order;
pub mod paths;
pub mod picking;
pub mod preview;
pub mod regions;
pub mod request;
pub mod roots;
pub mod service;
pub mod snapshots;
pub mod sql;
pub mod synth;
pub mod text;
pub mod tiles;
pub mod trees;
pub mod upload;
pub mod waypoints;
pub mod worlds;
