//! Grouping photographs by where they were taken.
//!
//! Images with a usable position are gathered, in input order, into clusters
//! around the first image of each ([`features::generate_clusters`]); clusters
//! whose anchors are close can then be made one ([`merger::merge`]); images
//! without a position can be moved into the cluster whose members were taken
//! closest in time ([`features::relocate`]); and each cluster gets the name
//! of its place ([`cluster::Cluster::update_location`]).
//!
//! Positions and distances are binary64 numbers, which the library carries
//! as bit patterns ([`ieee`]) and never computes with: distances are measured
//! by a function that the caller hands in. What each pass computes is stated
//! in [`model`] and [`merger`], and what holds of all of them in [`laws`].

pub mod args;
pub mod cluster;
pub mod features;
pub mod ieee;
pub mod image_info;
pub mod laws;
pub mod merger;
pub mod metadata;
pub mod model;
pub mod naming;
pub mod utils;
