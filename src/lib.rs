//! Builds a VLC-flavoured XSPF playlist that mirrors the directory layout of
//! discovered media files.
//!
//! Files are registered one by one in a [`catalog::Catalog`]: each accepted
//! track is appended to a flat registry, whose positions are the tracks'
//! permanent indices, and its path is placed in a staging map keyed by path
//! ([`pending::PendingNodeMap`]). The staging map is then realized into a tree
//! of [`tree::PlaylistNode`]s whose leaves refer to tracks by index, the tree
//! is sorted ([`order`]), and [`xml`] renders registry and tree together.

pub mod tree;
pub mod order;
pub mod pending;
pub mod track;
pub mod escape;
pub mod xml;
pub mod catalog;
pub mod shape;
