//! Tracks and the playlist that pairs the track registry with the tree.
use vstd::prelude::*;
use crate::tree::PlaylistNode;

verus! {

/// A discovered media file: where it is, what it is called and how long it
/// plays, in milliseconds.
pub struct Track {
    pub location: String,
    pub title: String,
    pub duration: usize,
}

impl Track {
    pub fn new(location: String, title: String, duration: usize) -> (r: Track)
        ensures
            r.location@ == location@,
            r.title@ == title@,
            r.duration == duration,
    {
        Track { location, title, duration }
    }

    pub fn location(&self) -> (r: &str)
        ensures
            r@ == self.location@,
    {
        self.location.as_str()
    }

    pub fn title(&self) -> (r: &str)
        ensures
            r@ == self.title@,
    {
        self.title.as_str()
    }

    pub fn duration(&self) -> (r: usize)
        ensures
            r == self.duration,
    {
        self.duration
    }
}

/// The track registry, in discovery order, with the sorted tree.
pub struct Playlist {
    pub tracks: Vec<Track>,
    pub nodes: Vec<PlaylistNode>,
}

impl Playlist {
    pub fn tracks(&self) -> (r: &Vec<Track>)
        ensures
            r == &self.tracks,
    {
        &self.tracks
    }

    pub fn nodes(&self) -> (r: &Vec<PlaylistNode>)
        ensures
            r == &self.nodes,
    {
        &self.nodes
    }
}

} // verus!
