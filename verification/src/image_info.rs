//! An image file together with the place where it was taken.

use crate::cluster::Coordinate;
use std::path::PathBuf;
use vstd::prelude::*;

verus! {

/// Where an image file is, and where the picture was taken.
pub struct ImageInfo {
    path: PathBuf,
    location: Coordinate,
}

impl ImageInfo {
    /// The file's path.
    pub closed spec fn spec_path(&self) -> PathBuf {
        self.path
    }

    /// The picture's position.
    pub closed spec fn spec_location(&self) -> Coordinate {
        self.location
    }

    /// The record of the file at `path` and the position `location`.
    pub fn new(path: PathBuf, location: Coordinate) -> (info: ImageInfo)
        ensures
            info.spec_path() == path,
            info.spec_location() == location,
    {
        Self { path, location }
    }

    /// The file's path.
    pub fn path(&self) -> (path: &PathBuf)
        ensures
            *path == self.spec_path(),
    {
        &self.path
    }

    /// The picture's position.
    #[verifier::when_used_as_spec(spec_location)]
    pub fn location(&self) -> (location: Coordinate)
        ensures
            location == self.spec_location(),
    {
        self.location
    }
}

} // verus!
