//! Volumes: the chapters and covers that share a volume number.

use vstd::prelude::*;

use crate::chapter::Chapter;
use crate::cover::Cover;

verus! {

/// The chapters and covers of one volume number; `None` gathers those that
/// belong to no volume. `path` is the volume's directory.
#[derive(Debug)]
pub struct Volume {
    pub covers: Vec<Cover>,
    pub volume: Option<u32>,
    pub chapters: Vec<Chapter>,
    pub path: Option<String>,
}

impl Volume {
    pub fn new(
        covers: Vec<Cover>,
        volume: Option<u32>,
        chapters: Vec<Chapter>,
        path: Option<String>,
    ) -> (r: Self)
        ensures
            r == (Volume { covers, volume, chapters, path }),
    {
        Volume { covers, volume, chapters, path }
    }
}

} // verus!
