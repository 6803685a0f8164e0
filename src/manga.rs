//! A title as a whole: its metadata and its catalog.

use vstd::prelude::*;

use crate::naming::some_text_is;
use crate::text::{decimal, decimal_string};
use crate::volume::Volume;

verus! {

/// What is kept of a title's metadata.
#[derive(Debug)]
pub struct MangaData {
    pub alt_titles: Vec<String>,
    pub authors: Vec<String>,
    /// The English title.
    pub title: String,
}

impl MangaData {
    pub fn new(alt_titles: Vec<String>, authors: Vec<String>, title: String) -> (r: Self)
        ensures
            r == (MangaData { alt_titles, authors, title }),
    {
        MangaData { alt_titles, authors, title }
    }
}

/// A title ready to be written out: its volumes, in order, under `path`.
#[derive(Debug)]
pub struct Manga {
    pub id: uuid::Uuid,
    pub metadata: MangaData,
    pub volumes: Vec<Volume>,
    pub path: String,
}

/// Picks the search result whose AniList link is `anilist_id`: the first
/// one, given the AniList links of the results in order.
pub fn find_anilist_match(links: &Vec<Option<String>>, anilist_id: u32) -> (r: Option<usize>)
    ensures
        match r {
            Some(i) => {
                &&& i < links@.len()
                &&& some_text_is(links@[i as int], decimal(anilist_id as nat))
                &&& forall|j: int|
                    0 <= j < i ==> !some_text_is(#[trigger] links@[j], decimal(anilist_id as nat))
            },
            None => forall|j: int|
                0 <= j < links@.len() ==> !some_text_is(#[trigger] links@[j], decimal(anilist_id as nat)),
        },
{
    let wanted = decimal_string(anilist_id as u64);
    let mut i: usize = 0;
    while i < links.len()
        invariant
            i <= links@.len(),
            wanted@ == decimal(anilist_id as nat),
            forall|j: int| 0 <= j < i ==> !some_text_is(#[trigger] links@[j], decimal(anilist_id as nat)),
        decreases links@.len() - i,
    {
        let hit = match &links[i] {
            Some(link) => *link == wanted,
            None => false,
        };
        if hit {
            return Some(i);
        }
        i = i + 1;
    }
    None
}

} // verus!
