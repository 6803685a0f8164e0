//! Chapters: what a chapter entry says once its numbers are read.

use vstd::prelude::*;

use crate::naming::{chapter_dir, chapter_dir_name, join, join_path, opt_view, volume_dir, volume_dir_name};
use crate::records::{CatalogError, ChapterRecord};
use crate::text::{decimal_number_of, parse_decimal_number};

verus! {

/// A chapter of a title. `chapter` and `sub_chapter` are the whole part of
/// the chapter number and the first digit of its fraction (`10.5` is chapter
/// 10, part 5). `path` is where its pages go, once that is known.
#[derive(Debug)]
pub struct Chapter {
    pub chapter: u32,
    pub sub_chapter: Option<u32>,
    pub id: uuid::Uuid,
    pub pages: u32,
    pub path: Option<String>,
    pub title: Option<String>,
    pub volume: Option<u32>,
}

/// The directory of a chapter under `root`: `root/Vol. v/Ch. n[.s][ - title]`.
pub open spec fn chapter_path(
    root: Seq<char>,
    volume: Option<u32>,
    chapter: u32,
    sub: Option<u32>,
    title: Option<Seq<char>>,
) -> Seq<char> {
    join(join(root, volume_dir_name(volume)), chapter_dir_name(chapter, sub, title))
}

/// What reading a chapter entry gives: the error, or the chapter number,
/// its fraction digit and the volume number.
pub open spec fn chapter_numbers(r: ChapterRecord) -> Result<
    (u32, Option<u32>, Option<u32>),
    CatalogError,
> {
    match r.chapter {
        None => Err(CatalogError::MissingChapterNumber(r.id)),
        Some(text) => match decimal_number_of(text@) {
            None => Err(CatalogError::InvalidChapterNumber(r.id)),
            Some((n, sub)) => match r.volume {
                None => Ok((n, sub, None)),
                Some(v) => match decimal_number_of(v@) {
                    None => Err(CatalogError::InvalidVolumeNumber(r.id)),
                    Some((vn, _)) => Ok((n, sub, Some(vn))),
                },
            },
        },
    }
}

impl Chapter {
    pub fn new(
        chapter: u32,
        id: uuid::Uuid,
        pages: u32,
        path: Option<String>,
        sub_chapter: Option<u32>,
        title: Option<String>,
        volume: Option<u32>,
    ) -> (r: Self)
        ensures
            r == (Chapter { chapter, sub_chapter, id, pages, path, title, volume }),
    {
        Chapter { chapter, sub_chapter, id, pages, path, title, volume }
    }

    /// Reads a chapter entry: its chapter number (required, a decimal
    /// number) and its volume number (optional, a decimal number of which
    /// the whole part is kept). The chapter has no path yet.
    pub fn from_record(record: ChapterRecord) -> (r: Result<Chapter, CatalogError>)
        ensures
            match chapter_numbers(record) {
                Err(e) => r == Err::<Chapter, CatalogError>(e),
                Ok((n, sub, volume)) => r == Ok::<Chapter, CatalogError>(
                    (Chapter {
                        chapter: n,
                        sub_chapter: sub,
                        id: record.id,
                        pages: record.pages,
                        path: None,
                        title: record.title,
                        volume,
                    }),
                ),
            },
    {
        let number = match &record.chapter {
            None => {
                return Err(CatalogError::MissingChapterNumber(record.id));
            },
            Some(text) => match parse_decimal_number(text.as_str()) {
                None => {
                    return Err(CatalogError::InvalidChapterNumber(record.id));
                },
                Some(n) => n,
            },
        };
        let volume = match &record.volume {
            None => None,
            Some(text) => match parse_decimal_number(text.as_str()) {
                None => {
                    return Err(CatalogError::InvalidVolumeNumber(record.id));
                },
                Some((v, _)) => Some(v),
            },
        };
        Ok(
            Chapter {
                chapter: number.0,
                sub_chapter: number.1,
                id: record.id,
                pages: record.pages,
                path: None,
                title: record.title,
                volume,
            },
        )
    }

    /// The chapter's directory under `root`.
    pub fn path_under(&self, root: &str) -> (r: String)
        ensures
            r@ == chapter_path(
                root@,
                self.volume,
                self.chapter,
                self.sub_chapter,
                opt_view(self.title),
            ),
    {
        let vol = volume_dir(self.volume);
        let dir = join_path(root, vol.as_str());
        let ch = chapter_dir(self.chapter, self.sub_chapter, &self.title);
        join_path(dir.as_str(), ch.as_str())
    }
}

} // verus!
