//! Listing entries as the remote service hands them over, before their
//! numbers are read.

use vstd::prelude::*;

verus! {

/// Identifiers of titles, chapters and covers are `uuid::Uuid` values, which
/// this library only carries along.
#[verifier::external_type_specification]
#[verifier::external_body]
pub struct ExUuid(uuid::Uuid);

/// A chapter entry of a feed page.
#[derive(Debug)]
pub struct ChapterRecord {
    pub id: uuid::Uuid,
    pub title: Option<String>,
    /// The volume number as text, when the chapter belongs to one.
    pub volume: Option<String>,
    /// The chapter number as text, possibly with a fraction (`10.5`).
    pub chapter: Option<String>,
    pub pages: u32,
}

/// A cover entry of a cover listing page.
#[derive(Debug)]
pub struct CoverRecord {
    pub id: uuid::Uuid,
    /// The volume number as text, possibly with a fraction.
    pub volume: Option<String>,
}

/// Why a listing entry could not be read; each carries the entry's id.
#[derive(Clone, Copy, Debug)]
pub enum CatalogError {
    /// The chapter entry has no chapter number.
    MissingChapterNumber(uuid::Uuid),
    /// The chapter number is not a decimal number.
    InvalidChapterNumber(uuid::Uuid),
    /// The volume number is not a decimal number.
    InvalidVolumeNumber(uuid::Uuid),
}

} // verus!
