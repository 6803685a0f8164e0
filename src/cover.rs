//! Cover images of volumes.

use vstd::prelude::*;

use crate::records::{CatalogError, CoverRecord};
use crate::text::{decimal_number_of, parse_decimal_number};

verus! {

/// A cover image. `volume` and `sub_volume` are the whole part of its volume
/// number and the first digit of the fraction. `path` is the directory it is
/// written to, once that is known.
#[derive(Debug)]
pub struct Cover {
    pub id: uuid::Uuid,
    pub volume: Option<u32>,
    pub sub_volume: Option<u32>,
    pub path: Option<String>,
}

/// The volume number and fraction digit of a cover entry: neither when it
/// has no volume text, an error when the text is not a decimal number.
pub open spec fn cover_volume(record: CoverRecord) -> Result<(Option<u32>, Option<u32>), CatalogError> {
    match record.volume {
        Some(t) => match decimal_number_of(t@) {
            Some((v, sub)) => Ok((Some(v), sub)),
            None => Err(CatalogError::InvalidVolumeNumber(record.id)),
        },
        None => Ok((None, None)),
    }
}

impl Cover {
    pub fn new(
        id: uuid::Uuid,
        volume: Option<u32>,
        sub_volume: Option<u32>,
        path: Option<String>,
    ) -> (r: Self)
        ensures
            r == (Cover { id, volume, sub_volume, path }),
    {
        Cover { id, volume, sub_volume, path }
    }

    /// Reads a cover entry. The cover has no path yet.
    pub fn from_record(record: CoverRecord) -> (r: Result<Cover, CatalogError>)
        ensures
            match cover_volume(record) {
                Err(e) => r == Err::<Cover, CatalogError>(e),
                Ok((volume, sub_volume)) => r == Ok::<Cover, CatalogError>(
                    (Cover { id: record.id, volume, sub_volume, path: None }),
                ),
            },
    {
        let (volume, sub_volume) = match &record.volume {
            Some(t) => match parse_decimal_number(t.as_str()) {
                Some((v, sub)) => (Some(v), sub),
                None => {
                    return Err(CatalogError::InvalidVolumeNumber(record.id));
                },
            },
            None => (None, None),
        };
        Ok(Cover { id: record.id, volume, sub_volume, path: None })
    }
}

} // verus!
