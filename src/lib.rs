//! Fetching, filtering and laying out a manga catalog: numeric range filters,
//! offset/limit pagination, grouping chapters into volumes, and the file names
//! under which pages and covers are written.

mod catalog;
mod chapter;
mod cover;
mod int_range;
mod manga;
mod naming;
mod paging;
mod records;
mod text;
mod volume;

pub use catalog::{CatalogBuilder, ChapterFilter};
pub use chapter::Chapter;
pub use cover::Cover;
pub use int_range::{IntRange, RangeError};
pub use manga::{find_anilist_match, Manga, MangaData};
pub use naming::{
    chapter_dir, cover_file_name, join_path, page_file_name, substitute_title_in, volume_dir,
};
pub use paging::{PageError, Pager, CHAPTER_PAGE_LIMIT, COVER_PAGE_LIMIT};
pub use records::{CatalogError, ChapterRecord, CoverRecord};
pub use text::{decimal_string, parse_decimal_number, parse_u32};
pub use volume::Volume;
