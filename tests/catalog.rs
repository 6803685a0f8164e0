use mangadl::{
    chapter_dir, cover_file_name, find_anilist_match, join_path, page_file_name,
    parse_decimal_number, parse_u32, substitute_title_in, volume_dir, CatalogBuilder,
    CatalogError, Chapter, ChapterFilter, ChapterRecord, Cover, CoverRecord, IntRange, PageError, Pager,
    CHAPTER_PAGE_LIMIT, COVER_PAGE_LIMIT,
};
use uuid::Uuid;

fn record(n: u128, chapter: &str, volume: Option<&str>, title: Option<&str>, pages: u32) -> ChapterRecord {
    ChapterRecord {
        id: Uuid::from_u128(n),
        title: title.map(|t| t.to_string()),
        volume: volume.map(|v| v.to_string()),
        chapter: Some(chapter.to_string()),
        pages,
    }
}

/// Runs a pager against a listing of `total` items whose replies report the
/// page asked for; gives the offsets asked for.
fn offsets_requested(limit: u32, total: u32) -> Vec<u32> {
    let mut pager = Pager::new(limit);
    let mut asked = Vec::new();
    while !pager.done {
        asked.push(pager.offset);
        pager.advance(pager.offset, pager.limit, total).unwrap();
    }
    asked
}

#[test]
fn pagination_stops_after_last_page() {
    assert_eq!(offsets_requested(500, 1234), vec![0, 500, 1000]);
}

#[test]
fn pagination_of_empty_listing_asks_once() {
    assert_eq!(offsets_requested(CHAPTER_PAGE_LIMIT, 0), vec![0]);
}

#[test]
fn pagination_at_exact_multiple() {
    assert_eq!(offsets_requested(COVER_PAGE_LIMIT, 20), vec![0, 10, 20]);
    assert_eq!(offsets_requested(10, 19), vec![0, 10]);
}

#[test]
fn pagination_uses_reply_to_decide() {
    let mut pager = Pager::new(10);
    pager.advance(0, 10, 15).unwrap();
    assert_eq!((pager.offset, pager.done), (10, false));
    // The reply's own offset and limit decide whether more is to come.
    pager.advance(0, 20, 15).unwrap();
    assert_eq!((pager.offset, pager.done), (10, true));
    pager.advance(0, 0, 100).unwrap();
    assert!(pager.done);
}

#[test]
fn pagination_offset_overflow() {
    let mut pager = Pager::new(u32::MAX);
    pager.advance(0, 1, 10).unwrap();
    assert_eq!(pager.offset, u32::MAX);
    assert_eq!(pager.advance(0, 1, 10), Err(PageError::OffsetOverflow));
    assert_eq!(pager.offset, u32::MAX);
    assert!(!pager.done);
}

#[test]
fn filter_is_a_conjunction() {
    let chapters = Some(IntRange::new_range(5, 10));
    let kept = ChapterFilter::new(chapters, Some(IntRange::new_inclusive_range(1, 3)));
    assert!(kept.keeps(7, Some(3)));
    let dropped = ChapterFilter::new(chapters, Some(IntRange::new_range(4, 10)));
    assert!(!dropped.keeps(7, Some(3)));
}

#[test]
fn filter_policies() {
    let none = ChapterFilter::new(None, None);
    assert!(none.keeps(0, None));
    let by_chapter = ChapterFilter::new(Some(IntRange::new_range(5, 10)), None);
    assert!(by_chapter.keeps(5, None));
    assert!(!by_chapter.keeps(10, Some(1)));
    let by_volume = ChapterFilter::new(None, Some(IntRange::new(None, None, false)));
    assert!(by_volume.keeps(1, Some(0)));
    assert!(!by_volume.keeps(1, None));
}

#[test]
fn chapter_numbers_are_read() {
    assert_eq!(parse_decimal_number("10"), Some((10, None)));
    assert_eq!(parse_decimal_number("10.5"), Some((10, Some(5))));
    assert_eq!(parse_decimal_number("10.25"), Some((10, Some(2))));
    assert_eq!(parse_decimal_number("10.05"), Some((10, Some(0))));
    assert_eq!(parse_decimal_number("10.0"), Some((10, None)));
    assert_eq!(parse_decimal_number("1.9"), Some((1, Some(9))));
    assert_eq!(parse_decimal_number(".5"), Some((0, Some(5))));
    assert_eq!(parse_decimal_number("3."), Some((3, None)));
    assert_eq!(parse_decimal_number("+2"), Some((2, None)));
    assert_eq!(parse_decimal_number(""), None);
    assert_eq!(parse_decimal_number("."), None);
    assert_eq!(parse_decimal_number("-1"), None);
    assert_eq!(parse_decimal_number("1.2.3"), None);
    assert_eq!(parse_decimal_number("x"), None);
    assert_eq!(parse_decimal_number("4294967296"), None);
    assert_eq!(parse_u32("4294967295"), Some(u32::MAX));
    assert_eq!(parse_u32("1.5"), None);
}

#[test]
fn chapter_entry_errors() {
    let missing = ChapterRecord {
        id: Uuid::from_u128(7),
        title: None,
        volume: None,
        chapter: None,
        pages: 3,
    };
    assert!(matches!(
        Chapter::from_record(missing),
        Err(CatalogError::MissingChapterNumber(id)) if id == Uuid::from_u128(7)
    ));
    assert!(matches!(
        Chapter::from_record(record(8, "ten", None, None, 3)),
        Err(CatalogError::InvalidChapterNumber(id)) if id == Uuid::from_u128(8)
    ));
    assert!(matches!(
        Chapter::from_record(record(9, "10", Some("one"), None, 3)),
        Err(CatalogError::InvalidVolumeNumber(id)) if id == Uuid::from_u128(9)
    ));
    let fractional = Chapter::from_record(record(11, "4", Some("2.5"), None, 3)).unwrap();
    assert_eq!(fractional.volume, Some(2));
    let c = Chapter::from_record(record(10, "12.5", Some("3"), Some("T"), 20)).unwrap();
    assert_eq!((c.chapter, c.sub_chapter, c.volume, c.pages), (12, Some(5), Some(3), 20));
    assert_eq!(c.title.as_deref(), Some("T"));
    assert!(c.path.is_none());
}

#[test]
fn directory_names() {
    assert_eq!(volume_dir(Some(3)), "Vol. 3");
    assert_eq!(volume_dir(None), "Vol. None");
    assert_eq!(chapter_dir(7, None, &None), "Ch. 7");
    assert_eq!(chapter_dir(7, Some(5), &None), "Ch. 7.5");
    assert_eq!(chapter_dir(7, None, &Some("Title".to_string())), "Ch. 7 - Title");
    assert_eq!(chapter_dir(7, Some(5), &Some("Title".to_string())), "Ch. 7.5 - Title");
    assert_eq!(join_path("out", "Vol. 1"), "out/Vol. 1");
    assert_eq!(join_path("out/", "Vol. 1"), "out/Vol. 1");
    assert_eq!(join_path("", "Vol. 1"), "Vol. 1");
}

#[test]
fn file_names() {
    assert_eq!(page_file_name(1, 25, "x1-abc.png"), "01.png");
    assert_eq!(page_file_name(7, 9, "a.jpg"), "7.jpg");
    assert_eq!(page_file_name(3, 100, "noext"), "003");
    assert_eq!(page_file_name(123, 5, "a.b.webp"), "123.webp");
    assert_eq!(page_file_name(0, 0, ".hidden"), "0");
    assert_eq!(page_file_name(2, 10, "dir.x/file"), "02");
    assert_eq!(page_file_name(2, 10, "file."), "02");
    assert_eq!(cover_file_name(0, "abc.jpg"), "cover0.jpg");
    assert_eq!(cover_file_name(12, "abc"), "cover12");
}

#[test]
fn title_placeholder_is_replaced() {
    assert_eq!(substitute_title_in("F:/Manga/{title}/", "Yamada"), "F:/Manga/Yamada/");
    assert_eq!(substitute_title_in("{title}-{title}", "A"), "A-A");
    assert_eq!(substitute_title_in("{titl}", "A"), "{titl}");
    assert_eq!(substitute_title_in("plain", "A"), "plain");
}

#[test]
fn anilist_match_picks_first_equal_link() {
    let links = vec![None, Some("12".to_string()), Some("109501".to_string()), Some("109501".to_string())];
    assert_eq!(find_anilist_match(&links, 109501), Some(2));
    assert_eq!(find_anilist_match(&links, 1), None);
    assert_eq!(find_anilist_match(&Vec::new(), 1), None);
}

/// A feed of chapter entries served `limit` at a time.
fn serve(all: &mut Vec<Option<ChapterRecord>>, offset: u32, limit: u32) -> (Vec<ChapterRecord>, u32, u32, u32) {
    let total = all.len() as u32;
    let end = (offset + limit).min(total);
    let page = (offset..end).map(|i| all[i as usize].take().unwrap()).collect();
    (page, offset, limit, total)
}

#[test]
fn catalog_from_three_pages() {
    let mut feed: Vec<Option<ChapterRecord>> = vec![
        Some(record(1, "1", Some("1"), Some("Start"), 10)),
        Some(record(2, "2", Some("1"), None, 12)),
        Some(record(3, "3", Some("2"), None, 0)),
        Some(record(4, "4", None, Some("Extra"), 5)),
        Some(record(5, "2.5", Some("1"), None, 8)),
    ];
    let mut builder = CatalogBuilder::new("out/Title".to_string(), ChapterFilter::new(None, None));
    let mut pager = Pager::new(2);
    let mut pages = 0;
    while !pager.done {
        let (page, offset, limit, total) = serve(&mut feed, pager.offset, pager.limit);
        pages += 1;
        for r in page {
            builder.add_chapter(r).unwrap();
        }
        pager.advance(offset, limit, total).unwrap();
    }
    assert_eq!(pages, 3);
    builder.add_cover(CoverRecord { id: Uuid::from_u128(20), volume: Some("1".to_string()) }).unwrap();
    builder.add_cover(CoverRecord { id: Uuid::from_u128(21), volume: Some("2".to_string()) }).unwrap();
    builder.add_cover(CoverRecord { id: Uuid::from_u128(22), volume: None }).unwrap();
    builder.add_cover(CoverRecord { id: Uuid::from_u128(23), volume: Some("1.5".to_string()) }).unwrap();
    let volumes = builder.finish();

    assert_eq!(volumes.len(), 2);
    assert_eq!(volumes[0].volume, Some(1));
    assert_eq!(volumes[1].volume, None);
    assert_eq!(volumes[0].path.as_deref(), Some("out/Title/Vol. 1"));
    assert_eq!(volumes[1].path.as_deref(), Some("out/Title/Vol. None"));

    let first: Vec<_> = volumes[0].chapters.iter().map(|c| c.path.clone().unwrap()).collect();
    assert_eq!(
        first,
        vec![
            "out/Title/Vol. 1/Ch. 1 - Start",
            "out/Title/Vol. 1/Ch. 2",
            "out/Title/Vol. 1/Ch. 2.5",
        ]
    );
    assert_eq!(
        volumes[1].chapters[0].path.as_deref(),
        Some("out/Title/Vol. None/Ch. 4 - Extra")
    );

    let covers: Vec<_> = volumes[0].covers.iter().map(|c| c.id).collect();
    assert_eq!(covers, vec![Uuid::from_u128(20), Uuid::from_u128(23)]);
    assert_eq!(volumes[0].covers[1].sub_volume, Some(5));
    assert_eq!(volumes[0].covers[0].path.as_deref(), Some("out/Title/Vol. 1"));
    assert_eq!(volumes[1].covers.len(), 1);
    assert_eq!(volumes[1].covers[0].id, Uuid::from_u128(22));
}

#[test]
fn catalog_orders_volumes_and_filters() {
    let filter = ChapterFilter::new(Some(IntRange::new_range(5, 10)), None);
    let mut builder = CatalogBuilder::new("root/".to_string(), filter);
    for r in [
        record(1, "7", Some("3"), None, 4),
        record(2, "4", Some("1"), None, 4),
        record(3, "9", None, None, 4),
        record(4, "5", Some("2"), None, 4),
        record(5, "6", Some("3"), None, 4),
        record(6, "10", Some("0"), None, 4),
    ] {
        builder.add_chapter(r).unwrap();
    }
    let volumes = builder.finish();
    let keys: Vec<_> = volumes.iter().map(|v| v.volume).collect();
    assert_eq!(keys, vec![Some(2), Some(3), None]);
    let third: Vec<_> = volumes[1].chapters.iter().map(|c| c.chapter).collect();
    assert_eq!(third, vec![7, 6]);
    assert_eq!(volumes[0].chapters[0].path.as_deref(), Some("root/Vol. 2/Ch. 5"));
}

#[test]
fn bad_entry_stops_the_build() {
    let mut builder = CatalogBuilder::new("r".to_string(), ChapterFilter::new(None, None));
    assert!(builder.add_chapter(record(1, "1", Some("1"), None, 4)).is_ok());
    assert!(matches!(
        builder.add_chapter(record(2, "x", Some("1"), None, 4)),
        Err(CatalogError::InvalidChapterNumber(_))
    ));
    let volumes = builder.finish();
    assert_eq!(volumes.len(), 1);
    assert_eq!(volumes[0].chapters.len(), 1);
}

#[test]
fn cover_with_unreadable_volume_is_an_error() {
    let bad = CoverRecord { id: Uuid::from_u128(30), volume: Some("abc".to_string()) };
    assert!(matches!(
        Cover::from_record(bad),
        Err(CatalogError::InvalidVolumeNumber(id)) if id == Uuid::from_u128(30)
    ));
    let mut builder = CatalogBuilder::new("r".to_string(), ChapterFilter::new(None, None));
    builder.add_chapter(record(1, "1", None, None, 4)).unwrap();
    let bad = CoverRecord { id: Uuid::from_u128(31), volume: Some("v2".to_string()) };
    assert!(matches!(
        builder.add_cover(bad),
        Err(CatalogError::InvalidVolumeNumber(_))
    ));
    builder.add_cover(CoverRecord { id: Uuid::from_u128(32), volume: None }).unwrap();
    let volumes = builder.finish();
    assert_eq!(volumes[0].covers.len(), 1);
    assert_eq!(volumes[0].covers[0].id, Uuid::from_u128(32));
}

#[test]
fn zero_page_chapters_lie_in_no_volume() {
    let mut builder = CatalogBuilder::new("r".to_string(), ChapterFilter::new(None, None));
    builder.add_chapter(record(1, "1", Some("1"), None, 0)).unwrap();
    builder.add_chapter(record(2, "2", Some("2"), None, 6)).unwrap();
    builder.add_chapter(record(3, "3", Some("2"), None, 0)).unwrap();
    let volumes = builder.finish();
    assert_eq!(volumes.len(), 1);
    assert_eq!(volumes[0].volume, Some(2));
    assert_eq!(volumes[0].chapters.len(), 1);
    assert!(volumes.iter().all(|v| v.chapters.iter().all(|c| c.pages > 0)));
}
