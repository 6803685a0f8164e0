//! Building a title's catalog: chapter entries are read, filtered and
//! grouped by volume, covers are matched to the volumes, and the volumes come
//! out ordered by number with the chapters of no volume last.

use vstd::prelude::*;

use crate::chapter::{chapter_numbers, chapter_path, Chapter};
use crate::cover::{cover_volume, Cover};
use crate::int_range::IntRange;
use crate::naming::{join, join_path, opt_view, some_text_is, volume_dir, volume_dir_name};
use crate::records::{CatalogError, ChapterRecord, CoverRecord};
use crate::volume::Volume;

verus! {

/// Which chapters to keep: those whose number lies in `chapters` and whose
/// volume number lies in `volumes`, for each filter that is set.
#[derive(PartialEq, Eq, Structural, Clone, Copy, Debug)]
pub struct ChapterFilter {
    pub chapters: Option<IntRange>,
    pub volumes: Option<IntRange>,
}

impl ChapterFilter {
    /// Whether a chapter with this number and volume is kept. A volume
    /// filter never keeps a chapter of no volume.
    pub open spec fn admits(self, chapter: u32, volume: Option<u32>) -> bool {
        &&& match self.chapters {
            Some(cr) => cr.holds(chapter),
            None => true,
        }
        &&& match self.volumes {
            Some(vr) => match volume {
                Some(v) => vr.holds(v),
                None => false,
            },
            None => true,
        }
    }

    pub fn new(chapters: Option<IntRange>, volumes: Option<IntRange>) -> (r: Self)
        ensures
            r == (ChapterFilter { chapters, volumes }),
    {
        ChapterFilter { chapters, volumes }
    }

    /// Checks whether a chapter with this number and volume is kept.
    pub fn keeps(&self, chapter: u32, volume: Option<u32>) -> (r: bool)
        ensures
            r == self.admits(chapter, volume),
    {
        let by_chapter = match &self.chapters {
            Some(cr) => cr.contains(&chapter),
            None => true,
        };
        let by_volume = match &self.volumes {
            Some(vr) => match volume {
                Some(v) => vr.contains(&v),
                None => false,
            },
            None => true,
        };
        by_chapter && by_volume
    }
}

/// With both filters set, a chapter is kept exactly when each filter alone
/// would keep it.
pub proof fn law_filter_conjunction(
    chapters: IntRange,
    volumes: IntRange,
    chapter: u32,
    volume: Option<u32>,
)
    ensures
        (ChapterFilter { chapters: Some(chapters), volumes: Some(volumes) }).admits(chapter, volume)
            == ((ChapterFilter { chapters: Some(chapters), volumes: None }).admits(chapter, volume)
            && (ChapterFilter { chapters: None, volumes: Some(volumes) }).admits(chapter, volume)),
{
}

/// The order of volumes: by number, and the chapters of no volume last.
pub open spec fn volume_before(a: Option<u32>, b: Option<u32>) -> bool {
    match (a, b) {
        (Some(x), Some(y)) => x < y,
        (Some(_), None) => true,
        (None, _) => false,
    }
}

/// The chapters of `chapters` with volume number `volume`, in their order.
pub open spec fn in_volume(chapters: Seq<Chapter>, volume: Option<u32>) -> Seq<Chapter>
    decreases chapters.len(),
{
    if chapters.len() == 0 {
        Seq::empty()
    } else {
        let rest = in_volume(chapters.drop_last(), volume);
        if chapters.last().volume == volume {
            rest.push(chapters.last())
        } else {
            rest
        }
    }
}

/// The covers of `covers` with volume number `volume`, in their order.
pub open spec fn covers_in(covers: Seq<Cover>, volume: Option<u32>) -> Seq<Cover>
    decreases covers.len(),
{
    if covers.len() == 0 {
        Seq::empty()
    } else {
        let rest = covers_in(covers.drop_last(), volume);
        if covers.last().volume == volume {
            rest.push(covers.last())
        } else {
            rest
        }
    }
}

/// The directory of a volume under `root`.
pub open spec fn volume_path(root: Seq<char>, volume: Option<u32>) -> Seq<char> {
    join(root, volume_dir_name(volume))
}

/// `v` is the volume of its number in a catalog of `chapters` and `covers`
/// under `root`: it holds all of that number's chapters (at least one) and
/// covers, in order, and has the volume's directory as its path.
pub open spec fn is_volume_of(
    v: Volume,
    chapters: Seq<Chapter>,
    covers: Seq<Cover>,
    root: Seq<char>,
) -> bool {
    &&& v.chapters@ == in_volume(chapters, v.volume)
    &&& v.chapters@.len() > 0
    &&& v.covers@ == covers_in(covers, v.volume)
    &&& some_text_is(v.path, volume_path(root, v.volume))
}

/// `vols` is the catalog of `chapters` and `covers` under `root`: one volume
/// for each volume number among the chapters, in volume order.
pub open spec fn is_catalog(
    vols: Seq<Volume>,
    chapters: Seq<Chapter>,
    covers: Seq<Cover>,
    root: Seq<char>,
) -> bool {
    &&& forall|i: int, j: int|
        0 <= i < j < vols.len() ==> volume_before(#[trigger] vols[i].volume, #[trigger] vols[j].volume)
    &&& forall|i: int| 0 <= i < vols.len() ==> is_volume_of(#[trigger] vols[i], chapters, covers, root)
    &&& forall|k: int|
        0 <= k < chapters.len() ==> exists|i: int|
            0 <= i < vols.len() && #[trigger] vols[i].volume == #[trigger] chapters[k].volume
}

/// `c` is what a kept chapter entry `record` becomes under `root`.
pub open spec fn is_entry_of(c: Chapter, record: ChapterRecord, root: Seq<char>) -> bool {
    match chapter_numbers(record) {
        Ok((n, sub, volume)) => {
            &&& c.chapter == n
            &&& c.sub_chapter == sub
            &&& c.volume == volume
            &&& c.id == record.id
            &&& c.pages == record.pages
            &&& c.title == record.title
            &&& some_text_is(c.path, chapter_path(root, volume, n, sub, opt_view(record.title)))
        },
        Err(_) => false,
    }
}

/// `c` is what cover entry `record` becomes under `root`.
pub open spec fn is_cover_of(c: Cover, record: CoverRecord, root: Seq<char>) -> bool {
    match cover_volume(record) {
        Ok((volume, sub_volume)) => {
            &&& c.id == record.id
            &&& c.volume == volume
            &&& c.sub_volume == sub_volume
            &&& some_text_is(c.path, volume_path(root, volume))
        },
        Err(_) => false,
    }
}

proof fn lemma_in_volume_push(s: Seq<Chapter>, c: Chapter, k: Option<u32>)
    ensures
        in_volume(s.push(c), k) == if c.volume == k {
            in_volume(s, k).push(c)
        } else {
            in_volume(s, k)
        },
{
    assert(s.push(c).drop_last() =~= s);
}

proof fn lemma_covers_in_push(s: Seq<Cover>, c: Cover, k: Option<u32>)
    ensures
        covers_in(s.push(c), k) == if c.volume == k {
            covers_in(s, k).push(c)
        } else {
            covers_in(s, k)
        },
{
    assert(s.push(c).drop_last() =~= s);
}

proof fn lemma_in_volume_absent(s: Seq<Chapter>, k: Option<u32>)
    requires
        forall|j: int| 0 <= j < s.len() ==> (#[trigger] s[j]).volume != k,
    ensures
        in_volume(s, k) == Seq::<Chapter>::empty(),
    decreases s.len(),
{
    if s.len() > 0 {
        let p = s.drop_last();
        assert forall|j: int| 0 <= j < p.len() implies (#[trigger] p[j]).volume != k by {
            assert(p[j] == s[j]);
        }
        lemma_in_volume_absent(p, k);
    }
}

/// Every chapter of `s` has pages.
pub open spec fn all_have_pages(s: Seq<Chapter>) -> bool {
    forall|k: int| 0 <= k < s.len() ==> (#[trigger] s[k]).pages > 0
}

proof fn lemma_in_volume_pages(s: Seq<Chapter>, k: Option<u32>)
    requires
        all_have_pages(s),
    ensures
        all_have_pages(in_volume(s, k)),
    decreases s.len(),
{
    if s.len() > 0 {
        let p = s.drop_last();
        assert forall|j: int| 0 <= j < p.len() implies (#[trigger] p[j]).pages > 0 by {
            assert(p[j] == s[j]);
        }
        lemma_in_volume_pages(p, k);
    }
}

/// In the catalog of chapters that all have pages, every volume holds at
/// least one chapter, and every chapter it holds has pages: a chapter
/// without pages lies in no volume, and a volume of only such chapters does
/// not appear.
pub proof fn law_catalog_chapters_have_pages(
    vols: Seq<Volume>,
    chapters: Seq<Chapter>,
    covers: Seq<Cover>,
    root: Seq<char>,
)
    requires
        is_catalog(vols, chapters, covers, root),
        all_have_pages(chapters),
    ensures
        forall|i: int|
            0 <= i < vols.len() ==> (#[trigger] vols[i]).chapters@.len() > 0 && all_have_pages(
                vols[i].chapters@,
            ),
{
    assert forall|i: int| 0 <= i < vols.len() implies (#[trigger] vols[i]).chapters@.len() > 0
        && all_have_pages(vols[i].chapters@) by {
        assert(is_volume_of(vols[i], chapters, covers, root));
        lemma_in_volume_pages(chapters, vols[i].volume);
    }
}

/// The first index of `vols` whose volume does not come before `key`.
fn position(vols: &Vec<Volume>, key: Option<u32>) -> (r: usize)
    ensures
        r <= vols@.len(),
        forall|j: int| 0 <= j < r ==> volume_before(#[trigger] vols@[j].volume, key),
        r < vols@.len() ==> !volume_before(vols@[r as int].volume, key),
{
    let mut i: usize = 0;
    while i < vols.len()
        invariant
            i <= vols@.len(),
            forall|j: int| 0 <= j < i ==> volume_before(#[trigger] vols@[j].volume, key),
        decreases vols@.len() - i,
    {
        let before = match (vols[i].volume, key) {
            (Some(x), Some(y)) => x < y,
            (Some(_), None) => true,
            (None, _) => false,
        };
        if !before {
            return i;
        }
        i = i + 1;
    }
    i
}

/// Gathers the chapters and covers of a title into its catalog.
pub struct CatalogBuilder {
    root: String,
    filter: ChapterFilter,
    volumes: Vec<Volume>,
    covers: Vec<Cover>,
    kept: Ghost<Seq<Chapter>>,
}

impl CatalogBuilder {
    /// The directory that the catalog is laid out under.
    pub closed spec fn root(&self) -> Seq<char> {
        self.root@
    }

    pub closed spec fn filter(&self) -> ChapterFilter {
        self.filter
    }

    /// The chapters kept so far, in the order their entries came.
    pub closed spec fn kept(&self) -> Seq<Chapter> {
        self.kept@
    }

    /// The covers taken in so far, in the order their entries came.
    pub closed spec fn covers(&self) -> Seq<Cover> {
        self.covers@
    }

    pub closed spec fn wf(&self) -> bool {
        &&& is_catalog(self.volumes@, self.kept@, Seq::empty(), self.root@)
        &&& all_have_pages(self.kept@)
    }

    /// An empty catalog under `root` that keeps what `filter` admits.
    pub fn new(root: String, filter: ChapterFilter) -> (r: Self)
        ensures
            r.wf(),
            r.root() == root@,
            r.filter() == filter,
            r.kept() == Seq::<Chapter>::empty(),
            r.covers() == Seq::<Cover>::empty(),
    {
        CatalogBuilder {
            root,
            filter,
            volumes: Vec::new(),
            covers: Vec::new(),
            kept: Ghost(Seq::empty()),
        }
    }

    /// Takes in one chapter entry. An entry whose numbers cannot be read is
    /// an error; one with no pages, or that the filter does not admit, is
    /// passed over; any other is kept, with its directory as its path.
    pub fn add_chapter(&mut self, record: ChapterRecord) -> (r: Result<(), CatalogError>)
        requires
            old(self).wf(),
        ensures
            final(self).wf(),
            final(self).root() == old(self).root(),
            final(self).filter() == old(self).filter(),
            final(self).covers() == old(self).covers(),
            match chapter_numbers(record) {
                Err(e) => r == Err::<(), CatalogError>(e) && final(self).kept() == old(self).kept(),
                Ok((n, sub, volume)) => r is Ok && if record.pages == 0 || !old(
                    self,
                ).filter().admits(n, volume) {
                    final(self).kept() == old(self).kept()
                } else {
                    &&& final(self).kept().len() == old(self).kept().len() + 1
                    &&& final(self).kept().drop_last() == old(self).kept()
                    &&& is_entry_of(final(self).kept().last(), record, old(self).root())
                },
            },
    {
        let mut chapter = match Chapter::from_record(record) {
            Ok(c) => c,
            Err(e) => {
                return Err(e);
            },
        };
        if chapter.pages == 0 || !self.filter.keeps(chapter.chapter, chapter.volume) {
            return Ok(());
        }
        let path = chapter.path_under(self.root.as_str());
        chapter.path = Some(path);
        let key = chapter.volume;
        let ghost c = chapter;
        let ghost old_vols = self.volumes@;
        let ghost old_kept = self.kept@;
        let ghost new_kept = old_kept.push(c);
        let ghost root = self.root@;
        assert(new_kept.drop_last() =~= old_kept);
        assert forall|k: int| 0 <= k < new_kept.len() implies (#[trigger] new_kept[k]).pages > 0 by {
            if k < old_kept.len() {
                assert(new_kept[k] == old_kept[k]);
            }
        }
        let i = position(&self.volumes, key);
        if i < self.volumes.len() && self.volumes[i].volume == key {
            self.volumes[i].chapters.push(chapter);
            self.kept = Ghost(new_kept);
            proof {
                let vols = self.volumes@;
                assert forall|j: int| 0 <= j < vols.len() implies is_volume_of(
                    #[trigger] vols[j],
                    new_kept,
                    Seq::empty(),
                    root,
                ) by {
                    lemma_in_volume_push(old_kept, c, vols[j].volume);
                    assert(is_volume_of(old_vols[j], old_kept, Seq::empty(), root));
                    if j != i {
                        assert(vols[j] == old_vols[j]);
                        if vols[j].volume == key {
                            if j < i {
                                assert(volume_before(old_vols[j].volume, old_vols[i as int].volume));
                            } else {
                                assert(volume_before(old_vols[i as int].volume, old_vols[j].volume));
                            }
                        }
                    }
                }
                assert forall|k: int| 0 <= k < new_kept.len() implies exists|w: int|
                    0 <= w < vols.len() && #[trigger] vols[w].volume == #[trigger] new_kept[k].volume by {
                    if k < old_kept.len() {
                        assert(new_kept[k] == old_kept[k]);
                        let w = choose|w: int|
                            0 <= w < old_vols.len() && #[trigger] old_vols[w].volume
                                == #[trigger] old_kept[k].volume;
                        assert(vols[w].volume == old_vols[w].volume);
                    } else {
                        assert(vols[i as int].volume == new_kept[k].volume);
                    }
                }
                assert forall|a: int, b: int| 0 <= a < b < vols.len() implies volume_before(
                    #[trigger] vols[a].volume,
                    #[trigger] vols[b].volume,
                ) by {
                    assert(vols[a].volume == old_vols[a].volume);
                    assert(vols[b].volume == old_vols[b].volume);
                }
            }
        } else {
            let dir = volume_dir(key);
            let vol_path = join_path(self.root.as_str(), dir.as_str());
            let mut chapters = Vec::new();
            chapters.push(chapter);
            let vol = Volume { covers: Vec::new(), volume: key, chapters, path: Some(vol_path) };
            self.volumes.insert(i, vol);
            self.kept = Ghost(new_kept);
            proof {
                let vols = self.volumes@;
                assert forall|j: int| 0 <= j < old_kept.len() implies (#[trigger] old_kept[j]).volume
                    != key by {
                    let w = choose|w: int|
                        0 <= w < old_vols.len() && #[trigger] old_vols[w].volume
                            == #[trigger] old_kept[j].volume;
                    if w < i {
                        assert(volume_before(old_vols[w].volume, key));
                    } else if w > i {
                        assert(volume_before(old_vols[i as int].volume, old_vols[w].volume));
                    }
                }
                lemma_in_volume_absent(old_kept, key);
                assert forall|j: int| 0 <= j < vols.len() implies is_volume_of(
                    #[trigger] vols[j],
                    new_kept,
                    Seq::empty(),
                    root,
                ) by {
                    lemma_in_volume_push(old_kept, c, vols[j].volume);
                    if j < i {
                        assert(vols[j] == old_vols[j]);
                        assert(is_volume_of(old_vols[j], old_kept, Seq::empty(), root));
                    } else if j > i {
                        assert(vols[j] == old_vols[j - 1]);
                        assert(is_volume_of(old_vols[j - 1], old_kept, Seq::empty(), root));
                    } else {
                        assert(vols[j].chapters@ =~= Seq::<Chapter>::empty().push(c));
                    }
                }
                assert forall|k: int| 0 <= k < new_kept.len() implies exists|w: int|
                    0 <= w < vols.len() && #[trigger] vols[w].volume == #[trigger] new_kept[k].volume by {
                    if k < old_kept.len() {
                        assert(new_kept[k] == old_kept[k]);
                        let w = choose|w: int|
                            0 <= w < old_vols.len() && #[trigger] old_vols[w].volume
                                == #[trigger] old_kept[k].volume;
                        if w < i {
                            assert(vols[w].volume == old_vols[w].volume);
                        } else {
                            assert(vols[w + 1].volume == old_vols[w].volume);
                        }
                    } else {
                        assert(vols[i as int].volume == new_kept[k].volume);
                    }
                }
                assert forall|a: int, b: int| 0 <= a < b < vols.len() implies volume_before(
                    #[trigger] vols[a].volume,
                    #[trigger] vols[b].volume,
                ) by {
                    if a < i && b < i {
                        assert(vols[a] == old_vols[a] && vols[b] == old_vols[b]);
                    } else if a < i && b == i {
                        assert(vols[a] == old_vols[a]);
                    } else if a < i {
                        assert(vols[a] == old_vols[a] && vols[b] == old_vols[b - 1]);
                    } else if a == i {
                        assert(vols[b] == old_vols[b - 1]);
                        if b - 1 > i {
                            assert(volume_before(old_vols[i as int].volume, old_vols[b - 1].volume));
                        }
                    } else {
                        assert(vols[a] == old_vols[a - 1] && vols[b] == old_vols[b - 1]);
                    }
                }
            }
        }
        Ok(())
    }

    /// Takes in one cover entry, with its volume's directory as its path. An
    /// entry whose volume cannot be read is an error.
    pub fn add_cover(&mut self, record: CoverRecord) -> (r: Result<(), CatalogError>)
        requires
            old(self).wf(),
        ensures
            final(self).wf(),
            final(self).root() == old(self).root(),
            final(self).filter() == old(self).filter(),
            final(self).kept() == old(self).kept(),
            match cover_volume(record) {
                Err(e) => r == Err::<(), CatalogError>(e) && final(self).covers()
                    == old(self).covers(),
                Ok(_) => {
                    &&& r is Ok
                    &&& final(self).covers().len() == old(self).covers().len() + 1
                    &&& final(self).covers().drop_last() == old(self).covers()
                    &&& is_cover_of(final(self).covers().last(), record, old(self).root())
                },
            },
    {
        let mut cover = match Cover::from_record(record) {
            Ok(c) => c,
            Err(e) => {
                return Err(e);
            },
        };
        let dir = volume_dir(cover.volume);
        let path = join_path(self.root.as_str(), dir.as_str());
        cover.path = Some(path);
        self.covers.push(cover);
        assert(self.covers@.drop_last() =~= old(self).covers@);
        Ok(())
    }

    /// The catalog: the volumes of the kept chapters in volume order, each
    /// with its chapters and the covers of its number.
    pub fn finish(self) -> (r: Vec<Volume>)
        requires
            self.wf(),
        ensures
            is_catalog(r@, self.kept(), self.covers(), self.root()),
            all_have_pages(self.kept()),
            forall|i: int|
                0 <= i < r@.len() ==> (#[trigger] r@[i]).chapters@.len() > 0 && all_have_pages(
                    r@[i].chapters@,
                ),
    {
        let ghost all = self.covers@;
        let ghost kept = self.kept@;
        let ghost root = self.root@;
        let mut volumes = self.volumes;
        let mut pending = self.covers;
        let ghost mut m: int = 0;
        assert(all.take(0) =~= Seq::<Cover>::empty());
        assert(all.skip(0) =~= all);
        while pending.len() > 0
            invariant
                0 <= m <= all.len(),
                pending@ == all.skip(m),
                is_catalog(volumes@, kept, all.take(m), root),
            decreases pending@.len(),
        {
            let ghost old_vols = volumes@;
            let cover = pending.remove(0);
            let key = cover.volume;
            assert(cover == all[m]);
            assert(all.take(m + 1) =~= all.take(m).push(cover));
            assert(pending@ =~= all.skip(m + 1));
            let i = position(&volumes, key);
            let found = i < volumes.len() && volumes[i].volume == key;
            if found {
                volumes[i].covers.push(cover);
            }
            proof {
                let vols = volumes@;
                assert forall|j: int| 0 <= j < vols.len() implies is_volume_of(
                    #[trigger] vols[j],
                    kept,
                    all.take(m + 1),
                    root,
                ) by {
                    lemma_covers_in_push(all.take(m), cover, vols[j].volume);
                    assert(is_volume_of(old_vols[j], kept, all.take(m), root));
                    if !(found && j == i) {
                        assert(vols[j] == old_vols[j]);
                        if vols[j].volume == key {
                            if j < i {
                                assert(volume_before(old_vols[j].volume, key));
                            } else if j > i {
                                assert(volume_before(old_vols[i as int].volume, old_vols[j].volume));
                            }
                        }
                    }
                }
                assert forall|k: int| 0 <= k < kept.len() implies exists|w: int|
                    0 <= w < vols.len() && #[trigger] vols[w].volume == #[trigger] kept[k].volume by {
                    let w = choose|w: int|
                        0 <= w < old_vols.len() && #[trigger] old_vols[w].volume
                            == #[trigger] kept[k].volume;
                    assert(vols[w].volume == old_vols[w].volume);
                }
                assert forall|a: int, b: int| 0 <= a < b < vols.len() implies volume_before(
                    #[trigger] vols[a].volume,
                    #[trigger] vols[b].volume,
                ) by {
                    assert(vols[a].volume == old_vols[a].volume);
                    assert(vols[b].volume == old_vols[b].volume);
                }
                m = m + 1;
            }
        }
        assert(all.take(m) =~= all);
        proof {
            law_catalog_chapters_have_pages(volumes@, kept, all, root);
        }
        volumes
    }
}

} // verus!
