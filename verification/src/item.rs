//! The hierarchical item store: a tree of folders and media files with
//! unique paths and a content-hash dedup key.
use vstd::prelude::*;

use crate::item_tag::{ItemTag, LinkTable};
use crate::text::str_eq;
use crate::StoreError;

verus! {

/// What kind of entry an item is. `VideoShort` is a video whose file is
/// smaller than the short-video threshold.
#[derive(Clone, Copy, Debug, PartialEq, Eq, Structural)]
pub enum FileType {
    Folder,
    Image,
    Video,
    VideoShort,
    Unknown,
}

/// The longest suffix of a name that contains no dot: the extension if
/// the name has one, the whole name otherwise (as a plain split on '.'
/// would yield).
pub open spec fn dotfree_suffix(name: Seq<char>) -> Seq<char> {
    crate::text::tail_after_last(name, '.')
}

/// The image extensions the listing recognizes.
pub open spec fn is_image_ext(e: Seq<char>) -> bool {
    e == "png"@ || e == "jpeg"@ || e == "jpg"@ || e == "gif"@ || e == "webp"@ || e == "bmp"@ || e
        == "PNG"@ || e == "JPG"@ || e == "JPEG"@ || e == "GIF"@ || e == "WEBP"@ || e == "BMP"@
}

/// The video extensions the listing recognizes.
pub open spec fn is_video_ext(e: Seq<char>) -> bool {
    e == "mp4"@ || e == "mpg"@ || e == "webm"@ || e == "mkv"@ || e == "avi"@ || e == "mts"@ || e
        == "flv"@ || e == "m3u8"@ || e == "MP4"@ || e == "MPG"@ || e == "WEBM"@ || e == "MKV"@ || e
        == "AVI"@ || e == "MTS"@ || e == "FLV"@ || e == "M3U8"@
}

/// What `guess_file_type` returns for a file name.
pub open spec fn spec_guess_file_type(name: Seq<char>) -> FileType {
    let e = dotfree_suffix(name);
    if is_image_ext(e) {
        FileType::Image
    } else if is_video_ext(e) {
        FileType::Video
    } else {
        FileType::Unknown
    }
}

/// Classifies a file name by the part after its last dot.
pub fn guess_file_type(file_name: &str) -> (r: FileType)
    ensures
        r == spec_guess_file_type(file_name@),
{
    let n = file_name.unicode_len();
    let mut last_dot: Option<usize> = None;
    let mut i: usize = 0;
    while i < n
        invariant
            n == file_name@.len(),
            i <= n,
            match last_dot {
                Some(d) => d < i && file_name@[d as int] == '.' && forall|j: int|
                    d < j < i ==> file_name@[j] != '.',
                None => forall|j: int| 0 <= j < i ==> file_name@[j] != '.',
            },
        decreases n - i,
    {
        if file_name.get_char(i) == '.' {
            last_dot = Some(i);
        }
        i = i + 1;
    }
    let ext: &str = match last_dot {
        Some(d) => {
            proof {
                crate::text::lemma_tail_at(file_name@, '.', d as int);
            }
            file_name.substring_char(d + 1, n)
        },
        None => {
            proof {
                crate::text::lemma_tail_none(file_name@, '.');
            }
            file_name
        },
    };
    assert(ext@ == dotfree_suffix(file_name@));
    if str_eq(ext, "png") || str_eq(ext, "jpeg") || str_eq(ext, "jpg") || str_eq(ext, "gif")
        || str_eq(ext, "webp") || str_eq(ext, "bmp") || str_eq(ext, "PNG") || str_eq(ext, "JPG")
        || str_eq(ext, "JPEG") || str_eq(ext, "GIF") || str_eq(ext, "WEBP") || str_eq(ext, "BMP") {
        FileType::Image
    } else if str_eq(ext, "mp4") || str_eq(ext, "mpg") || str_eq(ext, "webm") || str_eq(ext, "mkv")
        || str_eq(ext, "avi") || str_eq(ext, "mts") || str_eq(ext, "flv") || str_eq(ext, "m3u8")
        || str_eq(ext, "MP4") || str_eq(ext, "MPG") || str_eq(ext, "WEBM") || str_eq(ext, "MKV")
        || str_eq(ext, "AVI") || str_eq(ext, "MTS") || str_eq(ext, "FLV") || str_eq(ext, "M3U8") {
        FileType::Video
    } else {
        FileType::Unknown
    }
}

/// One item of the collection: a folder or a media file.
pub struct Item {
    pub id: i64,
    pub name: String,
    pub path: String,
    pub file_type: FileType,
    pub created_at: i64,
    pub parent: Option<i64>,
    pub md5: String,
}

impl Item {
    /// A blank item, not yet stored.
    pub fn empty() -> (r: Item)
        ensures
            r.id == 0,
            r.name@.len() == 0,
            r.path@.len() == 0,
            r.file_type == FileType::Unknown,
            r.created_at == 0,
            r.parent is None,
            r.md5@.len() == 0,
    {
        Item {
            id: 0,
            name: String::new(),
            path: String::new(),
            file_type: FileType::Unknown,
            created_at: 0,
            parent: None,
            md5: String::new(),
        }
    }

    /// A fresh item for a discovered path, not yet stored.
    pub fn new(name: String, path: String, file_type: FileType) -> (r: Item)
        ensures
            r.id == 0,
            r.name == name,
            r.path == path,
            r.file_type == file_type,
            r.created_at == 0,
            r.parent is None,
            r.md5@.len() == 0,
    {
        Item { id: 0, name, path, file_type, created_at: 0, parent: None, md5: String::new() }
    }

    /// An exact copy. (A derived clone would tell the verifier nothing
    /// about the copied fields.)
    pub fn duplicate(&self) -> (r: Item)
        ensures
            r == *self,
    {
        Item {
            id: self.id,
            name: self.name.clone(),
            path: self.path.clone(),
            file_type: self.file_type,
            created_at: self.created_at,
            parent: self.parent,
            md5: self.md5.clone(),
        }
    }
}

/// Some row carries this id.
pub open spec fn has_item_id(items: Seq<Item>, id: i64) -> bool {
    exists|k: int| 0 <= k < items.len() && (#[trigger] items[k]).id == id
}

/// Some folder row carries this id.
pub open spec fn has_folder_id(items: Seq<Item>, id: i64) -> bool {
    exists|k: int|
        0 <= k < items.len() && (#[trigger] items[k]).id == id && items[k].file_type
            == FileType::Folder
}

/// Some row carries this path.
pub open spec fn has_path(items: Seq<Item>, p: Seq<char>) -> bool {
    exists|k: int| 0 <= k < items.len() && (#[trigger] items[k]).path@ == p
}

/// Some non-folder row carries this content hash.
pub open spec fn has_nonfolder_md5(items: Seq<Item>, m: Seq<char>) -> bool {
    exists|k: int|
        0 <= k < items.len() && (#[trigger] items[k]).file_type != FileType::Folder
            && items[k].md5@ == m
}

/// Some row (of any kind) carries this content hash.
pub open spec fn has_md5(items: Seq<Item>, m: Seq<char>) -> bool {
    exists|k: int| 0 <= k < items.len() && (#[trigger] items[k]).md5@ == m
}

/// The row carrying this id; meaningful only when `has_item_id` holds
/// and ids are distinct.
pub open spec fn item_with_id(items: Seq<Item>, id: i64) -> Item {
    items[choose|k: int| 0 <= k < items.len() && (#[trigger] items[k]).id == id]
}

/// A parent reference must name an existing folder.
pub open spec fn valid_parent(items: Seq<Item>, parent: Option<i64>) -> bool {
    match parent {
        Some(p) => has_folder_id(items, p),
        None => true,
    }
}

/// A stored row's parent names an existing folder other than itself.
pub open spec fn parent_ok(items: Seq<Item>, it: Item) -> bool {
    match it.parent {
        Some(p) => p != it.id && has_folder_id(items, p),
        None => true,
    }
}

/// No two rows share an id.
pub open spec fn distinct_item_ids(items: Seq<Item>) -> bool {
    forall|i: int, j: int|
        0 <= i < j < items.len() ==> (#[trigger] items[i]).id != (#[trigger] items[j]).id
}

/// No two rows share a path.
pub open spec fn distinct_paths(items: Seq<Item>) -> bool {
    forall|i: int, j: int|
        0 <= i < j < items.len() ==> (#[trigger] items[i]).path@ != (#[trigger] items[j]).path@
}

/// No two non-folder rows share a content hash.
pub open spec fn distinct_nonfolder_md5(items: Seq<Item>) -> bool {
    forall|i: int, j: int|
        0 <= i < j < items.len() ==> !((#[trigger] items[i]).file_type != FileType::Folder && (
        #[trigger] items[j]).file_type != FileType::Folder && items[i].md5@ == items[j].md5@)
}

/// The item store.
pub struct ItemStore {
    pub items: Vec<Item>,
    pub next_id: i64,
    pub clock: i64,
}

impl ItemStore {
    /// Store invariant: fresh ids and creation stamps stay allocatable,
    /// ids and paths are unique, non-folder rows have a unique non-empty
    /// content hash, and every parent reference names another existing
    /// folder.
    pub open spec fn wf(self) -> bool {
        &&& 0 < self.next_id
        &&& forall|k: int|
            0 <= k < self.items@.len() ==> 0 < (#[trigger] self.items@[k]).id < self.next_id
        &&& forall|k: int| 0 <= k < self.items@.len() ==> (#[trigger] self.items@[k]).created_at < self.clock
        &&& distinct_item_ids(self.items@)
        &&& distinct_paths(self.items@)
        &&& distinct_nonfolder_md5(self.items@)
        &&& forall|k: int|
            0 <= k < self.items@.len() && (#[trigger] self.items@[k]).file_type != FileType::Folder
                ==> self.items@[k].md5@.len() > 0
        &&& forall|k: int|
            0 <= k < self.items@.len() ==> parent_ok(self.items@, #[trigger] self.items@[k])
    }

    /// An empty store.
    pub fn new() -> (r: ItemStore)
        ensures
            r.items@ == Seq::<Item>::empty(),
            r.next_id == 1,
            r.clock == 1,
            r.wf(),
    {
        ItemStore { items: Vec::new(), next_id: 1, clock: 1 }
    }

    /// Looks a row up by id.
    pub fn find_by_id(&self, id: i64) -> (r: Result<Item, StoreError>)
        ensures
            match r {
                Ok(t) => self.items@.contains(t) && t.id == id,
                Err(e) => e == StoreError::NotFound && !has_item_id(self.items@, id),
            },
    {
        let mut i: usize = 0;
        while i < self.items.len()
            invariant
                i <= self.items@.len(),
                forall|j: int| 0 <= j < i ==> (#[trigger] self.items@[j]).id != id,
            decreases self.items@.len() - i,
        {
            if self.items[i].id == id {
                assert(self.items@.contains(self.items@[i as int]));
                return Ok(self.items[i].duplicate());
            }
            i = i + 1;
        }
        Err(StoreError::NotFound)
    }

    /// Looks a row up by its unique path.
    pub fn find_by_path(&self, path: &str) -> (r: Result<Item, StoreError>)
        ensures
            match r {
                Ok(t) => self.items@.contains(t) && t.path@ == path@,
                Err(e) => e == StoreError::NotFound && !has_path(self.items@, path@),
            },
    {
        let mut i: usize = 0;
        while i < self.items.len()
            invariant
                i <= self.items@.len(),
                forall|j: int| 0 <= j < i ==> (#[trigger] self.items@[j]).path@ != path@,
            decreases self.items@.len() - i,
        {
            if str_eq(self.items[i].path.as_str(), path) {
                assert(self.items@.contains(self.items@[i as int]));
                return Ok(self.items[i].duplicate());
            }
            i = i + 1;
        }
        Err(StoreError::NotFound)
    }

    /// Looks a row up by its content hash.
    pub fn find_by_md5(&self, md5: &str) -> (r: Result<Item, StoreError>)
        ensures
            match r {
                Ok(t) => self.items@.contains(t) && t.md5@ == md5@,
                Err(e) => e == StoreError::NotFound && !has_md5(self.items@, md5@),
            },
    {
        let mut i: usize = 0;
        while i < self.items.len()
            invariant
                i <= self.items@.len(),
                forall|j: int| 0 <= j < i ==> (#[trigger] self.items@[j]).md5@ != md5@,
            decreases self.items@.len() - i,
        {
            if str_eq(self.items[i].md5.as_str(), md5) {
                assert(self.items@.contains(self.items@[i as int]));
                return Ok(self.items[i].duplicate());
            }
            i = i + 1;
        }
        Err(StoreError::NotFound)
    }

    /// All rows of one file type, in store order.
    pub fn find_by_type(&self, file_type: FileType) -> (r: Vec<Item>)
        ensures
            r@ == self.items@.filter(|it: Item| it.file_type == file_type),
    {
        let mut out: Vec<Item> = Vec::new();
        let mut i: usize = 0;
        while i < self.items.len()
            invariant
                i <= self.items@.len(),
                out@ == self.items@.take(i as int).filter(|it: Item| it.file_type == file_type),
            decreases self.items@.len() - i,
        {
            proof {
                crate::seqs::lemma_take_filter_step(
                    self.items@,
                    |it: Item| it.file_type == file_type,
                    i as int,
                );
            }
            if self.items[i].file_type == file_type {
                out.push(self.items[i].duplicate());
            }
            i = i + 1;
        }
        proof {
            assert(self.items@.take(self.items@.len() as int) =~= self.items@);
        }
        out
    }

    /// The path of the first image child of an item, used as its cover.
    pub fn cover_of(&self, id: i64) -> (r: Option<String>)
        ensures
            ({
                let cs = self.items@.filter(
                    |it: Item| it.parent == Some(id) && it.file_type == FileType::Image,
                );
                match r {
                    Some(p) => cs.len() > 0 && p@ == cs[0].path@,
                    None => cs.len() == 0,
                }
            }),
    {
        let ghost pred = |it: Item| it.parent == Some(id) && it.file_type == FileType::Image;
        let mut i: usize = 0;
        while i < self.items.len()
            invariant
                i <= self.items@.len(),
                pred == (|it: Item| it.parent == Some(id) && it.file_type == FileType::Image),
                self.items@.take(i as int).filter(pred) == Seq::<Item>::empty(),
            decreases self.items@.len() - i,
        {
            proof {
                crate::seqs::lemma_take_filter_step(self.items@, pred, i as int);
            }
            let hit = match self.items[i].parent {
                Some(p) => p == id && matches!(self.items[i].file_type, FileType::Image),
                None => false,
            };
            if hit {
                proof {
                    let cs = self.items@.filter(pred);
                    assert(pred(self.items@[i as int]));
                    let pfx = self.items@.take(i + 1).filter(pred);
                    assert(pfx == Seq::<Item>::empty().push(self.items@[i as int]));
                    assert(pfx.len() == 1);
                    assert(pfx[0] == self.items@[i as int]);
                    assert(self.items@.take(i + 1).is_prefix_of(self.items@));
                    self.items@.take(i + 1).lemma_filter_monotone(self.items@, pred);
                    assert(pfx == cs.subrange(0, 1));
                    assert(cs[0] == cs.subrange(0, 1)[0]);
                    assert(cs[0] == self.items@[i as int]);
                }
                return Some(self.items[i].path.clone());
            }
            i = i + 1;
        }
        proof {
            assert(self.items@.take(self.items@.len() as int) =~= self.items@);
        }
        None
    }

    /// Inserts a new row: the parent must be an existing folder, the
    /// path must be unused, and a non-folder row must bring a content
    /// hash that no other non-folder row carries.
    pub fn insert(&mut self, item: &Item) -> (r: Result<i64, StoreError>)
        requires
            old(self).wf(),
            old(self).next_id < i64::MAX,
            old(self).clock < i64::MAX,
        ensures
            final(self).wf(),
            match r {
                Err(e) => {
                    &&& *final(self) == *old(self)
                    &&& (e == StoreError::Validation <==> !insert_validation_ok(
                        old(self).items@,
                        *item,
                    ))
                    &&& (e == StoreError::Conflict ==> !insert_conflict_free(
                        old(self).items@,
                        *item,
                    ))
                    &&& (e == StoreError::Validation || e == StoreError::Conflict)
                },
                Ok(nid) => {
                    &&& insert_validation_ok(old(self).items@, *item)
                    &&& insert_conflict_free(old(self).items@, *item)
                    &&& nid == old(self).next_id
                    &&& final(self).items@.len() == old(self).items@.len() + 1
                    &&& final(self).items@ == old(self).items@.push(final(self).items@.last())
                    &&& final(self).items@.last().id == nid
                    &&& final(self).items@.last().name@ == item.name@
                    &&& final(self).items@.last().path@ == item.path@
                    &&& final(self).items@.last().file_type == item.file_type
                    &&& final(self).items@.last().created_at == old(self).clock
                    &&& final(self).items@.last().parent == item.parent
                    &&& final(self).items@.last().md5@ == item.md5@
                    &&& final(self).next_id == old(self).next_id + 1
                    &&& final(self).clock == old(self).clock + 1
                },
            },
    {
        // the parent must name an existing folder
        let parent_ok_now = match item.parent {
            Some(p) => {
                let mut i: usize = 0;
                let mut seen = false;
                while i < self.items.len()
                    invariant
                        i <= self.items@.len(),
                        seen ==> has_folder_id(self.items@, p),
                        !seen ==> forall|j: int|
                            0 <= j < i ==> !((#[trigger] self.items@[j]).id == p
                                && self.items@[j].file_type == FileType::Folder),
                    decreases self.items@.len() - i,
                {
                    if self.items[i].id == p && matches!(self.items[i].file_type, FileType::Folder)
                    {
                        assert(self.items@[i as int].id == p);
                        seen = true;
                    }
                    i = i + 1;
                }
                seen
            },
            None => true,
        };
        if !parent_ok_now {
            return Err(StoreError::Validation);
        }
        let is_folder = matches!(item.file_type, FileType::Folder);
        if !is_folder && item.md5.as_str().is_empty() {
            return Err(StoreError::Validation);
        }
        // unique path
        let mut i: usize = 0;
        while i < self.items.len()
            invariant
                i <= self.items@.len(),
                *self == *old(self),
                self.wf(),
                insert_validation_ok(self.items@, *item),
                forall|j: int| 0 <= j < i ==> (#[trigger] self.items@[j]).path@ != item.path@,
            decreases self.items@.len() - i,
        {
            if str_eq(self.items[i].path.as_str(), item.path.as_str()) {
                assert(self.items@[i as int].path@ == item.path@);
                return Err(StoreError::Conflict);
            }
            i = i + 1;
        }
        // unique content hash among non-folder rows
        if !is_folder {
            let mut i2: usize = 0;
            while i2 < self.items.len()
                invariant
                    i2 <= self.items@.len(),
                    *self == *old(self),
                    self.wf(),
                    insert_validation_ok(self.items@, *item),
                    item.file_type != FileType::Folder,
                    forall|j: int|
                        0 <= j < i2 ==> !((#[trigger] self.items@[j]).file_type != FileType::Folder
                            && self.items@[j].md5@ == item.md5@),
                decreases self.items@.len() - i2,
            {
                if !matches!(self.items[i2].file_type, FileType::Folder) && str_eq(
                    self.items[i2].md5.as_str(),
                    item.md5.as_str(),
                ) {
                    assert(self.items@[i2 as int].md5@ == item.md5@);
                    return Err(StoreError::Conflict);
                }
                i2 = i2 + 1;
            }
        }
        let nid = self.next_id;
        let stored = Item {
            id: nid,
            name: item.name.clone(),
            path: item.path.clone(),
            file_type: item.file_type,
            created_at: self.clock,
            parent: item.parent,
            md5: item.md5.clone(),
        };
        let ghost prev = self.items@;
        self.items.push(stored);
        self.next_id = nid + 1;
        self.clock = self.clock + 1;
        proof {
            assert(self.items@ == prev.push(self.items@.last()));
            assert(self.items@[prev.len() as int] == self.items@.last());
            assert forall|i2: int, j2: int| 0 <= i2 < j2 < self.items@.len() implies (
            #[trigger] self.items@[i2]).id != (#[trigger] self.items@[j2]).id by {
                if j2 == prev.len() {
                    assert(prev[i2].id < old(self).next_id);
                }
            };
            assert forall|i2: int, j2: int| 0 <= i2 < j2 < self.items@.len() implies (
            #[trigger] self.items@[i2]).path@ != (#[trigger] self.items@[j2]).path@ by {
                if j2 == prev.len() {
                    assert(prev[i2].path@ != item.path@);
                }
            };
            assert forall|i2: int, j2: int| 0 <= i2 < j2 < self.items@.len() implies !((
            #[trigger] self.items@[i2]).file_type != FileType::Folder && (
            #[trigger] self.items@[j2]).file_type != FileType::Folder && self.items@[i2].md5@
                == self.items@[j2].md5@) by {
                if j2 == prev.len() && prev[i2].file_type != FileType::Folder
                    && self.items@[j2].file_type != FileType::Folder {
                    assert(!(prev[i2].file_type != FileType::Folder && prev[i2].md5@
                        == item.md5@));
                }
            };
            assert forall|k: int| 0 <= k < self.items@.len() implies parent_ok(
                self.items@,
                #[trigger] self.items@[k],
            ) by {
                if k < prev.len() {
                    assert(parent_ok(prev, prev[k]));
                    match prev[k].parent {
                        Some(p) => {
                            let w = choose|w: int|
                                0 <= w < prev.len() && (#[trigger] prev[w]).id == p
                                    && prev[w].file_type == FileType::Folder;
                            assert(self.items@[w].id == p && self.items@[w].file_type
                                == FileType::Folder);
                        },
                        None => {},
                    }
                } else {
                    match stored.parent {
                        Some(p) => {
                            let w = choose|w: int|
                                0 <= w < prev.len() && (#[trigger] prev[w]).id == p
                                    && prev[w].file_type == FileType::Folder;
                            assert(self.items@[w].id == p && self.items@[w].file_type
                                == FileType::Folder);
                            assert(prev[w].id < nid);
                        },
                        None => {},
                    }
                }
            };
        }
        Ok(nid)
    }
}

/// Validation conditions of `ItemStore::insert`: the parent names an
/// existing folder, and a non-folder row brings a content hash.
pub open spec fn insert_validation_ok(items: Seq<Item>, item: Item) -> bool {
    valid_parent(items, item.parent) && (item.file_type == FileType::Folder || item.md5@.len() > 0)
}

/// Conflict conditions of `ItemStore::insert`: the path is unused, and
/// for a non-folder row the content hash is unused among non-folders.
pub open spec fn insert_conflict_free(items: Seq<Item>, item: Item) -> bool {
    !has_path(items, item.path@) && (item.file_type == FileType::Folder || !has_nonfolder_md5(
        items,
        item.md5@,
    ))
}

/// How `apply_move` rewrites the moved row: new name, path and parent,
/// everything else kept.
pub open spec fn moved_row(after: Item, before: Item, plan: MovePlan) -> bool {
    &&& after.id == plan.id
    &&& after.name@ == plan.new_name@
    &&& after.path@ == plan.new_path@
    &&& after.parent == Some(plan.new_parent)
    &&& after.file_type == before.file_type
    &&& after.created_at == before.created_at
    &&& after.md5@ == before.md5@
}

/// With distinct ids, a member row is the one its id selects.
pub proof fn lemma_item_pins(items: Seq<Item>, it: Item)
    requires
        distinct_item_ids(items),
        items.contains(it),
    ensures
        has_item_id(items, it.id),
        item_with_id(items, it.id) == it,
{
    let i = choose|i: int| 0 <= i < items.len() && items[i] == it;
    assert(items[i].id == it.id);
    let k = choose|k: int| 0 <= k < items.len() && (#[trigger] items[k]).id == it.id;
    if k != i {
        assert(items[k].id != items[i].id);
    }
}

/// The parent chain starting at `from` hits `target` within `fuel`
/// steps.
pub open spec fn reaches(items: Seq<Item>, from: i64, target: i64, fuel: nat) -> bool
    decreases fuel,
{
    if from == target {
        true
    } else if fuel == 0 {
        false
    } else if has_item_id(items, from) {
        match item_with_id(items, from).parent {
            Some(p) => reaches(items, p, target, (fuel - 1) as nat),
            None => false,
        }
    } else {
        false
    }
}

/// The part of an item's path below its parent folder: what a move
/// carries over to the destination.
pub open spec fn move_leaf(items: Seq<Item>, it: Item) -> Seq<char> {
    match it.parent {
        Some(op) => crate::text::spec_path_suffix(it.path@, item_with_id(items, op).path@),
        None => it.path@,
    }
}

/// A validated move, ready to be applied once the caller has moved the
/// backing file. Computed by `plan_move`; applied by `apply_move` only
/// after the filesystem move succeeded, so a failed file move leaves
/// the stored row untouched.
pub struct MovePlan {
    pub id: i64,
    pub new_parent: i64,
    pub new_name: String,
    pub old_path: String,
    pub new_path: String,
}

impl ItemStore {
    /// Validates a move and computes the destination path: the item and
    /// the destination folder must exist, the destination must be a
    /// folder outside the item's own subtree, and the new path must be
    /// free. Nothing is changed yet.
    pub fn plan_move(&self, id: i64, new_parent: i64, new_name: &str) -> (r: Result<
        MovePlan,
        StoreError,
    >)
        requires
            self.wf(),
        ensures
            match r {
                Ok(plan) => {
                    &&& has_item_id(self.items@, id)
                    &&& has_folder_id(self.items@, new_parent)
                    &&& !reaches(self.items@, new_parent, id, self.items@.len() as nat)
                    &&& plan.id == id
                    &&& plan.new_parent == new_parent
                    &&& plan.new_name@ == new_name@
                    &&& plan.old_path@ == item_with_id(self.items@, id).path@
                    &&& plan.new_path@ == crate::text::spec_join_path(
                        item_with_id(self.items@, new_parent).path@,
                        move_leaf(self.items@, item_with_id(self.items@, id)),
                    )
                    &&& forall|k: int|
                        0 <= k < self.items@.len() && (#[trigger] self.items@[k]).id != id
                            ==> self.items@[k].path@ != plan.new_path@
                },
                Err(e) => {
                    &&& (e == StoreError::NotFound <==> (!has_item_id(self.items@, id)
                        || !has_item_id(self.items@, new_parent)))
                    &&& (e == StoreError::Validation <==> (has_item_id(self.items@, id)
                        && has_item_id(self.items@, new_parent) && (!has_folder_id(
                        self.items@,
                        new_parent,
                    ) || reaches(self.items@, new_parent, id, self.items@.len() as nat))))
                    &&& (e == StoreError::Conflict ==> exists|k: int|
                        0 <= k < self.items@.len() && (#[trigger] self.items@[k]).id != id
                            && self.items@[k].path@ == crate::text::spec_join_path(
                            item_with_id(self.items@, new_parent).path@,
                            move_leaf(self.items@, item_with_id(self.items@, id)),
                        ))
                    &&& (e == StoreError::NotFound || e == StoreError::Validation || e
                        == StoreError::Conflict)
                },
            },
    {
        let it = match self.find_by_id(id) {
            Ok(it) => it,
            Err(_) => {
                return Err(StoreError::NotFound);
            },
        };
        proof {
            lemma_item_pins(self.items@, it);
        }
        let par = match self.find_by_id(new_parent) {
            Ok(p) => p,
            Err(_) => {
                return Err(StoreError::NotFound);
            },
        };
        proof {
            lemma_item_pins(self.items@, par);
        }
        if !matches!(par.file_type, FileType::Folder) {
            proof {
                if has_folder_id(self.items@, new_parent) {
                    let k = choose|k: int|
                        0 <= k < self.items@.len() && (#[trigger] self.items@[k]).id == new_parent
                            && self.items@[k].file_type == FileType::Folder;
                    assert(self.items@.contains(self.items@[k]));
                    lemma_item_pins(self.items@, self.items@[k]);
                }
            }
            return Err(StoreError::Validation);
        }
        proof {
            assert(has_folder_id(self.items@, new_parent)) by {
                let k = choose|k: int| 0 <= k < self.items@.len() && self.items@[k] == par;
                assert(self.items@[k].id == new_parent && self.items@[k].file_type
                    == FileType::Folder);
            }
        }
        // the destination may not lie inside the moved item's own subtree
        let ghost total = self.items@.len() as nat;
        let mut cur = new_parent;
        let mut fuel = self.items.len();
        let mut cycle = false;
        let mut walked = false;
        while !walked
            invariant
                self.wf(),
                fuel <= self.items@.len(),
                total == self.items@.len() as nat,
                !walked ==> !cycle,
                !walked ==> reaches(self.items@, new_parent, id, total) == reaches(
                    self.items@,
                    cur,
                    id,
                    fuel as nat,
                ),
                walked ==> cycle == reaches(self.items@, new_parent, id, total),
            decreases fuel, (if walked {
                0int
            } else {
                1int
            }),
        {
            if cur == id {
                cycle = true;
                walked = true;
                assert(reaches(self.items@, cur, id, fuel as nat));
            } else if fuel == 0 {
                walked = true;
                assert(!reaches(self.items@, cur, id, fuel as nat));
            } else {
                match self.find_by_id(cur) {
                    Ok(row) => {
                        proof {
                            lemma_item_pins(self.items@, row);
                            assert(item_with_id(self.items@, cur) == row);
                        }
                        match row.parent {
                            Some(p) => {
                                assert(reaches(self.items@, cur, id, fuel as nat) == reaches(
                                    self.items@,
                                    p,
                                    id,
                                    (fuel - 1) as nat,
                                ));
                                cur = p;
                                fuel = fuel - 1;
                            },
                            None => {
                                walked = true;
                                assert(!reaches(self.items@, cur, id, fuel as nat));
                            },
                        }
                    },
                    Err(_) => {
                        walked = true;
                        assert(!reaches(self.items@, cur, id, fuel as nat));
                    },
                }
            }
        }
        if cycle {
            return Err(StoreError::Validation);
        }
        assert(!reaches(self.items@, new_parent, id, total));
        // compute the destination path
        let leaf = match it.parent {
            Some(op) => {
                let oprow = match self.find_by_id(op) {
                    Ok(oprow) => oprow,
                    Err(_) => {
                        proof {
                            let k = choose|k: int|
                                0 <= k < self.items@.len() && self.items@[k] == it;
                            assert(parent_ok(self.items@, self.items@[k]));
                            let q = choose|q: int|
                                0 <= q < self.items@.len() && (#[trigger] self.items@[q]).id == op
                                    && self.items@[q].file_type == FileType::Folder;
                            assert(false);
                        }
                        Item::empty()
                    },
                };
                proof {
                    lemma_item_pins(self.items@, oprow);
                }
                crate::text::path_suffix(it.path.as_str(), oprow.path.as_str())
            },
            None => it.path.clone(),
        };
        let new_path = crate::text::join_path(par.path.as_str(), leaf.as_str());
        proof {
            assert(new_path@ == crate::text::spec_join_path(
                item_with_id(self.items@, new_parent).path@,
                move_leaf(self.items@, item_with_id(self.items@, id)),
            ));
        }
        // the destination path must be free
        let mut k: usize = 0;
        while k < self.items.len()
            invariant
                k <= self.items@.len(),
                self.wf(),
                has_item_id(self.items@, id),
                has_item_id(self.items@, new_parent),
                has_folder_id(self.items@, new_parent),
                !reaches(self.items@, new_parent, id, self.items@.len() as nat),
                new_path@ == crate::text::spec_join_path(
                    item_with_id(self.items@, new_parent).path@,
                    move_leaf(self.items@, item_with_id(self.items@, id)),
                ),
                forall|q: int|
                    0 <= q < k && (#[trigger] self.items@[q]).id != id ==> self.items@[q].path@
                        != new_path@,
            decreases self.items@.len() - k,
        {
            if self.items[k].id != id {
                if str_eq(self.items[k].path.as_str(), new_path.as_str()) {
                    assert(self.items@[k as int].path@ == new_path@);
                    return Err(StoreError::Conflict);
                }
            }
            k = k + 1;
        }
        Ok(
            MovePlan {
                id,
                new_parent,
                new_name: String::from_str(new_name),
                old_path: it.path,
                new_path,
            },
        )
    }

    /// Applies a validated move to the stored row: new name, parent and
    /// path. Meant to run after the backing file was moved; `plan_move`
    /// is where the subtree guard lives, and this only re-checks what
    /// the store invariant needs.
    pub fn apply_move(&mut self, plan: &MovePlan) -> (r: Result<(), StoreError>)
        requires
            old(self).wf(),
        ensures
            final(self).wf(),
            final(self).next_id == old(self).next_id,
            final(self).clock == old(self).clock,
            match r {
                Ok(()) => {
                    &&& has_item_id(old(self).items@, plan.id)
                    &&& has_folder_id(old(self).items@, plan.new_parent)
                    &&& plan.new_parent != plan.id
                    &&& final(self).items@.len() == old(self).items@.len()
                    &&& forall|q: int|
                        0 <= q < old(self).items@.len() && (#[trigger] old(self).items@[q]).id
                            != plan.id ==> final(self).items@[q] == old(self).items@[q]
                    &&& forall|q: int|
                        0 <= q < old(self).items@.len() && (#[trigger] old(self).items@[q]).id
                            == plan.id ==> moved_row(
                            final(self).items@[q],
                            old(self).items@[q],
                            *plan,
                        )
                },
                Err(e) => {
                    &&& *final(self) == *old(self)
                    &&& (e == StoreError::NotFound <==> !has_item_id(old(self).items@, plan.id))
                    &&& (e == StoreError::Validation ==> (!has_folder_id(
                        old(self).items@,
                        plan.new_parent,
                    ) || plan.new_parent == plan.id))
                    &&& (e == StoreError::Conflict ==> exists|k: int|
                        0 <= k < old(self).items@.len() && (#[trigger] old(self).items@[k]).id
                            != plan.id && old(self).items@[k].path@ == plan.new_path@)
                    &&& (e == StoreError::NotFound || e == StoreError::Validation || e
                        == StoreError::Conflict)
                },
            },
    {
        // locate the moved row
        let mut idx: usize = 0;
        let mut found = false;
        while idx < self.items.len() && !found
            invariant
                idx <= self.items@.len(),
                *self == *old(self),
                self.wf(),
                found ==> idx < self.items@.len() && self.items@[idx as int].id == plan.id,
                !found ==> forall|q: int| 0 <= q < idx ==> (#[trigger] self.items@[q]).id
                    != plan.id,
            decreases self.items@.len() - idx + (if found {
                0int
            } else {
                1int
            }),
        {
            if self.items[idx].id == plan.id {
                found = true;
            } else {
                idx = idx + 1;
            }
        }
        if !found {
            return Err(StoreError::NotFound);
        }
        if plan.new_parent == plan.id {
            assert(self.items@[idx as int].id == plan.id);
            return Err(StoreError::Validation);
        }
        // the destination must still be a folder
        let mut i: usize = 0;
        let mut par_ok = false;
        while i < self.items.len()
            invariant
                i <= self.items@.len(),
                *self == *old(self),
                self.wf(),
                idx < self.items@.len() && self.items@[idx as int].id == plan.id,
                par_ok ==> has_folder_id(self.items@, plan.new_parent),
                !par_ok ==> forall|q: int|
                    0 <= q < i ==> !((#[trigger] self.items@[q]).id == plan.new_parent
                        && self.items@[q].file_type == FileType::Folder),
            decreases self.items@.len() - i,
        {
            if self.items[i].id == plan.new_parent && matches!(
                self.items[i].file_type,
                FileType::Folder,
            ) {
                assert(self.items@[i as int].id == plan.new_parent);
                par_ok = true;
            }
            i = i + 1;
        }
        if !par_ok {
            return Err(StoreError::Validation);
        }
        // the destination path must still be free
        let mut k: usize = 0;
        while k < self.items.len()
            invariant
                k <= self.items@.len(),
                *self == *old(self),
                self.wf(),
                idx < self.items@.len() && self.items@[idx as int].id == plan.id,
                forall|q: int|
                    0 <= q < k && (#[trigger] self.items@[q]).id != plan.id
                        ==> self.items@[q].path@ != plan.new_path@,
            decreases self.items@.len() - k,
        {
            if self.items[k].id != plan.id {
                if str_eq(self.items[k].path.as_str(), plan.new_path.as_str()) {
                    assert(self.items@[k as int].path@ == plan.new_path@);
                    return Err(StoreError::Conflict);
                }
            }
            k = k + 1;
        }
        let ghost before = self.items@;
        let file_type = self.items[idx].file_type;
        let created_at = self.items[idx].created_at;
        let md5 = self.items[idx].md5.clone();
        self.items[idx] = Item {
            id: plan.id,
            name: plan.new_name.clone(),
            path: plan.new_path.clone(),
            file_type,
            created_at,
            parent: Some(plan.new_parent),
            md5,
        };
        proof {
            assert(self.items@ == before.update(idx as int, self.items@[idx as int]));
            assert forall|q: int|
                0 <= q < self.items@.len() && q != idx implies self.items@[q] == before[q] by {};
            assert forall|q: int| 0 <= q < before.len() && (#[trigger] before[q]).id
                == plan.id implies q == idx as int by {
                if q != idx {
                    assert(before[q].id != before[idx as int].id);
                }
            };
            assert forall|i2: int, j2: int| 0 <= i2 < j2 < self.items@.len() implies (
            #[trigger] self.items@[i2]).path@ != (#[trigger] self.items@[j2]).path@ by {
                if i2 == idx {
                    assert(before[j2].id != plan.id);
                    assert(before[j2].path@ != plan.new_path@);
                } else if j2 == idx {
                    assert(before[i2].id != plan.id);
                    assert(before[i2].path@ != plan.new_path@);
                } else {
                    assert(before[i2].path@ != before[j2].path@);
                }
            };
            assert forall|i2: int, j2: int| 0 <= i2 < j2 < self.items@.len() implies !((
            #[trigger] self.items@[i2]).file_type != FileType::Folder && (
            #[trigger] self.items@[j2]).file_type != FileType::Folder && self.items@[i2].md5@
                == self.items@[j2].md5@) by {
                assert(self.items@[i2].file_type == before[i2].file_type && self.items@[i2].md5@
                    == before[i2].md5@);
                assert(self.items@[j2].file_type == before[j2].file_type && self.items@[j2].md5@
                    == before[j2].md5@);
            };
            assert forall|q: int| 0 <= q < self.items@.len() implies parent_ok(
                self.items@,
                #[trigger] self.items@[q],
            ) by {
                assert forall|a: i64| has_folder_id(before, a) implies has_folder_id(
                    self.items@,
                    a,
                ) by {
                    let wq = choose|wq: int|
                        0 <= wq < before.len() && (#[trigger] before[wq]).id == a
                            && before[wq].file_type == FileType::Folder;
                    assert(self.items@[wq].id == a && self.items@[wq].file_type
                        == FileType::Folder);
                };
                if q == idx {
                    assert(has_folder_id(before, plan.new_parent));
                } else {
                    assert(parent_ok(before, before[q]));
                }
            };
        }
        Ok(())
    }
}

/// The row carrying this path; meaningful only when `has_path` holds
/// and paths are distinct.
pub open spec fn item_with_path(items: Seq<Item>, p: Seq<char>) -> Item {
    items[choose|k: int| 0 <= k < items.len() && (#[trigger] items[k]).path@ == p]
}

/// With distinct paths, a member row is the one its path selects.
pub proof fn lemma_path_pins(items: Seq<Item>, it: Item)
    requires
        distinct_paths(items),
        items.contains(it),
    ensures
        has_path(items, it.path@),
        item_with_path(items, it.path@) == it,
{
    let i = choose|i: int| 0 <= i < items.len() && items[i] == it;
    assert(items[i].path@ == it.path@);
    let k = choose|k: int| 0 <= k < items.len() && (#[trigger] items[k]).path@ == it.path@;
    if k != i {
        assert(items[k].path@ != items[i].path@);
    }
}

/// The file type a scanner entry gets: directories are folders, videos
/// under the short-video threshold are short videos, and everything
/// else goes by the file name's extension.
pub open spec fn spec_entry_type(name: Seq<char>, is_dir: bool, size: u64) -> FileType {
    if is_dir {
        FileType::Folder
    } else if spec_guess_file_type(name) == FileType::Video && size < 5242880 {
        FileType::VideoShort
    } else {
        spec_guess_file_type(name)
    }
}

/// The parent reference a discovered path gets: the folder stored under
/// the path's directory part, if there is one.
pub open spec fn spec_parent_ref(items: Seq<Item>, path: Seq<char>) -> Option<i64> {
    let pd = crate::text::spec_parent_dir(path);
    if pd.len() == 0 {
        None
    } else if has_path(items, pd) && item_with_path(items, pd).file_type == FileType::Folder {
        Some(item_with_path(items, pd).id)
    } else {
        None
    }
}

/// Why a folder row cannot be re-typed as a file in place: it still has
/// children, it has no content hash, or its hash is already taken by a
/// non-folder row.
pub open spec fn demotion_blocked(items: Seq<Item>, row: Item) -> bool {
    ||| exists|k: int| 0 <= k < items.len() && (#[trigger] items[k]).parent == Some(row.id)
    ||| row.md5@.len() == 0
    ||| exists|k: int|
        0 <= k < items.len() && (#[trigger] items[k]).file_type != FileType::Folder
            && items[k].md5@ == row.md5@
}

/// What one scanner entry did to the store.
#[derive(Clone, Copy, Debug, PartialEq, Eq, Structural)]
pub enum ReconcileOutcome {
    /// The path was new; a row was inserted under this id.
    Inserted(i64),
    /// The path was known but its type changed; the row was re-typed.
    TypeUpdated,
    /// The path was known with the same type; nothing was written.
    Unchanged,
    /// A new path of no recognizable type; nothing was written.
    SkippedUnknown,
    /// A new path whose content hash is already stored; the caller
    /// should discard the source file.
    DuplicateHash,
    /// The type change would orphan children or break the hash key;
    /// nothing was written.
    TypeClash,
}

/// How a type update rewrites a row: only the file type changes.
pub open spec fn retyped_row(after: Item, before: Item, ft: FileType) -> bool {
    &&& after.id == before.id
    &&& after.name@ == before.name@
    &&& after.path@ == before.path@
    &&& after.file_type == ft
    &&& after.created_at == before.created_at
    &&& after.parent == before.parent
    &&& after.md5@ == before.md5@
}

impl ItemStore {
    /// Rewrites one row's file type in place. Re-typing a folder as a
    /// file is only sound once its children are gone and its content
    /// hash can join the non-folder key space; the caller checks that.
    fn retype_in_place(&mut self, idx: usize, ft: FileType)
        requires
            old(self).wf(),
            idx < old(self).items@.len(),
            (old(self).items@[idx as int].file_type == FileType::Folder && ft
                != FileType::Folder) ==> ((forall|j: int|
                0 <= j < old(self).items@.len() ==> (#[trigger] old(self).items@[j]).parent
                    != Some(old(self).items@[idx as int].id)) && old(
                self,
            ).items@[idx as int].md5@.len() > 0 && (forall|j: int|
                0 <= j < old(self).items@.len() ==> !((#[trigger] old(self).items@[j]).file_type
                    != FileType::Folder && old(self).items@[j].md5@
                    == old(self).items@[idx as int].md5@))),
        ensures
            final(self).wf(),
            final(self).next_id == old(self).next_id,
            final(self).clock == old(self).clock,
            final(self).items@.len() == old(self).items@.len(),
            forall|q: int|
                0 <= q < old(self).items@.len() && q != idx ==> final(self).items@[q] == old(
                    self,
                ).items@[q],
            retyped_row(final(self).items@[idx as int], old(self).items@[idx as int], ft),
    {
        let ghost before = self.items@;
        let ghost ex = self.items@[idx as int];
        let id = self.items[idx].id;
        let name = self.items[idx].name.clone();
        let path = self.items[idx].path.clone();
        let created_at = self.items[idx].created_at;
        let parent = self.items[idx].parent;
        let md5 = self.items[idx].md5.clone();
        self.items[idx] = Item { id, name, path, file_type: ft, created_at, parent, md5 };
        proof {
            assert(self.items@ == before.update(idx as int, self.items@[idx as int]));
            assert(retyped_row(self.items@[idx as int], ex, ft));
            assert forall|q: int|
                0 <= q < self.items@.len() && q != idx implies self.items@[q] == before[q] by {};
            assert forall|i2: int, j2: int| 0 <= i2 < j2 < self.items@.len() implies !((
            #[trigger] self.items@[i2]).file_type != FileType::Folder && (
            #[trigger] self.items@[j2]).file_type != FileType::Folder && self.items@[i2].md5@
                == self.items@[j2].md5@) by {
                if i2 != idx && j2 != idx {
                    assert(self.items@[i2] == before[i2] && self.items@[j2] == before[j2]);
                } else {
                    let other = if i2 == idx {
                        j2
                    } else {
                        i2
                    };
                    assert(self.items@[other] == before[other]);
                    if self.items@[idx as int].file_type != FileType::Folder {
                        if ex.file_type == FileType::Folder {
                            assert(!(before[other].file_type != FileType::Folder
                                && before[other].md5@ == ex.md5@));
                        } else {
                            assert(!(before[idx as int].file_type != FileType::Folder
                                && before[other].file_type != FileType::Folder
                                && before[idx as int].md5@ == before[other].md5@));
                        }
                    }
                }
            };
            assert forall|q: int|
                0 <= q < self.items@.len() && (#[trigger] self.items@[q]).file_type
                    != FileType::Folder implies self.items@[q].md5@.len() > 0 by {
                if q != idx {
                    assert(self.items@[q] == before[q]);
                } else {
                    if ex.file_type == FileType::Folder {
                    } else {
                        assert(before[idx as int].md5@.len() > 0);
                    }
                }
            };
            assert forall|q: int| 0 <= q < self.items@.len() implies parent_ok(
                self.items@,
                #[trigger] self.items@[q],
            ) by {
                let it = self.items@[q];
                let itb = before[q];
                assert(it.parent == itb.parent && it.id == itb.id);
                assert(parent_ok(before, itb));
                match itb.parent {
                    Some(p) => {
                        let wq = choose|wq: int|
                            0 <= wq < before.len() && (#[trigger] before[wq]).id == p
                                && before[wq].file_type == FileType::Folder;
                        if wq == idx {
                            assert(p == ex.id);
                            if ft != FileType::Folder {
                                assert(before[q].parent != Some(ex.id));
                                assert(false);
                            } else {
                                assert(self.items@[idx as int].id == p
                                    && self.items@[idx as int].file_type == FileType::Folder);
                            }
                        } else {
                            assert(self.items@[wq] == before[wq]);
                            assert(self.items@[wq].id == p && self.items@[wq].file_type
                                == FileType::Folder);
                        }
                    },
                    None => {},
                }
            };
        }
    }

    /// Reconciles one discovered filesystem entry: a new path is
    /// inserted (keyed by its content hash, deduplicated, and hung
    /// under the folder stored at its directory path), a known path
    /// whose type changed is re-typed in place, and a known unchanged
    /// path is left untouched.
    #[verifier::rlimit(60)]
    pub fn reconcile_entry(
        &mut self,
        rel_path: &str,
        file_name: &str,
        is_dir: bool,
        byte_size: u64,
        data: &[u8],
    ) -> (r: ReconcileOutcome)
        requires
            old(self).wf(),
            old(self).next_id < i64::MAX,
            old(self).clock < i64::MAX,
        ensures
            final(self).wf(),
            match r {
                ReconcileOutcome::Unchanged => {
                    &&& *final(self) == *old(self)
                    &&& has_path(old(self).items@, rel_path@)
                    &&& item_with_path(old(self).items@, rel_path@).file_type == spec_entry_type(
                        file_name@,
                        is_dir,
                        byte_size,
                    )
                },
                ReconcileOutcome::TypeClash => {
                    &&& *final(self) == *old(self)
                    &&& has_path(old(self).items@, rel_path@)
                    &&& item_with_path(old(self).items@, rel_path@).file_type == FileType::Folder
                    &&& spec_entry_type(file_name@, is_dir, byte_size) != FileType::Folder
                    &&& item_with_path(old(self).items@, rel_path@).file_type != spec_entry_type(
                        file_name@,
                        is_dir,
                        byte_size,
                    )
                    &&& demotion_blocked(
                        old(self).items@,
                        item_with_path(old(self).items@, rel_path@),
                    )
                },
                ReconcileOutcome::TypeUpdated => {
                    &&& has_path(old(self).items@, rel_path@)
                    &&& item_with_path(old(self).items@, rel_path@).file_type != spec_entry_type(
                        file_name@,
                        is_dir,
                        byte_size,
                    )
                    &&& ((item_with_path(old(self).items@, rel_path@).file_type
                        == FileType::Folder && spec_entry_type(file_name@, is_dir, byte_size)
                        != FileType::Folder) ==> !demotion_blocked(
                        old(self).items@,
                        item_with_path(old(self).items@, rel_path@),
                    ))
                    &&& final(self).next_id == old(self).next_id
                    &&& final(self).clock == old(self).clock
                    &&& final(self).items@.len() == old(self).items@.len()
                    &&& forall|q: int|
                        0 <= q < old(self).items@.len() && (#[trigger] old(self).items@[q]).path@
                            != rel_path@ ==> final(self).items@[q] == old(self).items@[q]
                    &&& forall|q: int|
                        0 <= q < old(self).items@.len() && (#[trigger] old(self).items@[q]).path@
                            == rel_path@ ==> retyped_row(
                            final(self).items@[q],
                            old(self).items@[q],
                            spec_entry_type(file_name@, is_dir, byte_size),
                        )
                },
                ReconcileOutcome::SkippedUnknown => {
                    &&& *final(self) == *old(self)
                    &&& !has_path(old(self).items@, rel_path@)
                    &&& spec_entry_type(file_name@, is_dir, byte_size) == FileType::Unknown
                },
                ReconcileOutcome::Inserted(nid) => {
                    &&& !has_path(old(self).items@, rel_path@)
                    &&& spec_entry_type(file_name@, is_dir, byte_size) != FileType::Unknown
                    &&& nid == old(self).next_id
                    &&& final(self).next_id == old(self).next_id + 1
                    &&& final(self).clock == old(self).clock + 1
                    &&& final(self).items@ == old(self).items@.push(final(self).items@.last())
                    &&& final(self).items@.last().id == nid
                    &&& final(self).items@.last().name@ == file_name@
                    &&& final(self).items@.last().path@ == rel_path@
                    &&& final(self).items@.last().file_type == spec_entry_type(
                        file_name@,
                        is_dir,
                        byte_size,
                    )
                    &&& final(self).items@.last().created_at == old(self).clock
                    &&& final(self).items@.last().parent == spec_parent_ref(
                        old(self).items@,
                        rel_path@,
                    )
                    &&& final(self).items@.last().md5@ == crate::hashing::spec_content_key(
                        spec_entry_type(file_name@, is_dir, byte_size) == FileType::Folder,
                        rel_path@,
                        data@,
                    )
                },
                ReconcileOutcome::DuplicateHash => {
                    &&& *final(self) == *old(self)
                    &&& !has_path(old(self).items@, rel_path@)
                    &&& spec_entry_type(file_name@, is_dir, byte_size) != FileType::Unknown
                    &&& spec_entry_type(file_name@, is_dir, byte_size) != FileType::Folder
                    &&& has_nonfolder_md5(
                        old(self).items@,
                        crate::hashing::spec_content_key(false, rel_path@, data@),
                    )
                },
            },
    {
        let ft = if is_dir {
            FileType::Folder
        } else {
            let g = guess_file_type(file_name);
            if matches!(g, FileType::Video) && byte_size < 5242880 {
                FileType::VideoShort
            } else {
                g
            }
        };
        assert(ft == spec_entry_type(file_name@, is_dir, byte_size));
        match self.find_by_path(rel_path) {
            Ok(existing) => {
                proof {
                    lemma_path_pins(self.items@, existing);
                }
                if existing.file_type == ft {
                    return ReconcileOutcome::Unchanged;
                }
                // locate the row
                let mut idx: usize = 0;
                let mut found = false;
                while idx < self.items.len() && !found
                    invariant
                        idx <= self.items@.len(),
                        *self == *old(self),
                        self.wf(),
                        found ==> idx < self.items@.len() && self.items@[idx as int].path@
                            == rel_path@,
                        !found ==> forall|q: int|
                            0 <= q < idx ==> (#[trigger] self.items@[q]).path@ != rel_path@,
                    decreases self.items@.len() - idx + (if found {
                        0int
                    } else {
                        1int
                    }),
                {
                    if str_eq(self.items[idx].path.as_str(), rel_path) {
                        found = true;
                    } else {
                        idx = idx + 1;
                    }
                }
                if !found {
                    proof {
                        assert(false);
                    }
                }
                proof {
                    assert(self.items@.contains(self.items@[idx as int]));
                    lemma_path_pins(self.items@, self.items@[idx as int]);
                    assert(self.items@[idx as int] == existing);
                }
                if matches!(existing.file_type, FileType::Folder) && !matches!(
                    ft,
                    FileType::Folder,
                ) {
                    // re-typing a folder as a file must not orphan
                    // children or break the content-hash key
                    let mut q: usize = 0;
                    while q < self.items.len()
                        invariant
                            q <= self.items@.len(),
                            *self == *old(self),
                            self.wf(),
                            self.items@.contains(existing),
                            item_with_path(self.items@, rel_path@) == existing,
                            has_path(self.items@, rel_path@),
                            existing.file_type == FileType::Folder,
                            ft == spec_entry_type(file_name@, is_dir, byte_size),
                            ft != FileType::Folder,
                            forall|j: int|
                                0 <= j < q ==> (#[trigger] self.items@[j]).parent != Some(
                                    existing.id,
                                ),
                        decreases self.items@.len() - q,
                    {
                        let is_child = match self.items[q].parent {
                            Some(p) => p == existing.id,
                            None => false,
                        };
                        if is_child {
                            assert(self.items@[q as int].parent == Some(existing.id));
                            return ReconcileOutcome::TypeClash;
                        }
                        q = q + 1;
                    }
                    if existing.md5.as_str().is_empty() {
                        return ReconcileOutcome::TypeClash;
                    }
                    let mut q2: usize = 0;
                    while q2 < self.items.len()
                        invariant
                            q2 <= self.items@.len(),
                            *self == *old(self),
                            self.wf(),
                            self.items@.contains(existing),
                            item_with_path(self.items@, rel_path@) == existing,
                            has_path(self.items@, rel_path@),
                            existing.file_type == FileType::Folder,
                            ft == spec_entry_type(file_name@, is_dir, byte_size),
                            ft != FileType::Folder,
                            forall|j: int|
                                0 <= j < q2 ==> !((#[trigger] self.items@[j]).file_type
                                    != FileType::Folder && self.items@[j].md5@ == existing.md5@),
                        decreases self.items@.len() - q2,
                    {
                        if !matches!(self.items[q2].file_type, FileType::Folder) && str_eq(
                            self.items[q2].md5.as_str(),
                            existing.md5.as_str(),
                        ) {
                            assert(self.items@[q2 as int].md5@ == existing.md5@);
                            return ReconcileOutcome::TypeClash;
                        }
                        q2 = q2 + 1;
                    }
                }
                let ghost before = self.items@;
                self.retype_in_place(idx, ft);
                proof {
                    assert forall|q: int| 0 <= q < before.len() && (#[trigger] before[q]).path@
                        == rel_path@ implies q == idx as int by {
                        if q != idx {
                            assert(before[q].path@ != before[idx as int].path@);
                        }
                    };
                }
                ReconcileOutcome::TypeUpdated
            },
            Err(_) => {
                if matches!(ft, FileType::Unknown) {
                    return ReconcileOutcome::SkippedUnknown;
                }
                let md5 = crate::hashing::content_key(matches!(ft, FileType::Folder), rel_path, data);
                let pd = crate::text::parent_dir(rel_path);
                let parent: Option<i64> = if pd.as_str().is_empty() {
                    None
                } else {
                    match self.find_by_path(pd.as_str()) {
                        Ok(prow) => {
                            proof {
                                lemma_path_pins(self.items@, prow);
                            }
                            if matches!(prow.file_type, FileType::Folder) {
                                proof {
                                    let k = choose|k: int|
                                        0 <= k < self.items@.len() && self.items@[k] == prow;
                                    assert(self.items@[k].id == prow.id && self.items@[k].file_type
                                        == FileType::Folder);
                                    assert(has_folder_id(self.items@, prow.id));
                                }
                                Some(prow.id)
                            } else {
                                None
                            }
                        },
                        Err(_) => None,
                    }
                };
                assert(parent == spec_parent_ref(self.items@, rel_path@));
                assert(valid_parent(self.items@, parent));
                let item = Item {
                    id: 0,
                    name: String::from_str(file_name),
                    path: String::from_str(rel_path),
                    file_type: ft,
                    created_at: 0,
                    parent,
                    md5,
                };
                match self.insert(&item) {
                    Ok(nid) => ReconcileOutcome::Inserted(nid),
                    Err(e) => {
                        proof {
                            assert(insert_validation_ok(old(self).items@, item));
                            assert(e == StoreError::Conflict);
                            assert(!insert_conflict_free(old(self).items@, item));
                            assert(ft != FileType::Folder);
                        }
                        ReconcileOutcome::DuplicateHash
                    },
                }
            },
        }
    }
}

/// The ids of a batch of removed rows.
pub open spec fn removed_ids(removed: Seq<Item>) -> Set<i64> {
    removed.map_values(|it: Item| it.id).to_set()
}

/// A row whose parent reference falls in a given id set.
pub open spec fn parent_in(set: Set<i64>, it: Item) -> bool {
    match it.parent {
        Some(p) => set.contains(p),
        None => false,
    }
}

/// Rows with distinct ids are distinct values.
proof fn lemma_distinct_ids_no_dup(items: Seq<Item>)
    requires
        distinct_item_ids(items),
    ensures
        items.no_duplicates(),
{
    assert forall|i: int, j: int| 0 <= i < j < items.len() implies items[i] != items[j] by {
        assert(items[i].id != items[j].id);
    };
}

/// The row-local store invariants survive any filtering of the rows.
proof fn lemma_store_filter_wf(store: ItemStore, pred: spec_fn(Item) -> bool)
    requires
        store.wf(),
    ensures
        ({
            let f = store.items@.filter(pred);
            &&& distinct_item_ids(f)
            &&& distinct_paths(f)
            &&& distinct_nonfolder_md5(f)
            &&& forall|k: int| 0 <= k < f.len() ==> 0 < (#[trigger] f[k]).id < store.next_id
            &&& forall|k: int| 0 <= k < f.len() ==> (#[trigger] f[k]).created_at < store.clock
            &&& forall|k: int|
                0 <= k < f.len() && (#[trigger] f[k]).file_type != FileType::Folder
                    ==> f[k].md5@.len() > 0
        }),
{
    broadcast use vstd::seq_lib::group_filter_ensures;

    let s = store.items@;
    let f = s.filter(pred);
    lemma_distinct_ids_no_dup(s);
    crate::seqs::lemma_filter_no_duplicates(s, pred);
    assert forall|k: int| 0 <= k < f.len() implies (0 < (#[trigger] f[k]).id < store.next_id
        && f[k].created_at < store.clock && (f[k].file_type != FileType::Folder
        ==> f[k].md5@.len() > 0)) by {
        s.lemma_filter_contains_rev(pred, f[k]);
        let w = choose|w: int| 0 <= w < s.len() && s[w] == f[k];
        assert(0 < s[w].id < store.next_id);
    };
    assert forall|i: int, j: int| 0 <= i < j < f.len() implies ((#[trigger] f[i]).id != (
    #[trigger] f[j]).id && f[i].path@ != f[j].path@ && !(f[i].file_type != FileType::Folder
        && f[j].file_type != FileType::Folder && f[i].md5@ == f[j].md5@)) by {
        assert(f[i] != f[j]);
        s.lemma_filter_contains_rev(pred, f[i]);
        s.lemma_filter_contains_rev(pred, f[j]);
        let wi = choose|w: int| 0 <= w < s.len() && s[w] == f[i];
        let wj = choose|w: int| 0 <= w < s.len() && s[w] == f[j];
        assert(wi != wj);
        if wi < wj {
            assert(s[wi].id != s[wj].id);
        } else {
            assert(s[wj].id != s[wi].id);
        }
    };
}

/// Removes an item and, depth-first, its whole subtree: every removed
/// row's links go first, children are fully gone before their parent,
/// and the returned rows tell the caller which backing files to remove.
///
/// The worklist never revisits a row, so the walk terminates on any
/// stored shape. Removing an unknown id only clears that id's links.
pub fn delete_item(store: &mut ItemStore, links: &mut LinkTable, id: i64) -> (removed: Vec<Item>)
    requires
        old(store).wf(),
        old(links).wf(),
    ensures
        final(store).wf(),
        final(links).wf(),
        final(store).next_id == old(store).next_id,
        final(store).clock == old(store).clock,
        removed@.len() == 0 <==> !has_item_id(old(store).items@, id),
        removed@.len() > 0 ==> removed@[0].id == id,
        forall|k: int|
            0 <= k < removed@.len() ==> old(store).items@.contains(#[trigger] removed@[k]),
        removed@.map_values(|it: Item| it.id).no_duplicates(),
        final(store).items@ == old(store).items@.filter(
            |it: Item| !removed_ids(removed@).contains(it.id),
        ),
        final(links).rows@ == old(links).rows@.filter(
            |row: ItemTag| row.item != id && !removed_ids(removed@).contains(row.item),
        ),
        forall|k: int|
            1 <= k < removed@.len() ==> parent_in(removed_ids(removed@), #[trigger] removed@[k]),
        forall|k: int|
            0 <= k < final(store).items@.len() ==> !parent_in(
                removed_ids(removed@),
                #[trigger] final(store).items@[k],
            ),
{
    let ghost items0 = old(store).items@;
    let ghost rows0 = old(links).rows@;
    links.delete_by_item(id);
    // locate the root row
    let mut w: usize = 0;
    let mut found = false;
    while w < store.items.len() && !found
        invariant
            w <= store.items@.len(),
            *store == *old(store),
            found ==> w < store.items@.len() && store.items@[w as int].id == id,
            !found ==> forall|q: int| 0 <= q < w ==> (#[trigger] store.items@[q]).id != id,
        decreases store.items@.len() - w + (if found {
            0int
        } else {
            1int
        }),
    {
        if store.items[w].id == id {
            found = true;
        } else {
            w = w + 1;
        }
    }
    if !found {
        let removed: Vec<Item> = Vec::new();
        proof {
            assert(removed_ids(removed@) =~= Set::<i64>::empty());
            crate::seqs::lemma_filter_all(items0, |it: Item| !removed_ids(removed@).contains(it.id));
            crate::seqs::lemma_filter_congruence(
                rows0,
                |row: ItemTag| row.item != id,
                |row: ItemTag| row.item != id && !removed_ids(removed@).contains(row.item),
            );
        }
        return removed;
    }
    let root = store.items.remove(w);
    let mut removed: Vec<Item> = Vec::new();
    removed.push(root);
    proof {
        assert(removed@ =~= seq![items0[w as int]]);
        assert(removed@.map_values(|it: Item| it.id).len() == 1);
        assert(removed@.map_values(|it: Item| it.id)[0] == id);
        assert(removed@.map_values(|it: Item| it.id) =~= seq![id]);
        assert(seq![id][0] == id);
        assert forall|x: i64| removed_ids(removed@).contains(x) implies x == id by {
            assert(seq![id].contains(x));
            let q = choose|q: int| 0 <= q < 1 && (#[trigger] seq![id][q]) == x;
        };
        assert(seq![id].contains(id));
        assert(removed_ids(removed@) =~= Set::<i64>::empty().insert(id));
        assert(items0.contains(items0[w as int]));
        lemma_distinct_ids_no_dup(items0);
        assert forall|q: int| 0 <= q < items0.len() && q != w implies !removed_ids(
            removed@,
        ).contains((#[trigger] items0[q]).id) by {
            assert(items0[q].id != items0[w as int].id);
        };
        crate::seqs::lemma_filter_remove_one(
            items0,
            |it: Item| !removed_ids(removed@).contains(it.id),
            w as int,
        );
        assert(store.items@ == items0.filter(
            |it: Item| !removed_ids(removed@).contains(it.id),
        ));
        lemma_store_filter_wf(*old(store), |it: Item| !removed_ids(removed@).contains(it.id));
        crate::seqs::lemma_filter_congruence(
            rows0,
            |row: ItemTag| row.item != id,
            |row: ItemTag| row.item != id && !removed_ids(removed@).contains(row.item),
        );
    }
    // seed the worklist with the root's children
    let ghost cur = store.items@;
    let mut pending: Vec<i64> = Vec::new();
    let mut ci: usize = 0;
    while ci < store.items.len()
        invariant
            ci <= store.items@.len(),
            store.items@ == cur,
            forall|q: int|
                0 <= q < ci && (#[trigger] cur[q]).parent == Some(id) ==> pending@.contains(
                    cur[q].id,
                ),
            forall|x: i64| #[trigger]
                pending@.contains(x) ==> exists|q: int|
                    0 <= q < ci && (#[trigger] cur[q]).id == x && cur[q].parent == Some(id),
            pending@.no_duplicates(),
            distinct_item_ids(cur),
        decreases store.items@.len() - ci,
    {
        let is_child = match store.items[ci].parent {
            Some(p) => p == id,
            None => false,
        };
        if is_child {
            let ghost prevp = pending@;
            pending.push(store.items[ci].id);
            proof {
                assert(cur[ci as int].parent == Some(id));
                assert(pending@[pending@.len() - 1] == cur[ci as int].id);
                assert forall|x: i64| prevp.contains(x) implies pending@.contains(x) by {
                    let q = choose|q: int| 0 <= q < prevp.len() && prevp[q] == x;
                    assert(pending@[q] == x);
                };
                assert forall|x: i64| pending@.contains(x) implies prevp.contains(x) || x
                    == cur[ci as int].id by {
                    let q = choose|q: int| 0 <= q < pending@.len() && pending@[q] == x;
                    if q < prevp.len() {
                        assert(prevp[q] == x);
                    }
                };
                assert forall|x: i64| #[trigger] pending@.contains(x) implies exists|q: int|
                    0 <= q < ci + 1 && (#[trigger] cur[q]).id == x && cur[q].parent == Some(
                        id,
                    ) by {
                    if prevp.contains(x) {
                    } else {
                        assert(cur[ci as int].id == x);
                    }
                };
                // a child id cannot be pending twice: ids are unique among rows
                if prevp.contains(cur[ci as int].id) {
                    let q0 = choose|q: int|
                        0 <= q < ci && (#[trigger] cur[q]).id == cur[ci as int].id && cur[q].parent
                            == Some(id);
                    assert(false);
                }
            }
        }
        ci = ci + 1;
    }
    proof {
        lemma_store_filter_wf(*old(store), |it: Item| !removed_ids(removed@).contains(it.id));
        // each pending row exists and hangs under a removed id
        assert forall|x: i64| #[trigger] pending@.contains(x) implies exists|q: int|
            0 <= q < store.items@.len() && (#[trigger] store.items@[q]).id == x && parent_in(
                removed_ids(removed@),
                store.items@[q],
            ) by {
            let q = choose|q: int|
                0 <= q < ci && (#[trigger] cur[q]).id == x && cur[q].parent == Some(id);
            assert(removed_ids(removed@).contains(id));
            assert(parent_in(removed_ids(removed@), store.items@[q]));
        };
        // rows not pending have a live parent
        assert forall|q: int|
            0 <= q < store.items@.len() implies (match (#[trigger] store.items@[q]).parent {
            Some(p) => has_item_id(store.items@, p) || pending@.contains(store.items@[q].id),
            None => true,
        }) by {
            let pred = |it: Item| !removed_ids(removed@).contains(it.id);
            items0.lemma_filter_contains_rev(pred, store.items@[q]);
            let q0 = choose|q0: int| 0 <= q0 < items0.len() && items0[q0] == store.items@[q];
            match store.items@[q].parent {
                Some(p) => {
                    assert(parent_ok(items0, items0[q0]));
                    if p == id {
                        assert(pending@.contains(store.items@[q].id));
                    } else {
                        let wp = choose|wp: int|
                            0 <= wp < items0.len() && (#[trigger] items0[wp]).id == p && items0[wp].file_type
                                == FileType::Folder;
                        assert(pred(items0[wp]));
                        assert(store.items@.contains(items0[wp]));
                        let wc = choose|wc: int|
                            0 <= wc < store.items@.len() && store.items@[wc] == items0[wp];
                        assert(store.items@[wc].id == p);
                    }
                },
                None => {},
            }
        };
    }

    // depth-first worklist: children are fully gone before their parent
    while pending.len() > 0
        invariant
            store.next_id == old(store).next_id,
            store.clock == old(store).clock,
            old(store).wf(),
            old(links).wf(),
            items0 == old(store).items@,
            rows0 == old(links).rows@,
            removed@.len() > 0,
            removed@[0].id == id,
            forall|k: int| 0 <= k < removed@.len() ==> items0.contains(#[trigger] removed@[k]),
            removed@.map_values(|it: Item| it.id).no_duplicates(),
            store.items@ == items0.filter(|it: Item| !removed_ids(removed@).contains(it.id)),
            links.rows@ == rows0.filter(
                |row: ItemTag| row.item != id && !removed_ids(removed@).contains(row.item),
            ),
            links.wf(),
            forall|k: int|
                1 <= k < removed@.len() ==> parent_in(
                    removed_ids(removed@),
                    #[trigger] removed@[k],
                ),
            pending@.no_duplicates(),
            forall|x: i64| #[trigger]
                pending@.contains(x) ==> exists|q: int|
                    0 <= q < store.items@.len() && (#[trigger] store.items@[q]).id == x
                        && parent_in(removed_ids(removed@), store.items@[q]),
            forall|q: int|
                0 <= q < store.items@.len() ==> (match (#[trigger] store.items@[q]).parent {
                    Some(p) => has_item_id(store.items@, p) || pending@.contains(
                        store.items@[q].id,
                    ),
                    None => true,
                }),
        decreases store.items@.len(),
    {
        let ghost pend_before = pending@;
        let ghost rem_before = removed@;
        let ghost set_before = removed_ids(removed@);
        let ghost items_before = store.items@;
        let ghost rows_before = links.rows@;
        let c = match pending.pop() {
            Some(c) => c,
            None => {
                proof {
                    assert(false);
                }
                0
            },
        };
        proof {
            assert(pend_before.contains(pend_before[pend_before.len() - 1]));
            assert(pending@ =~= pend_before.drop_last());
        }
        links.delete_by_item(c);
        // the row of c exists; find and remove it
        let mut wi: usize = 0;
        let mut foundc = false;
        while wi < store.items.len() && !foundc
            invariant
                wi <= store.items@.len(),
                store.items@ == items_before,
                foundc ==> wi < store.items@.len() && store.items@[wi as int].id == c,
                !foundc ==> forall|q: int| 0 <= q < wi ==> (#[trigger] store.items@[q]).id != c,
            decreases store.items@.len() - wi + (if foundc {
                0int
            } else {
                1int
            }),
        {
            if store.items[wi].id == c {
                foundc = true;
            } else {
                wi = wi + 1;
            }
        }
        if !foundc {
            proof {
                let q = choose|q: int|
                    0 <= q < items_before.len() && (#[trigger] items_before[q]).id == c
                        && parent_in(set_before, items_before[q]);
                assert(false);
            }
        }
        let rowc = store.items.remove(wi);
        removed.push(rowc);
        proof {
            let pred_before = |it: Item| !set_before.contains(it.id);
            lemma_store_filter_wf(*old(store), pred_before);
            // the removed-id set grows by exactly c
            assert(removed@ =~= rem_before.push(items_before[wi as int]));
            assert(removed@.map_values(|it: Item| it.id) =~= rem_before.map_values(
                |it: Item| it.id,
            ).push(c));
            let mseq0 = rem_before.map_values(|it: Item| it.id);
            assert forall|x: i64|
                removed_ids(removed@).contains(x) <==> (set_before.contains(x) || x == c) by {
                let m = mseq0.push(c);
                if m.contains(x) {
                    let q = choose|q: int| 0 <= q < m.len() && (#[trigger] m[q]) == x;
                    if q < m.len() - 1 {
                        assert(mseq0[q] == x);
                        assert(mseq0.contains(x));
                    }
                }
                if set_before.contains(x) {
                    let q = choose|q: int| 0 <= q < mseq0.len() && (#[trigger] mseq0[q]) == x;
                    assert(m[q] == x);
                    assert(m.contains(x));
                }
                if x == c {
                    assert(m[m.len() - 1] == c);
                    assert(m.contains(x));
                }
            };
            assert(removed_ids(removed@) =~= set_before.insert(c));
            // c was not removed before: its row was still present
            assert(pred_before(items_before[wi as int]));
            assert(!set_before.contains(c));
            // no duplicate removed ids
            assert(!mseq0.contains(c)) by {
                if mseq0.contains(c) {
                    assert(set_before.contains(c));
                }
            }
            assert forall|i2: int, j2: int|
                0 <= i2 < mseq0.len() && 0 <= j2 < 1 implies mseq0[i2] != seq![c][j2] by {
                assert(mseq0.contains(mseq0[i2]));
            };
            vstd::seq_lib::lemma_no_dup_in_concat(mseq0, seq![c]);
            assert(removed@.map_values(|it: Item| it.id) =~= mseq0 + seq![c]);
            assert(removed@.map_values(|it: Item| it.id).no_duplicates());
            // membership of the new removed row in the original store
            assert(items0.contains(items_before[wi as int])) by {
                items0.lemma_filter_contains_rev(pred_before, items_before[wi as int]);
            }
            // minimality: the new row hangs under a removed id
            assert(parent_in(set_before, items_before[wi as int])) by {
                let q = choose|q: int|
                    0 <= q < items_before.len() && (#[trigger] items_before[q]).id == c
                        && parent_in(set_before, items_before[q]);
                assert(q == wi as int || items_before[q].id != items_before[wi as int].id);
            }
            assert forall|k: int| 1 <= k < removed@.len() implies parent_in(
                removed_ids(removed@),
                #[trigger] removed@[k],
            ) by {
                if k < removed@.len() - 1 {
                    assert(removed@[k] == rem_before[k]);
                    assert(parent_in(set_before, rem_before[k]));
                    match rem_before[k].parent {
                        Some(p) => {
                            assert(removed_ids(removed@).contains(p));
                        },
                        None => {},
                    }
                } else {
                    assert(removed@[k] == items_before[wi as int]);
                    match items_before[wi as int].parent {
                        Some(p) => {
                            assert(set_before.contains(p));
                        },
                        None => {},
                    }
                }
            };
            // the store now equals the original filtered by the grown set
            let pred_after = |it: Item| !removed_ids(removed@).contains(it.id);
            crate::seqs::lemma_filter_absorb(items0, pred_before, pred_after);
            assert(items0.filter(pred_after) == items_before.filter(pred_after));
            crate::seqs::lemma_filter_congruence(
                items_before,
                pred_after,
                |it: Item| it.id != c,
            );
            crate::seqs::lemma_filter_remove_one(items_before, |it: Item| it.id != c, wi as int);
            assert(store.items@ == items_before.remove(wi as int));
            assert(store.items@ == items0.filter(pred_after));
            // the link table now equals the original filtered by the grown set
            let qpred_before = |row: ItemTag| row.item != id && !set_before.contains(row.item);
            let qpred_after = |row: ItemTag| row.item != id && !removed_ids(removed@).contains(
                row.item,
            );
            crate::seqs::lemma_filter_absorb(rows0, qpred_before, qpred_after);
            assert(rows0.filter(qpred_after) == rows_before.filter(qpred_after));
            assert forall|q: int|
                0 <= q < rows_before.len() implies qpred_after(#[trigger] rows_before[q]) == (
            rows_before[q].item != c) by {
                rows0.lemma_filter_pred(qpred_before, q);
            };
            crate::seqs::lemma_filter_congruence(
                rows_before,
                qpred_after,
                |row: ItemTag| row.item != c,
            );
            assert(links.rows@ == rows0.filter(qpred_after));
            lemma_store_filter_wf(*old(store), pred_after);
        }
        // push c's children onto the worklist
        let ghost cur2 = store.items@;
        let mut childvec: Vec<i64> = Vec::new();
        let mut ci2: usize = 0;
        while ci2 < store.items.len()
            invariant
                ci2 <= store.items@.len(),
                store.items@ == cur2,
                forall|q: int|
                    0 <= q < ci2 && (#[trigger] cur2[q]).parent == Some(c) ==> childvec@.contains(
                        cur2[q].id,
                    ),
                forall|x: i64| #[trigger]
                    childvec@.contains(x) ==> exists|q: int|
                        0 <= q < ci2 && (#[trigger] cur2[q]).id == x && cur2[q].parent == Some(c),
                childvec@.no_duplicates(),
                distinct_item_ids(cur2),
            decreases store.items@.len() - ci2,
        {
            let is_child = match store.items[ci2].parent {
                Some(p) => p == c,
                None => false,
            };
            if is_child {
                let ghost prevc = childvec@;
                childvec.push(store.items[ci2].id);
                proof {
                    assert(childvec@[childvec@.len() - 1] == cur2[ci2 as int].id);
                    assert forall|x: i64| prevc.contains(x) implies childvec@.contains(x) by {
                        let q = choose|q: int| 0 <= q < prevc.len() && prevc[q] == x;
                        assert(childvec@[q] == x);
                    };
                    assert forall|x: i64| childvec@.contains(x) implies prevc.contains(x) || x
                        == cur2[ci2 as int].id by {
                        let q = choose|q: int| 0 <= q < childvec@.len() && childvec@[q] == x;
                        if q < prevc.len() {
                            assert(prevc[q] == x);
                        }
                    };
                    assert(cur2[ci2 as int].parent == Some(c));
                    assert forall|x: i64| #[trigger] childvec@.contains(x) implies exists|q: int|
                        0 <= q < ci2 + 1 && (#[trigger] cur2[q]).id == x && cur2[q].parent == Some(
                            c,
                        ) by {
                        if prevc.contains(x) {
                        } else {
                            assert(cur2[ci2 as int].id == x);
                        }
                    };
                    if prevc.contains(cur2[ci2 as int].id) {
                        let q0 = choose|q: int|
                            0 <= q < ci2 && (#[trigger] cur2[q]).id == cur2[ci2 as int].id
                                && cur2[q].parent == Some(c);
                        assert(false);
                    }
                }
            }
            ci2 = ci2 + 1;
        }
        let ghost pend_mid = pending@;
        let ghost childseq = childvec@;
        pending.append(&mut childvec);
        proof {
            let setnow = removed_ids(removed@);
            let prednow = |it: Item| !setnow.contains(it.id);
            lemma_store_filter_wf(*old(store), prednow);
            assert(pending@ == pend_mid + childseq);
            // worklist entries stay distinct: surviving pending rows hang
            // under ids removed before c, children hang under c itself
            assert(!set_before.contains(c));
            assert forall|x: i64| pend_mid.contains(x) implies exists|q: int|
                0 <= q < cur2.len() && (#[trigger] cur2[q]).id == x && parent_in(
                    set_before,
                    cur2[q],
                ) by {
                let qm = choose|qm: int| 0 <= qm < pend_mid.len() && pend_mid[qm] == x;
                assert(pend_before[qm] == x);
                assert(pend_before.contains(x));
                let q = choose|q: int|
                    0 <= q < items_before.len() && (#[trigger] items_before[q]).id == x
                        && parent_in(set_before, items_before[q]);
                assert(x != c) by {
                    assert(pend_before[pend_before.len() - 1] == c);
                }
                assert(q != wi as int);
                let qn = if q < wi as int {
                    q
                } else {
                    q - 1
                };
                assert(cur2[qn] == items_before[q]);
            };
            assert forall|i2: int, j2: int| 0 <= i2 < j2 < pending@.len() implies (
            #[trigger] pending@[i2]) != (#[trigger] pending@[j2]) by {
                if i2 < pend_mid.len() && j2 >= pend_mid.len() {
                    let x = pending@[i2];
                    let y = pending@[j2];
                    assert(pend_mid[i2] == x);
                    assert(pend_mid.contains(x));
                    assert(childseq[j2 - pend_mid.len()] == y);
                    assert(childseq.contains(y));
                    if x == y {
                        // one row would hang both under an id removed before
                        // this step and under c itself; parents are unique
                        let qx = choose|q: int|
                            0 <= q < cur2.len() && (#[trigger] cur2[q]).id == x && parent_in(
                                set_before,
                                cur2[q],
                            );
                        let qy = choose|q: int|
                            0 <= q < cur2.len() && (#[trigger] cur2[q]).id == y && cur2[q].parent
                                == Some(c);
                        if qx != qy {
                            assert(cur2[qx].id != cur2[qy].id);
                        }
                        assert(parent_in(set_before, cur2[qy]));
                        assert(set_before.contains(c));
                        assert(false);
                    }
                } else if i2 >= pend_mid.len() {
                    assert(childseq[i2 - pend_mid.len()] != childseq[j2 - pend_mid.len()]);
                } else {
                    assert(pend_mid[i2] != pend_mid[j2]);
                }
            };
            // every pending id still names a surviving row under a removed id
            assert forall|x: i64| #[trigger] pending@.contains(x) implies exists|q: int|
                0 <= q < store.items@.len() && (#[trigger] store.items@[q]).id == x && parent_in(
                    removed_ids(removed@),
                    store.items@[q],
                ) by {
                let qp = choose|qp: int| 0 <= qp < pending@.len() && pending@[qp] == x;
                if qp < pend_mid.len() {
                    assert(pend_mid.contains(x));
                } else {
                    assert(childseq[qp - pend_mid.len()] == x);
                    assert(childseq.contains(x));
                    let q = choose|q: int|
                        0 <= q < cur2.len() && (#[trigger] cur2[q]).id == x && cur2[q].parent
                            == Some(c);
                    assert(setnow.contains(c));
                    assert(parent_in(setnow, cur2[q]));
                }
            };
            // rows that lost their parent in this step are now pending
            assert forall|q: int|
                0 <= q < store.items@.len() implies (match (#[trigger] store.items@[q]).parent {
                Some(p) => has_item_id(store.items@, p) || pending@.contains(store.items@[q].id),
                None => true,
            }) by {
                let it = store.items@[q];
                let qb = if q < wi as int {
                    q
                } else {
                    q + 1
                };
                assert(items_before[qb] == it);
                match it.parent {
                    Some(p) => {
                        if p == c {
                            assert(childseq.contains(it.id));
                            let qc = choose|qc: int|
                                0 <= qc < childseq.len() && childseq[qc] == it.id;
                            assert(pending@[pend_mid.len() + qc] == it.id);
                        } else {
                            assert(has_item_id(items_before, p) || pend_before.contains(
                                items_before[qb].id,
                            ));
                            if has_item_id(items_before, p) {
                                let wp = choose|wp: int|
                                    0 <= wp < items_before.len() && (
                                    #[trigger] items_before[wp]).id == p;
                                assert(wp != wi as int);
                                let wpn = if wp < wi as int {
                                    wp
                                } else {
                                    wp - 1
                                };
                                assert(store.items@[wpn] == items_before[wp]);
                                assert(has_item_id(store.items@, p));
                            } else {
                                assert(pend_before.contains(it.id));
                                let qb2 = choose|qb2: int|
                                    0 <= qb2 < pend_before.len() && pend_before[qb2] == it.id;
                                if qb2 == pend_before.len() - 1 {
                                    assert(it.id == c);
                                    assert(store.items@.contains(it));
                                    items0.lemma_filter_contains_rev(
                                        |it2: Item| !removed_ids(removed@).contains(it2.id),
                                        it,
                                    );
                                    assert(!removed_ids(removed@).contains(c));
                                    assert(false);
                                }
                                assert(pend_mid[qb2] == it.id);
                                assert(pending@[qb2] == it.id);
                            }
                        }
                    },
                    None => {},
                }
            };
        }
    }
    proof {
        // an empty worklist means no orphans: every surviving parent lives
        let setfin = removed_ids(removed@);
        let predfin = |it: Item| !setfin.contains(it.id);
        lemma_store_filter_wf(*old(store), predfin);
        assert forall|k: int| 0 <= k < store.items@.len() implies parent_ok(
            store.items@,
            #[trigger] store.items@[k],
        ) && !parent_in(setfin, store.items@[k]) by {
            let it = store.items@[k];
            items0.lemma_filter_contains_rev(predfin, it);
            let q0 = choose|q0: int| 0 <= q0 < items0.len() && items0[q0] == it;
            match it.parent {
                Some(p) => {
                    assert(has_item_id(store.items@, p));
                    let wp = choose|wp: int|
                        0 <= wp < store.items@.len() && (#[trigger] store.items@[wp]).id == p;
                    assert(predfin(store.items@[wp]));
                    assert(!setfin.contains(p));
                    // the surviving parent row is the original folder row
                    assert(parent_ok(items0, items0[q0]));
                    let wp0 = choose|wp0: int|
                        0 <= wp0 < items0.len() && (#[trigger] items0[wp0]).id == p
                            && items0[wp0].file_type == FileType::Folder;
                    assert(predfin(items0[wp0]));
                    items0.lemma_filter_contains(predfin, wp0);
                    assert(store.items@.contains(items0[wp0]));
                    let wpn = choose|wpn: int|
                        0 <= wpn < store.items@.len() && store.items@[wpn] == items0[wp0];
                    assert(store.items@[wpn].id == p && store.items@[wpn].file_type
                        == FileType::Folder);
                    assert(has_folder_id(store.items@, p));
                },
                None => {},
            }
        };
        crate::seqs::lemma_filter_no_duplicates(rows0, |row: ItemTag| row.item != id);
        crate::seqs::lemma_filter_no_duplicates(
            rows0,
            |row: ItemTag| row.item != id && !removed_ids(removed@).contains(row.item),
        );
        assert(has_item_id(items0, id)) by {
            assert(items0[w as int].id == id);
        }
    }
    removed
}

} // verus!
