//! The plain request records that the presentation layer fills in, and
//! the handlers that turn them into catalog operations.
use vstd::prelude::*;

use crate::item::{
    guess_file_type, has_folder_id, has_nonfolder_md5, has_path, insert_conflict_free,
    insert_validation_ok, item_with_id, lemma_item_pins, spec_guess_file_type, valid_parent,
    FileType, Item, ItemStore,
};
use crate::item_tag::{closure, tag_set_of, LinkTable};
use crate::tag::{
    dep_set, has_tag_id, requested_roots, update_item_tags, update_tag, TagCatalog,
};
use crate::text::{
    join_path, lemma_words_count, lower_seq, spec_join_path, split_words, words_from,
};
use crate::StoreError;

verus! {

/// A tag edit form: the tag's id, its (possibly new) name, and its
/// dependency names as one whitespace-separated string.
pub struct TagData {
    pub id: Option<i64>,
    pub name: Option<String>,
    pub deps: Option<String>,
}

/// An item edit form: the item's id, its requested tag names as one
/// whitespace-separated string, a new display name, the stored file
/// name, the destination folder id, and the upload's content hash.
pub struct PostData {
    pub id: Option<i64>,
    pub tags: Option<String>,
    pub name: Option<String>,
    pub real_name: Option<String>,
    pub parent: Option<i64>,
    pub md5: Option<String>,
}

/// A folder creation form: the folder's name and its parent folder id.
pub struct FolderForm {
    pub name: Option<String>,
    pub parent: Option<i64>,
}

/// The dependency names a tag form carries: the words of its dependency
/// string.
pub open spec fn form_dep_names(data: TagData) -> Seq<Seq<char>> {
    match data.deps {
        Some(s) => words_from(s@, 0),
        None => Seq::empty(),
    }
}

/// Applies a tag edit form: renames the tag and replaces its
/// dependency edges by the words of the form's dependency string. A
/// form without an id or a name is malformed; otherwise the outcome is
/// the catalog's: unknown id, empty folded name, or a name another tag
/// holds each name their error, and anything else succeeds.
pub fn apply_tag_form(catalog: &mut TagCatalog, data: &TagData) -> (r: Result<
    Vec<String>,
    StoreError,
>)
    requires
        old(catalog).wf(),
        old(catalog).next_id + (match data.deps {
            Some(s) => s@.len(),
            None => 0,
        }) <= i64::MAX,
    ensures
        final(catalog).wf(),
        match r {
            Err(e) => {
                &&& *final(catalog) == *old(catalog)
                &&& (e == StoreError::Validation <==> (data.id is None || data.name is None || (
                has_tag_id(old(catalog).tags@, data.id->0) && lower_seq(
                    data.name->0@,
                ).len() == 0)))
                &&& ((data.id is Some && data.name is Some) ==> (e == StoreError::NotFound
                    <==> !has_tag_id(old(catalog).tags@, data.id->0)))
                &&& (e == StoreError::Conflict ==> (data.id is Some && data.name is Some
                    && exists|q: int|
                    0 <= q < old(catalog).tags@.len() && (#[trigger] old(catalog).tags@[q]).name@
                        == lower_seq(data.name->0@) && old(catalog).tags@[q].id != data.id->0))
                &&& (e == StoreError::NotFound || e == StoreError::Validation || e
                    == StoreError::Conflict)
            },
            Ok(skipped) => {
                &&& data.id is Some
                &&& data.name is Some
                &&& has_tag_id(old(catalog).tags@, data.id->0)
                &&& lower_seq(data.name->0@).len() > 0
                &&& skipped.deep_view() == form_dep_names(*data).filter(
                    |n: Seq<char>| n.len() == 0,
                )
                &&& forall|q: int|
                    0 <= q < old(catalog).tags@.len() && (#[trigger] old(catalog).tags@[q]).id
                        == data.id->0 ==> final(catalog).tags@[q].name@ == lower_seq(data.name->0@)
                &&& forall|d: i64| #[trigger]
                    final(catalog).edges@.contains(
                        crate::tag_tag::TagTag { tag: data.id->0, dep: d },
                    ) <==> dep_set(
                        final(catalog).tags@,
                        form_dep_names(*data),
                        lower_seq(data.name->0@),
                        data.id->0,
                    ).contains(d)
            },
        },
{
    let id = match data.id {
        Some(id) => id,
        None => {
            return Err(StoreError::Validation);
        },
    };
    let name = match &data.name {
        Some(name) => name,
        None => {
            return Err(StoreError::Validation);
        },
    };
    let dep_names = match &data.deps {
        Some(s) => split_words(s.as_str()),
        None => Vec::new(),
    };
    proof {
        match &data.deps {
            Some(s) => {
                lemma_words_count(s@, 0);
            },
            None => {
                assert(dep_names.deep_view() =~= Seq::<Seq<char>>::empty());
            },
        }
        assert(dep_names.deep_view() == form_dep_names(*data));
        assert(dep_names@.len() == dep_names.deep_view().len());
    }
    update_tag(catalog, id, name.as_str(), &dep_names)
}

/// The folder an upload lands in: the requested parent if it names a
/// stored folder, the top level otherwise.
pub open spec fn upload_parent(items: Seq<Item>, parent: Option<i64>) -> Option<i64> {
    match parent {
        Some(p) => if has_folder_id(items, p) {
            Some(p)
        } else {
            None
        },
        None => None,
    }
}

/// The path an upload is stored under: its file name, inside its
/// destination folder's path.
pub open spec fn upload_path(items: Seq<Item>, parent: Option<i64>, real_name: Seq<char>) -> Seq<
    char,
> {
    match upload_parent(items, parent) {
        Some(p) => spec_join_path(item_with_id(items, p).path@, real_name),
        None => real_name,
    }
}

/// The tag names an item form requests.
pub open spec fn form_tag_names(data: PostData) -> Seq<Seq<char>> {
    match data.tags {
        Some(s) => words_from(s@, 0),
        None => Seq::empty(),
    }
}

/// Places a finished upload: stores a row for the uploaded file under
/// its destination folder, typed by its file name and keyed by the
/// upload's content hash, then links the requested tags. A form
/// without a stored file name or a hash is malformed; a duplicate path
/// or hash is a conflict, and then nothing is stored.
pub fn place_upload(
    store: &mut ItemStore,
    catalog: &mut TagCatalog,
    links: &mut LinkTable,
    data: &PostData,
) -> (r: Result<i64, StoreError>)
    requires
        old(store).wf(),
        old(catalog).wf(),
        old(links).wf(),
        old(store).next_id < i64::MAX,
        old(store).clock < i64::MAX,
        old(catalog).next_id + (match data.tags {
            Some(s) => s@.len(),
            None => 0,
        }) <= i64::MAX,
    ensures
        final(store).wf(),
        final(catalog).wf(),
        final(links).wf(),
        match r {
            Err(e) => {
                &&& *final(store) == *old(store)
                &&& *final(catalog) == *old(catalog)
                &&& *final(links) == *old(links)
                &&& (e == StoreError::Validation <==> (data.real_name is None || data.md5 is None
                    || data.md5->0@.len() == 0))
                &&& (e == StoreError::Conflict <==> (data.real_name is Some && data.md5 is Some
                    && data.md5->0@.len() > 0 && (has_path(
                    old(store).items@,
                    upload_path(old(store).items@, data.parent, data.real_name->0@),
                ) || has_nonfolder_md5(old(store).items@, data.md5->0@))))
                &&& (e == StoreError::Validation || e == StoreError::Conflict)
            },
            Ok(id) => {
                &&& data.real_name is Some
                &&& data.md5 is Some
                &&& id == old(store).next_id
                &&& final(store).items@ == old(store).items@.push(final(store).items@.last())
                &&& final(store).items@.last().id == id
                &&& final(store).items@.last().path@ == upload_path(
                    old(store).items@,
                    data.parent,
                    data.real_name->0@,
                )
                &&& final(store).items@.last().name@ == (match data.name {
                    Some(n) => n@,
                    None => data.real_name->0@,
                })
                &&& final(store).items@.last().file_type == spec_guess_file_type(
                    data.real_name->0@,
                )
                &&& final(store).items@.last().parent == upload_parent(
                    old(store).items@,
                    data.parent,
                )
                &&& final(store).items@.last().md5@ == data.md5->0@
                &&& (data.tags is Some ==> tag_set_of(final(links).rows@, id) == closure(
                    old(catalog).edges@,
                    requested_roots(final(catalog).tags@, form_tag_names(*data)),
                ))
                &&& (data.tags is None ==> final(links).rows@ == old(links).rows@
                    && *final(catalog) == *old(catalog))
            },
        },
{
    let real_name = match &data.real_name {
        Some(n) => n,
        None => {
            return Err(StoreError::Validation);
        },
    };
    let md5 = match &data.md5 {
        Some(m) => m,
        None => {
            return Err(StoreError::Validation);
        },
    };
    // the destination folder, top level when the form names none or a
    // non-folder
    let parent: Option<i64> = match data.parent {
        Some(p) => {
            match store.find_by_id(p) {
                Ok(row) => {
                    proof {
                        lemma_item_pins(store.items@, row);
                    }
                    if matches!(row.file_type, FileType::Folder) {
                        proof {
                            let k = choose|k: int|
                                0 <= k < store.items@.len() && store.items@[k] == row;
                            assert(store.items@[k].id == p && store.items@[k].file_type
                                == FileType::Folder);
                        }
                        Some(p)
                    } else {
                        proof {
                            if has_folder_id(store.items@, p) {
                                let k = choose|k: int|
                                    0 <= k < store.items@.len() && (#[trigger] store.items@[k]).id
                                        == p && store.items@[k].file_type == FileType::Folder;
                                assert(store.items@.contains(store.items@[k]));
                                lemma_item_pins(store.items@, store.items@[k]);
                            }
                        }
                        None
                    }
                },
                Err(_) => None,
            }
        },
        None => None,
    };
    let path = match parent {
        Some(p) => {
            let prow = match store.find_by_id(p) {
                Ok(prow) => prow,
                Err(_) => {
                    proof {
                        assert(false);
                    }
                    Item::empty()
                },
            };
            proof {
                lemma_item_pins(store.items@, prow);
            }
            join_path(prow.path.as_str(), real_name.as_str())
        },
        None => real_name.clone(),
    };
    let file_type = guess_file_type(real_name.as_str());
    let display_name = match &data.name {
        Some(n) => n.clone(),
        None => real_name.clone(),
    };
    let item = Item {
        id: 0,
        name: display_name,
        path,
        file_type,
        created_at: 0,
        parent,
        md5: md5.clone(),
    };
    proof {
        assert(valid_parent(store.items@, item.parent));
        assert(item.file_type != FileType::Folder);
        assert(item.path@ == upload_path(store.items@, data.parent, data.real_name->0@));
        assert(insert_validation_ok(store.items@, item) <==> item.md5@.len() > 0);
        assert(!insert_conflict_free(store.items@, item) <==> (has_path(
            store.items@,
            item.path@,
        ) || has_nonfolder_md5(store.items@, item.md5@)));
    }
    let id = match store.insert(&item) {
        Ok(id) => id,
        Err(e) => {
            proof {
                if insert_validation_ok(old(store).items@, item) {
                    assert(e == StoreError::Conflict);
                    assert(!insert_conflict_free(old(store).items@, item));
                }
            }
            return Err(e);
        },
    };
    match &data.tags {
        Some(s) => {
            let words = split_words(s.as_str());
            proof {
                lemma_words_count(s@, 0);
                assert(words.deep_view() == form_tag_names(*data));
                assert(words@.len() == words.deep_view().len());
            }
            let report = update_item_tags(catalog, links, id, &words);
            proof {
                assert(tag_set_of(links.rows@, id) == closure(
                    old(catalog).edges@,
                    requested_roots(catalog.tags@, form_tag_names(*data)),
                ));
            }
        },
        None => {},
    }
    Ok(id)
}

} // verus!
