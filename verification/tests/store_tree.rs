//! Tests for the hierarchical item store: inserts with deduplication,
//! cascading delete, moves, and scanner reconciliation.
use media_catalog::forms::{place_upload, PostData};
use media_catalog::hashing::content_key;
use media_catalog::item::{
    delete_item, guess_file_type, FileType, Item, ItemStore, ReconcileOutcome,
};
use media_catalog::item_tag::LinkTable;
use media_catalog::tag::{update_item_tags, TagCatalog};
use media_catalog::StoreError;

fn item(name: &str, path: &str, ft: FileType, parent: Option<i64>, md5: &str) -> Item {
    Item {
        id: 0,
        name: name.to_string(),
        path: path.to_string(),
        file_type: ft,
        created_at: 0,
        parent,
        md5: md5.to_string(),
    }
}

fn tag_names(v: &[&str]) -> Vec<String> {
    v.iter().map(|s| s.to_string()).collect()
}

#[test]
fn guess_file_type_by_extension() {
    assert_eq!(guess_file_type("a.png"), FileType::Image);
    assert_eq!(guess_file_type("b.JPG"), FileType::Image);
    assert_eq!(guess_file_type("c.mp4"), FileType::Video);
    assert_eq!(guess_file_type("d.MKV"), FileType::Video);
    assert_eq!(guess_file_type("e.txt"), FileType::Unknown);
    assert_eq!(guess_file_type("archive.tar.gz"), FileType::Unknown);
    assert_eq!(guess_file_type("trailing."), FileType::Unknown);
}

#[test]
fn content_key_is_a_real_digest() {
    // the classic MD5 test vector for "abc"
    let key = content_key(false, "ignored", b"abc");
    assert_eq!(key, "900150983cd24fb0d6963f7d28e17f72");
    // a folder is keyed by its path string, not its (empty) contents
    let folder_key = content_key(true, "abc", b"");
    assert_eq!(folder_key, "900150983cd24fb0d6963f7d28e17f72");
    assert_ne!(content_key(false, "x", b""), key);
}

#[test]
fn insert_assigns_ids_and_rejects_duplicate_path() {
    let mut store = ItemStore::new();
    let first = store.insert(&item("a", "a.png", FileType::Image, None, "h1")).unwrap();
    assert_eq!(first, 1);
    assert_eq!(
        store.insert(&item("b", "a.png", FileType::Image, None, "h2")),
        Err(StoreError::Conflict)
    );
    assert_eq!(store.items.len(), 1);
}

#[test]
fn duplicate_content_hash_is_rejected_and_original_kept() {
    let mut store = ItemStore::new();
    store.insert(&item("a", "a.png", FileType::Image, None, "samehash")).unwrap();
    let r = store.insert(&item("b", "b.png", FileType::Image, None, "samehash"));
    assert!(matches!(r, Err(StoreError::Conflict)));
    assert_eq!(store.items.len(), 1);
    let kept = store.find_by_md5("samehash").unwrap();
    assert_eq!(kept.path, "a.png");
}

#[test]
fn insert_validates_parent_reference() {
    let mut store = ItemStore::new();
    assert_eq!(
        store.insert(&item("a", "a.png", FileType::Image, Some(9), "h1")),
        Err(StoreError::Validation)
    );
    let file = store.insert(&item("f", "f.png", FileType::Image, None, "h1")).unwrap();
    assert_eq!(
        store.insert(&item("b", "b.png", FileType::Image, Some(file), "h2")),
        Err(StoreError::Validation)
    );
    let folder = store.insert(&item("d", "d", FileType::Folder, None, "hd")).unwrap();
    assert!(store.insert(&item("c", "d/c.png", FileType::Image, Some(folder), "h3")).is_ok());
}

#[test]
fn non_folder_items_need_a_content_hash() {
    let mut store = ItemStore::new();
    assert_eq!(
        store.insert(&item("a", "a.png", FileType::Image, None, "")),
        Err(StoreError::Validation)
    );
}

#[test]
fn cascading_delete_removes_the_whole_subtree() {
    let mut store = ItemStore::new();
    let mut catalog = TagCatalog::new();
    let mut links = LinkTable::new();

    let f = store.insert(&item("f", "f", FileType::Folder, None, "hf")).unwrap();
    let c1 = store.insert(&item("c1", "f/c1.png", FileType::Image, Some(f), "h1")).unwrap();
    let c2 = store.insert(&item("c2", "f/c2", FileType::Folder, Some(f), "h2")).unwrap();
    let c21 = store.insert(&item("c21", "f/c2/c21.png", FileType::Image, Some(c2), "h3")).unwrap();
    let other = store.insert(&item("o", "o.png", FileType::Image, None, "h4")).unwrap();

    update_item_tags(&mut catalog, &mut links, c1, &tag_names(&["x"]));
    update_item_tags(&mut catalog, &mut links, c21, &tag_names(&["x"]));
    update_item_tags(&mut catalog, &mut links, other, &tag_names(&["x"]));

    let removed = delete_item(&mut store, &mut links, f);
    assert_eq!(removed.len(), 4);
    assert_eq!(removed[0].id, f);
    for id in [f, c1, c2, c21] {
        assert!(matches!(store.find_by_id(id), Err(StoreError::NotFound)));
        assert!(links.find_by_item(id).is_empty());
    }
    // the unrelated item and its links survive
    assert!(store.find_by_id(other).is_ok());
    assert_eq!(links.find_by_item(other).len(), 1);
    assert_eq!(store.items.len(), 1);
}

#[test]
fn deleting_a_missing_id_only_clears_its_links() {
    let mut store = ItemStore::new();
    let mut links = LinkTable::new();
    store.insert(&item("a", "a.png", FileType::Image, None, "h1")).unwrap();
    let removed = delete_item(&mut store, &mut links, 77);
    assert!(removed.is_empty());
    assert_eq!(store.items.len(), 1);
}

#[test]
fn move_recomputes_the_path_under_the_new_parent() {
    let mut store = ItemStore::new();
    let a = store.insert(&item("a", "a", FileType::Folder, None, "ha")).unwrap();
    let b = store.insert(&item("b", "b", FileType::Folder, None, "hb")).unwrap();
    let x = store.insert(&item("x", "a/f.png", FileType::Image, Some(a), "hx")).unwrap();

    let plan = store.plan_move(x, b, "renamed").unwrap();
    assert_eq!(plan.old_path, "a/f.png");
    assert_eq!(plan.new_path, "b/f.png");
    store.apply_move(&plan).unwrap();

    let moved = store.find_by_id(x).unwrap();
    assert_eq!(moved.path, "b/f.png");
    assert_eq!(moved.name, "renamed");
    assert_eq!(moved.parent, Some(b));
}

#[test]
fn move_rejects_a_destination_inside_the_subtree() {
    let mut store = ItemStore::new();
    let p = store.insert(&item("p", "p", FileType::Folder, None, "hp")).unwrap();
    let q = store.insert(&item("q", "p/q", FileType::Folder, Some(p), "hq")).unwrap();
    assert!(matches!(store.plan_move(p, q, "p"), Err(StoreError::Validation)));
    assert!(matches!(store.plan_move(p, p, "p"), Err(StoreError::Validation)));
}

#[test]
fn move_rejects_a_taken_destination_path() {
    let mut store = ItemStore::new();
    let a = store.insert(&item("a", "a", FileType::Folder, None, "ha")).unwrap();
    let b = store.insert(&item("b", "b", FileType::Folder, None, "hb")).unwrap();
    let x = store.insert(&item("x", "a/f.png", FileType::Image, Some(a), "hx")).unwrap();
    store.insert(&item("y", "b/f.png", FileType::Image, Some(b), "hy")).unwrap();
    assert!(matches!(store.plan_move(x, b, "x"), Err(StoreError::Conflict)));
}

#[test]
fn reconcile_inserts_new_paths_under_their_folder() {
    let mut store = ItemStore::new();
    let r = store.reconcile_entry("shows", "shows", true, 0, b"");
    let folder_id = match r {
        ReconcileOutcome::Inserted(id) => id,
        other => panic!("unexpected outcome {:?}", other),
    };
    let r = store.reconcile_entry("shows/ep.mp4", "ep.mp4", false, 9_000_000, b"video-bytes");
    match r {
        ReconcileOutcome::Inserted(id) => {
            let row = store.find_by_id(id).unwrap();
            assert_eq!(row.parent, Some(folder_id));
            assert_eq!(row.file_type, FileType::Video);
        },
        other => panic!("unexpected outcome {:?}", other),
    }
}

#[test]
fn reconcile_marks_small_videos_short() {
    let mut store = ItemStore::new();
    let r = store.reconcile_entry("clip.mp4", "clip.mp4", false, 1000, b"tiny");
    match r {
        ReconcileOutcome::Inserted(id) => {
            assert_eq!(store.find_by_id(id).unwrap().file_type, FileType::VideoShort);
        },
        other => panic!("unexpected outcome {:?}", other),
    }
}

#[test]
fn reconcile_skips_unknown_and_reports_duplicates() {
    let mut store = ItemStore::new();
    assert_eq!(
        store.reconcile_entry("notes.txt", "notes.txt", false, 10, b"text"),
        ReconcileOutcome::SkippedUnknown
    );
    store.reconcile_entry("one.png", "one.png", false, 10, b"same-bytes");
    assert_eq!(
        store.reconcile_entry("two.png", "two.png", false, 10, b"same-bytes"),
        ReconcileOutcome::DuplicateHash
    );
    assert!(matches!(store.find_by_path("two.png"), Err(StoreError::NotFound)));
}

#[test]
fn reconcile_updates_a_changed_type_in_place() {
    let mut store = ItemStore::new();
    let id = match store.reconcile_entry("thing.png", "thing.png", false, 10, b"bytes") {
        ReconcileOutcome::Inserted(id) => id,
        other => panic!("unexpected outcome {:?}", other),
    };
    assert_eq!(
        store.reconcile_entry("thing.png", "thing.png", false, 10, b"bytes"),
        ReconcileOutcome::Unchanged
    );
    // the same path rescanned as a directory becomes a folder
    assert_eq!(
        store.reconcile_entry("thing.png", "thing.png", true, 0, b""),
        ReconcileOutcome::TypeUpdated
    );
    assert_eq!(store.find_by_id(id).unwrap().file_type, FileType::Folder);
}

#[test]
fn retyping_a_folder_with_children_is_refused() {
    let mut store = ItemStore::new();
    store.reconcile_entry("d", "d", true, 0, b"");
    store.reconcile_entry("d/x.png", "x.png", false, 5, b"img");
    assert_eq!(
        store.reconcile_entry("d", "d", false, 5, b"now-a-file"),
        ReconcileOutcome::TypeClash
    );
    assert_eq!(store.find_by_path("d").unwrap().file_type, FileType::Folder);
}

#[test]
fn item_constructors_start_blank() {
    let e = Item::empty();
    assert_eq!(e.id, 0);
    assert_eq!(e.file_type, FileType::Unknown);
    assert!(e.parent.is_none());
    let n = Item::new("n".to_string(), "p".to_string(), FileType::Image);
    assert_eq!(n.name, "n");
    assert_eq!(n.path, "p");
    assert_eq!(n.file_type, FileType::Image);
}

#[test]
fn uploads_land_under_their_folder_with_tags() {
    let mut store = ItemStore::new();
    let mut catalog = TagCatalog::new();
    let mut links = LinkTable::new();
    let folder = store.insert(&item("albums", "albums", FileType::Folder, None, "hf")).unwrap();

    let form = PostData {
        id: None,
        tags: Some("cats cute".to_string()),
        name: Some("My picture".to_string()),
        real_name: Some("pic.png".to_string()),
        parent: Some(folder),
        md5: Some("deadbeef".to_string()),
    };
    let id = place_upload(&mut store, &mut catalog, &mut links, &form).unwrap();
    let row = store.find_by_id(id).unwrap();
    assert_eq!(row.path, "albums/pic.png");
    assert_eq!(row.name, "My picture");
    assert_eq!(row.file_type, FileType::Image);
    assert_eq!(row.parent, Some(folder));
    assert_eq!(links.find_by_item(id).len(), 2);
}

#[test]
fn uploads_without_a_hash_are_malformed() {
    let mut store = ItemStore::new();
    let mut catalog = TagCatalog::new();
    let mut links = LinkTable::new();
    let form = PostData {
        id: None,
        tags: None,
        name: None,
        real_name: Some("pic.png".to_string()),
        parent: None,
        md5: None,
    };
    assert!(matches!(
        place_upload(&mut store, &mut catalog, &mut links, &form),
        Err(StoreError::Validation)
    ));
    assert!(store.items.is_empty());
}

#[test]
fn uploads_with_an_unknown_parent_go_top_level() {
    let mut store = ItemStore::new();
    let mut catalog = TagCatalog::new();
    let mut links = LinkTable::new();
    let form = PostData {
        id: None,
        tags: None,
        name: None,
        real_name: Some("pic.png".to_string()),
        parent: Some(42),
        md5: Some("beef".to_string()),
    };
    let id = place_upload(&mut store, &mut catalog, &mut links, &form).unwrap();
    let row = store.find_by_id(id).unwrap();
    assert_eq!(row.path, "pic.png");
    assert!(row.parent.is_none());
    assert_eq!(row.name, "pic.png");
}

#[test]
fn uploads_with_a_duplicate_hash_are_a_conflict() {
    let mut store = ItemStore::new();
    let mut catalog = TagCatalog::new();
    let mut links = LinkTable::new();
    store.insert(&item("a", "a.png", FileType::Image, None, "takenhash")).unwrap();
    let form = PostData {
        id: None,
        tags: None,
        name: None,
        real_name: Some("b.png".to_string()),
        parent: None,
        md5: Some("takenhash".to_string()),
    };
    assert!(matches!(
        place_upload(&mut store, &mut catalog, &mut links, &form),
        Err(StoreError::Conflict)
    ));
    assert_eq!(store.items.len(), 1);
}

#[test]
fn uploads_onto_a_taken_path_are_a_conflict() {
    let mut store = ItemStore::new();
    let mut catalog = TagCatalog::new();
    let mut links = LinkTable::new();
    store.insert(&item("a", "a.png", FileType::Image, None, "h1")).unwrap();
    let form = PostData {
        id: None,
        tags: None,
        name: None,
        real_name: Some("a.png".to_string()),
        parent: None,
        md5: Some("h2".to_string()),
    };
    assert!(matches!(
        place_upload(&mut store, &mut catalog, &mut links, &form),
        Err(StoreError::Conflict)
    ));
    assert_eq!(store.items.len(), 1);
}

#[test]
fn uploads_with_an_empty_hash_are_malformed() {
    let mut store = ItemStore::new();
    let mut catalog = TagCatalog::new();
    let mut links = LinkTable::new();
    let form = PostData {
        id: None,
        tags: None,
        name: None,
        real_name: Some("a.png".to_string()),
        parent: None,
        md5: Some("".to_string()),
    };
    assert!(matches!(
        place_upload(&mut store, &mut catalog, &mut links, &form),
        Err(StoreError::Validation)
    ));
    assert!(store.items.is_empty());
}
