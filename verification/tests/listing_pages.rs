//! Tests for the listing composer: ordering, pagination, tag search,
//! series handling and facets.
use media_catalog::item::{FileType, Item, ItemStore};
use media_catalog::item_tag::LinkTable;
use media_catalog::listing::{
    compose, find_by_items, find_by_parent, find_by_tag, find_not_in_series, page_offset,
    total_pages, Listing, QueryInfo,
};
use media_catalog::tag::{update_item_tags, TagCatalog};
use media_catalog::text::split_words;
use media_catalog::StoreError;

fn item(name: &str, path: &str, ft: FileType, parent: Option<i64>, md5: &str) -> Item {
    Item {
        id: 0,
        name: name.to_string(),
        path: path.to_string(),
        file_type: ft,
        created_at: 0,
        parent,
        md5: md5.to_string(),
    }
}

fn tag_names(v: &[&str]) -> Vec<String> {
    v.iter().map(|s| s.to_string()).collect()
}

fn query(page: Option<u32>, id: Option<i64>, tags: Option<&str>) -> QueryInfo {
    QueryInfo {
        page,
        id,
        view: None,
        tags: tags.map(|s| s.to_string()),
        file_name: None,
        real_file_name: None,
        md5: None,
        raw: None,
    }
}

fn ten_items(store: &mut ItemStore) -> Vec<i64> {
    let mut ids = Vec::new();
    for i in 0..10 {
        let name = format!("item{}", i);
        let path = format!("item{}.png", i);
        let md5 = format!("hash{}", i);
        ids.push(store.insert(&item(&name, &path, FileType::Image, None, &md5)).unwrap());
    }
    ids
}

#[test]
fn pagination_of_ten_items_page_size_four() {
    // N=10, pageSize=4: 3 pages, page 2 shows ranks [4, 8)
    assert_eq!(total_pages(10, 4), 3);
    assert_eq!(total_pages(0, 4), 0);
    assert_eq!(total_pages(8, 4), 2);
    assert_eq!(page_offset(2, 4), 4);

    let mut store = ItemStore::new();
    let catalog = TagCatalog::new();
    let links = LinkTable::new();
    let ids = ten_items(&mut store);

    let (page2, count) = find_not_in_series(&store, &catalog, &links, 4, 4);
    assert_eq!(count, 10);
    // newest first: ranks 0..10 are ids 10,9,...,1; ranks [4,8) are 6,5,4,3
    let got: Vec<i64> = page2.iter().map(|it| it.id).collect();
    assert_eq!(got, vec![ids[5], ids[4], ids[3], ids[2]]);
}

#[test]
fn series_folder_lists_children_in_plain_string_order() {
    let mut store = ItemStore::new();
    let mut catalog = TagCatalog::new();
    let mut links = LinkTable::new();
    let f = store.insert(&item("show", "show", FileType::Folder, None, "hf")).unwrap();
    for name in ["1", "2", "10"] {
        let path = format!("show/{}.png", name);
        let md5 = format!("h{}", name);
        store.insert(&item(name, &path, FileType::Image, Some(f), &md5)).unwrap();
    }
    update_item_tags(&mut catalog, &mut links, f, &tag_names(&["series"]));

    let (children, count) = find_by_parent(&store, &catalog, &links, f, 10, 0);
    assert_eq!(count, 3);
    let got: Vec<String> = children.iter().map(|it| it.name.clone()).collect();
    assert_eq!(got, vec!["1".to_string(), "10".to_string(), "2".to_string()]);
}

#[test]
fn plain_folder_lists_children_newest_first() {
    let mut store = ItemStore::new();
    let catalog = TagCatalog::new();
    let links = LinkTable::new();
    let f = store.insert(&item("dir", "dir", FileType::Folder, None, "hf")).unwrap();
    let a = store.insert(&item("a", "dir/a.png", FileType::Image, Some(f), "ha")).unwrap();
    let b = store.insert(&item("b", "dir/b.png", FileType::Image, Some(f), "hb")).unwrap();

    let (children, count) = find_by_parent(&store, &catalog, &links, f, 10, 0);
    assert_eq!(count, 2);
    let got: Vec<i64> = children.iter().map(|it| it.id).collect();
    assert_eq!(got, vec![b, a]);
}

#[test]
fn tag_search_uses_intersection_semantics() {
    let mut store = ItemStore::new();
    let mut catalog = TagCatalog::new();
    let mut links = LinkTable::new();
    let a = store.insert(&item("a", "a.png", FileType::Image, None, "ha")).unwrap();
    let b = store.insert(&item("b", "b.png", FileType::Image, None, "hb")).unwrap();
    update_item_tags(&mut catalog, &mut links, a, &tag_names(&["t1", "t2"]));
    update_item_tags(&mut catalog, &mut links, b, &tag_names(&["t1"]));

    let (both, count) = find_by_tag(&store, &catalog, &links, &tag_names(&["t1"]), 10, 0);
    assert_eq!(count, 2);
    assert_eq!(both.len(), 2);

    let (only_a, count) = find_by_tag(&store, &catalog, &links, &tag_names(&["t1", "t2"]), 10, 0);
    assert_eq!(count, 1);
    assert_eq!(only_a[0].id, a);

    let (none, count) = find_by_tag(&store, &catalog, &links, &tag_names(&["missing"]), 10, 0);
    assert_eq!(count, 0);
    assert!(none.is_empty());
}

#[test]
fn tag_search_folds_case() {
    let mut store = ItemStore::new();
    let mut catalog = TagCatalog::new();
    let mut links = LinkTable::new();
    let a = store.insert(&item("a", "a.png", FileType::Image, None, "ha")).unwrap();
    update_item_tags(&mut catalog, &mut links, a, &tag_names(&["Cat"]));
    let (found, count) = find_by_tag(&store, &catalog, &links, &tag_names(&["CAT"]), 10, 0);
    assert_eq!(count, 1);
    assert_eq!(found[0].id, a);
}

#[test]
fn default_grid_excludes_series_children_only() {
    let mut store = ItemStore::new();
    let mut catalog = TagCatalog::new();
    let mut links = LinkTable::new();
    let f = store.insert(&item("show", "show", FileType::Folder, None, "hf")).unwrap();
    let ep = store.insert(&item("ep", "show/ep.png", FileType::Image, Some(f), "he")).unwrap();
    let top = store.insert(&item("top", "top.png", FileType::Image, None, "ht")).unwrap();
    update_item_tags(&mut catalog, &mut links, f, &tag_names(&["series"]));

    let (grid, count) = find_not_in_series(&store, &catalog, &links, 10, 0);
    let got: Vec<i64> = grid.iter().map(|it| it.id).collect();
    assert_eq!(count, 2);
    assert!(got.contains(&f));
    assert!(got.contains(&top));
    assert!(!got.contains(&ep));
}

#[test]
fn facets_are_the_union_of_item_tags_sorted_by_name() {
    let mut store = ItemStore::new();
    let mut catalog = TagCatalog::new();
    let mut links = LinkTable::new();
    let a = store.insert(&item("a", "a.png", FileType::Image, None, "ha")).unwrap();
    let b = store.insert(&item("b", "b.png", FileType::Image, None, "hb")).unwrap();
    update_item_tags(&mut catalog, &mut links, a, &tag_names(&["zebra", "apple"]));
    update_item_tags(&mut catalog, &mut links, b, &tag_names(&["mango"]));

    let tags = find_by_items(&catalog, &links, &vec![a, b]);
    let got: Vec<String> = tags.iter().map(|t| t.name.clone()).collect();
    assert_eq!(
        got,
        vec!["apple".to_string(), "mango".to_string(), "zebra".to_string()]
    );

    let only_a = find_by_items(&catalog, &links, &vec![a]);
    assert_eq!(only_a.len(), 2);
}

#[test]
fn compose_drills_into_a_folder() {
    let mut store = ItemStore::new();
    let mut catalog = TagCatalog::new();
    let mut links = LinkTable::new();
    let f = store.insert(&item("dir", "dir", FileType::Folder, None, "hf")).unwrap();
    let c = store.insert(&item("c", "dir/c.png", FileType::Image, Some(f), "hc")).unwrap();
    update_item_tags(&mut catalog, &mut links, f, &tag_names(&["fav"]));

    let l: Listing = compose(&store, &catalog, &links, &query(None, Some(f), None), 4).unwrap();
    assert_eq!(l.page, 1);
    assert_eq!(l.count, 1);
    assert_eq!(l.items[0].id, c);
    assert_eq!(l.total_pages, 1);
    assert_eq!(l.single.as_ref().unwrap().id, f);
    assert_eq!(l.page_tags.len(), 1);
    assert_eq!(l.page_tags[0].name, "fav");
}

#[test]
fn compose_shows_a_single_file_without_children() {
    let mut store = ItemStore::new();
    let catalog = TagCatalog::new();
    let links = LinkTable::new();
    let x = store.insert(&item("x", "x.png", FileType::Image, None, "hx")).unwrap();
    let l = compose(&store, &catalog, &links, &query(None, Some(x), None), 4).unwrap();
    assert_eq!(l.count, 0);
    assert!(l.items.is_empty());
    assert_eq!(l.single.as_ref().unwrap().id, x);
}

#[test]
fn compose_reports_a_missing_item() {
    let store = ItemStore::new();
    let catalog = TagCatalog::new();
    let links = LinkTable::new();
    assert!(matches!(
        compose(&store, &catalog, &links, &query(None, Some(9), None), 4),
        Err(StoreError::NotFound)
    ));
}

#[test]
fn compose_searches_tags_and_pages_the_result() {
    let mut store = ItemStore::new();
    let mut catalog = TagCatalog::new();
    let mut links = LinkTable::new();
    let ids = ten_items(&mut store);
    for id in &ids {
        update_item_tags(&mut catalog, &mut links, *id, &tag_names(&["all"]));
    }
    let l = compose(&store, &catalog, &links, &query(Some(2), None, Some("all")), 4).unwrap();
    assert_eq!(l.count, 10);
    assert_eq!(l.total_pages, 3);
    assert_eq!(l.page, 2);
    let got: Vec<i64> = l.items.iter().map(|it| it.id).collect();
    assert_eq!(got, vec![ids[5], ids[4], ids[3], ids[2]]);
    // the facet list covers the shown items
    assert_eq!(l.page_tags.len(), 1);
    assert_eq!(l.tag_counts.len(), 1);
    assert_eq!(l.tag_counts[0].count, 10);
}

#[test]
fn compose_default_mode_lists_everything_outside_series() {
    let mut store = ItemStore::new();
    let catalog = TagCatalog::new();
    let links = LinkTable::new();
    ten_items(&mut store);
    let l = compose(&store, &catalog, &links, &query(Some(1), None, None), 48).unwrap();
    assert_eq!(l.count, 10);
    assert_eq!(l.total_pages, 1);
    assert_eq!(l.items.len(), 10);
    assert!(l.single.is_none());
}

#[test]
fn split_words_breaks_on_whitespace() {
    let words = split_words("  cat  dog\tbird ");
    assert_eq!(
        words,
        vec!["cat".to_string(), "dog".to_string(), "bird".to_string()]
    );
    assert!(split_words("").is_empty());
    assert!(split_words("   ").is_empty());
}

#[test]
fn cover_is_the_first_image_child() {
    let mut store = ItemStore::new();
    let f = store.insert(&item("dir", "dir", FileType::Folder, None, "hf")).unwrap();
    assert!(store.cover_of(f).is_none());
    store.insert(&item("v", "dir/v.mp4", FileType::Video, Some(f), "hv")).unwrap();
    store.insert(&item("i", "dir/i.png", FileType::Image, Some(f), "hi")).unwrap();
    assert_eq!(store.cover_of(f).unwrap(), "dir/i.png");
}
