//! Tests for the tag catalog and the dependency-closure assignment engine.
use media_catalog::forms::{apply_tag_form, TagData};
use media_catalog::item_tag::LinkTable;
use media_catalog::tag::{count_tags, delete_tag, update_item_tags, update_tag, TagCatalog};
use media_catalog::StoreError;

fn names(v: &[&str]) -> Vec<String> {
    v.iter().map(|s| s.to_string()).collect()
}

fn linked_tags(links: &LinkTable, item: i64) -> Vec<i64> {
    let mut ids: Vec<i64> = links.find_by_item(item).iter().map(|r| r.tag).collect();
    ids.sort();
    ids
}

#[test]
fn find_or_create_folds_case_and_reuses() {
    let mut catalog = TagCatalog::new();
    let a = catalog.find_or_create("CAT").unwrap();
    assert_eq!(a.name, "cat");
    let b = catalog.find_or_create("cat").unwrap();
    assert_eq!(a.id, b.id);
    let c = catalog.find_or_create("Cat").unwrap();
    assert_eq!(a.id, c.id);
    assert_eq!(catalog.tags.len(), 1);
}

#[test]
fn find_or_create_rejects_empty_name() {
    let mut catalog = TagCatalog::new();
    assert!(matches!(catalog.find_or_create(""), Err(StoreError::Validation)));
    assert_eq!(catalog.tags.len(), 0);
}

#[test]
fn cat_implies_animal_then_clear() {
    let mut catalog = TagCatalog::new();
    let mut links = LinkTable::new();
    let animal = catalog.find_or_create("animal").unwrap();
    let cat = catalog.find_or_create("cat").unwrap();
    update_tag(&mut catalog, cat.id, "cat", &names(&["animal"])).unwrap();

    let report = update_item_tags(&mut catalog, &mut links, 5, &names(&["cat"]));
    let mut linked = report.linked.clone();
    linked.sort();
    let mut expected = vec![animal.id, cat.id];
    expected.sort();
    assert_eq!(linked, expected);
    assert_eq!(linked_tags(&links, 5), expected);

    let report = update_item_tags(&mut catalog, &mut links, 5, &names(&[]));
    assert!(report.linked.is_empty());
    assert!(links.find_by_item(5).is_empty());
}

#[test]
fn closure_follows_chains() {
    let mut catalog = TagCatalog::new();
    let mut links = LinkTable::new();
    let a = catalog.find_or_create("a").unwrap();
    let b = catalog.find_or_create("b").unwrap();
    let c = catalog.find_or_create("c").unwrap();
    update_tag(&mut catalog, a.id, "a", &names(&["b"])).unwrap();
    update_tag(&mut catalog, b.id, "b", &names(&["c"])).unwrap();

    update_item_tags(&mut catalog, &mut links, 1, &names(&["a"]));
    assert_eq!(linked_tags(&links, 1), vec![a.id, b.id, c.id]);

    // every dependency of a linked tag is itself linked
    for row in links.find_by_item(1) {
        for dep in catalog.find_depend_tags(row.tag) {
            assert!(linked_tags(&links, 1).contains(&dep.id));
        }
    }
}

#[test]
fn closure_removes_stale_tags() {
    let mut catalog = TagCatalog::new();
    let mut links = LinkTable::new();
    let a = catalog.find_or_create("a").unwrap();
    let b = catalog.find_or_create("b").unwrap();
    update_item_tags(&mut catalog, &mut links, 1, &names(&["a", "b"]));
    assert_eq!(linked_tags(&links, 1), vec![a.id, b.id]);
    update_item_tags(&mut catalog, &mut links, 1, &names(&["b"]));
    assert_eq!(linked_tags(&links, 1), vec![b.id]);
}

#[test]
fn repeating_the_same_update_changes_nothing() {
    let mut catalog = TagCatalog::new();
    let mut links = LinkTable::new();
    let cat = catalog.find_or_create("cat").unwrap();
    update_tag(&mut catalog, cat.id, "cat", &names(&["animal"])).unwrap();
    update_item_tags(&mut catalog, &mut links, 7, &names(&["cat"]));
    let before: Vec<(i64, i64)> = links.rows.iter().map(|r| (r.item, r.tag)).collect();
    let tags_before = catalog.tags.len();
    update_item_tags(&mut catalog, &mut links, 7, &names(&["cat"]));
    let after: Vec<(i64, i64)> = links.rows.iter().map(|r| (r.item, r.tag)).collect();
    assert_eq!(before, after);
    assert_eq!(tags_before, catalog.tags.len());
}

#[test]
fn cyclic_dependencies_link_both_and_terminate() {
    let mut catalog = TagCatalog::new();
    let mut links = LinkTable::new();
    let a = catalog.find_or_create("a").unwrap();
    let b = catalog.find_or_create("b").unwrap();
    update_tag(&mut catalog, a.id, "a", &names(&["b"])).unwrap();
    update_tag(&mut catalog, b.id, "b", &names(&["a"])).unwrap();

    update_item_tags(&mut catalog, &mut links, 3, &names(&["a"]));
    assert_eq!(linked_tags(&links, 3), vec![a.id, b.id]);
}

#[test]
fn empty_names_are_skipped_not_fatal() {
    let mut catalog = TagCatalog::new();
    let mut links = LinkTable::new();
    let report = update_item_tags(&mut catalog, &mut links, 2, &names(&["", "x"]));
    assert_eq!(report.skipped, vec!["".to_string()]);
    assert_eq!(report.linked.len(), 1);
    assert_eq!(linked_tags(&links, 2).len(), 1);
}

#[test]
fn update_tag_rejects_taken_name() {
    let mut catalog = TagCatalog::new();
    let _a = catalog.find_or_create("a").unwrap();
    let b = catalog.find_or_create("b").unwrap();
    assert_eq!(
        update_tag(&mut catalog, b.id, "a", &names(&[])),
        Err(StoreError::Conflict)
    );
}

#[test]
fn update_tag_skips_self_dependency() {
    let mut catalog = TagCatalog::new();
    let a = catalog.find_or_create("a").unwrap();
    update_tag(&mut catalog, a.id, "a", &names(&["a", "b"])).unwrap();
    let deps = catalog.find_depend_tags(a.id);
    assert_eq!(deps.len(), 1);
    assert_eq!(deps[0].name, "b");
}

#[test]
fn update_tag_renames_and_diffs_edges() {
    let mut catalog = TagCatalog::new();
    let a = catalog.find_or_create("a").unwrap();
    update_tag(&mut catalog, a.id, "a", &names(&["b", "c"])).unwrap();
    assert_eq!(catalog.find_depend_tags(a.id).len(), 2);
    update_tag(&mut catalog, a.id, "renamed", &names(&["c", "d"])).unwrap();
    let renamed = catalog.find_by_id(a.id).unwrap();
    assert_eq!(renamed.name, "renamed");
    let dep_names: Vec<String> = catalog
        .find_depend_tags(a.id)
        .iter()
        .map(|t| t.name.clone())
        .collect();
    assert_eq!(dep_names.len(), 2);
    assert!(dep_names.contains(&"c".to_string()));
    assert!(dep_names.contains(&"d".to_string()));
}

#[test]
fn update_tag_missing_id_is_not_found() {
    let mut catalog = TagCatalog::new();
    assert_eq!(
        update_tag(&mut catalog, 42, "x", &names(&[])),
        Err(StoreError::NotFound)
    );
}

#[test]
fn delete_tag_removes_links_and_edges() {
    let mut catalog = TagCatalog::new();
    let mut links = LinkTable::new();
    let a = catalog.find_or_create("a").unwrap();
    let b = catalog.find_or_create("b").unwrap();
    update_tag(&mut catalog, a.id, "a", &names(&["b"])).unwrap();
    update_item_tags(&mut catalog, &mut links, 1, &names(&["a"]));
    assert_eq!(linked_tags(&links, 1), vec![a.id, b.id]);

    delete_tag(&mut catalog, &mut links, b.id);
    assert!(matches!(catalog.find_by_id(b.id), Err(StoreError::NotFound)));
    assert_eq!(linked_tags(&links, 1), vec![a.id]);
    assert!(catalog.find_depend_tags(a.id).is_empty());
}

#[test]
fn count_tags_includes_unused_tags_as_zero() {
    let mut catalog = TagCatalog::new();
    let mut links = LinkTable::new();
    let _a = catalog.find_or_create("a").unwrap();
    let _b = catalog.find_or_create("b").unwrap();
    update_item_tags(&mut catalog, &mut links, 1, &names(&["a"]));
    update_item_tags(&mut catalog, &mut links, 2, &names(&["a"]));
    let counts = count_tags(&catalog, &links);
    assert_eq!(counts.len(), 2);
    assert_eq!(counts[0].name, "a");
    assert_eq!(counts[0].count, 2);
    assert_eq!(counts[1].name, "b");
    assert_eq!(counts[1].count, 0);
}

#[test]
fn tag_form_splits_dependency_words() {
    let mut catalog = TagCatalog::new();
    let a = catalog.find_or_create("a").unwrap();
    let data = TagData {
        id: Some(a.id),
        name: Some("animal".to_string()),
        deps: Some(" b  c ".to_string()),
    };
    let skipped = apply_tag_form(&mut catalog, &data).unwrap();
    assert!(skipped.is_empty());
    assert_eq!(catalog.find_by_id(a.id).unwrap().name, "animal");
    let mut dep_names: Vec<String> = catalog
        .find_depend_tags(a.id)
        .iter()
        .map(|t| t.name.clone())
        .collect();
    dep_names.sort();
    assert_eq!(dep_names, vec!["b".to_string(), "c".to_string()]);
}

#[test]
fn tag_form_without_an_id_is_malformed() {
    let mut catalog = TagCatalog::new();
    let data = TagData { id: None, name: Some("x".to_string()), deps: None };
    assert!(matches!(
        apply_tag_form(&mut catalog, &data),
        Err(StoreError::Validation)
    ));
}

#[test]
fn tag_form_with_an_unknown_id_is_not_found() {
    let mut catalog = TagCatalog::new();
    let data = TagData { id: Some(9), name: Some("x".to_string()), deps: None };
    assert!(matches!(
        apply_tag_form(&mut catalog, &data),
        Err(StoreError::NotFound)
    ));
}

#[test]
fn tag_form_onto_a_taken_name_is_a_conflict() {
    let mut catalog = TagCatalog::new();
    let _a = catalog.find_or_create("a").unwrap();
    let b = catalog.find_or_create("b").unwrap();
    let data = TagData { id: Some(b.id), name: Some("a".to_string()), deps: None };
    assert!(matches!(
        apply_tag_form(&mut catalog, &data),
        Err(StoreError::Conflict)
    ));
    assert_eq!(catalog.find_by_id(b.id).unwrap().name, "b");
}

#[test]
fn repeating_the_same_tag_edit_changes_nothing() {
    let mut catalog = TagCatalog::new();
    let a = catalog.find_or_create("a").unwrap();
    update_tag(&mut catalog, a.id, "animal", &names(&["b", "c"])).unwrap();
    let tags_before = catalog.tags.len();
    let mut deps_before: Vec<i64> = catalog.find_depend_tags(a.id).iter().map(|t| t.id).collect();
    deps_before.sort();

    update_tag(&mut catalog, a.id, "animal", &names(&["b", "c"])).unwrap();
    assert_eq!(catalog.tags.len(), tags_before);
    assert_eq!(catalog.find_by_id(a.id).unwrap().name, "animal");
    let mut deps_after: Vec<i64> = catalog.find_depend_tags(a.id).iter().map(|t| t.id).collect();
    deps_after.sort();
    assert_eq!(deps_before, deps_after);
}
