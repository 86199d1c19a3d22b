//! End-to-end checks of the page model, the stores and the index.

use tagwiki::index::Index;
use tagwiki::page::split_headers_and_body;
use tagwiki::page::store::fs::temp_path_for;
use tagwiki::page::store::fs::FsCatalog;
use tagwiki::page::store::InMemoryStore;
use tagwiki::page::store::StoreError;
use tagwiki::page::store::StoreMut;
use tagwiki::page::Headers;
use tagwiki::page::Parsed;
use tagwiki::page::Source;
use tagwiki::web::get_rid_of_windows_newlines;

#[test]
fn split_headers_and_body_test() {
    let s = Source(
        r#"


<!------- a: b
c: d -->banana"#
            .into(),
    );
    let (headers, body) = split_headers_and_body(&s);

    assert_eq!(
        headers,
        r#" a: b
c: d "#
    );
    assert_eq!(body, "banana");
}

#[test]
fn parse_markdown_metadata_test() {
    let page = Parsed::from_full_source(Source(
        r#"

<!---

a: b
tagwiki-page-id: xyz

foo-bar: bar
-->
bar
<!---
tagwiki-id: 123
-->
        "#
        .to_owned(),
    ));

    println!("{:#?}", page);
    assert_eq!(page.id(), "xyz");
}

#[test]
fn parse_serialize_round_trip() {
    let p = Parsed::new("# A Title\n\nSome body with a #tag and more.\n");
    let p2 = Parsed::from_full_source(p.source.clone());
    assert_eq!(p2.headers.id, p.headers.id);
    assert_eq!(p2.headers.creation_time, p.headers.creation_time);
    assert_eq!(p2.headers.modification_time, p.headers.modification_time);
    assert_eq!(p2.headers.other, p.headers.other);
    assert_eq!(p2.source_body, p.source_body);
    assert_eq!(p2.title, p.title);
    assert_eq!(p2.html, p.html);
    assert_eq!(p2.source.0, p.source.0);
}

#[test]
fn round_trip_with_other_header_lines() {
    let raw = "<!---\ntagwiki-page-id: pg1\n\
               tagwiki-creation-time: 2020-01-02T03:04:05+00:00\n\
               tagwiki-modification-time: 2020-01-02T03:04:06+00:00\n\
               color: blue\n-->\n# Hello\n\nWorld. #greeting\n";
    let p = Parsed::from_full_source(Source(raw.to_owned()));
    assert_eq!(p.headers.id, "pg1");
    assert_eq!(p.headers.creation_time, "2020-01-02T03:04:05+00:00");
    assert_eq!(p.headers.other, "color: blue\n");
    let p2 = Parsed::from_full_source(p.source.clone());
    assert_eq!(p2.headers.id, p.headers.id);
    assert_eq!(p2.headers.creation_time, p.headers.creation_time);
    assert_eq!(p2.headers.modification_time, p.headers.modification_time);
    assert_eq!(p2.headers.other, p.headers.other);
    assert_eq!(p2.source_body, p.source_body);
}

#[test]
fn serialize_exact_header_block() {
    let h = Headers {
        id: "abc".to_owned(),
        creation_time: "2020-01-02T03:04:05+00:00".to_owned(),
        modification_time: "2021-06-07T08:09:10+00:00".to_owned(),
        other: "x: y\n".to_owned(),
    };
    let expected = "<!---\ntagwiki-page-id: abc\n\
                    tagwiki-creation-time: 2020-01-02T03:04:05+00:00\n\
                    tagwiki-modification-time: 2021-06-07T08:09:10+00:00\n\
                    x: y\n-->";
    assert_eq!(h.to_markdown_string(), expected);
}

#[test]
fn content_addressed_ids() {
    let a1 = Parsed::from_full_source(Source("same body text".to_owned()));
    let a2 = Parsed::from_full_source(Source("same body text".to_owned()));
    let b = Parsed::from_full_source(Source("different body text".to_owned()));
    assert_eq!(a1.headers.id, a2.headers.id);
    assert_eq!(a1.headers.id.len(), 32);
    assert!(a1.headers.id.chars().all(|c| c.is_ascii_hexdigit()));
    assert_ne!(a1.headers.id, b.headers.id);
}

#[test]
fn parse_is_deterministic() {
    let raw = "<!---\ntagwiki-page-id: d1\n-->\n# T\nBody #x #Y\n";
    let p1 = Parsed::from_full_source(Source(raw.to_owned()));
    let p2 = Parsed::from_full_source(Source(raw.to_owned()));
    assert_eq!(p1.headers.id, p2.headers.id);
    assert_eq!(p1.title, p2.title);
    assert_eq!(p1.tags.len(), p2.tags.len());
    assert!(p1.tags.contains(&"x".to_owned()) && p2.tags.contains(&"x".to_owned()));
}

#[test]
fn tags_are_folded_and_deduplicated() {
    let p = Parsed::new("text #Foo #bar more #foo and x#baz-2 but not#\n");
    assert!(p.tags.contains(&"foo".to_owned()));
    assert!(p.tags.contains(&"bar".to_owned()));
    assert!(p.tags.contains(&"baz-2".to_owned()));
    assert!(!p.tags.contains(&"Foo".to_owned()));
    assert_eq!(p.tags.len(), 3);
}

#[test]
fn title_from_heading_sentence_or_placeholder() {
    assert_eq!(Parsed::new("junk\n## The Heading  \nrest").title, "The Heading");
    assert_eq!(Parsed::new("First sentence. Second.").title, "First sentence");
    assert_eq!(Parsed::new("justoneword").title, "Untitled");
    assert_eq!(Parsed::new("").title, "Untitled");
}

#[test]
fn rendered_html_comes_from_markdown() {
    let p = Parsed::new("# Hi\n\nparagraph\n");
    assert!(p.html.contains("<h1"));
    assert!(p.html.contains("paragraph"));
    assert_ne!(p.html, p.source_body);
}

#[test]
fn timestamps_normalize_or_default() {
    let good = "<!---\ntagwiki-page-id: t1\n\
                tagwiki-creation-time: 2020-01-02T03:04:05+00:00\n-->\nbody";
    let p = Parsed::from_full_source(Source(good.to_owned()));
    assert_eq!(p.headers.creation_time, "2020-01-02T03:04:05+00:00");
    let bad = "<!---\ntagwiki-page-id: t2\n\
               tagwiki-creation-time: not-a-time\n-->\nbody";
    let q = Parsed::from_full_source(Source(bad.to_owned()));
    assert_ne!(q.headers.creation_time, "not-a-time");
    assert!(!q.headers.creation_time.is_empty());
}

fn index_with(bodies: &[&str]) -> (Index<InMemoryStore>, Vec<String>) {
    let mut store = InMemoryStore::new();
    let mut ids = Vec::new();
    for b in bodies {
        let p = Parsed::new(b);
        ids.push(p.id().to_owned());
        store.put(&p).unwrap();
    }
    (Index::new(store).unwrap(), ids)
}

fn sorted_ids(infos: &[tagwiki::index::PageInfo]) -> Vec<String> {
    let mut v: Vec<String> = infos.iter().map(|i| i.id.clone()).collect();
    v.sort();
    v
}

#[test]
fn find_empty_query_returns_all_pages() {
    let (ix, mut ids) = index_with(&["# One\n#a", "# Two\n#a #b", "# Three\n#b #c"]);
    let r = ix.find(&Vec::new());
    assert_eq!(r.matching_tags.len(), 0);
    ids.sort();
    assert_eq!(sorted_ids(&r.matching_pages), ids);
}

#[test]
fn find_unknown_first_tag_is_empty() {
    let (ix, _) = index_with(&["# One\n#a"]);
    let r = ix.find(&vec!["unknowntag".to_owned()]);
    assert_eq!(r.matching_pages.len(), 0);
    assert_eq!(r.matching_tags.len(), 0);
}

#[test]
fn find_intersects_tags_in_order() {
    let (ix, ids) = index_with(&["# P1\n#a", "# P2\n#a #b", "# P3\n#a #b", "# P4\n#b"]);
    let r = ix.find(&vec!["a".to_owned(), "b".to_owned()]);
    assert_eq!(r.matching_tags, vec!["a".to_owned(), "b".to_owned()]);
    let mut expect = vec![ids[1].clone(), ids[2].clone()];
    expect.sort();
    assert_eq!(sorted_ids(&r.matching_pages), expect);
}

#[test]
fn find_keeps_prefix_when_later_tag_fails() {
    let (ix, ids) = index_with(&["# P1\n#a", "# P2\n#a", "# P3\n#a", "# P4\n#b"]);
    let r = ix.find(&vec!["a".to_owned(), "z".to_owned()]);
    assert_eq!(r.matching_tags, vec!["a".to_owned()]);
    let mut expect = vec![ids[0].clone(), ids[1].clone(), ids[2].clone()];
    expect.sort();
    assert_eq!(sorted_ids(&r.matching_pages), expect);
    // a valid second tag whose intersection would be empty stops the same way
    let r2 = ix.find(&vec!["a".to_owned(), "b".to_owned()]);
    assert_eq!(r2.matching_tags, vec!["a".to_owned()]);
    assert_eq!(r2.matching_pages.len(), 3);
}

#[test]
fn compact_results_counts_and_orders() {
    let (ix, _) = index_with(&[
        "# Alpha\n#root",
        "# Beta\n#root #left",
        "# Gamma\n#root #left",
        "# Delta\n#root #right",
    ]);
    let r = ix.find(&vec!["root".to_owned()]);
    let c = ix.compact_results(r);
    let tags: Vec<(String, usize)> = c.tags.clone();
    assert_eq!(
        tags,
        vec![("left".to_owned(), 2), ("right".to_owned(), 1)]
    );
    // only the page carrying nothing beyond the query survives, sorted by title
    assert_eq!(c.pages.len(), 1);
    assert_eq!(c.pages[0].title, "Alpha");
}

#[test]
fn put_twice_leaves_index_unchanged() {
    let (mut ix, _) = index_with(&["# One\n#a #b", "# Two\n#a"]);
    let page = ix.find(&vec!["b".to_owned()]).matching_pages[0].id.clone();
    let p = ix.get(&page).unwrap();
    ix.put(&p).unwrap();
    ix.put(&p).unwrap();
    let r = ix.find(&vec!["a".to_owned()]);
    assert_eq!(r.matching_pages.len(), 2);
    let rb = ix.find(&vec!["b".to_owned()]);
    assert_eq!(rb.matching_pages.len(), 1);
    assert_eq!(rb.matching_pages[0].id, page);
}

#[test]
fn retagging_on_put_updates_the_tables() {
    let (mut ix, ids) = index_with(&["# One\n#old"]);
    let p = ix.get(&ids[0]).unwrap();
    let mut p2 = p.with_new_source_body("# One\n#new");
    p2.update_modification_time();
    ix.put(&p2).unwrap();
    assert_eq!(ix.find(&vec!["old".to_owned()]).matching_pages.len(), 0);
    let r = ix.find(&vec!["new".to_owned()]);
    assert_eq!(r.matching_pages.len(), 1);
    assert_eq!(r.matching_pages[0].id, ids[0]);
}

#[test]
fn delete_then_get_fails_not_found() {
    let (mut ix, ids) = index_with(&["# One\n#a", "# Two\n#a"]);
    ix.delete(&ids[0]).unwrap();
    match ix.get(&ids[0]) {
        Err(StoreError::NotFound) => {}
        other => panic!("expected NotFound, got {:?}", other),
    }
    let remaining = ix.iter().unwrap();
    assert!(!remaining.contains(&ids[0]));
    assert!(remaining.contains(&ids[1]));
    let r = ix.find(&vec!["a".to_owned()]);
    assert_eq!(sorted_ids(&r.matching_pages), vec![ids[1].clone()]);
    match ix.delete(&ids[0]) {
        Err(StoreError::NotFound) => {}
        other => panic!("expected NotFound, got {:?}", other),
    }
}

#[test]
fn slugs_collide_into_numbered_paths() {
    let mut cat = FsCatalog::new();
    let p1 = Parsed::new("# Same Title!\n#x");
    let path1 = cat.plan_put(&p1);
    assert_eq!(path1, "Same-Title.md");
    cat.commit_put(&p1, path1.clone());
    let p2 = Parsed::new("# Same Title?\n#y");
    let path2 = cat.plan_put(&p2);
    assert_eq!(path2, "Same-Title-1.md");
    assert_ne!(path1, path2);
    cat.commit_put(&p2, path2.clone());
    let p3 = Parsed::new("# Same Title.\n#z");
    assert_eq!(cat.plan_put(&p3), "Same-Title-2.md");
    // an update to an existing page keeps its file
    assert_eq!(cat.plan_put(&p1), "Same-Title.md");
}

#[test]
fn catalog_load_get_delete() {
    let mut cat = FsCatalog::new();
    let p = Parsed::from_full_source(Source(
        "<!---\ntagwiki-page-id: f1\n-->\n# F\n#tag".to_owned(),
    ));
    cat.record_loaded("F.md".to_owned(), p.clone());
    let got = cat.get(&"f1".to_owned()).unwrap();
    assert_eq!(got.id(), "f1");
    assert_eq!(cat.plan_delete(&"f1".to_owned()).unwrap(), "F.md");
    cat.commit_delete(&"f1".to_owned());
    assert!(cat.get(&"f1".to_owned()).is_none());
    assert_eq!(cat.iter().len(), 0);
}

#[test]
fn temp_paths_never_hit_page_files() {
    let t = temp_path_for("Some-Page.md");
    assert!(t.starts_with("Some-Page.md.tmp."));
    assert_eq!(t.len(), "Some-Page.md".len() + 13);
    assert!(!t.ends_with(".md"));
    assert_ne!(t, "Some-Page.md");
}

#[test]
fn windows_newlines_are_removed() {
    assert_eq!(
        get_rid_of_windows_newlines("a\r\nb\r\nc\n".to_owned()),
        "a\nb\nc\n"
    );
    assert_eq!(get_rid_of_windows_newlines("plain".to_owned()), "plain");
}

#[test]
fn random_ids_are_alphanumeric() {
    let s = tagwiki::util::random_string(16);
    assert_eq!(s.chars().count(), 16);
    assert!(s.chars().all(|c| c.is_ascii_alphanumeric()));
}

#[test]
fn store_error_describes_itself() {
    assert_eq!(StoreError::NotFound.describe(), "not found");
    assert_eq!(
        StoreError::IoFailure("disk full".to_owned()).describe(),
        "disk full"
    );
}
