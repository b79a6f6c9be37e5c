use wikirdf::index::PageIndex;
use wikirdf::links::Link;
use wikirdf::links::LinkError;
use wikirdf::pages::pages_from_rdf;
use wikirdf::pages::Page;
use wikirdf::pages::PageError;
use wikirdf::utils::clean_title;
use wikirdf::utils::parse_u32;
use wikirdf::utils::parse_u64;
use wikirdf::utils::u64_to_string;

fn row(fields: &[&str]) -> Vec<String> {
    fields.iter().map(|f| f.to_string()).collect()
}

fn page_row(id: &str, ns: &str, title: &str) -> Vec<String> {
    let mut r = vec![id.to_string(), ns.to_string(), title.to_string()];
    for _ in 0..10 {
        r.push("0".to_string());
    }
    r
}

#[test]
fn clean_title_normalizes() {
    assert_eq!(clean_title(&"Foo_Bar".to_string()), "Foo Bar");
    assert_eq!(clean_title(&r"a\c".to_string()), "ac");
    assert_eq!(clean_title(&"a\"b".to_string()), "a\\\"b");
    assert_eq!(clean_title(&String::new()), "");
}

#[test]
fn parsing_decimal_fields() {
    assert_eq!(parse_u64(&"123".to_string()), Some(123));
    assert_eq!(parse_u64(&"0".to_string()), Some(0));
    assert_eq!(parse_u64(&"18446744073709551615".to_string()), Some(u64::MAX));
    assert_eq!(parse_u64(&"18446744073709551616".to_string()), None);
    assert_eq!(parse_u64(&String::new()), None);
    assert_eq!(parse_u64(&"12a".to_string()), None);
    assert_eq!(parse_u64(&"-1".to_string()), None);
    assert_eq!(parse_u32(&"4294967295".to_string()), Some(u32::MAX));
    assert_eq!(parse_u32(&"4294967296".to_string()), None);
    assert_eq!(u64_to_string(0), "0");
    assert_eq!(u64_to_string(9070), "9070");
}

#[test]
fn page_scenario_decodes_and_serializes() {
    let page = Page::from_sql(page_row("10", "0", "Foo_Bar")).unwrap();
    assert_eq!(page.pageid, 10);
    assert_eq!(page.namespace, 0);
    assert_eq!(page.title, "Foo Bar");
    assert_eq!(page.to_rdf(), "<10> <namespace> \"0\" .\n<10> <title> \"Foo Bar\" .");
}

#[test]
fn page_row_with_wrong_width_is_fatal() {
    let mut r = page_row("10", "0", "Foo_Bar");
    r.pop();
    assert_eq!(r.len(), 12);
    assert_eq!(Page::from_sql(r).err(), Some(PageError::FieldCount));
}

#[test]
fn page_row_with_bad_integers_is_fatal() {
    assert_eq!(Page::from_sql(page_row("x", "0", "T")).err(), Some(PageError::FieldParse));
    assert_eq!(Page::from_sql(page_row("1", "ns", "T")).err(), Some(PageError::FieldParse));
}

#[test]
fn escaped_quote_decodes_to_literal_quote() {
    let page = Page::from_sql(page_row("1", "0", r"Foo\'Bar")).unwrap();
    assert_eq!(page.title, "Foo'Bar");
    // A backslash before any other character is dropped.
    let page = Page::from_sql(page_row("1", "0", r"a\zb")).unwrap();
    assert_eq!(page.title, "azb");
}

#[test]
fn page_round_trip_through_rdf() {
    let page = Page::from_sql(page_row("9070", "4", "Tricky_\"title\"_.")).unwrap();
    let rdf = page.to_rdf();
    let lines: Vec<String> = rdf.split('\n').map(|l| l.to_string()).collect();
    assert_eq!(lines.len(), 2);
    let back = Page::from_rdf(lines).unwrap();
    assert_eq!(back.pageid, page.pageid);
    assert_eq!(back.namespace, page.namespace);
    assert_eq!(back.title, page.title);
}

#[test]
fn from_rdf_skips_comments_and_blank_lines() {
    let lines = row(&[
        "# a comment",
        "",
        "<10> <namespace> \"0\" .",
        "<10> <title> \"Foo Bar\" .",
    ]);
    let page = Page::from_rdf(lines).unwrap();
    assert_eq!((page.pageid, page.namespace, page.title.as_str()), (10, 0, "Foo Bar"));
}

#[test]
fn from_rdf_accepts_title_line_first() {
    let lines = row(&["<3> <title> \"T\" .", "<3> <namespace> \"7\" ."]);
    let page = Page::from_rdf(lines).unwrap();
    assert_eq!((page.pageid, page.namespace, page.title.as_str()), (3, 7, "T"));
}

#[test]
fn from_rdf_rejects_mismatched_ids() {
    let lines = row(&["<10> <namespace> \"0\" .", "<11> <title> \"T\" ."]);
    assert_eq!(Page::from_rdf(lines).err(), Some(PageError::MalformedTripleFile));
}

#[test]
fn from_rdf_rejects_short_input() {
    assert_eq!(Page::from_rdf(vec![]).err(), Some(PageError::MalformedTripleFile));
    let lines = row(&["<10> <namespace> \"0\" ."]);
    assert_eq!(Page::from_rdf(lines).err(), Some(PageError::MalformedTripleFile));
}

#[test]
fn from_rdf_rejects_lines_without_triple_shape() {
    let lines = row(&["<10> <namespace> \"0\" .", "not a triple"]);
    assert_eq!(Page::from_rdf(lines).err(), Some(PageError::MalformedTripleFile));
}

#[test]
fn index_lookup_and_known_ids() {
    let mut index = PageIndex::new();
    index.insert(Page { pageid: 10, namespace: 0, title: "X".to_string() });
    index.insert(Page { pageid: 20, namespace: 0, title: "Foo Bar".to_string() });
    assert_eq!(index.len(), 2);
    assert!(index.contains_id(10));
    assert!(index.contains_id(20));
    assert!(!index.contains_id(30));
    let hit = index.lookup(&"Foo Bar".to_string(), 0).unwrap();
    assert_eq!(hit.pageid, 20);
    assert!(index.lookup(&"Foo Bar".to_string(), 1).is_none());
    assert!(index.lookup(&"Missing".to_string(), 0).is_none());
}

#[test]
fn index_last_write_wins() {
    let mut index = PageIndex::new();
    index.insert(Page { pageid: 1, namespace: 0, title: "T".to_string() });
    index.insert(Page { pageid: 2, namespace: 0, title: "T".to_string() });
    assert_eq!(index.len(), 1);
    assert_eq!(index.lookup(&"T".to_string(), 0).unwrap().pageid, 2);
    // The overwritten page's id is no longer known.
    assert!(!index.contains_id(1));
    assert!(index.contains_id(2));
}

#[test]
fn pages_from_rdf_builds_the_index() {
    let lines = row(&[
        "# pages",
        "<10> <namespace> \"0\" .",
        "<10> <title> \"X\" .",
        "",
        "<20> <namespace> \"0\" .",
        "<20> <title> \"Foo Bar\" .",
    ]);
    let index = pages_from_rdf(lines).unwrap();
    assert_eq!(index.len(), 2);
    assert!(index.contains_id(10));
    assert_eq!(index.lookup(&"Foo Bar".to_string(), 0).unwrap().pageid, 20);
}

#[test]
fn pages_from_rdf_rejects_a_leftover_line() {
    let lines = row(&["<10> <namespace> \"0\" .", "<10> <title> \"X\" .", "<11> <namespace> \"0\" ."]);
    assert_eq!(pages_from_rdf(lines).err(), Some(PageError::MalformedTripleFile));
}

#[test]
fn link_scenario_resolves_and_serializes() {
    let mut index = PageIndex::new();
    index.insert(Page { pageid: 10, namespace: 0, title: "X".to_string() });
    index.insert(Page { pageid: 20, namespace: 0, title: "Foo Bar".to_string() });
    let link = Link::from_sql(&index, row(&["10", "0", "Foo_Bar", "0"])).unwrap();
    assert_eq!(link, Link { from_id: 10, to_id: 20 });
    assert_eq!(link.to_rdf(), "<10> <linksto> <20> .");
}

#[test]
fn link_errors_by_kind() {
    let mut index = PageIndex::new();
    index.insert(Page { pageid: 10, namespace: 0, title: "X".to_string() });
    // Wrong width is fatal.
    assert_eq!(Link::from_sql(&index, row(&["10", "0", "X"])), Err(LinkError::FieldCount));
    // Unparseable integers are fatal.
    assert_eq!(Link::from_sql(&index, row(&["a", "0", "X", "0"])), Err(LinkError::FieldParse));
    assert_eq!(Link::from_sql(&index, row(&["10", "b", "X", "0"])), Err(LinkError::FieldParse));
    // An unknown source id or an unresolved destination is recoverable.
    assert_eq!(
        Link::from_sql(&index, row(&["99", "0", "X", "0"])),
        Err(LinkError::ReferenceNotFound)
    );
    assert_eq!(
        Link::from_sql(&index, row(&["10", "0", "Absent", "0"])),
        Err(LinkError::ReferenceNotFound)
    );
    // The destination title is normalized before the lookup.
    assert_eq!(
        Link::from_sql(&index, row(&["10", "0", "X", "0"])),
        Ok(Link { from_id: 10, to_id: 10 })
    );
}
