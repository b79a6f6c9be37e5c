use wikirdf::index::PageIndex;
use wikirdf::pages::Page;
use wikirdf::pages::PageError;
use wikirdf::links::LinkError;
use wikirdf::pipeline::is_insert_line;
use wikirdf::pipeline::link_line_to_triples;
use wikirdf::pipeline::page_line_to_triples;
use wikirdf::pipeline::producer_step;
use wikirdf::pipeline::BoundedQueue;
use wikirdf::pipeline::ProducerAction;
use wikirdf::pipeline::ReadEvent;

fn page_values(id: u64, ns: u32, title: &str) -> String {
    format!("({},{},'{}',0,0,0,0,0,0,0,0,0,0)", id, ns, title)
}

#[test]
fn producer_forwards_only_insert_lines() {
    assert!(is_insert_line("INSERT INTO page VALUES (1);"));
    assert!(!is_insert_line("-- comment"));
    assert!(!is_insert_line("INSERT"));
    match producer_step(ReadEvent::Line("INSERT INTO x;".to_string()), false) {
        ProducerAction::Forward(l) => assert_eq!(l, "INSERT INTO x;"),
        _ => panic!("a matching line must be forwarded"),
    }
    assert!(matches!(
        producer_step(ReadEvent::Line("CREATE TABLE x;".to_string()), false),
        ProducerAction::Skip
    ));
    assert!(matches!(producer_step(ReadEvent::ReadFailure, false), ProducerAction::Abort));
    assert!(matches!(producer_step(ReadEvent::ReadFailure, true), ProducerAction::Skip));
    assert!(matches!(producer_step(ReadEvent::Exhausted, false), ProducerAction::Finish));
}

#[test]
fn page_stage_serializes_rows_in_order() {
    let line = format!(
        "INSERT INTO page VALUES {},{};",
        page_values(1, 0, "A"),
        page_values(2, 0, "B")
    );
    let (triples, err) = page_line_to_triples(line, false);
    assert_eq!(err, None);
    assert_eq!(
        triples,
        vec![
            "<1> <namespace> \"0\" .\n<1> <title> \"A\" .".to_string(),
            "<2> <namespace> \"0\" .\n<2> <title> \"B\" .".to_string(),
        ]
    );
}

#[test]
fn page_stage_applies_the_namespace_filter() {
    let line = format!(
        "INSERT INTO page VALUES {},{};",
        page_values(1, 4, "Meta"),
        page_values(2, 0, "Kept")
    );
    let (triples, err) = page_line_to_triples(line.clone(), true);
    assert_eq!(err, None);
    assert_eq!(triples, vec!["<2> <namespace> \"0\" .\n<2> <title> \"Kept\" .".to_string()]);
    let (all, _) = page_line_to_triples(line, false);
    assert_eq!(all.len(), 2);
}

#[test]
fn page_stage_aborts_on_a_short_row_even_when_ignoring_errors() {
    // The ignore-errors mode covers only raw read failures, never decode
    // failures: a 12-field row is fatal, whatever the mode.
    let line = "INSERT INTO page VALUES (1,0,'A',0,0,0,0,0,0,0,0,0);".to_string();
    let (triples, err) = page_line_to_triples(line, false);
    assert_eq!(triples, Vec::<String>::new());
    assert_eq!(err, Some(PageError::FieldCount));
    assert!(matches!(producer_step(ReadEvent::ReadFailure, true), ProducerAction::Skip));
}

#[test]
fn page_stage_keeps_triples_sent_before_the_error() {
    let line = format!("INSERT INTO page VALUES {},(2,0);", page_values(1, 0, "A"));
    let (triples, err) = page_line_to_triples(line, false);
    assert_eq!(triples, vec!["<1> <namespace> \"0\" .\n<1> <title> \"A\" .".to_string()]);
    assert_eq!(err, Some(PageError::FieldCount));
}

#[test]
fn link_stage_drops_unresolved_rows_and_keeps_going() {
    let mut index = PageIndex::new();
    index.insert(Page { pageid: 10, namespace: 0, title: "X".to_string() });
    index.insert(Page { pageid: 20, namespace: 0, title: "Foo Bar".to_string() });
    let line =
        "INSERT INTO pagelinks VALUES (10,0,'Absent',0),(10,0,'Foo_Bar',0),(99,0,'X',0);"
            .to_string();
    let (triples, err) = link_line_to_triples(&index, line);
    assert_eq!(err, None);
    assert_eq!(triples, vec!["<10> <linksto> <20> .".to_string()]);
}

#[test]
fn link_stage_aborts_on_schema_errors() {
    let mut index = PageIndex::new();
    index.insert(Page { pageid: 10, namespace: 0, title: "X".to_string() });
    let line = "INSERT INTO pagelinks VALUES (10,0,'X',0),(10,0);".to_string();
    let (triples, err) = link_line_to_triples(&index, line);
    assert_eq!(triples, vec!["<10> <linksto> <10> .".to_string()]);
    assert_eq!(err, Some(LinkError::FieldCount));
}

#[test]
fn bounded_queue_blocks_the_producer_at_capacity() {
    let mut q = BoundedQueue::with_capacity(3);
    assert_eq!(q.try_push("a".to_string()), None);
    assert_eq!(q.try_push("b".to_string()), None);
    assert_eq!(q.try_push("c".to_string()), None);
    assert_eq!(q.len(), 3);
    // The fourth line is refused and handed back: the producer must wait.
    assert_eq!(q.try_push("d".to_string()), Some("d".to_string()));
    assert_eq!(q.len(), 3);
    // Once the decoder drains one line, the producer makes progress again.
    assert_eq!(q.pop_front(), Some("a".to_string()));
    assert_eq!(q.try_push("d".to_string()), None);
    assert_eq!(q.len(), 3);
    assert_eq!(q.pop_front(), Some("b".to_string()));
    assert_eq!(q.pop_front(), Some("c".to_string()));
    assert_eq!(q.pop_front(), Some("d".to_string()));
    assert_eq!(q.pop_front(), None);
}
