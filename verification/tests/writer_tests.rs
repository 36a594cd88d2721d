use gitbutler_core::json::{serialize_deltas, Delta, Operation};
use gitbutler_core::writer::{DeltasWriter, Session, WriterError};

fn session() -> Session {
    Session {
        deltas_dir: "/project/.git/gitbutler/session/deltas".to_string(),
    }
}

fn batch(texts: &[&str]) -> Vec<Delta> {
    texts
        .iter()
        .enumerate()
        .map(|(i, t)| Delta {
            operations: vec![Operation::Insert {
                offset: i as u64,
                text: t.to_string(),
            }],
            timestamp_ms: i as u64,
        })
        .collect()
}

#[test]
fn writer_requires_a_session() {
    assert!(matches!(
        DeltasWriter::new(None),
        Err(WriterError::SessionNotAvailable)
    ));
    assert!(DeltasWriter::new(Some(session())).is_ok());
}

#[test]
fn write_stores_serialized_batch_at_path() {
    let mut w = DeltasWriter::new(Some(session())).unwrap();
    let deltas = batch(&["one", "two"]);
    let blob = w.write(&"a/b".to_string(), &deltas);
    assert_eq!(blob, serialize_deltas(&deltas));
    let stored = w.content_at(&"a/b".to_string()).unwrap();
    assert_eq!(stored, &blob);
}

#[test]
fn write_replaces_previous_content() {
    // write(a/b, [d1, d2]) then write(a/b, [d3]): only d3 remains
    let mut w = DeltasWriter::new(Some(session())).unwrap();
    let first = batch(&["d1", "d2"]);
    let second = batch(&["d3"]);
    w.write(&"a/b".to_string(), &first);
    w.write(&"a/b".to_string(), &second);
    let stored = w.content_at(&"a/b".to_string()).unwrap();
    assert_eq!(stored, &serialize_deltas(&second));
    assert_ne!(stored, &serialize_deltas(&first));
}

#[test]
fn writes_to_distinct_paths_are_independent() {
    let mut w = DeltasWriter::new(Some(session())).unwrap();
    let one = batch(&["one"]);
    let two = batch(&["two"]);
    w.write(&"a/b".to_string(), &one);
    w.write(&"a/c".to_string(), &two);
    assert_eq!(
        w.content_at(&"a/b".to_string()).unwrap(),
        &serialize_deltas(&one)
    );
    assert_eq!(
        w.content_at(&"a/c".to_string()).unwrap(),
        &serialize_deltas(&two)
    );
}

#[test]
fn unwritten_path_has_no_content() {
    let mut w = DeltasWriter::new(Some(session())).unwrap();
    assert!(w.content_at(&"a/b".to_string()).is_none());
    w.write(&"a/b".to_string(), &batch(&["x"]));
    assert!(w.content_at(&"a".to_string()).is_none());
    assert!(w.content_at(&"b".to_string()).is_none());
}
