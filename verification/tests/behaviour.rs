use doxsync::consumer::Consumer;
use doxsync::document::Document;
use doxsync::error::ErrorKind;
use doxsync::message::{Message, PackedMessage};
use doxsync::patch::{Action, Path};
use doxsync::producer::Producer;
use doxsync::value::Value;

fn integer(v: i128) -> Value {
    Value::integer(v).unwrap()
}

fn text(s: &str) -> Value {
    Value::tstr(s.to_string()).unwrap()
}

fn boolean(b: bool) -> Value {
    Value::bool(b).unwrap()
}

fn null() -> Value {
    Value::null().unwrap()
}

fn array(items: Vec<Value>) -> Value {
    Value::array(items).unwrap()
}

fn map(entries: Vec<(&str, Value)>) -> Value {
    Value::map(entries.into_iter().map(|(k, v)| (k.to_string(), v)).collect()).unwrap()
}

fn path(text: &str) -> Path {
    Path::parse(text).unwrap()
}

/// A producer and a consumer that both hold `doc`.
fn synced(doc: Value) -> (Producer, Consumer) {
    let mut producer = Producer::new(Document::new(doc), &[1]).unwrap();
    let mut consumer = Consumer::new();
    let packed = producer.produce_diff().unwrap().unwrap();
    consumer.consume_diff(packed).unwrap();
    (producer, consumer)
}

/// Packs `actions` with the producer's pools and hands them to the consumer.
fn send(producer: &mut Producer, consumer: &mut Consumer, actions: Vec<Action>) -> doxsync::error::Result<()> {
    let packed = producer.pack_diff(Message::new(actions)).unwrap();
    consumer.consume_diff(packed)
}

#[test]
fn consumer_follows_producer_through_updates() {
    let documents = vec![
        map(vec![
            ("a", integer(1)),
            ("list", array(vec![integer(1), integer(2), integer(3)])),
            ("nested", map(vec![("x", map(vec![("y", text("z"))]))])),
        ]),
        map(vec![
            ("a", integer(2)),
            ("list", array(vec![integer(1), integer(2)])),
            ("nested", map(vec![("x", map(vec![("y", text("w"))]))])),
            ("b", array(vec![boolean(true)])),
        ]),
        map(vec![
            ("list", array(vec![integer(1), integer(2), integer(3), integer(4), integer(5)])),
            (
                "nested",
                map(vec![("x", map(vec![("y", text("w"))])), ("copy", map(vec![("y", text("w"))]))]),
            ),
            ("b", array(vec![boolean(false), null()])),
        ]),
        array(vec![integer(1), integer(2), map(vec![("k", text("v"))])]),
        array(vec![map(vec![("k", text("v"))]), integer(2)]),
        text("text"),
        map(vec![("a", map(vec![("b", map(vec![("c", array(vec![integer(1), array(vec![integer(2), integer(3)])]))]))]))]),
        map(vec![("a", map(vec![("b", map(vec![("c", array(vec![integer(1)]))]))]))]),
    ];
    let mut producer = Producer::new(Document::new(documents[0].clone()), &[1]).unwrap();
    let mut consumer = Consumer::new();
    for doc in documents {
        producer.replace(Document::new(doc.clone()));
        let packed = producer.produce_diff().unwrap().unwrap();
        consumer.consume_diff(packed).unwrap();
        assert_eq!(consumer.document().unwrap().value(), doc);
    }
}

#[test]
fn produce_diff_without_change_gives_nothing() {
    let doc = map(vec![("a", integer(1))]);
    let (mut producer, _consumer) = synced(doc.clone());
    assert!(producer.produce_diff().unwrap().is_none());
    producer.replace(Document::new(doc));
    assert!(producer.produce_diff().unwrap().is_none());
    assert!(producer.produce_diff_unpacked().unwrap().is_none());
}

#[test]
fn produce_diff_unpacked_advances_the_baseline() {
    let (mut producer, mut consumer) = synced(map(vec![("a", integer(1))]));
    producer.replace(Document::new(map(vec![("a", integer(2))])));
    let message = producer.produce_diff_unpacked().unwrap().unwrap();
    assert_eq!(message.actions(), &[Action::Add { path: path("a"), value: integer(2) }]);
    assert!(producer.produce_diff_unpacked().unwrap().is_none());
    let packed = producer.pack_diff(message).unwrap();
    consumer.consume_diff(packed).unwrap();
    assert_eq!(consumer.document().unwrap().value(), map(vec![("a", integer(2))]));
}

#[test]
fn invalid_message_leaves_consumer_unchanged() {
    let doc = map(vec![("a", integer(1)), ("b", text("x"))]);
    let (mut producer, mut consumer) = synced(doc.clone());
    for bytes in [vec![], vec![0x00], vec![0x00, 0x01, 0x07], vec![0x00, 0x01, 0x00, 0x0c, 0x2a, 0x00]] {
        let err = consumer.consume_diff(PackedMessage::from_bytes(&bytes)).unwrap_err();
        assert_eq!(err.kind(), ErrorKind::InvalidData);
        assert_eq!(consumer.document().unwrap().value(), doc);
    }
    producer.replace(Document::new(map(vec![("a", integer(2)), ("b", text("x"))])));
    let packed = producer.produce_diff().unwrap().unwrap();
    consumer.consume_diff(packed).unwrap();
    assert_eq!(consumer.document().unwrap().value(), map(vec![("a", integer(2)), ("b", text("x"))]));
}

#[test]
fn first_message_must_be_a_snapshot() {
    let mut producer = Producer::new(Document::new(integer(1)), &[1]).unwrap();
    let mut consumer = Consumer::new();
    let err = send(&mut producer, &mut consumer, vec![Action::Add { path: path("a"), value: integer(1) }]).unwrap_err();
    assert_eq!(err.kind(), ErrorKind::InvalidData);
    assert!(consumer.document().is_none());
    let err = send(&mut producer, &mut consumer, vec![]).unwrap_err();
    assert_eq!(err.kind(), ErrorKind::InvalidData);
    assert!(consumer.document().is_none());
}

#[test]
fn copy_to_the_root_replaces_the_document() {
    let (mut producer, mut consumer) = synced(map(vec![("foo", integer(42))]));
    send(&mut producer, &mut consumer, vec![Action::Copy { path: Path::empty(), from: path("foo") }]).unwrap();
    assert_eq!(consumer.document().unwrap().value(), integer(42));
}

#[test]
fn copy_reads_the_document_before_the_message() {
    let (mut producer, mut consumer) = synced(map(vec![("a", integer(1))]));
    send(
        &mut producer,
        &mut consumer,
        vec![
            Action::Add { path: path("a"), value: integer(2) },
            Action::Copy { path: path("b"), from: path("a") },
        ],
    )
    .unwrap();
    assert_eq!(consumer.document().unwrap().value(), map(vec![("a", integer(2)), ("b", integer(1))]));
}

#[test]
fn array_edits_insert_replace_and_delete() {
    let (mut producer, mut consumer) = synced(map(vec![("l", array(vec![integer(1), integer(3)]))]));
    send(&mut producer, &mut consumer, vec![Action::Add { path: path("l.1"), value: integer(2) }]).unwrap();
    assert_eq!(consumer.document().unwrap().value(), map(vec![("l", array(vec![integer(1), integer(2), integer(3)]))]));
    send(&mut producer, &mut consumer, vec![Action::replace(path("l.0"), integer(9))]).unwrap();
    assert_eq!(consumer.document().unwrap().value(), map(vec![("l", array(vec![integer(9), integer(2), integer(3)]))]));
    send(&mut producer, &mut consumer, vec![Action::Delete { path: path("l.1") }]).unwrap();
    assert_eq!(consumer.document().unwrap().value(), map(vec![("l", array(vec![integer(9), integer(3)]))]));
    send(&mut producer, &mut consumer, vec![Action::Replace { path: Path::empty(), value: integer(7) }]).unwrap();
    assert_eq!(consumer.document().unwrap().value(), integer(7));
}

#[test]
fn failing_actions_leave_the_document_unchanged() {
    let doc = || map(vec![("a", integer(1)), ("l", array(vec![integer(1)]))]);
    let cases: Vec<(Action, ErrorKind)> = vec![
        (Action::Delete { path: path("missing") }, ErrorKind::InvalidData),
        (Action::Add { path: path("a.b"), value: integer(1) }, ErrorKind::UnexpectedType),
        (Action::Add { path: path("x.y"), value: integer(1) }, ErrorKind::InvalidData),
        (Action::Add { path: path("l.5"), value: integer(1) }, ErrorKind::InvalidData),
        (Action::Add { path: path("l.a"), value: integer(1) }, ErrorKind::UnexpectedType),
        (Action::Replace { path: path("missing"), value: integer(1) }, ErrorKind::InvalidData),
        (Action::Delete { path: Path::empty() }, ErrorKind::InvalidData),
        (Action::Add { path: Path::empty(), value: integer(1) }, ErrorKind::InvalidData),
        (Action::Copy { path: path("c"), from: path("missing") }, ErrorKind::InvalidData),
        (Action::Copy { path: path("c"), from: path("a.b") }, ErrorKind::UnexpectedType),
    ];
    for (action, kind) in cases {
        let (mut producer, mut consumer) = synced(doc());
        let err = send(&mut producer, &mut consumer, vec![action]).unwrap_err();
        assert_eq!(err.kind(), kind);
        assert_eq!(consumer.document().unwrap().value(), doc());
    }
}

#[test]
fn producer_needs_a_common_protocol() {
    match Producer::new(Document::new(integer(1)), &[2, 3]) {
        Err(err) => assert_eq!(err.kind(), ErrorKind::InvalidData),
        Ok(_) => panic!("no common protocol"),
    }
    match Producer::new(Document::new(integer(1)), &[]) {
        Err(err) => assert_eq!(err.kind(), ErrorKind::InvalidData),
        Ok(_) => panic!("no common protocol"),
    }
    assert!(Producer::new(Document::new(integer(1)), &[2, 1]).is_ok());
}

#[test]
fn documents_compare_by_content() {
    let a = Document::new(map(vec![("x", integer(1)), ("y", integer(2))]));
    let b = Document::new(map(vec![("y", integer(2)), ("x", integer(1))]));
    let c = Document::new(map(vec![("x", integer(1))]));
    assert_eq!(a, b);
    assert_ne!(a, c);
    assert_eq!(a.clone(), a);
}

#[test]
fn document_modify_builds_a_new_document() {
    let doc = Document::new(integer(1));
    let changed = doc
        .modify(|v| {
            *v = integer(2);
            Ok(())
        })
        .unwrap();
    assert_eq!(changed.value(), integer(2));
    assert_eq!(doc.value(), integer(1));
    let err = doc
        .modify(|_| Err(doxsync::error::Error::new(ErrorKind::InvalidData, "no")))
        .unwrap_err();
    assert_eq!(err.kind(), ErrorKind::InvalidData);
}

#[test]
fn first_message_declares_the_protocol() {
    let mut producer = Producer::new(Document::new(integer(42)), &[1]).unwrap();
    let first = producer.produce_diff().unwrap().unwrap();
    assert_eq!(first.bytes(), &[0x01, 0x02, 0x01, 0x01, 0x00, 0x0c, 0x2a][..]);
    let mut consumer = Consumer::new();
    consumer.consume_diff(first).unwrap();
    producer.replace(Document::new(integer(43)));
    let second = producer.produce_diff().unwrap().unwrap();
    assert_eq!(second.bytes()[0], 0x00);
    consumer.consume_diff(second).unwrap();
    assert_eq!(consumer.document().unwrap().value(), integer(43));
}

#[test]
fn consumer_requires_the_declaration_once() {
    let mut consumer = Consumer::new();
    for bytes in [
        vec![0x00, 0x01, 0x00, 0x0c, 0x2a],
        vec![0x01, 0x02, 0x02, 0x01, 0x00, 0x0c, 0x2a],
        vec![0x01, 0x00, 0x00, 0x01, 0x00, 0x0c, 0x2a],
    ] {
        let err = consumer.consume_diff(PackedMessage::from_bytes(&bytes)).unwrap_err();
        assert_eq!(err.kind(), ErrorKind::InvalidData);
        assert!(consumer.document().is_none());
    }
    consumer.consume_diff(PackedMessage::from_bytes(&[0x01, 0x02, 0x01, 0x01, 0x00, 0x0c, 0x2a])).unwrap();
    assert_eq!(consumer.document().unwrap().value(), integer(42));
    let repeated = [0x01, 0x02, 0x01, 0x01, 0x00, 0x0c, 0x2b];
    let err = consumer.consume_diff(PackedMessage::from_bytes(&repeated)).unwrap_err();
    assert_eq!(err.kind(), ErrorKind::InvalidData);
    consumer.consume_diff(PackedMessage::from_bytes(&[0x00, 0x01, 0x00, 0x0c, 0x2b])).unwrap();
    assert_eq!(consumer.document().unwrap().value(), integer(43));
}

#[test]
fn failed_first_message_keeps_the_declaration_pending() {
    let mut producer = Producer::new(Document::new(integer(1)), &[1]).unwrap();
    let too_many: Vec<Action> = (0..65536).map(|_| Action::Delete { path: path("a") }).collect();
    assert!(producer.pack_diff(Message::new(too_many)).is_err());
    let packed = producer.produce_diff().unwrap().unwrap();
    assert_eq!(&packed.bytes()[..3], &[0x01, 0x02, 0x01][..]);
}
