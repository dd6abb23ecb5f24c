use doxsync::consumer::Consumer;
use doxsync::document::Document;
use doxsync::patch::{Action, Path};
use doxsync::producer::cost::CostSession;
use doxsync::producer::differ::Differ;
use doxsync::producer::Producer;
use doxsync::state::producer_state::ProducerState;
use doxsync::value::Value;

fn integer(v: i128) -> Value {
    Value::integer(v).unwrap()
}

fn float(v: f64) -> Value {
    Value::float_bits(v.to_bits()).unwrap()
}

fn text(s: &str) -> Value {
    Value::tstr(s.to_string()).unwrap()
}

fn boolean(b: bool) -> Value {
    Value::bool(b).unwrap()
}

fn null() -> Value {
    Value::null().unwrap()
}

fn array(items: Vec<Value>) -> Value {
    Value::array(items).unwrap()
}

fn map(entries: Vec<(&str, Value)>) -> Value {
    Value::map(entries.into_iter().map(|(k, v)| (k.to_string(), v)).collect()).unwrap()
}

fn path(text: &str) -> Path {
    Path::parse(text).unwrap()
}

fn snapshot(value: Value) -> Action {
    Action::snapshot(value)
}

fn add(p: &str, value: Value) -> Action {
    Action::add(path(p), value)
}

fn delete(p: &str) -> Action {
    Action::delete(path(p))
}

fn copy(p: Path, from: &str) -> Action {
    Action::copy(p, path(from))
}

fn assert_diff_plan(old: &Document, new: &Document, expected: Vec<Action>) {
    let state = ProducerState::new();
    let mut txn = state.txn();
    let mut cost = CostSession::new(&txn);
    let differ = Differ::new(old);
    differ.diff(&mut cost, &mut txn, new).unwrap();
    assert_eq!(cost.into_actions(), expected);
}

#[test]
fn test_choose_best_diff_plan() {
    // Case 1:
    let old = Document::new(integer(1));
    let new = Document::new(integer(2));
    assert_diff_plan(&old, &new, vec![snapshot(integer(2))]);

    // Case 2: changes in a complex map use individual add and delete actions.
    let old = Document::new(map(vec![
        ("config", map(vec![("region", text("us-east-1")), ("replicas", integer(2))])),
        ("obsolete", array(vec![integer(1), integer(2)])),
        ("stable", text(&"stable-payload".repeat(8))),
        ("version", integer(1)),
    ]));
    let new = Document::new(map(vec![
        (
            "config",
            map(vec![
                ("flags", array(vec![boolean(true), null()])),
                ("region", text("eu-west-1")),
                ("replicas", integer(3)),
            ]),
        ),
        ("features", map(vec![("audit", boolean(true)), ("search", boolean(false))])),
        ("stable", text(&"stable-payload".repeat(8))),
        ("version", integer(1)),
    ]));
    assert_diff_plan(
        &old,
        &new,
        vec![
            add("config.flags", array(vec![boolean(true), null()])),
            add("config.region", text("eu-west-1")),
            add("config.replicas", integer(3)),
            add("features", map(vec![("audit", boolean(true)), ("search", boolean(false))])),
            delete("obsolete"),
        ],
    );

    // Case 3: maps keep using recursive diffs when many entries change.
    let old = Document::new(map(vec![
        ("a", boolean(false)),
        ("b", integer(1)),
        ("c", text("old")),
        ("d", null()),
    ]));
    let new = Document::new(map(vec![("a", boolean(true)), ("b", float(2.0)), ("e", boolean(false))]));
    assert_diff_plan(
        &old,
        &new,
        vec![
            add("a", boolean(true)),
            add("b", float(2.0)),
            add("e", boolean(false)),
            delete("c"),
            delete("d"),
        ],
    );

    // Case 4: a changed scalar map entry uses an add action.
    let old = Document::new(map(vec![("id", boolean(false))]));
    let new = Document::new(map(vec![("id", boolean(true))]));
    assert_diff_plan(&old, &new, vec![add("id", boolean(true))]);

    // Case 5: an unchanged complex map produces no actions.
    let complex = || {
        map(vec![
            ("items", array(vec![map(vec![("id", integer(1))]), map(vec![("id", integer(2))])])),
            ("metadata", map(vec![("enabled", boolean(true)), ("owner", text("doxsync"))])),
        ])
    };
    let old = Document::new(complex());
    let new = Document::new(complex());
    assert_diff_plan(&old, &new, vec![]);

    // Case 6: Support copy from array.
    let old = Document::new(map(vec![(
        "a",
        array(vec![map(vec![("id", integer(1))]), map(vec![("id", integer(2))])]),
    )]));
    let new = Document::new(map(vec![
        ("a", array(vec![map(vec![("id", integer(1))]), map(vec![("id", integer(2))])])),
        ("b", map(vec![("id", integer(1))])),
    ]));
    assert_diff_plan(&old, &new, vec![copy(path("b"), "a.0")]);
}

#[test]
fn test_produce_then_consume_001() {
    let initial_document = Document::new(integer(42));
    let mut producer = Producer::new(initial_document.clone(), &[1]).unwrap();
    let mut consumer = Consumer::new();

    let diff = producer.produce_diff_unpacked().unwrap().unwrap();
    assert_eq!(diff.actions(), &[snapshot(integer(42))]);
    let diff = producer.pack_diff(diff).unwrap();
    consumer.consume_diff(diff).unwrap();
    let consumer_document = consumer.document().unwrap();
    assert_eq!(*consumer_document, initial_document);

    let updated_document = Document::new(integer(43));
    producer.replace(updated_document.clone());
    let diff = producer.produce_diff_unpacked().unwrap().unwrap();
    assert_eq!(diff.actions(), &[snapshot(integer(43))]);
    let diff = producer.pack_diff(diff).unwrap();
    consumer.consume_diff(diff).unwrap();
    let consumer_document = consumer.document().unwrap();
    assert_eq!(*consumer_document, updated_document);

    producer.replace(Document::new(integer(-42)));
    producer.replace(Document::new(float(3.1415926)));
    let diff = producer.produce_diff_unpacked().unwrap().unwrap();
    assert_eq!(diff.actions(), &[snapshot(float(3.1415926))]);
    let diff = producer.pack_diff(diff).unwrap();
    consumer.consume_diff(diff).unwrap();
    let consumer_document = consumer.document().unwrap();
    assert_eq!(*consumer_document, Document::new(float(3.1415926)));
}


#[test]
fn cost_of_selected_actions_is_their_packed_length() {
    let state = ProducerState::new();
    let mut txn = state.txn();
    let mut cost = CostSession::new(&txn);
    cost.append(&mut txn, snapshot(map(vec![("answer", integer(42)), ("pi", integer(3))]))).unwrap();
    cost.append(&mut txn, add("answer", integer(43))).unwrap();
    let measured = cost.encoded_len(&mut txn).unwrap();
    let actions = cost.into_actions();
    let mut other = ProducerState::new().txn();
    let packed = doxsync::message::Message::new(actions).encode(&mut other).unwrap();
    assert_eq!(measured, packed.bytes().len());
}
