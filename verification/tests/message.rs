use doxsync::message::{Message, PackedMessage};
use doxsync::patch::{Action, Path, PathSegment};
use doxsync::state::consumer_state::ConsumerState;
use doxsync::state::producer_state::ProducerState;
use doxsync::value::Value;

fn hex_to_bytes(hex: &str) -> Vec<u8> {
    let mut digits = String::new();
    let chars: Vec<char> = hex.chars().collect();
    let mut i = 0;
    while i < chars.len() {
        let c = chars[i];
        match c {
            ' ' | '\n' | '+' | '|' | '-' => {}
            '/' => {
                // A comment runs from "//" to the end of the line.
                assert!(i + 1 < chars.len() && chars[i + 1] == '/');
                while i < chars.len() && chars[i] != '\n' {
                    i += 1;
                }
                continue;
            }
            _ => digits.push(c),
        }
        i += 1;
    }
    assert!(digits.len() % 2 == 0);
    (0..digits.len() / 2)
        .map(|k| u8::from_str_radix(&digits[2 * k..2 * k + 2], 16).unwrap())
        .collect()
}

fn integer(v: i128) -> Value {
    Value::integer(v).unwrap()
}

fn float(v: f64) -> Value {
    Value::float_bits(v.to_bits()).unwrap()
}

fn text(s: &str) -> Value {
    Value::tstr(s.to_string()).unwrap()
}

fn map(entries: Vec<(&str, Value)>) -> Value {
    Value::map(entries.into_iter().map(|(k, v)| (k.to_string(), v)).collect()).unwrap()
}

fn path(segments: Vec<PathSegment>) -> Path {
    Path::new(segments)
}

fn key(k: &str) -> PathSegment {
    PathSegment::key(k.to_string())
}

#[test]
fn test_pack_and_unpack() {
    let producer_state = ProducerState::new();
    let mut producer_state_txn = producer_state.txn();
    let consumer_state = ConsumerState::new();
    let mut consumer_state_txn = consumer_state.txn();

    // Case 1:
    let message = Message::new(vec![Action::Snapshot { value: integer(42) }]);
    let packed = message.encode(&mut producer_state_txn).unwrap();
    assert_eq!(packed.bytes(), hex_to_bytes("00 01 00 0c 2a"));
    let unpacked = Message::decode(packed, &mut consumer_state_txn).unwrap();
    assert_eq!(unpacked.actions(), &[Action::Snapshot { value: integer(42) }]);

    // Case 2:
    let message = Message::new(vec![Action::Snapshot { value: integer(1) }]);
    let packed = message.encode(&mut producer_state_txn).unwrap();
    assert_eq!(packed.bytes(), hex_to_bytes("00 01 00 01"));
    let unpacked = Message::decode(packed, &mut consumer_state_txn).unwrap();
    assert_eq!(unpacked.actions(), &[Action::Snapshot { value: integer(1) }]);

    // Case 3:
    let message = Message::new(vec![Action::Snapshot { value: integer(0x1FFFFFF) }]);
    let packed = message.encode(&mut producer_state_txn).unwrap();
    assert_eq!(packed.bytes(), hex_to_bytes("00 01 00 0E FF FF FF 01"));
    let unpacked = Message::decode(packed, &mut consumer_state_txn).unwrap();
    assert_eq!(unpacked.actions(), &[Action::Snapshot { value: integer(0x1FFFFFF) }]);

    // Case 4:
    let message = Message::new(vec![Action::Snapshot { value: integer(-42) }]);
    let packed = message.encode(&mut producer_state_txn).unwrap();
    assert_eq!(packed.bytes(), hex_to_bytes("00 01 00 1c 29"));
    let unpacked = Message::decode(packed, &mut consumer_state_txn).unwrap();
    assert_eq!(unpacked.actions(), &[Action::Snapshot { value: integer(-42) }]);

    // Case 5:
    let message = Message::new(vec![Action::Snapshot { value: integer(-0x1FFFFFF) }]);
    let packed = message.encode(&mut producer_state_txn).unwrap();
    assert_eq!(packed.bytes(), hex_to_bytes("00 01 00 1E FE FF FF 01"));
    let unpacked = Message::decode(packed, &mut consumer_state_txn).unwrap();
    assert_eq!(unpacked.actions(), &[Action::Snapshot { value: integer(-0x1FFFFFF) }]);

    // Case 6:
    let message = Message::new(vec![Action::Snapshot { value: float(3.1415926) }]);
    let packed = message.encode(&mut producer_state_txn).unwrap();
    assert_eq!(
        packed.bytes(),
        hex_to_bytes("00 01 00 7b 4a d8 12 4d fb 21 09 40")
    );
    let unpacked = Message::decode(packed, &mut consumer_state_txn).unwrap();
    assert_eq!(unpacked.actions(), &[Action::Snapshot { value: float(3.1415926) }]);

    // Case 7:
    let value = || map(vec![("answer", integer(42)), ("pi", float(3.1415926))]);
    let message = Message::new(vec![Action::Snapshot { value: value() }]);
    let packed = message.encode(&mut producer_state_txn).unwrap();
    assert_eq!(
        packed.bytes(),
        hex_to_bytes(
            "
            01
              + 00 02 // string pool patch, two entries
                  + 00 // slot 0 -> \"answer\"
                  |   + 06 61 6e 73 77 65 72
                  + 01 // slot 1 -> \"pi\"
                      + 02 70 69
            01
              + 00
                  + 52
                      + 00 // ref to \"answer\"
                      + 0c 2a // value integer(42)
                      + 04 // ref to \"pi\"
                      + 7b 4a d8 12 4d fb 21 09 40 // value float(3.1415926)
            "
        )
    );
    let unpacked = Message::decode(packed, &mut consumer_state_txn).unwrap();
    assert_eq!(unpacked.actions(), &[Action::Snapshot { value: value() }]);

    // Case 8:
    let value = map(vec![("answer", integer(42)), ("pi", text("3.1415926"))]);
    let message = Message::new(vec![
        Action::Add {
            path: path(vec![key("foo"), PathSegment::index(42)]),
            value,
        },
        Action::Delete {
            path: path(vec![key("bar")]),
        },
    ]);
    let packed = message.encode(&mut producer_state_txn).unwrap();
    assert_eq!(
        packed.bytes(),
        hex_to_bytes(
            "
            02
              + 00 01 // string pool patch
              |   + 02 // slot 2 -> \"3.1415926\"
              |       + 09 33 2e 31 34 31 35 39 32 36
              + 01 02 // path pool patch
                  + 00 02 // slot 0 -> path \"foo.42\"
                  |   + 0c 66 6f 6f
                  |   + a9 01
                  + 01 01 // slot 1 -> path \"bar\"
                      + 0c 62 61 72
            02
              + 01 // Add
              |   + 00 // ref to path \"foo.42\"
              |   + 52 // the map value
              |       + 00
              |       + 0c 2a
              |       + 04 // Key (ref to \"pi\")
              |       + 82 // TStrRef value (ref to \"3.1415926\")
              + 02 // Delete
                  + 01
            "
        )
    );
    let unpacked = Message::decode(packed, &mut consumer_state_txn).unwrap();
    assert_eq!(unpacked, message);

    // Case 9:
    let value = || {
        Value::array(vec![
            Value::null().unwrap(),
            Value::bool(false).unwrap(),
            Value::bool(true).unwrap(),
        ])
        .unwrap()
    };
    let message = Message::new(vec![Action::Snapshot { value: value() }]);
    let packed = message.encode(&mut producer_state_txn).unwrap();
    assert_eq!(packed.bytes(), hex_to_bytes("00 01 00 43 76 74 75"));
    let unpacked = Message::decode(packed, &mut consumer_state_txn).unwrap();
    assert_eq!(unpacked.actions(), &[Action::Snapshot { value: value() }]);

    // Case 10: COPY reuses a destination path and defines a nested source path.
    let message = Message::new(vec![Action::Copy {
        path: path(vec![key("bar")]),
        from: path(vec![key("baz"), key("qux")]),
    }]);
    let packed = message.encode(&mut producer_state_txn).unwrap();
    assert_eq!(
        packed.bytes(),
        hex_to_bytes(
            "
            01
              + 01 01 // path pool patch, one entry
                  + 02 02 // slot 2 -> path \"baz.qux\"
                      + 0c 62 61 7a
                      + 0c 71 75 78
            01
              + 03 // Copy
                  + 01 // destination: existing path \"bar\"
                  + 02 // source: new path \"baz.qux\"
            "
        )
    );
    let unpacked = Message::decode(packed, &mut consumer_state_txn).unwrap();
    assert_eq!(unpacked, message);
    let _consumer_state = consumer_state_txn.commit();
    let _ = PackedMessage::from_bytes(&[]);
}
