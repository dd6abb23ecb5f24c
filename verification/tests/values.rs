use doxsync::convert::{into_value, IntoValue, NegativeLiteralIntoValue, PositiveLiteralIntoValue};
use doxsync::error::{Error, ErrorKind};
use doxsync::patch::{Path, PathSegment};
use doxsync::value::{Value, ValueKind};

#[test]
fn integers_span_the_two_64_bit_ranges() {
    let low: i128 = -(1i128 << 64);
    let high: i128 = (1i128 << 64) - 1;
    assert_eq!(Value::integer(low).unwrap().as_int(), Some(low));
    assert_eq!(Value::integer(high).unwrap().as_int(), Some(high));
    assert_eq!(Value::integer(-1).unwrap().as_int(), Some(-1));
    assert_eq!(Value::integer(high + 1).unwrap_err().kind(), ErrorKind::InvalidData);
    assert_eq!(Value::integer(low - 1).unwrap_err().kind(), ErrorKind::InvalidData);
}

#[test]
fn maps_order_keys_and_keep_the_last_entry() {
    let v = Value::map(vec![
        ("b".to_string(), Value::integer(1).unwrap()),
        ("a".to_string(), Value::integer(2).unwrap()),
        ("b".to_string(), Value::integer(3).unwrap()),
    ])
    .unwrap();
    let entries = v.as_map().unwrap();
    assert_eq!(entries.len(), 2);
    assert_eq!(entries[0].0, "a");
    assert_eq!(entries[0].1.as_int(), Some(2));
    assert_eq!(entries[1].0, "b");
    assert_eq!(entries[1].1.as_int(), Some(3));
}

#[test]
fn values_report_their_kind_and_content() {
    assert_eq!(Value::null().unwrap().kind(), ValueKind::Null);
    assert!(Value::null().unwrap().is_null());
    assert_eq!(Value::bool(true).unwrap().as_bool(), Some(true));
    assert_eq!(Value::float_bits(2.5f64.to_bits()).unwrap().as_float_bits(), Some(2.5f64.to_bits()));
    assert_eq!(Value::bstr(vec![1, 2]).unwrap().as_bstr(), Some(&[1u8, 2][..]));
    assert_eq!(Value::tstr("hi".to_string()).unwrap().as_tstr(), Some("hi"));
    let arr = Value::array(vec![Value::integer(1).unwrap()]).unwrap();
    assert_eq!(arr.kind(), ValueKind::Array);
    assert_eq!(arr.as_array().unwrap().len(), 1);
    assert_eq!(arr.as_int(), None);
    assert_eq!(Value::integer(5).unwrap().kind(), ValueKind::Int);
}

#[test]
fn values_compare_by_content_hash() {
    let a = Value::array(vec![Value::integer(1).unwrap(), Value::tstr("x".to_string()).unwrap()]).unwrap();
    let b = Value::array(vec![Value::integer(1).unwrap(), Value::tstr("x".to_string()).unwrap()]).unwrap();
    let c = Value::array(vec![Value::tstr("x".to_string()).unwrap(), Value::integer(1).unwrap()]).unwrap();
    assert_eq!(a, b);
    assert_ne!(a, c);
    assert_ne!(Value::integer(1).unwrap(), Value::integer(-1).unwrap());
    assert_eq!(a.duplicate(), a);
}

#[test]
fn paths_parse_keys_and_indices() {
    let p = Path::parse("foo.bar.42").unwrap();
    assert_eq!(
        p.segments(),
        &[PathSegment::key("foo".to_string()), PathSegment::key("bar".to_string()), PathSegment::index(42)]
    );
    assert!(Path::parse("").unwrap().is_empty());
    assert_eq!(Path::parse("'").unwrap().segments(), &[PathSegment::key(String::new())]);
    assert_eq!(Path::parse("7").unwrap().segments(), &[PathSegment::index(7)]);
}

#[test]
fn malformed_paths_are_invalid_data() {
    for text in ["a..b", ".a", "1x", "a'b", "a\\b", "12.x'"] {
        assert_eq!(Path::parse(text).unwrap_err().kind(), ErrorKind::InvalidData, "{text}");
    }
}

#[test]
fn paths_grow_and_shrink() {
    let mut p = Path::empty();
    p.push_segment(PathSegment::key("a".to_string()));
    p.push_segment(PathSegment::index(3));
    assert_eq!(p, Path::parse("a.3").unwrap());
    assert_eq!(p.pop_segment(), Some(PathSegment::index(3)));
    assert_eq!(p, Path::parse("a").unwrap());
}

#[test]
fn errors_render_kind_context_message_and_metadata() {
    let e = Error::new(ErrorKind::InvalidData, "bad value")
        .with_context("decoding")
        .with_metadata("index", 3)
        .with_metadata("field", "x");
    assert_eq!(e.kind(), ErrorKind::InvalidData);
    assert_eq!(e.message(), "bad value");
    assert_eq!(e.render(), "[InvalidData] decoding: bad value (field=x, index=3)");
}

#[test]
fn errors_render_latest_context_first_and_metadata_by_key() {
    let plain = Error::new(ErrorKind::UnexpectedType, "plain");
    assert_eq!(plain.render(), "[UnexpectedType] plain");
    let e = Error::new(ErrorKind::InvalidData, "bad").with_context("inner").with_context("outer");
    assert_eq!(e.render(), "[InvalidData] outer: inner: bad");
    let m = Error::new(ErrorKind::Internal, "x").with_metadata("b", 2).with_metadata("a", 1).with_metadata("b", 3);
    assert_eq!(m.render(), "[Internal] x (a=1, b=3)");
}

#[test]
fn modify_changes_a_copy_of_the_inner_value() {
    let v = Value::integer(41).unwrap();
    let w = v.as_int_and_modify(|x| {
        *x += 1;
        Ok(())
    })
    .unwrap();
    assert_eq!(w.as_int(), Some(42));
    assert_eq!(v.as_int(), Some(41));
    let big = Value::integer((1i128 << 64) - 1).unwrap();
    let err = big.as_int_and_modify(|x| {
        *x += 1;
        Ok(())
    })
    .unwrap_err();
    assert_eq!(err.kind(), ErrorKind::InvalidData);
    let err = Value::null().unwrap().as_int_and_modify(|_| Ok(())).unwrap_err();
    assert_eq!(err.kind(), ErrorKind::UnexpectedType);

    let b = Value::bool(false).unwrap().as_bool_and_modify(|x| {
        *x = !*x;
        Ok(())
    });
    assert_eq!(b.unwrap().as_bool(), Some(true));
    let err = Value::bool(false)
        .unwrap()
        .as_bool_and_modify(|_| Err(Error::new(ErrorKind::Internal, "refused")))
        .unwrap_err();
    assert_eq!(err.kind(), ErrorKind::Internal);
    assert_eq!(err.message(), "refused");

    let s = Value::bstr(vec![1]).unwrap().as_bstr_and_modify(|x| {
        x.push(2);
        Ok(())
    });
    assert_eq!(s.unwrap().as_bstr(), Some(&[1u8, 2][..]));
    let t = Value::tstr("ab".to_string()).unwrap().as_tstr_and_modify(|x| {
        x.push('c');
        Ok(())
    });
    assert_eq!(t.unwrap().as_tstr(), Some("abc"));
    let a = Value::array(vec![]).unwrap().as_array_and_modify(|x| {
        x.push(Value::null().unwrap());
        Ok(())
    });
    assert_eq!(a.unwrap().as_array().unwrap().len(), 1);
    let m = Value::map(vec![("b".to_string(), Value::null().unwrap())]).unwrap().as_map_and_modify(|x| {
        x.push(("a".to_string(), Value::bool(true).unwrap()));
        Ok(())
    });
    let m = m.unwrap();
    let entries = m.as_map().unwrap();
    assert_eq!(entries[0].0, "a");
    assert_eq!(entries[1].0, "b");
    let err = Value::integer(1).unwrap().as_map_and_modify(|_| Ok(())).unwrap_err();
    assert_eq!(err.kind(), ErrorKind::UnexpectedType);
}

#[test]
fn rust_values_convert_into_values() {
    assert_eq!(into_value(true).unwrap().as_bool(), Some(true));
    assert_eq!(into_value(-5i8).unwrap().as_int(), Some(-5));
    assert_eq!(into_value(7u64).unwrap().as_int(), Some(7));
    assert_eq!(into_value(u128::MAX).unwrap_err().kind(), ErrorKind::InvalidData);
    assert_eq!(into_value(1u128 << 64).unwrap_err().kind(), ErrorKind::InvalidData);
    assert_eq!(into_value((1u128 << 64) - 1).unwrap().as_int(), Some((1i128 << 64) - 1));
    assert_eq!(into_value(i128::MIN).unwrap_err().kind(), ErrorKind::InvalidData);
    assert_eq!(into_value("hi").unwrap().as_tstr(), Some("hi"));
    assert_eq!(into_value(String::from("yo")).unwrap().as_tstr(), Some("yo"));
    assert_eq!(into_value(vec![1u8, 2]).unwrap().as_bstr(), Some(&[1u8, 2][..]));
    assert_eq!(into_value(*b"ab").unwrap().as_bstr(), Some(&b"ab"[..]));
    assert_eq!(into_value(&b"ab"[..]).unwrap().as_bstr(), Some(&b"ab"[..]));
    let v = Value::integer(3).unwrap();
    assert_eq!((&v).into_value().unwrap(), v);
    assert_eq!((&42u128).positive_literal_into_value().unwrap().as_int(), Some(42));
    assert_eq!((&&"lit").positive_literal_into_value().unwrap().as_tstr(), Some("lit"));
    assert_eq!((&&true).positive_literal_into_value().unwrap().as_bool(), Some(true));
    assert_eq!((&-42i128).negative_literal_into_value().unwrap().as_int(), Some(-42));
    assert_eq!((&&-3i32).negative_literal_into_value().unwrap().as_int(), Some(-3));
}

#[test]
fn printed_path_parses_back() {
    let mut p = Path::empty();
    p.push_segment(PathSegment::key("users".to_string()));
    p.push_segment(PathSegment::index(12));
    p.push_segment(PathSegment::key("name".to_string()));
    p.push_segment(PathSegment::index(0));
    assert_eq!(Path::parse("users.12.name.0").unwrap(), p);
}
