use xml_json::events::XmlEvent;
use xml_json::{eq_value, events_to_value, to_json, Value, DEPTH_LIMIT};

fn s(x: &str) -> Value {
    Value::Str(x.to_string())
}

fn obj(entries: Vec<(&str, Value)>) -> Value {
    Value::Obj(entries.into_iter().map(|(k, v)| (k.to_string(), v)).collect())
}

fn open(name: &str, attrs: Vec<(&str, &str)>) -> XmlEvent {
    XmlEvent::Open {
        name: name.to_string(),
        attrs: attrs.into_iter().map(|(k, v)| (k.to_string(), v.to_string())).collect(),
    }
}

#[test]
fn events_single_empty_element() {
    let events = vec![open("e", vec![]), XmlEvent::Close, XmlEvent::Eof];
    let r = events_to_value(&events, 0, DEPTH_LIMIT).unwrap();
    assert!(eq_value(&obj(vec![("e", Value::Null)]), &r));
}

#[test]
fn events_text_only_element() {
    let events = vec![
        open("e", vec![]),
        XmlEvent::Text { text: "hi".to_string() },
        XmlEvent::Close,
        XmlEvent::Eof,
    ];
    let r = events_to_value(&events, 0, DEPTH_LIMIT).unwrap();
    assert!(eq_value(&obj(vec![("e", s("hi"))]), &r));
}

#[test]
fn events_skip_is_ignored() {
    let events = vec![open("e", vec![]), XmlEvent::Skip, XmlEvent::Close, XmlEvent::Eof];
    let r = events_to_value(&events, 0, DEPTH_LIMIT).unwrap();
    assert!(eq_value(&obj(vec![("e", Value::Null)]), &r));
}

#[test]
fn events_adjacent_cdata_concatenates() {
    let events = vec![
        open("e", vec![]),
        XmlEvent::CData { data: " foo ".to_string() },
        XmlEvent::CData { data: " bar ".to_string() },
        XmlEvent::Close,
        XmlEvent::Eof,
    ];
    let r = events_to_value(&events, 0, DEPTH_LIMIT).unwrap();
    assert!(eq_value(&obj(vec![("e", obj(vec![("#cdata", s(" foo  bar "))]))]), &r));
}

#[test]
fn events_mixed_content_keeps_order() {
    let events = vec![
        open("e", vec![]),
        XmlEvent::Text { text: "a".to_string() },
        open("x", vec![]),
        XmlEvent::Text { text: "b".to_string() },
        XmlEvent::Close,
        XmlEvent::Text { text: "c".to_string() },
        open("x", vec![]),
        XmlEvent::Text { text: "d".to_string() },
        XmlEvent::Close,
        XmlEvent::Close,
        XmlEvent::Eof,
    ];
    let r = events_to_value(&events, 0, DEPTH_LIMIT).unwrap();
    let want = obj(vec![(
        "e",
        Value::Arr(vec![s("a"), obj(vec![("x", s("b"))]), s("c"), obj(vec![("x", s("d"))])]),
    )]);
    assert!(eq_value(&want, &r));
}

#[test]
fn events_siblings_form_array_in_order() {
    let events = vec![
        open("e", vec![]),
        open("a", vec![]),
        XmlEvent::Text { text: "1".to_string() },
        XmlEvent::Close,
        open("a", vec![]),
        XmlEvent::Text { text: "2".to_string() },
        XmlEvent::Close,
        open("a", vec![]),
        XmlEvent::Text { text: "3".to_string() },
        XmlEvent::Close,
        XmlEvent::Close,
        XmlEvent::Eof,
    ];
    let r = events_to_value(&events, 0, DEPTH_LIMIT).unwrap();
    let want = obj(vec![("e", obj(vec![("a", Value::Arr(vec![s("1"), s("2"), s("3")]))]))]);
    assert!(eq_value(&want, &r));
}

#[test]
fn attr_order_does_not_matter() {
    let a = to_json(r#"<e a="1" b="2"></e>"#).unwrap();
    let b = to_json(r#"<e b="2" a="1"></e>"#).unwrap();
    assert!(eq_value(&a, &b));
    let want = obj(vec![("e", obj(vec![("@a", s("1")), ("@b", s("2"))]))]);
    assert!(eq_value(&want, &a));
}

#[test]
fn distinct_attrs_all_kept() {
    let r = to_json(r#"<e a="1" b="2" c="3"></e>"#).unwrap();
    let want = obj(vec![(
        "e",
        obj(vec![("@a", s("1")), ("@b", s("2")), ("@c", s("3"))]),
    )]);
    assert!(eq_value(&want, &r));
}

#[test]
fn nesting_beyond_limit_fails() {
    let mut xml = String::new();
    let n = DEPTH_LIMIT + 1;
    for _ in 0..n {
        xml.push_str("<d>");
    }
    for _ in 0..n {
        xml.push_str("</d>");
    }
    assert!(to_json(&xml).is_err());
}

#[test]
fn nesting_within_limit_succeeds() {
    let mut xml = String::new();
    for _ in 0..8 {
        xml.push_str("<d>");
    }
    for _ in 0..8 {
        xml.push_str("</d>");
    }
    assert!(to_json(&xml).is_ok());
}

#[test]
fn events_depth_error_propagates() {
    let events = vec![open("e", vec![]), open("f", vec![]), XmlEvent::Close, XmlEvent::Close,
        XmlEvent::Eof];
    assert!(events_to_value(&events, 0, 1).is_err());
    assert!(events_to_value(&events, 0, 2).is_ok());
}

#[test]
fn entity_escapes_are_decoded() {
    let r = to_json("<e>a &amp; b</e>").unwrap();
    assert!(eq_value(&obj(vec![("e", s("a & b"))]), &r));
}

#[test]
fn eq_value_object_order_insensitive() {
    let a = obj(vec![("x", s("1")), ("y", s("2"))]);
    let b = obj(vec![("y", s("2")), ("x", s("1"))]);
    let c = obj(vec![("x", s("1")), ("y", s("3"))]);
    assert!(eq_value(&a, &b));
    assert!(!eq_value(&a, &c));
    assert!(!eq_value(&a, &s("1")));
}

#[test]
fn eq_value_array_order_sensitive() {
    let a = Value::Arr(vec![s("1"), s("2")]);
    let b = Value::Arr(vec![s("2"), s("1")]);
    assert!(!eq_value(&a, &b));
    assert!(eq_value(&a, &Value::Arr(vec![s("1"), s("2")])));
}

#[test]
fn read_consumes_a_reader() {
    let mut reader = quick_xml::Reader::from_str("<e>text</e>");
    let r = xml_json::read(&mut reader, 0);
    assert!(r.is_ok());
    assert!(eq_value(&obj(vec![("e", s("text"))]), &r.unwrap()));
}

#[test]
fn read_stops_at_frame_end() {
    let mut reader = quick_xml::Reader::from_str("<a><b>c</b></a><x>t</x>");
    let mut buf = Vec::new();
    let _ = reader.read_event_into(&mut buf);
    let first = xml_json::read(&mut reader, 1).unwrap();
    assert!(eq_value(&obj(vec![("b", s("c"))]), &first));
    let second = xml_json::read(&mut reader, 1).unwrap();
    assert!(eq_value(&obj(vec![("x", s("t"))]), &second));
}
