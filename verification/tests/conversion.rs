use xml_json::{eq_value, to_json, Error, Value};

fn s(x: &str) -> Value {
    Value::Str(x.to_string())
}

fn obj(entries: Vec<(&str, Value)>) -> Value {
    Value::Obj(entries.into_iter().map(|(k, v)| (k.to_string(), v)).collect())
}

fn json_eq(left: Value, right: Result<Value, Error>) {
    assert!(right.is_ok());
    assert!(eq_value(&left, &right.unwrap()));
}

#[test]
fn single_node() {
    json_eq(obj(vec![("e", Value::Null)]), to_json("<e></e>"));
}

#[test]
fn node_with_text() {
    json_eq(obj(vec![("e", s("foo"))]), to_json("<e>foo</e>"));
}

#[test]
fn node_with_attr() {
    json_eq(
        obj(vec![("e", obj(vec![("@name", s("value"))]))]),
        to_json("<e name=\"value\"></e>"),
    );
}

#[test]
fn node_with_attr_and_text() {
    json_eq(
        obj(vec![("e", obj(vec![("@name", s("value")), ("#text", s("text"))]))]),
        to_json(r#"<e name="value">text</e>"#),
    );
}

#[test]
fn node_with_children() {
    json_eq(
        obj(vec![("e", obj(vec![("a", s("text1")), ("b", s("text2"))]))]),
        to_json(r#"<e> <a>text1</a> <b>text2</b> </e>"#),
    );
}

#[test]
fn node_with_multiple_identical_children() {
    json_eq(
        obj(vec![("e", obj(vec![("a", Value::Arr(vec![s("text"), s("text")]))]))]),
        to_json(r#"<e><a>text</a><a>text</a></e>"#),
    );
}

#[test]
fn node_with_n_identical_children() {
    json_eq(
        obj(vec![(
            "e",
            obj(vec![("a", Value::Arr(vec![s("text1"), s("text2"), s("text3")]))]),
        )]),
        to_json(r#"<e><a>text1</a><a>text2</a><a>text3</a></e>"#),
    );
}

#[test]
fn node_with_text_and_child() {
    json_eq(
        obj(vec![("e", obj(vec![("#text", s("lol")), ("a", s("text"))]))]),
        to_json(r#"<e> lol <a>text</a></e>"#),
    );
}

#[test]
fn node_with_just_text() {
    json_eq(obj(vec![("a", s("hello"))]), to_json(r#"<a>hello</a>"#));
}

#[test]
fn node_with_attrs_and_text() {
    json_eq(
        obj(vec![("a", obj(vec![("@x", s("y")), ("#text", s("hello"))]))]),
        to_json(r#"<a x="y">hello</a>"#),
    );
}

#[test]
fn nested_nodes_with_attrs() {
    json_eq(
        obj(vec![(
            "a",
            obj(vec![
                ("@id", s("a")),
                ("b", obj(vec![("@id", s("b")), ("#text", s("hey!"))])),
            ]),
        )]),
        to_json(r#"<a id="a"><b id="b">hey!</b></a>"#),
    );
}

#[test]
fn node_with_nested_text() {
    json_eq(
        obj(vec![(
            "a",
            Value::Arr(vec![s("x"), obj(vec![("c", Value::Null)]), s("y")]),
        )]),
        to_json(r#"<a>x<c/>y</a>"#),
    );
}

#[test]
fn node_with_empty_attrs() {
    json_eq(
        obj(vec![("x", obj(vec![("@u", s(""))]))]),
        to_json(r#"<x u=""/>"#),
    );
}

#[test]
fn some_basic_html() {
    json_eq(
        obj(vec![(
            "html",
            obj(vec![
                (
                    "head",
                    obj(vec![
                        ("title", s("Xml/Json")),
                        ("meta", obj(vec![("@name", s("x")), ("@content", s("y"))])),
                    ]),
                ),
                ("body", Value::Null),
            ]),
        )]),
        to_json(
            r#"<html><head><title>Xml/Json</title><meta name="x" content="y"/></head><body/></html>"#,
        ),
    );
}

#[test]
fn more_complex_html() {
    json_eq(
        obj(vec![(
            "ol",
            obj(vec![
                ("@class", s("xoxo")),
                (
                    "li",
                    Value::Arr(vec![
                        obj(vec![
                            ("#text", s("Subject 1")),
                            (
                                "ol",
                                obj(vec![(
                                    "li",
                                    Value::Arr(vec![s("subpoint a"), s("subpoint b")]),
                                )]),
                            ),
                        ]),
                        obj(vec![
                            ("span", s("Subject 2")),
                            (
                                "ol",
                                obj(vec![
                                    ("@compact", s("compact")),
                                    (
                                        "li",
                                        Value::Arr(vec![s("subpoint c"), s("subpoint d")]),
                                    ),
                                ]),
                            ),
                        ]),
                    ]),
                ),
            ]),
        )]),
        to_json(
            r#"<ol class="xoxo"><li>Subject 1     <ol><li>subpoint a</li><li>subpoint b</li></ol></li><li><span>Subject 2</span><ol compact="compact"><li>subpoint c</li><li>subpoint d</li></ol></li></ol>"#,
        ),
    );
}

#[test]
fn node_with_cdata() {
    json_eq(
        obj(vec![("e", obj(vec![("#cdata", s(" .. some data .. "))]))]),
        to_json(r#"<e><![CDATA[ .. some data .. ]]></e>"#),
    );
}

#[test]
fn node_with_cdata_and_siblings() {
    json_eq(
        obj(vec![(
            "e",
            obj(vec![
                ("a", Value::Null),
                ("#cdata", s(" .. some data .. ")),
                ("b", Value::Null),
            ]),
        )]),
        to_json(r#"<e><a/><![CDATA[ .. some data .. ]]><b/></e>"#),
    );
}

#[test]
fn node_with_cdata_inside_text() {
    json_eq(
        obj(vec![(
            "e",
            Value::Arr(vec![
                s("some text"),
                obj(vec![("#cdata", s(" .. some data .. "))]),
                s("more text"),
            ]),
        )]),
        to_json(r#"<e>  some text  <![CDATA[ .. some data .. ]]>  more text</e>"#),
    );
}

#[test]
fn node_with_child_cdata_and_text() {
    json_eq(
        obj(vec![(
            "e",
            obj(vec![
                ("#text", s("some text")),
                ("#cdata", s(" .. some data .. ")),
                ("a", Value::Null),
            ]),
        )]),
        to_json(r#"<e>  some text  <![CDATA[ .. some data .. ]]><a/></e>"#),
    );
}

#[test]
fn node_with_duplicate_cdata() {
    json_eq(
        obj(vec![(
            "e",
            obj(vec![("#cdata", s(" .. some data ..  .. more data .. "))]),
        )]),
        to_json(r#"<e><![CDATA[ .. some data .. ]]><![CDATA[ .. more data .. ]]></e>"#),
    );
}

#[test]
fn node_empty() {
    json_eq(Value::Null, to_json(""));
}

#[test]
fn node_with_duplicate_text() {
    json_eq(
        obj(vec![("e", obj(vec![("a", Value::Arr(vec![s("x"), s("y")]))]))]),
        to_json("<e><a>x</a><a>y</a></e>"),
    );
}

#[test]
fn node_with_duplicate_attrs_and_text() {
    json_eq(
        obj(vec![(
            "e",
            obj(vec![(
                "a",
                Value::Arr(vec![
                    obj(vec![("#text", s("x")), ("@u", s("x"))]),
                    obj(vec![("#text", s("y")), ("@u", s("y"))]),
                ]),
            )]),
        )]),
        to_json(r#"<e><a u="x">x</a><a u="y">y</a></e>"#),
    );
}

#[test]
fn node_with_text_and_siblings() {
    json_eq(
        obj(vec![(
            "e",
            Value::Arr(vec![s("x"), obj(vec![("a", obj(vec![("@u", s("y"))]))]), s("z")]),
        )]),
        to_json(r#"<e>x <a u="y"/> z</e>"#),
    );
}

#[test]
fn node_with_text_and_siblings_mixed() {
    json_eq(
        obj(vec![(
            "e",
            Value::Arr(vec![s("a"), obj(vec![("x", s("b"))]), s("c"), obj(vec![("x", s("d"))])]),
        )]),
        to_json(r#"<e>a <x>b</x> c <x>d</x></e>"#),
    );
}

#[test]
fn node_with_cdata_only() {
    json_eq(
        obj(vec![("#cdata", s(" .. some data .. "))]),
        to_json(r#"<![CDATA[ .. some data .. ]]>"#),
    );
}
