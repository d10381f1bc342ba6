use lib::{
    JsonDocument, JsonDocumentErrorKind, JsonDocumentLimits, JsonKind, JsonMember, JsonNumber,
    JsonPointer, JsonValue,
};

#[test]
fn number_grammar_preserves_valid_tokens_and_rejects_invalid_forms() {
    for token in ["0", "-0", "12", "-12.50e+2", "1E-9"] {
        assert_eq!(JsonNumber::new(token).unwrap().as_str(), token);
    }
    for token in ["", "-", "01", "1.", ".1", "1e", "+1", "NaN"] {
        assert!(JsonNumber::new(token).is_err(), "{token}");
    }
}

#[test]
fn pointer_validation_accepts_only_rfc_6901_escapes() {
    for pointer in ["", "/", "/a~0b~1c", "/0"] {
        assert_eq!(JsonPointer::new(pointer).unwrap().as_str(), pointer);
    }
    for pointer in ["a", "/~", "/~2"] {
        assert!(JsonPointer::new(pointer).is_err(), "{pointer}");
    }
}

#[test]
fn object_rejects_duplicates_and_document_clones_share_storage() {
    let duplicate = JsonValue::object(vec![
        JsonMember::new("same", JsonValue::null()),
        JsonMember::new("same", JsonValue::boolean(true)),
    ])
    .unwrap_err();
    assert_eq!(duplicate.key(), "same");

    let document = JsonDocument::new(JsonValue::array(vec![JsonValue::null()])).unwrap();
    assert!(document.shares_storage(&document.clone()));
}

fn number(token: &str) -> JsonValue {
    JsonValue::number(JsonNumber::new(token).unwrap())
}

fn arrangement(name: &str) -> JsonValue {
    match name {
        "all-scalars" => JsonValue::object(vec![
            JsonMember::new("text", JsonValue::string("A\n日")),
            JsonMember::new("number", number("-12.50e+2")),
            JsonMember::new("truth", JsonValue::boolean(true)),
            JsonMember::new("nothing", JsonValue::null()),
        ])
        .unwrap(),
        "nested-paths" => JsonValue::object(vec![JsonMember::new(
            "a/b~c",
            JsonValue::array(vec![JsonValue::object(vec![]).unwrap(), JsonValue::array(vec![])]),
        )])
        .unwrap(),
        _ => panic!("unknown arrangement {name}"),
    }
}

#[test]
fn document_matches_shared_fixtures() {
    let document = JsonDocument::new(arrangement("all-scalars")).unwrap();
    assert_eq!(
        document.serialized(),
        "{\"text\":\"A\\n日\",\"number\":-12.50e+2,\"truth\":true,\"nothing\":null}"
    );
    assert_eq!(document.len(), 5);
    assert!(!document.is_empty());
    let mut nodes = document.nodes();
    let mut paths = Vec::new();
    while let Some(node) = nodes.next() {
        paths.push(node.path().as_str().to_owned());
    }
    assert_eq!(paths, ["", "/text", "/number", "/truth", "/nothing"]);
    let text = document.get(&JsonPointer::new("/text").unwrap()).unwrap();
    assert_eq!(text.kind(), JsonKind::String);
    assert_eq!(text.serialized(), "\"A\\n日\"");
    assert_eq!(text.key(), Some("text"));
    assert_eq!(text.depth(), 1);

    let nested = JsonDocument::new(arrangement("nested-paths")).unwrap();
    assert_eq!(nested.serialized(), "{\"a/b~c\":[{},[]]}");
    let mut nodes = nested.nodes();
    let mut paths = Vec::new();
    while let Some(node) = nodes.next() {
        paths.push(node.path().as_str().to_owned());
    }
    assert_eq!(paths, ["", "/a~1b~0c", "/a~1b~0c/0", "/a~1b~0c/1"]);
    let inner = nested.get(&JsonPointer::new("/a~1b~0c/1").unwrap()).unwrap();
    assert_eq!(inner.array_index(), Some(1));
    assert_eq!(inner.kind(), JsonKind::Array);
    assert_eq!(inner.serialized(), "[]");
    let branch = nested.get(&JsonPointer::new("/a~1b~0c").unwrap()).unwrap();
    assert_eq!(branch.child_count(), 2);
    assert_eq!(branch.serialized(), "[{},[]]");
    assert_eq!(nested.root().child_count(), 1);
    assert!(nested.get(&JsonPointer::new("/missing").unwrap()).is_none());
}

#[test]
fn document_limits_reject_oversized_values() {
    let value = JsonValue::array(vec![JsonValue::null(), JsonValue::null()]);
    let error = JsonDocument::with_limits(value.clone(), JsonDocumentLimits::default().with_max_nodes(2))
        .unwrap_err();
    assert_eq!(error.kind(), JsonDocumentErrorKind::NodeLimit);
    assert_eq!(error.limit(), 2);
    assert_eq!(error.observed(), 3);

    let deep = JsonValue::array(vec![JsonValue::array(vec![])]);
    let error = JsonDocument::with_limits(deep, JsonDocumentLimits::default().with_max_depth(1))
        .unwrap_err();
    assert_eq!(error.kind(), JsonDocumentErrorKind::DepthLimit);
    assert_eq!(error.observed(), 2);

    let text = JsonValue::string("abcd");
    let error = JsonDocument::with_limits(text.clone(), JsonDocumentLimits::default().with_max_string_bytes(3))
        .unwrap_err();
    assert_eq!(error.kind(), JsonDocumentErrorKind::StringByteLimit);
    assert_eq!(error.observed(), 4);

    let error = JsonDocument::with_limits(text, JsonDocumentLimits::default().with_max_serialized_bytes(5))
        .unwrap_err();
    assert_eq!(error.kind(), JsonDocumentErrorKind::SerializedByteLimit);
    assert_eq!(error.observed(), 6);

    assert!(JsonDocument::with_limits(value, JsonDocumentLimits::default().with_max_nodes(3)).is_ok());
    assert_eq!(JsonDocumentErrorKind::NodeLimit.as_str(), "node-limit");
}

#[test]
fn value_accessors_report_their_kind() {
    let value = number("3.5");
    assert_eq!(value.kind(), JsonKind::Number);
    assert_eq!(value.as_number().map(JsonNumber::as_str), Some("3.5"));
    assert_eq!(value.as_boolean(), None);
    assert_eq!(JsonValue::string("x").as_string(), Some("x"));
    assert_eq!(JsonValue::boolean(false).as_boolean(), Some(false));
    assert_eq!(JsonValue::default().kind(), JsonKind::Null);
    assert_eq!(JsonKind::Object.as_str(), "object");
    let array = JsonValue::array(vec![JsonValue::null()]);
    assert_eq!(array.as_array().map(|values| values.len()), Some(1));
    assert!(array.as_object().is_none());
}

#[test]
fn number_errors_report_the_first_invalid_byte() {
    let error = JsonNumber::new("01").unwrap_err();
    assert_eq!(error.offset(), 1);
    let error = JsonPointer::new("/a~2").unwrap_err();
    assert_eq!(error.offset(), 2);
}

#[test]
fn control_characters_serialize_as_escapes() {
    let document = JsonDocument::new(JsonValue::string("\u{1}\t\"\\")).unwrap();
    assert_eq!(document.serialized(), "\"\\u0001\\t\\\"\\\\\"");
}

#[test]
fn node_depths_and_serializations_follow_the_tree() {
    let nested = JsonDocument::new(arrangement("nested-paths")).unwrap();
    let mut nodes = nested.nodes();
    let mut depths = Vec::new();
    let mut serialized = Vec::new();
    while let Some(node) = nodes.next() {
        depths.push(node.depth());
        serialized.push(node.serialized().to_owned());
    }
    assert_eq!(depths, [0, 1, 2, 2]);
    assert_eq!(serialized, ["{\"a/b~c\":[{},[]]}", "[{},[]]", "{}", "[]"]);
    assert_eq!(nested.root().serialized(), nested.serialized());
}

#[test]
fn accessors_answer_exactly_for_their_kind() {
    let values = [
        JsonValue::null(),
        JsonValue::boolean(true),
        JsonValue::number(JsonNumber::new("7").unwrap()),
        JsonValue::string("s"),
        JsonValue::array(vec![]),
        JsonValue::object(vec![]).unwrap(),
    ];
    for value in &values {
        assert_eq!(value.as_boolean().is_some(), value.kind() == JsonKind::Boolean);
        assert_eq!(value.as_number().is_some(), value.kind() == JsonKind::Number);
        assert_eq!(value.as_string().is_some(), value.kind() == JsonKind::String);
        assert_eq!(value.as_array().is_some(), value.kind() == JsonKind::Array);
        assert_eq!(value.as_object().is_some(), value.kind() == JsonKind::Object);
    }
    assert_eq!(JsonValue::string("a\"b").as_string(), Some("a\"b"));
    assert_eq!(JsonValue::boolean(false).as_boolean(), Some(false));
}

#[test]
fn every_node_path_finds_that_node_and_extends_its_parent_path() {
    let nested = JsonDocument::new(arrangement("nested-paths")).unwrap();
    let mut nodes = nested.nodes();
    let mut paths = Vec::new();
    let mut index = 0;
    while let Some(node) = nodes.next() {
        let found = nested.get(node.path()).unwrap();
        assert_eq!(found.path().as_str(), node.path().as_str());
        assert_eq!(found.kind(), node.kind());
        assert_eq!(found.depth(), node.depth());
        assert_eq!(found.serialized(), node.serialized());
        assert_eq!(nested.index_of(node.path()), Some(index));
        paths.push(node.path().as_str().to_owned());
        index += 1;
    }
    assert_eq!(paths, ["", "/a~1b~0c", "/a~1b~0c/0", "/a~1b~0c/1"]);
    let mut unique = paths.clone();
    unique.sort();
    unique.dedup();
    assert_eq!(unique.len(), paths.len());
}

#[test]
fn array_and_object_nodes_join_their_children() {
    let document = JsonDocument::new(
        JsonValue::object(vec![
            JsonMember::new(
                "list",
                JsonValue::array(vec![
                    JsonValue::number(JsonNumber::new("1").unwrap()),
                    JsonValue::object(vec![JsonMember::new("x", JsonValue::null())]).unwrap(),
                ]),
            ),
            JsonMember::new("s", JsonValue::string("t")),
            JsonMember::new("empty", JsonValue::object(vec![]).unwrap()),
        ])
        .unwrap(),
    )
    .unwrap();
    let mut records = Vec::new();
    let mut nodes = document.nodes();
    while let Some(node) = nodes.next() {
        records.push((
            node.path().as_str().to_owned(),
            node.kind(),
            node.key().map(str::to_owned),
            node.serialized().to_owned(),
        ));
    }
    let mut checked = 0;
    for (path, kind, _, serialized) in &records {
        let prefix = format!("{path}/");
        let children: Vec<_> = records
            .iter()
            .filter(|(child, ..)| child.starts_with(&prefix) && !child[prefix.len()..].contains('/'))
            .collect();
        let joined = match kind {
            JsonKind::Array => format!(
                "[{}]",
                children.iter().map(|(_, _, _, text)| text.clone()).collect::<Vec<_>>().join(",")
            ),
            JsonKind::Object => format!(
                "{{{}}}",
                children
                    .iter()
                    .map(|(_, _, key, text)| format!("\"{}\":{}", key.as_ref().unwrap(), text))
                    .collect::<Vec<_>>()
                    .join(",")
            ),
            _ => continue,
        };
        assert_eq!(&joined, serialized, "{path}");
        checked += 1;
    }
    assert_eq!(checked, 4);
    assert_eq!(document.root().serialized(), document.serialized());
    assert_eq!(document.serialized(), "{\"list\":[1,{\"x\":null}],\"s\":\"t\",\"empty\":{}}");
}
