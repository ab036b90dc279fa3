use todo_list::{TodoError, TodoList};

fn round_trips(list: &TodoList) -> TodoList {
    let doc = list.to_document();
    TodoList::from_document(&doc).expect("the written document must decode")
}

#[test]
fn round_trip_plain_items() {
    let mut list = TodoList::new();
    list.add("buy milk");
    list.add("walk dog");
    assert_eq!(list.finish(0), Ok(()));
    let back = round_trips(&list);
    assert_eq!(back.items.len(), 2);
    assert_eq!(back.items[0].description, "buy milk");
    assert_eq!(back.items[0].status, true);
    assert_eq!(back.items[1].description, "walk dog");
    assert_eq!(back.items[1].status, false);
}

#[test]
fn round_trip_empty_list() {
    let list = TodoList::new();
    let back = round_trips(&list);
    assert_eq!(back.items.len(), 0);
}

#[test]
fn round_trip_descriptions_needing_escapes() {
    let mut list = TodoList::new();
    list.add("say \"hi\"");
    list.add("back\\slash");
    list.add("line\nbreak\tand tab");
    list.add("caf\u{e9} \u{2615}");
    let back = round_trips(&list);
    assert_eq!(back.items[0].description, "say \"hi\"");
    assert_eq!(back.items[1].description, "back\\slash");
    assert_eq!(back.items[2].description, "line\nbreak\tand tab");
    assert_eq!(back.items[3].description, "caf\u{e9} \u{2615}");
}

#[test]
fn written_document_has_the_expected_shape() {
    let mut list = TodoList::new();
    list.add("x");
    assert_eq!(list.to_document(), "{\"items\":[{\"description\":\"x\",\"status\":false}]}");
    list.add("y");
    assert_eq!(list.finish(1), Ok(()));
    assert_eq!(
        list.to_document(),
        "{\"items\":[{\"description\":\"x\",\"status\":false},{\"description\":\"y\",\"status\":true}]}"
    );
}

#[test]
fn control_characters_are_escaped_in_the_document() {
    let mut list = TodoList::new();
    list.add("a\nb");
    assert_eq!(list.to_document(), "{\"items\":[{\"description\":\"a\\u000ab\",\"status\":false}]}");
}

#[test]
fn empty_document_is_an_empty_list() {
    let list = TodoList::from_document("").expect("an empty document is fine");
    assert_eq!(list.items.len(), 0);
}

#[test]
fn one_done_item_loads_and_cleans_to_empty() {
    let list = TodoList::from_document("{\"items\":[{\"description\":\"x\",\"status\":true}]}")
        .expect("the document is valid");
    let rows = list.display_rows();
    assert_eq!(rows.len(), 1);
    assert_eq!(rows[0].done, true);
    assert_eq!(rows[0].description, "x");
    let mut list = list;
    list.clean();
    assert_eq!(list.to_document(), "{\"items\":[]}");
}

#[test]
fn whitespace_between_tokens_is_accepted() {
    let doc = "{\n  \"items\": [\n    {\n      \"description\": \"a b\",\n      \"status\": false\n    },\n    {\n      \"description\": \"c\",\n      \"status\": true\n    }\n  ]\n}";
    let list = TodoList::from_document(doc).expect("a pretty-printed document is valid");
    assert_eq!(list.items.len(), 2);
    assert_eq!(list.items[0].description, "a b");
    assert_eq!(list.items[0].status, false);
    assert_eq!(list.items[1].description, "c");
    assert_eq!(list.items[1].status, true);
}

#[test]
fn short_and_unicode_escapes_are_decoded() {
    let doc = "{\"items\":[{\"description\":\"a\\n\\t\\\\\\\"\\/\\u0041\\u00e9\",\"status\":false}]}";
    let list = TodoList::from_document(doc).expect("escapes are valid");
    assert_eq!(list.items[0].description, "a\n\t\\\"/A\u{e9}");
}

#[test]
fn corrupt_documents_are_rejected() {
    let bad = [
        "garbage",
        "{",
        "{\"items\":}",
        "{\"items\":[",
        "{\"items\":[{}]}",
        "{\"items\":[{\"description\":\"x\"}]}",
        "{\"items\":[{\"status\":true,\"description\":\"x\"}]}",
        "{\"items\":[{\"description\":\"x\",\"status\":maybe}]}",
        "{\"items\":[{\"description\":\"x\",\"status\":true}]} trailing",
        "{\"items\":[{\"description\":\"x\\ud800\",\"status\":true}]}",
        "{\"items\":[{\"description\":\"x\\q\",\"status\":true}]}",
        "{\"items\":[{\"description\":\"unterminated,\"status\":true}]}",
        "{\"items\":[],}",
    ];
    for doc in bad {
        assert!(
            matches!(TodoList::from_document(doc), Err(TodoError::CorruptData)),
            "should reject: {doc}"
        );
    }
}

#[test]
fn serde_json_reads_what_the_library_writes() {
    let mut list = TodoList::new();
    list.add("say \"hi\"\non two lines");
    list.add("done one");
    assert_eq!(list.finish(1), Ok(()));
    let doc = list.to_document();
    let value: serde_json::Value = serde_json::from_str(&doc).expect("the document is valid JSON");
    let items = value
        .as_object()
        .expect("top level is an object")
        .get("items")
        .expect("it has an items field")
        .as_array()
        .expect("items is an array");
    assert_eq!(items.len(), 2);
    assert_eq!(
        items[0].get("description").unwrap().as_str().unwrap(),
        "say \"hi\"\non two lines"
    );
    assert_eq!(items[0].get("status").unwrap().as_bool().unwrap(), false);
    assert_eq!(items[1].get("description").unwrap().as_str().unwrap(), "done one");
    assert_eq!(items[1].get("status").unwrap().as_bool().unwrap(), true);
}

#[test]
fn the_library_reads_what_serde_json_writes() {
    let mut map = serde_json::Map::new();
    let mut item = serde_json::Map::new();
    item.insert(
        "description".to_string(),
        serde_json::Value::String("tricky \"quote\" and \u{1f600}".to_string()),
    );
    item.insert("status".to_string(), serde_json::Value::Bool(true));
    map.insert(
        "items".to_string(),
        serde_json::Value::Array(vec![serde_json::Value::Object(item)]),
    );
    let doc = serde_json::to_string_pretty(&serde_json::Value::Object(map)).unwrap();
    let list = TodoList::from_document(&doc).expect("a serde-written document is valid");
    assert_eq!(list.items.len(), 1);
    assert_eq!(list.items[0].description, "tricky \"quote\" and \u{1f600}");
    assert_eq!(list.items[0].status, true);
}
