use ondevice_ai::embed::embed;
use ondevice_ai::snapshot::{Json, Member};
use ondevice_ai::VectorIndex;

fn unit(counts: &[u64]) -> Vec<f32> {
    let v: Vec<f32> = counts.iter().map(|c| *c as f32).collect();
    let norm = v.iter().map(|x| x * x).sum::<f32>().sqrt().max(1e-6);
    v.iter().map(|x| x / norm).collect()
}

fn snapshot_of(index: &VectorIndex) -> Vec<u8> {
    let mut records: Vec<serde_json::Value> = Vec::new();
    for i in 0..index.len() {
        let doc = index.get(i).unwrap();
        let mut record = serde_json::Map::new();
        record.insert("id".to_string(), serde_json::Value::from(doc.id()));
        record.insert("text".to_string(), serde_json::Value::from(doc.text()));
        let emb: Vec<serde_json::Value> =
            unit(doc.counts()).into_iter().map(serde_json::Value::from).collect();
        record.insert("emb".to_string(), serde_json::Value::Array(emb));
        records.push(serde_json::Value::Object(record));
    }
    serde_json::to_vec_pretty(&serde_json::Value::Array(records)).unwrap()
}

fn contents(index: &VectorIndex) -> Vec<(String, String, Vec<u64>)> {
    (0..index.len())
        .map(|i| {
            let doc = index.get(i).unwrap();
            (doc.id().to_string(), doc.text().to_string(), doc.counts().clone())
        })
        .collect()
}

fn text(s: &str) -> Json {
    Json::Text(s.to_string())
}

fn object(fields: Vec<(&str, Json)>) -> Json {
    Json::Object(fields.into_iter().map(|(k, v)| Member { name: k.to_string(), value: v }).collect())
}

#[test]
fn load_without_content_gives_an_empty_bound_store() {
    let index = VectorIndex::load("snap.json".to_string(), None);
    assert_eq!(index.len(), 0);
    assert_eq!(index.path(), Some("snap.json"));
}

#[test]
fn load_of_unparseable_content_gives_an_empty_bound_store() {
    for bytes in [&b"not json"[..], b"", b"[{\"id\": \"a\"", b"\xff\xfe"] {
        let index = VectorIndex::load("snap.json".to_string(), Some(bytes));
        assert_eq!(index.len(), 0);
        assert_eq!(index.path(), Some("snap.json"));
    }
}

#[test]
fn load_of_content_that_is_no_array_gives_an_empty_store() {
    for bytes in [&b"{\"id\":\"a\",\"text\":\"b\"}"[..], b"null", b"\"text\"", b"12"] {
        let index = VectorIndex::load("snap.json".to_string(), Some(bytes));
        assert_eq!(index.len(), 0);
        assert_eq!(index.path(), Some("snap.json"));
    }
}

#[test]
fn load_reads_the_records_in_order() {
    let bytes = br#"[
      {"id": "doc1", "text": "the cat sat", "emb": [0.5, 0.25]},
      {"id": "doc2", "text": "the dog sat", "emb": []}
    ]"#;
    let index = VectorIndex::load("data/index.json".to_string(), Some(bytes));
    assert_eq!(index.path(), Some("data/index.json"));
    assert_eq!(
        contents(&index),
        vec![
            ("doc1".to_string(), "the cat sat".to_string(), embed("the cat sat")),
            ("doc2".to_string(), "the dog sat".to_string(), embed("the dog sat")),
        ]
    );
}

#[test]
fn load_unescapes_strings() {
    let bytes = r#"[{"id": "a\"b", "text": "line\nnext é 😀 \u00e9"}]"#.as_bytes();
    let index = VectorIndex::load("p".to_string(), Some(bytes));
    assert_eq!(index.len(), 1);
    assert_eq!(index.get(0).unwrap().id(), "a\"b");
    assert_eq!(index.get(0).unwrap().text(), "line\nnext é 😀 é");
}

#[test]
fn load_passes_over_records_without_an_identifier() {
    let bytes = br#"[
      {"text": "no id"},
      {"id": "", "text": "empty id"},
      {"id": 7, "text": "id is a number"},
      "not an object",
      [1, 2],
      null,
      {"id": "kept"}
    ]"#;
    let index = VectorIndex::load("p".to_string(), Some(bytes));
    assert_eq!(contents(&index), vec![("kept".to_string(), String::new(), embed(""))]);
}

#[test]
fn load_takes_a_text_that_is_no_string_as_empty() {
    let bytes = br#"[{"id": "a", "text": 5}, {"id": "b", "text": null}, {"id": "c", "text": ["x"]}]"#;
    let index = VectorIndex::load("p".to_string(), Some(bytes));
    assert_eq!(index.len(), 3);
    for i in 0..3 {
        assert_eq!(index.get(i).unwrap().text(), "");
    }
}

#[test]
fn load_keeps_one_document_for_each_identifier() {
    let bytes = br#"[
      {"id": "a", "text": "first"},
      {"id": "b", "text": "other"},
      {"id": "a", "text": "second"}
    ]"#;
    let index = VectorIndex::load("p".to_string(), Some(bytes));
    assert_eq!(
        contents(&index),
        vec![
            ("a".to_string(), "second".to_string(), embed("second")),
            ("b".to_string(), "other".to_string(), embed("other")),
        ]
    );
}

#[test]
fn from_json_reads_an_array_of_objects() {
    let json = Json::Array(vec![
        object(vec![("id", text("one")), ("text", text("first text"))]),
        object(vec![("text", text("second text")), ("emb", Json::Array(vec![])), ("id", text("two"))]),
    ]);
    let index = VectorIndex::from_json(Some(&json), "where".to_string());
    assert_eq!(index.path(), Some("where"));
    assert_eq!(
        contents(&index),
        vec![
            ("one".to_string(), "first text".to_string(), embed("first text")),
            ("two".to_string(), "second text".to_string(), embed("second text")),
        ]
    );
}

#[test]
fn from_json_of_nothing_is_empty() {
    let index = VectorIndex::from_json(None, "where".to_string());
    assert_eq!(index.len(), 0);
    assert_eq!(index.path(), Some("where"));
}

#[test]
fn from_json_of_what_is_no_array_is_empty() {
    for json in [
        Json::Null,
        Json::Bool(true),
        Json::Number("1.5".to_string()),
        text("id"),
        object(vec![("id", text("a")), ("text", text("b"))]),
    ] {
        let index = VectorIndex::from_json(Some(&json), "where".to_string());
        assert_eq!(index.len(), 0);
    }
}

#[test]
fn from_json_passes_over_what_has_no_identifier() {
    let json = Json::Array(vec![
        Json::Null,
        text("id"),
        object(vec![("id", Json::Number("3".to_string())), ("text", text("t"))]),
        object(vec![("id", text("")), ("text", text("t"))]),
        object(vec![("ID", text("upper")), ("text", text("t"))]),
        object(vec![("id", text("ok")), ("text", Json::Bool(false))]),
    ]);
    let index = VectorIndex::from_json(Some(&json), "where".to_string());
    assert_eq!(contents(&index), vec![("ok".to_string(), String::new(), embed(""))]);
}

#[test]
fn from_json_takes_the_first_member_of_a_name() {
    let json = Json::Array(vec![object(vec![
        ("id", text("first")),
        ("id", text("second")),
        ("text", text("t")),
    ])]);
    let index = VectorIndex::from_json(Some(&json), "where".to_string());
    assert_eq!(index.get(0).unwrap().id(), "first");
}

#[test]
fn saved_snapshot_loads_to_an_equal_store() {
    let mut index = VectorIndex::bound_to("snap.json".to_string());
    index.upsert("doc1".to_string(), "the cat sat".to_string());
    index.upsert("doc \"2\"".to_string(), "line one\nline two\t\u{3000}日本語 😀 \\ end".to_string());
    index.upsert("doc3".to_string(), String::new());
    index.upsert("doc1".to_string(), "the cat sat again".to_string());
    let bytes = snapshot_of(&index);
    let loaded = VectorIndex::load("snap.json".to_string(), Some(&bytes));
    assert_eq!(loaded.path(), index.path());
    assert_eq!(contents(&loaded), contents(&index));
    for i in 0..loaded.len() {
        let a = unit(loaded.get(i).unwrap().counts());
        let b = unit(index.get(i).unwrap().counts());
        assert_eq!(a, b);
    }
}

#[test]
fn saved_snapshot_of_an_empty_store_loads_empty() {
    let index = VectorIndex::bound_to("snap.json".to_string());
    let bytes = snapshot_of(&index);
    assert_eq!(bytes, b"[]");
    let loaded = VectorIndex::load("snap.json".to_string(), Some(&bytes));
    assert_eq!(loaded.len(), 0);
}

#[test]
fn saved_embedding_is_read_back_as_written() {
    let mut index = VectorIndex::new();
    index.upsert("a".to_string(), "one two two three three three".to_string());
    let bytes = snapshot_of(&index);
    let value: serde_json::Value = serde_json::from_slice(&bytes).unwrap();
    let emb: Vec<f32> = value[0]["emb"]
        .as_array()
        .unwrap()
        .iter()
        .map(|x| x.as_f64().unwrap() as f32)
        .collect();
    assert_eq!(emb, unit(index.get(0).unwrap().counts()));
}
