use batch_importer::nd_json::chunk_ndjson;
use batch_importer::nd_json::split_lines;
use batch_importer::nd_json::JsonError;
use batch_importer::nd_json::NdJsonChunker;

/// Parses the concatenated objects a batch holds.
fn objects_in(batch: &[u8]) -> Vec<serde_json::Value> {
    serde_json::Deserializer::from_slice(batch)
        .into_iter::<serde_json::Value>()
        .map(|r| r.unwrap())
        .collect()
}

fn obj(pairs: &[(&str, i64)]) -> serde_json::Value {
    let mut m = serde_json::Map::new();
    for (k, v) in pairs {
        m.insert((*k).to_string(), serde_json::Value::from(*v));
    }
    serde_json::Value::Object(m)
}

#[test]
fn split_lines_drops_blank_lines() {
    let input = b"one\n\ntwo\nthree".to_vec();
    let lines = split_lines(&input);
    assert_eq!(lines, vec![b"one".to_vec(), b"two".to_vec(), b"three".to_vec()]);
}

#[test]
fn three_small_objects_two_batches() {
    // each object serializes to 7 bytes; a threshold below all three
    // together, but with room for two, closes the first batch after the
    // second object
    let input = b"{\"a\":1}\n{\"a\":2}\n{\"a\":3}\n".to_vec();
    let batches = chunk_ndjson(&input, 20, &None).unwrap();
    assert_eq!(batches.len(), 2);
    let first = objects_in(&batches[0]);
    let second = objects_in(&batches[1]);
    assert_eq!(first.len(), 2);
    assert_eq!(second.len(), 1);
    assert!(batches[0].len() <= 20);
    assert!(batches[1].len() <= 20);
    let mut all = first;
    all.extend(second);
    assert_eq!(all, vec![obj(&[("a", 1)]), obj(&[("a", 2)]), obj(&[("a", 3)])]);
}

#[test]
fn ndjson_single_batch_when_everything_fits() {
    let input = b"{\"a\":1}\n{\"a\":2}\n".to_vec();
    let batches = chunk_ndjson(&input, 1024, &None).unwrap();
    assert_eq!(batches.len(), 1);
    assert_eq!(objects_in(&batches[0]), vec![obj(&[("a", 1)]), obj(&[("a", 2)])]);
}

#[test]
fn ndjson_no_batch_for_empty_input() {
    let input = Vec::new();
    let batches = chunk_ndjson(&input, 1024, &None).unwrap();
    assert_eq!(batches.len(), 0);
}

#[test]
fn oversized_object_becomes_exactly_one_batch() {
    let big = "x".repeat(100);
    let input = format!("{{\"k\":\"{big}\"}}\n");
    let batches = chunk_ndjson(&input.as_bytes().to_vec(), 20, &None).unwrap();
    assert_eq!(batches.len(), 1);
    let objs = objects_in(&batches[0]);
    assert_eq!(objs.len(), 1);
    assert_eq!(objs[0]["k"].as_str().unwrap(), big);
}

#[test]
fn objects_survive_chunking_in_order() {
    let mut input = Vec::new();
    for i in 0..50 {
        input.extend_from_slice(format!("{{\"i\":{i}}}\n").as_bytes());
    }
    let batches = chunk_ndjson(&input, 30, &None).unwrap();
    assert!(batches.len() > 1);
    let mut all = Vec::new();
    for batch in &batches {
        let objs = objects_in(batch);
        assert!(!objs.is_empty());
        all.extend(objs);
    }
    let expected: Vec<serde_json::Value> = (0..50).map(|i| obj(&[("i", i)])).collect();
    assert_eq!(all, expected);
}

#[test]
fn malformed_line_is_error() {
    let input = b"{\"a\":1}\nnot json\n".to_vec();
    assert_eq!(chunk_ndjson(&input, 1024, &None), Err(JsonError::Invalid));
}

#[test]
fn non_object_line_is_error() {
    let input = b"[1,2,3]\n".to_vec();
    assert_eq!(chunk_ndjson(&input, 1024, &None), Err(JsonError::Invalid));
}

#[test]
fn stripped_field_never_reaches_a_batch() {
    let input =
        b"{\"id\":1,\"_vectors\":[1,2,3]}\n{\"id\":2,\"_vectors\":[4,5,6]}\n".to_vec();
    let strip = Some("_vectors".to_string());
    let batches = chunk_ndjson(&input, 1024, &strip).unwrap();
    assert_eq!(batches.len(), 1);
    let objs = objects_in(&batches[0]);
    assert_eq!(objs.len(), 2);
    for o in &objs {
        assert!(o.get("_vectors").is_none());
        assert!(o.get("id").is_some());
    }
    // without stripping, the field stays
    let kept = chunk_ndjson(&input, 1024, &None).unwrap();
    let objs = objects_in(&kept[0]);
    assert!(objs.iter().all(|o| o.get("_vectors").is_some()));
}

#[test]
fn stripping_shrinks_what_is_measured() {
    // with the heavy field stripped, all objects fit in one batch; kept,
    // they spill into several
    let mut input = Vec::new();
    for i in 0..5 {
        let big: Vec<i32> = (0..40).collect();
        input.extend_from_slice(
            format!(
                "{{\"i\":{i},\"_vectors\":{}}}\n",
                serde_json::to_string(&big).unwrap()
            )
            .as_bytes(),
        );
    }
    let strip = Some("_vectors".to_string());
    let slim = chunk_ndjson(&input, 100, &strip).unwrap();
    let fat = chunk_ndjson(&input, 100, &None).unwrap();
    assert_eq!(slim.len(), 1);
    assert!(fat.len() > 1);
}

#[test]
fn ndjson_streaming_chunker_matches_driver() {
    let mut input = Vec::new();
    for i in 0..20 {
        input.extend_from_slice(format!("{{\"i\":{i}}}\n").as_bytes());
    }
    let mut chunker = NdJsonChunker::new(30, None);
    let mut batches = Vec::new();
    for line in split_lines(&input) {
        if let Some(batch) = chunker.push_line(&line).unwrap() {
            batches.push(batch);
        }
    }
    if let Some(batch) = chunker.finish() {
        batches.push(batch);
    }
    let expected = chunk_ndjson(&input, 30, &None).unwrap();
    assert_eq!(batches, expected);
}

#[test]
fn push_line_keeps_state_on_bad_line() {
    let mut chunker = NdJsonChunker::new(1024, None);
    assert!(chunker.push_line(&b"{\"a\":1}".to_vec()).is_ok());
    assert_eq!(chunker.push_line(&b"oops".to_vec()), Err(JsonError::Invalid));
    // the earlier object is still buffered
    let last = chunker.finish().unwrap();
    assert_eq!(objects_in(&last), vec![obj(&[("a", 1)])]);
}

#[test]
fn flush_happens_at_threshold_not_after() {
    // two 7-byte objects: candidate 14 >= 14 closes the batch before the
    // second is appended
    let mut chunker = NdJsonChunker::new(14, None);
    let a = b"{\"a\":1}".to_vec();
    let b = b"{\"a\":2}".to_vec();
    assert_eq!(chunker.push_serialized(&a), None);
    let flushed = chunker.push_serialized(&b);
    assert_eq!(flushed, Some(a.clone()));
    assert_eq!(chunker.finish(), Some(b.clone()));
    // one byte more of room and both fit
    let mut chunker = NdJsonChunker::new(15, None);
    assert_eq!(chunker.push_serialized(&a), None);
    assert_eq!(chunker.push_serialized(&b), None);
    let both = chunker.finish().unwrap();
    assert_eq!(both, [a, b].concat());
}

#[test]
fn objects_are_reserialized_compact_and_key_ordered() {
    // what lands in a batch is the object's own serialization, not the
    // input bytes: whitespace goes away and keys come out ordered
    let input = b"{ \"b\" : 2 , \"a\" : 1 }\n".to_vec();
    let batches = chunk_ndjson(&input, 1024, &None).unwrap();
    assert_eq!(batches.len(), 1);
    assert_eq!(batches[0], b"{\"a\":1,\"b\":2}".to_vec());
}
