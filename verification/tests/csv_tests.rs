use batch_importer::csv::chunk_csv;
use batch_importer::csv::parse_records;
use batch_importer::csv::write_record;
use batch_importer::csv::CsvChunker;
use batch_importer::csv::CsvError;

fn fields(parts: &[&str]) -> Vec<Vec<u8>> {
    parts.iter().map(|p| p.as_bytes().to_vec()).collect()
}

#[test]
fn parse_simple_rows() {
    let input = b"a,b\n1,2\n3,4\n".to_vec();
    let recs = parse_records(&input, b',').unwrap();
    assert_eq!(recs.len(), 3);
    assert_eq!(recs[0], fields(&["a", "b"]));
    assert_eq!(recs[1], fields(&["1", "2"]));
    assert_eq!(recs[2], fields(&["3", "4"]));
}

#[test]
fn parse_missing_trailing_newline() {
    let input = b"a,b\n1,2".to_vec();
    let recs = parse_records(&input, b',').unwrap();
    assert_eq!(recs.len(), 2);
    assert_eq!(recs[1], fields(&["1", "2"]));
}

#[test]
fn parse_quoted_fields() {
    let input = b"name,note\n\"x,y\",\"he said \"\"hi\"\"\"\n\"line\nbreak\",plain\n".to_vec();
    let recs = parse_records(&input, b',').unwrap();
    assert_eq!(recs.len(), 3);
    assert_eq!(recs[1], fields(&["x,y", "he said \"hi\""]));
    assert_eq!(recs[2], fields(&["line\nbreak", "plain"]));
}

#[test]
fn parse_crlf_and_blank_lines() {
    let input = b"a,b\r\n\r\n1,2\r\n\n3,4\n".to_vec();
    let recs = parse_records(&input, b',').unwrap();
    assert_eq!(recs.len(), 3);
    assert_eq!(recs[0], fields(&["a", "b"]));
    assert_eq!(recs[1], fields(&["1", "2"]));
    assert_eq!(recs[2], fields(&["3", "4"]));
}

#[test]
fn parse_empty_fields() {
    let input = b"a,,c\n,,\n".to_vec();
    let recs = parse_records(&input, b',').unwrap();
    assert_eq!(recs[0], fields(&["a", "", "c"]));
    assert_eq!(recs[1], fields(&["", "", ""]));
}

#[test]
fn parse_custom_delimiter() {
    let input = b"a;b\n1;2\n".to_vec();
    let recs = parse_records(&input, b';').unwrap();
    assert_eq!(recs[0], fields(&["a", "b"]));
    assert_eq!(recs[1], fields(&["1", "2"]));
}

#[test]
fn parse_stray_quote_is_error() {
    let input = b"a,b\nx\"y,2\n".to_vec();
    assert_eq!(parse_records(&input, b','), Err(CsvError::UnexpectedQuote));
}

#[test]
fn parse_unterminated_quote_is_error() {
    let input = b"a,b\n\"open,2\n".to_vec();
    assert_eq!(parse_records(&input, b','), Err(CsvError::UnterminatedQuote));
}

#[test]
fn parse_junk_after_closing_quote_is_error() {
    let input = b"a,b\n\"x\"y,2\n".to_vec();
    assert_eq!(parse_records(&input, b','), Err(CsvError::InvalidAfterQuote));
}

#[test]
fn parse_bare_carriage_return_is_error() {
    let input = b"a,b\r1,2\n".to_vec();
    assert_eq!(parse_records(&input, b','), Err(CsvError::BareCarriageReturn));
}

#[test]
fn write_record_plain_and_quoted() {
    assert_eq!(write_record(&fields(&["a", "b"]), b','), b"a,b\n".to_vec());
    assert_eq!(write_record(&fields(&["x,y", "z"]), b','), b"\"x,y\",z\n".to_vec());
    assert_eq!(
        write_record(&fields(&["he said \"hi\""]), b','),
        b"\"he said \"\"hi\"\"\"\n".to_vec()
    );
    assert_eq!(write_record(&fields(&["line\nbreak"]), b','), b"\"line\nbreak\"\n".to_vec());
    // a comma field under a semicolon delimiter needs no quotes
    assert_eq!(write_record(&fields(&["x,y", "z"]), b';'), b"x,y;z\n".to_vec());
}

#[test]
fn single_batch_when_everything_fits() {
    let input = b"a,b\n1,2\n3,4\n".to_vec();
    let batches = chunk_csv(&input, 1024, b',', false).unwrap();
    assert_eq!(batches.len(), 1);
    assert_eq!(batches[0], b"a,b\n1,2\n3,4\n".to_vec());
}

#[test]
fn no_batch_for_empty_input() {
    let input = Vec::new();
    let batches = chunk_csv(&input, 1024, b',', false).unwrap();
    assert_eq!(batches.len(), 0);
}

#[test]
fn no_batch_for_header_only_input() {
    let input = b"a,b\n".to_vec();
    let batches = chunk_csv(&input, 1024, b',', false).unwrap();
    assert_eq!(batches.len(), 0);
}

#[test]
fn rows_concatenate_across_batches_in_order() {
    // header "h1,h2\n" is 6 bytes; each row "r,NN\n" is 5 bytes
    let mut input = b"h1,h2\n".to_vec();
    let mut expected_rows = Vec::new();
    for i in 10..30 {
        let row = format!("r,{i}\n");
        input.extend_from_slice(row.as_bytes());
        expected_rows.push(row.into_bytes());
    }
    let batches = chunk_csv(&input, 20, b',', false).unwrap();
    assert!(batches.len() > 1);
    let header = b"h1,h2\n";
    let mut collected = Vec::new();
    for batch in &batches {
        // every batch starts with the header and holds at least one row
        assert!(batch.starts_with(header));
        let data = &batch[header.len()..];
        assert!(!data.is_empty());
        collected.extend_from_slice(data);
    }
    let flat: Vec<u8> = expected_rows.concat();
    assert_eq!(collected, flat);
}

#[test]
fn batches_stay_under_threshold_when_rows_fit() {
    let mut input = b"h1,h2\n".to_vec();
    for i in 10..30 {
        input.extend_from_slice(format!("r,{i}\n").as_bytes());
    }
    let threshold = 24;
    let batches = chunk_csv(&input, threshold, b',', false).unwrap();
    for batch in &batches {
        assert!(batch.len() <= threshold);
    }
}

#[test]
fn oversized_row_becomes_exactly_one_batch() {
    let big = "x".repeat(100);
    let input = format!("h\n{big}\n");
    let batches = chunk_csv(&input.as_bytes().to_vec(), 20, b',', false).unwrap();
    assert_eq!(batches.len(), 1);
    assert_eq!(batches[0], format!("h\n{big}\n").into_bytes());
}

#[test]
fn oversized_row_among_others_is_delivered_whole() {
    let big = "x".repeat(100);
    let input = format!("h\na\n{big}\nb\n");
    let batches = chunk_csv(&input.as_bytes().to_vec(), 20, b',', false).unwrap();
    let all: Vec<u8> = batches
        .iter()
        .flat_map(|b| b[2..].iter().copied())
        .collect();
    assert_eq!(all, format!("a\n{big}\nb\n").into_bytes());
    assert!(batches.iter().any(|b| b.len() > 100));
}

#[test]
fn ragged_row_is_error() {
    let input = b"a,b\n1,2\n3\n".to_vec();
    assert_eq!(chunk_csv(&input, 1024, b',', false), Err(CsvError::RaggedRow));
}

#[test]
fn ragged_row_tolerated_when_flexible() {
    let input = b"a,b\n1,2\n3\n".to_vec();
    let batches = chunk_csv(&input, 1024, b',', true).unwrap();
    assert_eq!(batches.len(), 1);
    assert_eq!(batches[0], b"a,b\n1,2\n3\n".to_vec());
}

#[test]
fn parse_error_aborts_chunking() {
    let input = b"a,b\n1,2\nx\"y,2\n".to_vec();
    assert_eq!(chunk_csv(&input, 1024, b',', false), Err(CsvError::UnexpectedQuote));
}

#[test]
fn streaming_chunker_matches_whole_input_driver() {
    let header = fields(&["h1", "h2"]);
    let mut chunker = CsvChunker::new(&header, 20, b',', false);
    let mut batches = Vec::new();
    for i in 10..30 {
        let row = fields(&["r", &format!("{i}")]);
        if let Some(batch) = chunker.push_row(&row).unwrap() {
            batches.push(batch);
        }
    }
    if let Some(batch) = chunker.finish() {
        batches.push(batch);
    }
    let mut input = b"h1,h2\n".to_vec();
    for i in 10..30 {
        input.extend_from_slice(format!("r,{i}\n").as_bytes());
    }
    let expected = chunk_csv(&input, 20, b',', false).unwrap();
    assert_eq!(batches, expected);
}

#[test]
fn streaming_chunker_refuses_ragged_row() {
    let header = fields(&["a", "b"]);
    let mut chunker = CsvChunker::new(&header, 1024, b',', false);
    assert!(chunker.push_row(&fields(&["1", "2"])).is_ok());
    assert_eq!(chunker.push_row(&fields(&["only"])), Err(CsvError::RaggedRow));
    // nothing was lost: the buffered row still comes out
    assert_eq!(chunker.finish(), Some(b"a,b\n1,2\n".to_vec()));
}

#[test]
fn write_then_parse_roundtrip() {
    let rows = vec![
        fields(&["plain", "with,comma", "with\"quote"]),
        fields(&["line\nbreak", "cr\rhere", ""]),
        fields(&["", "\"\"", ",,,"]),
    ];
    let mut input = Vec::new();
    for row in &rows {
        input.extend_from_slice(&write_record(row, b','));
    }
    let parsed = parse_records(&input, b',').unwrap();
    assert_eq!(parsed, rows);
}

#[test]
fn lone_empty_field_roundtrips() {
    // written quoted, so it does not come back as a blank line
    let rec = fields(&[""]);
    let written = write_record(&rec, b',');
    assert_eq!(written, b"\"\"\n".to_vec());
    let parsed = parse_records(&written, b',').unwrap();
    assert_eq!(parsed, vec![rec]);
}
