use rcli::{
    build_documents, convert, decode_records, process_csv, read_table, render, ConvertError,
    Document, OutputFormat,
};

fn row(fields: &[&str]) -> Vec<String> {
    fields.iter().map(|f| f.to_string()).collect()
}

fn people() -> Vec<Vec<String>> {
    vec![row(&["name", "age"]), row(&["Ann", "30"]), row(&["Bo", "25"])]
}

fn fields_of(doc: &Document) -> Vec<(String, String)> {
    let mut out = Vec::new();
    let mut i = 0;
    while let Some((name, value)) = doc.field(i) {
        out.push((name.to_string(), value.to_string()));
        i += 1;
    }
    out
}

fn pair(name: &str, value: &str) -> (String, String) {
    (name.to_string(), value.to_string())
}

const PEOPLE_JSON: &str = "[\n  {\n    \"name\": \"Ann\",\n    \"age\": \"30\"\n  },\n  {\n    \"name\": \"Bo\",\n    \"age\": \"25\"\n  }\n]";

const PEOPLE_YAML: &str = "- name: Ann\n  age: '30'\n- name: Bo\n  age: '25'\n";

#[test]
fn converts_rows_to_pretty_json() {
    assert_eq!(convert(&people(), OutputFormat::Json), Ok(PEOPLE_JSON.to_string()));
}

#[test]
fn converts_rows_to_yaml() {
    assert_eq!(convert(&people(), OutputFormat::Yaml), Ok(PEOPLE_YAML.to_string()));
}

#[test]
fn processes_delimited_bytes_to_json() {
    let r = process_csv(b"name,age\nAnn,30\nBo,25\n", OutputFormat::Json);
    assert_eq!(r, Ok(PEOPLE_JSON.to_string()));
}

#[test]
fn processes_delimited_bytes_to_yaml() {
    let r = process_csv(b"name,age\nAnn,30\nBo,25\n", OutputFormat::Yaml);
    assert_eq!(r, Ok(PEOPLE_YAML.to_string()));
}

#[test]
fn quoted_fields_keep_their_delimiters() {
    let table = read_table(b"a,b\n\"x,y\",\"say \"\"hi\"\"\"\n").unwrap();
    assert_eq!(table, vec![row(&["a", "b"]), row(&["x,y", "say \"hi\""])]);
}

#[test]
fn numeric_looking_values_stay_strings() {
    let text = process_csv(b"n\n42\n", OutputFormat::Json).unwrap();
    assert_eq!(text, "[\n  {\n    \"n\": \"42\"\n  }\n]");
}

#[test]
fn one_document_per_data_row_in_header_order() {
    let table = vec![
        row(&["z", "a", "m"]),
        row(&["1", "2", "3"]),
        row(&["4", "5", "6"]),
        row(&["7", "8", "9"]),
    ];
    let docs = build_documents(&table).unwrap();
    assert_eq!(docs.len(), 3);
    for doc in &docs {
        assert_eq!(doc.len(), 3);
    }
    assert_eq!(fields_of(&docs[0]), vec![pair("z", "1"), pair("a", "2"), pair("m", "3")]);
    assert_eq!(fields_of(&docs[1]), vec![pair("z", "4"), pair("a", "5"), pair("m", "6")]);
    assert_eq!(fields_of(&docs[2]), vec![pair("z", "7"), pair("a", "8"), pair("m", "9")]);
}

#[test]
fn header_alone_gives_no_document() {
    let docs = build_documents(&vec![row(&["a", "b"])]).unwrap();
    assert_eq!(docs.len(), 0);
    assert_eq!(convert(&vec![row(&["a", "b"])], OutputFormat::Json), Ok("[]".to_string()));
}

#[test]
fn empty_table_gives_no_document() {
    let table: Vec<Vec<String>> = Vec::new();
    assert_eq!(build_documents(&table).unwrap().len(), 0);
    assert_eq!(convert(&table, OutputFormat::Json), Ok("[]".to_string()));
}

#[test]
fn empty_input_gives_an_empty_collection() {
    assert_eq!(read_table(b""), Ok(vec![Vec::<String>::new()]));
    assert_eq!(process_csv(b"", OutputFormat::Json), Ok("[]".to_string()));
    assert_eq!(process_csv(b"", OutputFormat::Yaml), Ok("[]\n".to_string()));
}

#[test]
fn short_row_is_a_shape_mismatch() {
    let table = vec![row(&["a", "b"]), row(&["1", "2"]), row(&["3"])];
    let expected = ConvertError::RowShapeMismatch { row: 2, expected: 2, found: 1 };
    assert_eq!(build_documents(&table).err(), Some(expected));
    assert_eq!(convert(&table, OutputFormat::Json), Err(expected));
    assert_eq!(convert(&table, OutputFormat::Yaml), Err(expected));
}

#[test]
fn long_row_is_a_shape_mismatch() {
    let table = vec![row(&["a"]), row(&["1", "2"])];
    let expected = ConvertError::RowShapeMismatch { row: 1, expected: 1, found: 2 };
    assert_eq!(convert(&table, OutputFormat::Json), Err(expected));
}

#[test]
fn first_misshapen_row_decides() {
    let table = vec![row(&["a", "b"]), row(&["1"]), row(&["1", "2", "3"])];
    let expected = ConvertError::RowShapeMismatch { row: 1, expected: 2, found: 1 };
    assert_eq!(convert(&table, OutputFormat::Json), Err(expected));
}

#[test]
fn misshapen_input_is_a_shape_mismatch() {
    let expected = ConvertError::RowShapeMismatch { row: 2, expected: 2, found: 3 };
    assert_eq!(process_csv(b"a,b\n1,2\n3,4,5\n", OutputFormat::Json), Err(expected));
    assert_eq!(read_table(b"a,b\n1,2\n3,4,5\n"), Err(expected));
}

#[test]
fn bytes_that_are_no_text_are_refused() {
    assert_eq!(
        process_csv(b"a,b\n1,\xff\n", OutputFormat::Json),
        Err(ConvertError::InvalidText { row: 1 })
    );
    assert_eq!(
        process_csv(b"a,\xff\n1,2\n", OutputFormat::Json),
        Err(ConvertError::InvalidText { row: 0 })
    );
}

#[test]
fn the_first_faulty_record_decides() {
    let shape_first = process_csv(b"a,b\n1\n2,\xff\n", OutputFormat::Json);
    assert_eq!(shape_first, Err(ConvertError::RowShapeMismatch { row: 1, expected: 2, found: 1 }));
    let text_first = process_csv(b"a,b\n2,\xff\n1\n", OutputFormat::Json);
    assert_eq!(text_first, Err(ConvertError::InvalidText { row: 1 }));
    let width_before_text = process_csv(b"a,b\n\xff\n", OutputFormat::Json);
    assert_eq!(
        width_before_text,
        Err(ConvertError::RowShapeMismatch { row: 1, expected: 2, found: 1 })
    );
}

#[test]
fn decodes_records_of_bytes() {
    let records = vec![
        vec![b"k".to_vec(), b"v".to_vec()],
        vec!["\u{e9}".as_bytes().to_vec(), b"".to_vec()],
    ];
    assert_eq!(decode_records(&records), Ok(vec![row(&["k", "v"]), row(&["\u{e9}", ""])]));
    let broken = vec![vec![b"k".to_vec()], vec![vec![0xc3u8]]];
    assert_eq!(decode_records(&broken), Err(ConvertError::InvalidText { row: 1 }));
    let ragged = vec![vec![b"k".to_vec()], vec![]];
    assert_eq!(
        decode_records(&ragged),
        Err(ConvertError::RowShapeMismatch { row: 1, expected: 1, found: 0 })
    );
}

#[test]
fn a_repeated_name_keeps_its_place_and_takes_the_last_value() {
    let table = vec![row(&["a", "b", "a"]), row(&["1", "2", "3"])];
    let docs = build_documents(&table).unwrap();
    assert_eq!(fields_of(&docs[0]), vec![pair("a", "3"), pair("b", "2")]);
    assert_eq!(
        render(&docs, OutputFormat::Json),
        Ok("[\n  {\n    \"a\": \"3\",\n    \"b\": \"2\"\n  }\n]".to_string())
    );
}

#[test]
fn document_stores_and_finds_fields() {
    let doc = Document::new();
    assert_eq!(doc.len(), 0);
    assert_eq!(doc.field(0), None);
    assert_eq!(doc.find("x"), None);
    let doc = doc.with("x".to_string(), "1".to_string());
    let doc = doc.with("y".to_string(), "2".to_string());
    assert_eq!(doc.len(), 2);
    assert_eq!(doc.find("x"), Some(0));
    assert_eq!(doc.find("y"), Some(1));
    assert_eq!(doc.find("z"), None);
    assert_eq!(doc.field(1), Some(("y", "2")));
    assert_eq!(doc.field(2), None);
    let doc = doc.with("x".to_string(), "9".to_string());
    assert_eq!(fields_of(&doc), vec![pair("x", "9"), pair("y", "2")]);
}

#[test]
fn document_of_a_row_pairs_as_far_as_both_reach() {
    let doc = Document::from_row(&row(&["a", "b", "c"]), &row(&["1", "2"]));
    assert_eq!(fields_of(&doc), vec![pair("a", "1"), pair("b", "2")]);
    let doc = Document::from_row(&row(&["a"]), &row(&["1", "2"]));
    assert_eq!(fields_of(&doc), vec![pair("a", "1")]);
}

#[test]
fn json_escapes_what_it_must() {
    let table = vec![row(&["q\"k"]), row(&["line\nbreak\\"])];
    assert_eq!(
        convert(&table, OutputFormat::Json),
        Ok("[\n  {\n    \"q\\\"k\": \"line\\nbreak\\\\\"\n  }\n]".to_string())
    );
}

#[test]
fn json_text_parses_back_to_the_same_fields() {
    let table = vec![
        row(&["name", "note", "n"]),
        row(&["Ann", "says \"hi\", twice", "30"]),
        row(&["B\u{f6}", "tab\there\nline", "-1.5e3"]),
        row(&["", "true", "null"]),
    ];
    let docs = build_documents(&table).unwrap();
    let text = render(&docs, OutputFormat::Json).unwrap();
    let parsed: serde_json::Value = serde_json::from_str(&text).unwrap();
    let items = parsed.as_array().unwrap();
    assert_eq!(items.len(), docs.len());
    for (item, doc) in items.iter().zip(docs.iter()) {
        let object = item.as_object().unwrap();
        let got: Vec<(String, String)> = object
            .iter()
            .map(|(k, v)| (k.clone(), v.as_str().unwrap().to_string()))
            .collect();
        assert_eq!(got, fields_of(doc));
    }
}

#[test]
fn yaml_text_parses_back_to_the_same_fields() {
    let docs = build_documents(&people()).unwrap();
    let text = render(&docs, OutputFormat::Yaml).unwrap();
    let parsed: serde_json::Value = serde_yaml::from_str(&text).unwrap();
    let items = parsed.as_array().unwrap();
    assert_eq!(items.len(), 2);
    assert_eq!(items[0].get("name").and_then(|v| v.as_str()), Some("Ann"));
    assert_eq!(items[0].get("age").and_then(|v| v.as_str()), Some("30"));
    assert_eq!(items[1].get("name").and_then(|v| v.as_str()), Some("Bo"));
    assert_eq!(items[1].get("age").and_then(|v| v.as_str()), Some("25"));
}
