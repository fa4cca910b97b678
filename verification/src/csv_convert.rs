//! Conversion of delimited records into a collection of documents, one per
//! data row, and its rendering as JSON or YAML.

use vstd::prelude::*;
use vstd::slice::slice_to_vec;
use vstd::string::*;
use vstd::utf8::*;

use crate::opts::OutputFormat;
use crate::text::decode_text;

verus! {

/// Why a conversion failed.
#[derive(Debug, Clone, Copy, PartialEq, Eq, Structural)]
pub enum ConvertError {
    /// The reader of the delimited input gave up.
    InputUnreadable,
    /// A field of the row is not text. Row 0 is the header.
    InvalidText { row: usize },
    /// The row has another number of fields than the header. Row 0 is the
    /// header.
    RowShapeMismatch { row: usize, expected: usize, found: usize },
    /// The documents could not be written in the asked format.
    SerializationFailure,
}

/// One converted row: field names with their values, in the order in which
/// the names first came. No name stands in it twice.
#[derive(Debug)]
pub struct Document {
    fields: Vec<(String, String)>,
}

/// Whether no name stands twice among the fields.
pub open spec fn distinct_names(fields: Seq<(Seq<char>, Seq<char>)>) -> bool {
    forall|i: int, j: int|
        0 <= i < j < fields.len() ==> (#[trigger] fields[i]).0 != (#[trigger] fields[j]).0
}

/// Whether a field of that name is there.
pub open spec fn has_name(fields: Seq<(Seq<char>, Seq<char>)>, name: Seq<char>) -> bool {
    exists|i: int| 0 <= i < fields.len() && (#[trigger] fields[i]).0 == name
}

/// A place at which the name stands, where it stands at all.
pub open spec fn place_of(fields: Seq<(Seq<char>, Seq<char>)>, name: Seq<char>) -> int {
    choose|i: int| 0 <= i < fields.len() && (#[trigger] fields[i]).0 == name
}

/// The fields after a value was stored under a name: a name that was there
/// keeps its place and gets the new value, a new name comes last.
pub open spec fn inserted(
    fields: Seq<(Seq<char>, Seq<char>)>,
    name: Seq<char>,
    value: Seq<char>,
) -> Seq<(Seq<char>, Seq<char>)> {
    if has_name(fields, name) {
        fields.update(place_of(fields, name), (name, value))
    } else {
        fields.push((name, value))
    }
}

/// The fields made of the first `n` names, each with the value at its
/// place in the row.
pub open spec fn paired(names: Seq<Seq<char>>, row: Seq<Seq<char>>, n: nat) -> Seq<
    (Seq<char>, Seq<char>),
>
    decreases n,
{
    if n == 0 {
        Seq::empty()
    } else {
        inserted(paired(names, row, (n - 1) as nat), names[n - 1], row[n - 1])
    }
}

/// The number of places that a header and a row have in common.
pub open spec fn common_width(names: Seq<Seq<char>>, row: Seq<Seq<char>>) -> nat {
    if names.len() <= row.len() {
        names.len()
    } else {
        row.len()
    }
}

/// The document of a row under a header.
pub open spec fn document_of(names: Seq<Seq<char>>, row: Seq<Seq<char>>) -> Seq<
    (Seq<char>, Seq<char>),
> {
    paired(names, row, common_width(names, row))
}

/// Storing a value keeps the names distinct.
pub proof fn lemma_inserted_distinct(
    fields: Seq<(Seq<char>, Seq<char>)>,
    name: Seq<char>,
    value: Seq<char>,
)
    requires
        distinct_names(fields),
    ensures
        distinct_names(inserted(fields, name, value)),
{
    let after = inserted(fields, name, value);
    if has_name(fields, name) {
        let at = place_of(fields, name);
        assert forall|i: int, j: int| 0 <= i < j < after.len() implies (#[trigger] after[i]).0 != (
        #[trigger] after[j]).0 by {
            assert(after[i].0 == fields[i].0);
            assert(after[j].0 == fields[j].0);
        }
    } else {
        assert forall|i: int, j: int| 0 <= i < j < after.len() implies (#[trigger] after[i]).0 != (
        #[trigger] after[j]).0 by {
            if j < fields.len() {
                assert(after[i] == fields[i]);
                assert(after[j] == fields[j]);
            } else {
                assert(after[i] == fields[i]);
            }
        }
    }
}

/// The document of a row has distinct names.
pub proof fn lemma_paired_distinct(names: Seq<Seq<char>>, row: Seq<Seq<char>>, n: nat)
    ensures
        distinct_names(paired(names, row, n)),
    decreases n,
{
    if n > 0 {
        lemma_paired_distinct(names, row, (n - 1) as nat);
        lemma_inserted_distinct(paired(names, row, (n - 1) as nat), names[n - 1], row[n - 1]);
    }
}

impl View for Document {
    type V = Seq<(Seq<char>, Seq<char>)>;

    closed spec fn view(&self) -> Seq<(Seq<char>, Seq<char>)> {
        self.fields.deep_view()
    }
}

impl Document {
    #[verifier::type_invariant]
    spec fn well_formed(self) -> bool {
        distinct_names(self.fields.deep_view())
    }

    /// A document without fields.
    pub fn new() -> (r: Document)
        ensures
            r@ == Seq::<(Seq<char>, Seq<char>)>::empty(),
    {
        let fields: Vec<(String, String)> = Vec::new();
        assert(fields.deep_view() =~= Seq::<(Seq<char>, Seq<char>)>::empty());
        Document { fields }
    }

    /// The number of fields.
    pub fn len(&self) -> (n: usize)
        ensures
            n == self@.len(),
    {
        self.fields.len()
    }

    /// The name and the value at a place, or `None` past the last field.
    pub fn field(&self, i: usize) -> (r: Option<(&str, &str)>)
        ensures
            match r {
                Some((name, value)) => i < self@.len() && self@[i as int] == (name@, value@),
                None => i >= self@.len(),
            },
    {
        if i < self.fields.len() {
            Some((self.fields[i].0.as_str(), self.fields[i].1.as_str()))
        } else {
            None
        }
    }

    /// The place at which a name stands, or `None` where it does not.
    pub fn find(&self, name: &str) -> (r: Option<usize>)
        ensures
            match r {
                Some(i) => i < self@.len() && self@[i as int].0 == name@,
                None => !has_name(self@, name@),
            },
    {
        let mut i: usize = 0;
        while i < self.fields.len()
            invariant
                i <= self.fields@.len(),
                forall|j: int| 0 <= j < i ==> (#[trigger] self.fields.deep_view()[j]).0 != name@,
            decreases self.fields@.len() - i,
        {
            if equal_text(self.fields[i].0.as_str(), name) {
                return Some(i);
            }
            i += 1;
        }
        None
    }

    /// The document with a value stored under a name. A name that is there
    /// keeps its place and gets the new value; a new name comes last.
    pub fn with(self, name: String, value: String) -> (r: Document)
        ensures
            r@ == inserted(self@, name@, value@),
    {
        proof {
            use_type_invariant(&self);
            lemma_inserted_distinct(self@, name@, value@);
        }
        let ghost before = self.fields.deep_view();
        let found = self.find(name.as_str());
        let mut fields = self.fields;
        match found {
            Some(i) => {
                assert(place_of(before, name@) == i);
                fields.set(i, (name, value));
            },
            None => {
                fields.push((name, value));
            },
        }
        assert(fields.deep_view() =~= inserted(before, name@, value@));
        Document { fields }
    }
}

/// Whether two texts are the same.
fn equal_text(a: &str, b: &str) -> (r: bool)
    ensures
        r == (a@ == b@),
{
    let x = a.as_bytes();
    let y = b.as_bytes();
    proof {
        assert(x@ == encode_utf8(a@));
        assert(y@ == encode_utf8(b@));
        encode_utf8_decode_utf8(a@);
        encode_utf8_decode_utf8(b@);
    }
    if x.len() != y.len() {
        return false;
    }
    let mut i: usize = 0;
    while i < x.len()
        invariant
            i <= x@.len(),
            x@.len() == y@.len(),
            x@ == encode_utf8(a@),
            y@ == encode_utf8(b@),
            forall|j: int| 0 <= j < i ==> x@[j] == y@[j],
        decreases x@.len() - i,
    {
        if x[i] != y[i] {
            return false;
        }
        i += 1;
    }
    assert(x@ =~= y@);
    true
}

/// The views of the documents, one after another.
pub open spec fn documents_view(docs: Seq<Document>) -> Seq<Seq<(Seq<char>, Seq<char>)>> {
    Seq::new(docs.len(), |i: int| docs[i]@)
}

/// The records that the delimited input holds, header first, each field as
/// its bytes; `None` where the reader gives up. Rows may differ in width.
pub uninterp spec fn csv_records(data: Seq<u8>) -> Option<Seq<Seq<Seq<u8>>>>;

/// The pretty-printed JSON text of a collection of documents: an array of
/// objects whose values are all strings.
pub uninterp spec fn json_text(docs: Seq<Seq<(Seq<char>, Seq<char>)>>) -> Option<Seq<char>>;

/// The YAML text of a collection of documents: a sequence of mappings
/// whose values are all strings.
pub uninterp spec fn yaml_text(docs: Seq<Seq<(Seq<char>, Seq<char>)>>) -> Option<Seq<char>>;

#[verifier::external_type_specification]
#[verifier::external_body]
pub struct ExCsvError(csv::Error);

#[verifier::external_type_specification]
#[verifier::external_body]
pub struct ExJsonError(serde_json::Error);

#[verifier::external_type_specification]
#[verifier::external_body]
pub struct ExYamlError(serde_yaml::Error);

/// A `csv::Reader` over the bytes, made by a `csv::ReaderBuilder` that
/// admits rows of any width, read to its end through `byte_headers` and
/// `byte_records`. What it returns depends on the bytes alone.
#[verifier::external_body]
fn read_records(data: &[u8]) -> (r: Result<Vec<Vec<Vec<u8>>>, csv::Error>)
    ensures
        match r {
            Ok(records) => csv_records(data@) == Some(records.deep_view()),
            Err(_) => csv_records(data@) is None,
        },
{
    let mut reader = csv::ReaderBuilder::new().flexible(true).from_reader(data);
    let header: Vec<Vec<u8>> = reader.byte_headers()?.iter().map(|f| f.to_vec()).collect();
    let mut records: Vec<Vec<Vec<u8>>> = vec![header];
    for record in reader.byte_records() {
        records.push(record?.iter().map(|f| f.to_vec()).collect());
    }
    Ok(records)
}

/// `serde_json::to_string_pretty` on the documents as an array of
/// `serde_json::Value` objects, each field a string under its name. What
/// it returns depends on the documents alone.
#[verifier::external_body]
fn json_pretty(docs: &Vec<Document>) -> (r: Result<String, serde_json::Error>)
    ensures
        match r {
            Ok(text) => json_text(documents_view(docs@)) == Some(text@),
            Err(_) => json_text(documents_view(docs@)) is None,
        },
{
    let values: Vec<serde_json::Value> = docs.iter().map(
        |d| d.fields.iter().map(|f| (f.0.as_str(), f.1.as_str())).collect(),
    ).collect();
    serde_json::to_string_pretty(&values)
}

/// `serde_yaml::to_string` on the documents as a sequence of
/// `serde_json::Value` objects, each field a string under its name. What
/// it returns depends on the documents alone.
#[verifier::external_body]
fn yaml_plain(docs: &Vec<Document>) -> (r: Result<String, serde_yaml::Error>)
    ensures
        match r {
            Ok(text) => yaml_text(documents_view(docs@)) == Some(text@),
            Err(_) => yaml_text(documents_view(docs@)) is None,
        },
{
    let values: Vec<serde_json::Value> = docs.iter().map(
        |d| d.fields.iter().map(|f| (f.0.as_str(), f.1.as_str())).collect(),
    ).collect();
    serde_yaml::to_string(&values)
}

/// Whether every field of a record is well-formed UTF-8.
pub open spec fn is_text(record: Seq<Seq<u8>>) -> bool {
    forall|j: int| 0 <= j < record.len() ==> valid_utf8(#[trigger] record[j])
}

/// The fields of a record as texts.
pub open spec fn text_of(record: Seq<Seq<u8>>) -> Seq<Seq<char>> {
    Seq::new(record.len(), |j: int| decode_utf8(record[j]))
}

/// The records as a table of texts.
pub open spec fn texts_of(records: Seq<Seq<Seq<u8>>>) -> Seq<Seq<Seq<char>>> {
    Seq::new(records.len(), |i: int| text_of(records[i]))
}

/// What is wrong with the record at `row`, if anything: its width is held
/// against the header's first, then its fields must be text.
pub open spec fn record_fault(records: Seq<Seq<Seq<u8>>>, row: int) -> Option<ConvertError> {
    if records[row].len() != records[0].len() {
        Some(
            ConvertError::RowShapeMismatch {
                row: row as usize,
                expected: records[0].len() as usize,
                found: records[row].len() as usize,
            },
        )
    } else if !is_text(records[row]) {
        Some(ConvertError::InvalidText { row: row as usize })
    } else {
        None
    }
}

/// The fault of the first faulty record at or after `from`.
pub open spec fn records_fault_from(records: Seq<Seq<Seq<u8>>>, from: int) -> Option<ConvertError>
    decreases records.len() - from,
{
    if from < 0 || from >= records.len() {
        None
    } else if record_fault(records, from) is Some {
        record_fault(records, from)
    } else {
        records_fault_from(records, from + 1)
    }
}

/// The fault of the first faulty record.
pub open spec fn records_fault(records: Seq<Seq<Seq<u8>>>) -> Option<ConvertError> {
    records_fault_from(records, 0)
}

/// What is wrong with the row, if anything: it must be as wide as the
/// header.
pub open spec fn row_fault(table: Seq<Seq<Seq<char>>>, row: int) -> Option<ConvertError> {
    if table[row].len() != table[0].len() {
        Some(
            ConvertError::RowShapeMismatch {
                row: row as usize,
                expected: table[0].len() as usize,
                found: table[row].len() as usize,
            },
        )
    } else {
        None
    }
}

/// The fault of the first faulty row at or after `from`.
pub open spec fn table_fault_from(table: Seq<Seq<Seq<char>>>, from: int) -> Option<ConvertError>
    decreases table.len() - from,
{
    if from < 0 || from >= table.len() {
        None
    } else if row_fault(table, from) is Some {
        row_fault(table, from)
    } else {
        table_fault_from(table, from + 1)
    }
}

/// The fault of the first faulty row.
pub open spec fn table_fault(table: Seq<Seq<Seq<char>>>) -> Option<ConvertError> {
    table_fault_from(table, 0)
}

/// The documents of a table: one for every row after the header, in the
/// order of the rows. A table without a header has none.
pub open spec fn documents_of(table: Seq<Seq<Seq<char>>>) -> Seq<Seq<(Seq<char>, Seq<char>)>> {
    if table.len() == 0 {
        Seq::empty()
    } else {
        Seq::new((table.len() - 1) as nat, |i: int| document_of(table[0], table[i + 1]))
    }
}

/// The text of the documents in a format.
pub open spec fn rendered(docs: Seq<Seq<(Seq<char>, Seq<char>)>>, format: OutputFormat) -> Option<
    Seq<char>,
> {
    match format {
        OutputFormat::Json => json_text(docs),
        OutputFormat::Yaml => yaml_text(docs),
    }
}

/// What the conversion of a table gives.
pub open spec fn converted(table: Seq<Seq<Seq<char>>>, format: OutputFormat) -> Result<
    Seq<char>,
    ConvertError,
> {
    match table_fault(table) {
        Some(e) => Err(e),
        None => match rendered(documents_of(table), format) {
            Some(text) => Ok(text),
            None => Err(ConvertError::SerializationFailure),
        },
    }
}

/// What the conversion of delimited input gives.
pub open spec fn processed(data: Seq<u8>, format: OutputFormat) -> Result<Seq<char>, ConvertError> {
    match csv_records(data) {
        None => Err(ConvertError::InputUnreadable),
        Some(records) => match records_fault(records) {
            Some(e) => Err(e),
            None => converted(texts_of(records), format),
        },
    }
}

/// Whether a result is the one that the model gives.
pub open spec fn agrees(r: Result<String, ConvertError>, model: Result<Seq<char>, ConvertError>) -> bool {
    match r {
        Ok(text) => model == Ok::<Seq<char>, ConvertError>(text@),
        Err(e) => model == Err::<Seq<char>, ConvertError>(e),
    }
}

impl Document {
    /// The document of a row under a header: the names paired with the
    /// row's values place by place, as far as both reach.
    pub fn from_row(names: &Vec<String>, row: &Vec<String>) -> (r: Document)
        ensures
            r@ == document_of(names.deep_view(), row.deep_view()),
    {
        let n: usize = if names.len() <= row.len() {
            names.len()
        } else {
            row.len()
        };
        let mut doc = Document::new();
        let mut i: usize = 0;
        while i < n
            invariant
                i <= n,
                n <= names@.len(),
                n <= row@.len(),
                doc@ == paired(names.deep_view(), row.deep_view(), i as nat),
            decreases n - i,
        {
            doc = doc.with(names[i].clone(), row[i].clone());
            i += 1;
        }
        doc
    }
}

/// Turns the fields of a record into texts, or says that one is none.
fn decode_record(record: &Vec<Vec<u8>>) -> (r: Option<Vec<String>>)
    ensures
        match r {
            Some(row) => is_text(record.deep_view()) && row.deep_view() == text_of(record.deep_view()),
            None => !is_text(record.deep_view()),
        },
{
    let mut row: Vec<String> = Vec::new();
    let mut j: usize = 0;
    while j < record.len()
        invariant
            j <= record@.len(),
            row@.len() == j,
            forall|k: int| 0 <= k < j ==> valid_utf8(#[trigger] record.deep_view()[k]),
            forall|k: int| 0 <= k < j ==> (#[trigger] row@[k])@ == decode_utf8(record.deep_view()[k]),
        decreases record@.len() - j,
    {
        let bytes = slice_to_vec(record[j].as_slice());
        assert(bytes@ == record.deep_view()[j as int]);
        match decode_text(bytes) {
            Some(field) => {
                row.push(field);
            },
            None => {
                return None;
            },
        }
        j += 1;
    }
    assert(row.deep_view() =~= text_of(record.deep_view()));
    Some(row)
}

/// Turns records of bytes into a table of texts. Rows are taken in order:
/// the first row that is not as wide as the header, or that holds a field
/// that is not text, ends the work with its fault.
pub fn decode_records(records: &Vec<Vec<Vec<u8>>>) -> (r: Result<Vec<Vec<String>>, ConvertError>)
    ensures
        match r {
            Ok(table) => records_fault(records.deep_view()) is None && table.deep_view()
                == texts_of(records.deep_view()),
            Err(e) => records_fault(records.deep_view()) == Some(e),
        },
{
    let ghost model = records.deep_view();
    let mut table: Vec<Vec<String>> = Vec::new();
    let mut i: usize = 0;
    while i < records.len()
        invariant
            i <= records@.len(),
            model == records.deep_view(),
            table@.len() == i,
            records_fault(model) == records_fault_from(model, i as int),
            forall|k: int| 0 <= k < i ==> (#[trigger] table@[k]).deep_view() == text_of(model[k]),
        decreases records@.len() - i,
    {
        assert(model[i as int] == records@[i as int].deep_view());
        assert(model[0] == records@[0].deep_view());
        if records[i].len() != records[0].len() {
            return Err(
                ConvertError::RowShapeMismatch {
                    row: i,
                    expected: records[0].len(),
                    found: records[i].len(),
                },
            );
        }
        match decode_record(&records[i]) {
            Some(row) => {
                table.push(row);
            },
            None => {
                return Err(ConvertError::InvalidText { row: i });
            },
        }
        i += 1;
    }
    assert(table.deep_view() =~= texts_of(model));
    Ok(table)
}

/// Reads delimited input into a table of texts, header first.
pub fn read_table(data: &[u8]) -> (r: Result<Vec<Vec<String>>, ConvertError>)
    ensures
        match csv_records(data@) {
            None => r == Err::<Vec<Vec<String>>, ConvertError>(ConvertError::InputUnreadable),
            Some(records) => match r {
                Ok(table) => records_fault(records) is None && table.deep_view() == texts_of(
                    records,
                ),
                Err(e) => records_fault(records) == Some(e),
            },
        },
{
    match read_records(data) {
        Ok(records) => decode_records(&records),
        Err(_) => Err(ConvertError::InputUnreadable),
    }
}

/// Builds the documents of a table: one for every row after the header, in
/// the order of the rows. The first row that is not as wide as the header
/// ends the work with its fault.
pub fn build_documents(table: &Vec<Vec<String>>) -> (r: Result<Vec<Document>, ConvertError>)
    ensures
        match r {
            Ok(docs) => table_fault(table.deep_view()) is None && documents_view(docs@)
                == documents_of(table.deep_view()),
            Err(e) => table_fault(table.deep_view()) == Some(e),
        },
{
    let ghost model = table.deep_view();
    let mut docs: Vec<Document> = Vec::new();
    if table.len() == 0 {
        assert(documents_view(docs@) =~= documents_of(model));
        return Ok(docs);
    }
    assert(row_fault(model, 0) is None);
    let mut i: usize = 1;
    while i < table.len()
        invariant
            1 <= i <= table@.len(),
            model == table.deep_view(),
            docs@.len() == i - 1,
            table_fault(model) == table_fault_from(model, i as int),
            forall|k: int| 0 <= k < i - 1 ==> (#[trigger] docs@[k])@ == document_of(model[0], model[k + 1]),
        decreases table@.len() - i,
    {
        assert(model[i as int] == table@[i as int].deep_view());
        assert(model[0] == table@[0].deep_view());
        if table[i].len() != table[0].len() {
            return Err(
                ConvertError::RowShapeMismatch {
                    row: i,
                    expected: table[0].len(),
                    found: table[i].len(),
                },
            );
        }
        let doc = Document::from_row(&table[0], &table[i]);
        docs.push(doc);
        i += 1;
    }
    assert(documents_view(docs@) =~= documents_of(model));
    Ok(docs)
}

/// Writes the documents in the asked format.
pub fn render(docs: &Vec<Document>, format: OutputFormat) -> (r: Result<String, ConvertError>)
    ensures
        match r {
            Ok(text) => rendered(documents_view(docs@), format) == Some(text@),
            Err(e) => e == ConvertError::SerializationFailure && rendered(
                documents_view(docs@),
                format,
            ) is None,
        },
{
    match format {
        OutputFormat::Json => match json_pretty(docs) {
            Ok(text) => Ok(text),
            Err(_) => Err(ConvertError::SerializationFailure),
        },
        OutputFormat::Yaml => match yaml_plain(docs) {
            Ok(text) => Ok(text),
            Err(_) => Err(ConvertError::SerializationFailure),
        },
    }
}

/// Converts a table, header first, into the text of its documents in the
/// asked format.
pub fn convert(table: &Vec<Vec<String>>, format: OutputFormat) -> (r: Result<String, ConvertError>)
    ensures
        agrees(r, converted(table.deep_view(), format)),
{
    match build_documents(table) {
        Ok(docs) => render(&docs, format),
        Err(e) => Err(e),
    }
}

/// Converts delimited input into the text of its documents in the asked
/// format.
pub fn process_csv(input: &[u8], format: OutputFormat) -> (r: Result<String, ConvertError>)
    ensures
        agrees(r, processed(input@, format)),
{
    match read_table(input) {
        Ok(table) => convert(&table, format),
        Err(e) => Err(e),
    }
}

/// Whether no name stands twice in a header.
pub open spec fn distinct_header(names: Seq<Seq<char>>) -> bool {
    forall|i: int, j: int| 0 <= i < j < names.len() ==> #[trigger] names[i] != #[trigger] names[j]
}

/// Whether every row of a table is as wide as its header.
pub open spec fn uniform(table: Seq<Seq<Seq<char>>>) -> bool {
    forall|i: int| 0 <= i < table.len() ==> (#[trigger] table[i]).len() == table[0].len()
}

/// The fields of a row under a header, place by place.
pub open spec fn zipped(names: Seq<Seq<char>>, row: Seq<Seq<char>>, n: nat) -> Seq<
    (Seq<char>, Seq<char>),
> {
    Seq::new(n, |j: int| (names[j], row[j]))
}

/// Under names that are distinct, pairing gives one field for every name,
/// in the order of the names.
pub proof fn lemma_paired_in_order(names: Seq<Seq<char>>, row: Seq<Seq<char>>, n: nat)
    requires
        n <= names.len(),
        n <= row.len(),
        distinct_header(names),
    ensures
        paired(names, row, n) == zipped(names, row, n),
    decreases n,
{
    if n == 0 {
        assert(paired(names, row, n) =~= zipped(names, row, n));
    } else {
        let m = (n - 1) as nat;
        lemma_paired_in_order(names, row, m);
        let before = zipped(names, row, m);
        assert(!has_name(before, names[n - 1])) by {
            if has_name(before, names[n - 1]) {
                let i = place_of(before, names[n - 1]);
                assert(before[i].0 == names[i]);
                assert(names[i] != names[n - 1]);
            }
        }
        assert(before.push((names[n - 1], row[n - 1])) =~= zipped(names, row, n));
    }
}

/// A table has no fault exactly if every row is as wide as the header.
pub proof fn lemma_fault_free_iff_uniform(table: Seq<Seq<Seq<char>>>)
    ensures
        table_fault(table) is None <==> uniform(table),
{
    lemma_fault_free_from(table, 0);
}

proof fn lemma_fault_free_from(table: Seq<Seq<Seq<char>>>, from: int)
    requires
        0 <= from,
    ensures
        table_fault_from(table, from) is None <==> (forall|i: int|
            from <= i < table.len() ==> (#[trigger] table[i]).len() == table[0].len()),
    decreases table.len() - from,
{
    if from < table.len() {
        lemma_fault_free_from(table, from + 1);
        if table_fault_from(table, from) is None {
            assert forall|i: int| from <= i < table.len() implies (#[trigger] table[i]).len()
                == table[0].len() by {
                if i == from {
                    assert(row_fault(table, from) is None);
                }
            }
        }
    }
}

/// The fault of a table is that of its first row that is not as wide as
/// the header.
pub proof fn lemma_fault_is_first(table: Seq<Seq<Seq<char>>>, row: int)
    requires
        0 <= row < table.len(),
        table[row].len() != table[0].len(),
        forall|i: int| 0 <= i < row ==> (#[trigger] table[i]).len() == table[0].len(),
    ensures
        table_fault(table) == row_fault(table, row),
{
    lemma_fault_first_from(table, row, 0);
}

proof fn lemma_fault_first_from(table: Seq<Seq<Seq<char>>>, row: int, from: int)
    requires
        0 <= from <= row < table.len(),
        table[row].len() != table[0].len(),
        forall|i: int| 0 <= i < row ==> (#[trigger] table[i]).len() == table[0].len(),
    ensures
        table_fault_from(table, from) == row_fault(table, row),
    decreases row - from,
{
    if from < row {
        assert(table[from].len() == table[0].len());
        lemma_fault_first_from(table, row, from + 1);
    }
}

/// A table with a header of distinct names whose rows are all as wide as
/// the header has no fault, and gives one document for every data row, in
/// the order of the rows; each document has one field for every name of
/// the header, in the order of the header, with the row's value at that
/// place.
pub proof fn lemma_documents_follow_table(table: Seq<Seq<Seq<char>>>)
    requires
        table.len() >= 1,
        uniform(table),
        distinct_header(table[0]),
    ensures
        table_fault(table) is None,
        documents_of(table).len() == table.len() - 1,
        forall|i: int|
            0 <= i < table.len() - 1 ==> {
                &&& (#[trigger] documents_of(table)[i]).len() == table[0].len()
                &&& documents_of(table)[i] == zipped(table[0], table[i + 1], table[0].len())
            },
{
    lemma_fault_free_iff_uniform(table);
    assert forall|i: int| 0 <= i < table.len() - 1 implies {
        &&& (#[trigger] documents_of(table)[i]).len() == table[0].len()
        &&& documents_of(table)[i] == zipped(table[0], table[i + 1], table[0].len())
    } by {
        assert(table[i + 1].len() == table[0].len());
        lemma_paired_in_order(table[0], table[i + 1], table[0].len());
    }
}

/// Records without a fault decode to a table whose rows are all as wide as
/// the header, so what is read from delimited input is never refused for
/// its shape afterwards.
pub proof fn lemma_decoded_records_are_uniform(records: Seq<Seq<Seq<u8>>>)
    requires
        records_fault(records) is None,
    ensures
        uniform(texts_of(records)),
        table_fault(texts_of(records)) is None,
{
    lemma_records_fault_free_from(records, 0);
    let table = texts_of(records);
    assert forall|i: int| 0 <= i < table.len() implies (#[trigger] table[i]).len()
        == table[0].len() by {
        assert(record_fault(records, i) is None);
    }
    lemma_fault_free_iff_uniform(table);
}

proof fn lemma_records_fault_free_from(records: Seq<Seq<Seq<u8>>>, from: int)
    requires
        0 <= from,
        records_fault_from(records, from) is None,
    ensures
        forall|i: int| from <= i < records.len() ==> record_fault(records, i) is None,
    decreases records.len() - from,
{
    if from < records.len() {
        lemma_records_fault_free_from(records, from + 1);
    }
}

} // verus!
