//! Two independent, stateless operations: turning delimited records into a
//! JSON or YAML document collection, and generating random passwords whose
//! composition is constrained by character class.

pub mod csv_convert;
pub mod gen_pass;
pub mod opts;
pub mod text;

pub use csv_convert::{
    build_documents, convert, decode_records, process_csv, read_table, render, ConvertError,
    Document,
};
pub use gen_pass::{
    allowed_alphabet, conforms_to, draw_required, fill_remaining, generate, process_genpass,
    CharClass, GenPassError,
};
pub use opts::{
    parse_format, verify_input_file, CsvOpts, FormatError, GenPassOpts, Opts, OutputFormat,
    SubCommand,
};
