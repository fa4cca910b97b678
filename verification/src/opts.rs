//! The parameters of the two operations and the rules that validate them.

use vstd::prelude::*;
use vstd::string::*;

verus! {

/// The text format in which a document collection is written.
#[derive(Debug, Clone, Copy, PartialEq, Eq, Structural)]
pub enum OutputFormat {
    Json,
    Yaml,
}

/// A format name that is neither `json` nor `yaml`.
#[derive(Debug, Clone)]
pub struct FormatError {
    /// The rejected name, as it was given.
    pub given: String,
}

/// Parameters of the record conversion.
#[derive(Debug, Clone)]
pub struct CsvOpts {
    pub input: String,
    pub output: Option<String>,
    pub format: OutputFormat,
    pub delimiter: char,
    pub header: bool,
}

/// Parameters of the password generation: the length and the four
/// character classes that may be switched on and off.
#[derive(Debug, Clone, Copy, PartialEq, Eq, Structural)]
pub struct GenPassOpts {
    pub length: u8,
    pub uppercase: bool,
    pub lowercase: bool,
    pub number: bool,
    pub symbol: bool,
}

/// One of the two operations, with its parameters.
#[derive(Debug, Clone)]
pub enum SubCommand {
    Csv(CsvOpts),
    GenPass(GenPassOpts),
}

/// A complete invocation.
#[derive(Debug, Clone)]
pub struct Opts {
    pub cmd: SubCommand,
}

/// The lower-case form of an ASCII capital; every other character is itself.
pub open spec fn lower(c: char) -> char {
    if 'A' <= c && c <= 'Z' {
        ((c as u8 + 32) as u8) as char
    } else {
        c
    }
}

/// A text with every ASCII capital replaced by its lower-case form.
pub open spec fn lowered(s: Seq<char>) -> Seq<char> {
    Seq::new(s.len(), |i: int| lower(s[i]))
}

/// The name by which a format is selected and shown.
pub open spec fn format_name(format: OutputFormat) -> Seq<char> {
    match format {
        OutputFormat::Json => "json"@,
        OutputFormat::Yaml => "yaml"@,
    }
}

/// The format that a name selects, if any. Letter case is ignored.
pub open spec fn format_named(name: Seq<char>) -> Option<OutputFormat> {
    if lowered(name) == format_name(OutputFormat::Json) {
        Some(OutputFormat::Json)
    } else if lowered(name) == format_name(OutputFormat::Yaml) {
        Some(OutputFormat::Yaml)
    } else {
        None
    }
}

fn lower_char(c: char) -> (r: char)
    ensures
        r == lower(c),
{
    if 'A' <= c && c <= 'Z' {
        ((c as u8) + 32) as char
    } else {
        c
    }
}

/// Whether `value`, letter case ignored, reads as `word`.
fn reads_as(value: &str, word: &str) -> (r: bool)
    ensures
        r == (lowered(value@) == lowered(word@)),
{
    let n: usize = word.unicode_len();
    if value.unicode_len() != n {
        assert(lowered(value@).len() != lowered(word@).len());
        return false;
    }
    let mut i: usize = 0;
    while i < n
        invariant
            i <= n,
            n == word@.len(),
            n == value@.len(),
            forall|j: int| 0 <= j < i ==> lower(value@[j]) == lower(word@[j]),
        decreases n - i,
    {
        if lower_char(value.get_char(i)) != lower_char(word.get_char(i)) {
            assert(lowered(value@)[i as int] != lowered(word@)[i as int]);
            return false;
        }
        i += 1;
    }
    assert(lowered(value@) =~= lowered(word@));
    true
}

impl OutputFormat {
    /// The name of the format: `json` or `yaml`.
    pub fn name(self) -> (r: &'static str)
        ensures
            r@ == format_name(self),
    {
        match self {
            OutputFormat::Json => "json",
            OutputFormat::Yaml => "yaml",
        }
    }

    /// The name of the format as an owned text.
    pub fn to_string(&self) -> (r: String)
        ensures
            r@ == format_name(*self),
    {
        self.name().to_owned()
    }
}

/// The names of the two formats are lower-case already, so each format is
/// found again under its own name.
pub proof fn lemma_name_selects_format(format: OutputFormat)
    ensures
        lowered(format_name(format)) == format_name(format),
        format_named(format_name(format)) == Some(format),
{
    reveal_strlit("json");
    reveal_strlit("yaml");
    assert(lowered("json"@) =~= "json"@);
    assert(lowered("yaml"@) =~= "yaml"@);
    assert("json"@ != "yaml"@) by {
        assert("json"@[0] != "yaml"@[0]);
    }
}

/// Reads a format name. `json` and `yaml` are accepted in any letter case;
/// every other text is rejected and handed back in the error.
pub fn parse_format(format: &str) -> (r: Result<OutputFormat, FormatError>)
    ensures
        match r {
            Ok(f) => format_named(format@) == Some(f),
            Err(e) => format_named(format@) is None && e.given@ == format@,
        },
{
    proof {
        lemma_name_selects_format(OutputFormat::Json);
        lemma_name_selects_format(OutputFormat::Yaml);
    }
    if reads_as(format, OutputFormat::Json.name()) {
        Ok(OutputFormat::Json)
    } else if reads_as(format, OutputFormat::Yaml.name()) {
        Ok(OutputFormat::Yaml)
    } else {
        Err(FormatError { given: format.to_owned() })
    }
}

/// The message with which a missing input file is refused.
pub open spec fn missing_file_message() -> Seq<char> {
    "File dose not exist"@
}

/// Accepts the name of an input file that is known to exist and refuses
/// any other. `exists` is what the file system said of `filename`.
pub fn verify_input_file(filename: &str, exists: bool) -> (r: Result<String, &'static str>)
    ensures
        match r {
            Ok(name) => exists && name@ == filename@,
            Err(message) => !exists && message@ == missing_file_message(),
        },
{
    if exists {
        Ok(filename.to_owned())
    } else {
        Err("File dose not exist")
    }
}

impl From<OutputFormat> for &'static str {
    fn from(format: OutputFormat) -> (r: Self) {
        match format {
            OutputFormat::Json => "json",
            OutputFormat::Yaml => "yaml",
        }
    }
}

impl vstd::std_specs::convert::FromSpecImpl<OutputFormat> for &'static str {
    open spec fn obeys_from_spec() -> bool {
        true
    }

    open spec fn from_spec(format: OutputFormat) -> Self {
        match format {
            OutputFormat::Json => "json",
            OutputFormat::Yaml => "yaml",
        }
    }
}

impl std::str::FromStr for OutputFormat {
    type Err = FormatError;

    /// Reads a format name as `parse_format` does.
    fn from_str(value: &str) -> (r: Result<Self, Self::Err>)
        ensures
            match r {
                Ok(f) => format_named(value@) == Some(f),
                Err(e) => format_named(value@) is None && e.given@ == value@,
            },
    {
        parse_format(value)
    }
}

} // verus!
