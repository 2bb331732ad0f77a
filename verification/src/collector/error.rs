//! What goes wrong when a cgroup file does not parse, and how it is told.

use crate::text::{
    chars_of, decimal, push_chars, push_decimal, push_str, string_from_chars,
    IntErrorKind,
};
use vstd::prelude::*;

verus! {

/// The stat files that hold one `key value` pair per line.
#[derive(Clone, Copy, Debug, PartialEq, Eq, Structural)]
pub enum KvFile {
    CpuStat,
    MemoryStat,
    MemoryEvents,
}

/// A field that every pressure line must carry.
#[derive(Clone, Copy, Debug, PartialEq, Eq, Structural)]
pub enum PressureField {
    Avg10,
    Avg60,
    Avg300,
    Total,
}

/// Why one line of `io.stat` did not parse.
#[derive(Clone, Debug)]
pub enum IoLineError {
    /// The line holds no token.
    MissingDevice,
    /// The device is not written `major:minor`.
    NoColon { device: String },
    BadMajor { device: String, cause: IntErrorKind },
    BadMinor { device: String, cause: IntErrorKind },
    /// A counter is not written `key=value`.
    MalformedPair { part: String },
    BadValue { key: String, value: String, cause: IntErrorKind },
}

pub enum IoLineErrorView {
    MissingDevice,
    NoColon { device: Seq<char> },
    BadMajor { device: Seq<char>, cause: IntErrorKind },
    BadMinor { device: Seq<char>, cause: IntErrorKind },
    MalformedPair { part: Seq<char> },
    BadValue { key: Seq<char>, value: Seq<char>, cause: IntErrorKind },
}

impl View for IoLineError {
    type V = IoLineErrorView;

    open spec fn view(&self) -> IoLineErrorView {
        match self {
            IoLineError::MissingDevice => IoLineErrorView::MissingDevice,
            IoLineError::NoColon { device } => IoLineErrorView::NoColon { device: device@ },
            IoLineError::BadMajor { device, cause } => IoLineErrorView::BadMajor {
                device: device@,
                cause: *cause,
            },
            IoLineError::BadMinor { device, cause } => IoLineErrorView::BadMinor {
                device: device@,
                cause: *cause,
            },
            IoLineError::MalformedPair { part } => IoLineErrorView::MalformedPair { part: part@ },
            IoLineError::BadValue { key, value, cause } => IoLineErrorView::BadValue {
                key: key@,
                value: value@,
                cause: *cause,
            },
        }
    }
}

/// Why a cgroup stat or pressure file did not parse. Line numbers count
/// from 1.
#[derive(Clone, Debug)]
pub enum ParseError {
    /// A `key value` line holds a key and nothing after it.
    MissingValue { file: KvFile, line: usize, key: String },
    /// The value of a `key value` line is no `u64`.
    BadValue { file: KvFile, line: usize, key: String, value: String, cause: IntErrorKind },
    /// `memory.current` does not hold one `u64`.
    BadMemoryCurrent { text: String, cause: IntErrorKind },
    /// A line of `io.stat` did not parse; `text` is the line as it stands.
    BadIoLine { line: usize, text: String, cause: IoLineError },
    /// A pressure line starts with neither `some` nor `full`.
    UnknownPressureKind { kind: String },
    /// A pressure field is not written `key=value`.
    MalformedPressurePair { part: String },
    /// An average is no number that `f64` reads.
    BadPressureAverage { field: PressureField, value: String },
    /// The `total` of a pressure line is no `u64`.
    BadPressureTotal { value: String, cause: IntErrorKind },
    /// A pressure line lacks one of its four fields.
    MissingPressureField { field: PressureField },
    /// A pressure file has no `some` line.
    MissingSomeLine,
}

pub enum ParseErrorView {
    MissingValue { file: KvFile, line: nat, key: Seq<char> },
    BadValue { file: KvFile, line: nat, key: Seq<char>, value: Seq<char>, cause: IntErrorKind },
    BadMemoryCurrent { text: Seq<char>, cause: IntErrorKind },
    BadIoLine { line: nat, text: Seq<char>, cause: IoLineErrorView },
    UnknownPressureKind { kind: Seq<char> },
    MalformedPressurePair { part: Seq<char> },
    BadPressureAverage { field: PressureField, value: Seq<char> },
    BadPressureTotal { value: Seq<char>, cause: IntErrorKind },
    MissingPressureField { field: PressureField },
    MissingSomeLine,
}

impl View for ParseError {
    type V = ParseErrorView;

    open spec fn view(&self) -> ParseErrorView {
        match self {
            ParseError::MissingValue { file, line, key } => ParseErrorView::MissingValue {
                file: *file,
                line: *line as nat,
                key: key@,
            },
            ParseError::BadValue { file, line, key, value, cause } => ParseErrorView::BadValue {
                file: *file,
                line: *line as nat,
                key: key@,
                value: value@,
                cause: *cause,
            },
            ParseError::BadMemoryCurrent { text, cause } => ParseErrorView::BadMemoryCurrent {
                text: text@,
                cause: *cause,
            },
            ParseError::BadIoLine { line, text, cause } => ParseErrorView::BadIoLine {
                line: *line as nat,
                text: text@,
                cause: cause@,
            },
            ParseError::UnknownPressureKind { kind } => ParseErrorView::UnknownPressureKind {
                kind: kind@,
            },
            ParseError::MalformedPressurePair { part } => ParseErrorView::MalformedPressurePair {
                part: part@,
            },
            ParseError::BadPressureAverage { field, value } =>
                ParseErrorView::BadPressureAverage { field: *field, value: value@ },
            ParseError::BadPressureTotal { value, cause } => ParseErrorView::BadPressureTotal {
                value: value@,
                cause: *cause,
            },
            ParseError::MissingPressureField { field } => ParseErrorView::MissingPressureField {
                field: *field,
            },
            ParseError::MissingSomeLine => ParseErrorView::MissingSomeLine,
        }
    }
}

/// How std words each `IntErrorKind` of an unsigned parse.
pub open spec fn int_error_text(k: IntErrorKind) -> Seq<char> {
    match k {
        IntErrorKind::Empty => "cannot parse integer from empty string"@,
        IntErrorKind::InvalidDigit => "invalid digit found in string"@,
        IntErrorKind::PosOverflow => "number too large to fit in target type"@,
    }
}

pub open spec fn kv_file_name(f: KvFile) -> Seq<char> {
    match f {
        KvFile::CpuStat => "cpu.stat"@,
        KvFile::MemoryStat => "memory.stat"@,
        KvFile::MemoryEvents => "memory.events"@,
    }
}

pub open spec fn pressure_field_name(f: PressureField) -> Seq<char> {
    match f {
        PressureField::Avg10 => "avg10"@,
        PressureField::Avg60 => "avg60"@,
        PressureField::Avg300 => "avg300"@,
        PressureField::Total => "total"@,
    }
}

/// What `{:?}` writes for the text `s`: `s` between double quotes, with
/// the escapes of `str`'s `Debug`.
pub uninterp spec fn debug_text(s: Seq<char>) -> Seq<char>;

/// Printable ASCII other than `"` and `\`, which `{:?}` writes as it is.
pub open spec fn plain_ascii(s: Seq<char>) -> bool {
    forall|i: int|
        0 <= i < s.len() ==> 0x20 <= (#[trigger] s[i]) as int <= 0x7e && s[i] != '"' && s[i]
            != '\\'
}

/// `s` quoted as `{:?}` quotes it: plain ASCII text between double quotes,
/// other text as `debug_text` names it.
pub open spec fn quoted(s: Seq<char>) -> Seq<char> {
    if plain_ascii(s) {
        "\""@ + s + "\""@
    } else {
        debug_text(s)
    }
}

pub open spec fn io_line_error_text(e: IoLineErrorView) -> Seq<char> {
    match e {
        IoLineErrorView::MissingDevice => "missing device prefix"@,
        IoLineErrorView::NoColon { device } => "device must be major:minor, got "@ + quoted(device),
        IoLineErrorView::BadMajor { device, cause } => "parsing major from "@ + quoted(device)
            + ": "@ + int_error_text(cause),
        IoLineErrorView::BadMinor { device, cause } => "parsing minor from "@ + quoted(device)
            + ": "@ + int_error_text(cause),
        IoLineErrorView::MalformedPair { part } => "malformed key=value: "@ + quoted(part),
        IoLineErrorView::BadValue { key, value, cause } => "parsing value for "@ + key + "="@
            + value + ": "@ + int_error_text(cause),
    }
}

/// How std words the error of an `f64` parse of `value`.
pub open spec fn float_error_text(value: Seq<char>) -> Seq<char> {
    if value.len() == 0 {
        "cannot parse float from empty string"@
    } else {
        "invalid float literal"@
    }
}

/// The text that tells a parse error, its context first.
pub open spec fn parse_error_text(e: ParseErrorView) -> Seq<char> {
    match e {
        ParseErrorView::MissingValue { file, line, key } => "parsing "@ + kv_file_name(file)
            + ": line "@ + decimal(line) + ": missing value for "@ + quoted(key),
        ParseErrorView::BadValue { file, line, key, value, cause } => "parsing "@ + kv_file_name(
            file,
        ) + ": line "@ + decimal(line) + ": parsing value for "@ + quoted(key) + ": "@ + quoted(
            value,
        ) + ": "@ + int_error_text(cause),
        ParseErrorView::BadMemoryCurrent { text, cause } => "parsing memory.current: "@ + quoted(
            text,
        ) + ": "@ + int_error_text(cause),
        ParseErrorView::BadIoLine { line, text, cause } => "io.stat line "@ + decimal(line)
            + ": "@ + quoted(text) + ": "@ + io_line_error_text(cause),
        ParseErrorView::UnknownPressureKind { kind } => "unexpected pressure line kind: "@ + kind,
        ParseErrorView::MalformedPressurePair { part } => "malformed key=value: "@ + part,
        ParseErrorView::BadPressureAverage { field, value } => pressure_field_name(field) + "="@
            + value + ": "@ + float_error_text(value),
        ParseErrorView::BadPressureTotal { value, cause } => "total="@ + value + ": "@
            + int_error_text(cause),
        ParseErrorView::MissingPressureField { field } => "missing "@ + pressure_field_name(
            field,
        ),
        ParseErrorView::MissingSomeLine => "missing `some` line in pressure file"@,
    }
}

fn push_int_error(out: &mut Vec<char>, k: IntErrorKind)
    ensures
        final(out)@ == old(out)@ + int_error_text(k),
{
    match k {
        IntErrorKind::Empty => push_str(out, "cannot parse integer from empty string"),
        IntErrorKind::InvalidDigit => push_str(out, "invalid digit found in string"),
        IntErrorKind::PosOverflow => push_str(out, "number too large to fit in target type"),
    }
}

/// `s` as `{:?}` writes it.
///
/// Trusted: formats `s` with the `Debug` impl of `str`, whose text depends
/// on `s` alone; the contract names that text `debug_text`, and says that
/// printable ASCII other than `"` and `\` is written as it is, between
/// double quotes, as the documentation of `char::escape_debug` shows. Of
/// other text it says no more.
#[verifier::external_body]
fn debug_string(s: &str) -> (r: String)
    ensures
        r@ == debug_text(s@),
        plain_ascii(s@) ==> r@ == "\""@ + s@ + "\""@,
{
    format!("{:?}", s)
}

/// Appends `s` quoted as `quoted` describes.
pub fn push_quoted(out: &mut Vec<char>, s: &String)
    ensures
        final(out)@ == old(out)@ + quoted(s@),
{
    let q = debug_string(s.as_str());
    let c = chars_of(q.as_str());
    push_chars(out, &c);
}

fn push_string(out: &mut Vec<char>, s: &String)
    ensures
        final(out)@ == old(out)@ + s@,
{
    let c = chars_of(s.as_str());
    push_chars(out, &c);
}

fn push_pressure_field(out: &mut Vec<char>, f: PressureField)
    ensures
        final(out)@ == old(out)@ + pressure_field_name(f),
{
    match f {
        PressureField::Avg10 => push_str(out, "avg10"),
        PressureField::Avg60 => push_str(out, "avg60"),
        PressureField::Avg300 => push_str(out, "avg300"),
        PressureField::Total => push_str(out, "total"),
    }
}

fn push_kv_file(out: &mut Vec<char>, f: KvFile)
    ensures
        final(out)@ == old(out)@ + kv_file_name(f),
{
    match f {
        KvFile::CpuStat => push_str(out, "cpu.stat"),
        KvFile::MemoryStat => push_str(out, "memory.stat"),
        KvFile::MemoryEvents => push_str(out, "memory.events"),
    }
}

impl IoLineError {
    /// The text that tells this error.
    pub fn message(&self) -> (r: String)
        ensures
            r@ == io_line_error_text(self@),
    {
        let mut out: Vec<char> = Vec::new();
        self.push_text(&mut out);
        assert(out@ =~= io_line_error_text(self@));
        string_from_chars(&out)
    }

    fn push_text(&self, out: &mut Vec<char>)
        ensures
            final(out)@ == old(out)@ + io_line_error_text(self@),
    {
        let ghost start = out@;
        match self {
            IoLineError::MissingDevice => {
                push_str(out, "missing device prefix");
            },
            IoLineError::NoColon { device } => {
                push_str(out, "device must be major:minor, got ");
                push_quoted(out, device);
            },
            IoLineError::BadMajor { device, cause } => {
                push_str(out, "parsing major from ");
                push_quoted(out, device);
                push_str(out, ": ");
                push_int_error(out, *cause);
            },
            IoLineError::BadMinor { device, cause } => {
                push_str(out, "parsing minor from ");
                push_quoted(out, device);
                push_str(out, ": ");
                push_int_error(out, *cause);
            },
            IoLineError::MalformedPair { part } => {
                push_str(out, "malformed key=value: ");
                push_quoted(out, part);
            },
            IoLineError::BadValue { key, value, cause } => {
                push_str(out, "parsing value for ");
                push_string(out, key);
                push_str(out, "=");
                push_string(out, value);
                push_str(out, ": ");
                push_int_error(out, *cause);
            },
        }
        assert(out@ =~= start + io_line_error_text(self@));
    }
}

impl ParseError {
    /// The text that tells this error, its context first; the test of what
    /// the error names.
    pub fn message(&self) -> (r: String)
        ensures
            r@ == parse_error_text(self@),
    {
        let mut out: Vec<char> = Vec::new();
        match self {
            ParseError::MissingValue { file, line, key } => {
                push_str(&mut out, "parsing ");
                push_kv_file(&mut out, *file);
                push_str(&mut out, ": line ");
                push_decimal(&mut out, *line as u64);
                push_str(&mut out, ": missing value for ");
                push_quoted(&mut out, key);
            },
            ParseError::BadValue { file, line, key, value, cause } => {
                push_str(&mut out, "parsing ");
                push_kv_file(&mut out, *file);
                push_str(&mut out, ": line ");
                push_decimal(&mut out, *line as u64);
                push_str(&mut out, ": parsing value for ");
                push_quoted(&mut out, key);
                push_str(&mut out, ": ");
                push_quoted(&mut out, value);
                push_str(&mut out, ": ");
                push_int_error(&mut out, *cause);
            },
            ParseError::BadMemoryCurrent { text, cause } => {
                push_str(&mut out, "parsing memory.current: ");
                push_quoted(&mut out, text);
                push_str(&mut out, ": ");
                push_int_error(&mut out, *cause);
            },
            ParseError::BadIoLine { line, text, cause } => {
                push_str(&mut out, "io.stat line ");
                push_decimal(&mut out, *line as u64);
                push_str(&mut out, ": ");
                push_quoted(&mut out, text);
                push_str(&mut out, ": ");
                cause.push_text(&mut out);
            },
            ParseError::UnknownPressureKind { kind } => {
                push_str(&mut out, "unexpected pressure line kind: ");
                push_string(&mut out, kind);
            },
            ParseError::MalformedPressurePair { part } => {
                push_str(&mut out, "malformed key=value: ");
                push_string(&mut out, part);
            },
            ParseError::BadPressureAverage { field, value } => {
                push_pressure_field(&mut out, *field);
                push_str(&mut out, "=");
                push_string(&mut out, value);
                push_str(&mut out, ": ");
                let vc = chars_of(value.as_str());
                if vc.len() == 0 {
                    push_str(&mut out, "cannot parse float from empty string");
                } else {
                    push_str(&mut out, "invalid float literal");
                }
            },
            ParseError::BadPressureTotal { value, cause } => {
                push_str(&mut out, "total=");
                push_string(&mut out, value);
                push_str(&mut out, ": ");
                push_int_error(&mut out, *cause);
            },
            ParseError::MissingPressureField { field } => {
                push_str(&mut out, "missing ");
                push_pressure_field(&mut out, *field);
            },
            ParseError::MissingSomeLine => {
                push_str(&mut out, "missing `some` line in pressure file");
            },
        }
        assert(out@ =~= parse_error_text(self@));
        string_from_chars(&out)
    }
}

/// What became of reading one cgroup file.
#[derive(Clone, Debug)]
pub enum FileRead {
    /// The file does not exist.
    Missing,
    /// The file holds this text.
    Contents(String),
    /// Reading failed for another reason, told by this text.
    Failed(String),
}

/// Why a cgroup file could not be read.
#[derive(Clone, Debug)]
pub enum ReadError {
    /// Reading failed for a reason other than a missing file.
    Io(String),
    /// The file was read but does not parse.
    Parse(ParseError),
}

pub enum ReadErrorView {
    Io(Seq<char>),
    Parse(ParseErrorView),
}

impl View for ReadError {
    type V = ReadErrorView;

    open spec fn view(&self) -> ReadErrorView {
        match self {
            ReadError::Io(s) => ReadErrorView::Io(s@),
            ReadError::Parse(e) => ReadErrorView::Parse(e@),
        }
    }
}

/// The contents of a `FileRead`.
pub enum FileReadView {
    Missing,
    Contents(Seq<char>),
    Failed(Seq<char>),
}

impl View for FileRead {
    type V = FileReadView;

    open spec fn view(&self) -> FileReadView {
        match self {
            FileRead::Missing => FileReadView::Missing,
            FileRead::Contents(s) => FileReadView::Contents(s@),
            FileRead::Failed(s) => FileReadView::Failed(s@),
        }
    }
}

/// A file that is optional: missing is `None`, failing to read or parse
/// is an error.
pub open spec fn optional_read<T>(f: FileReadView, parse: spec_fn(Seq<char>) -> Result<T, ParseErrorView>) -> Result<Option<T>, ReadErrorView> {
    match f {
        FileReadView::Missing => Ok(None),
        FileReadView::Failed(m) => Err(ReadErrorView::Io(m)),
        FileReadView::Contents(s) => match parse(s) {
            Ok(v) => Ok(Some(v)),
            Err(e) => Err(ReadErrorView::Parse(e)),
        },
    }
}

/// The text that tells a read error.
pub open spec fn read_error_text(e: ReadErrorView) -> Seq<char> {
    match e {
        ReadErrorView::Io(m) => m,
        ReadErrorView::Parse(p) => parse_error_text(p),
    }
}

impl ReadError {
    /// The text that tells this error: the failed read's own text, or the
    /// parse error's message.
    pub fn message(&self) -> (r: String)
        ensures
            r@ == read_error_text(self@),
    {
        match self {
            ReadError::Io(m) => m.clone(),
            ReadError::Parse(e) => e.message(),
        }
    }
}

} // verus!
