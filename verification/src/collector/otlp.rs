//! Decoding of an export request: from the dictionary-encoded payload to
//! frames, executables and trace events.
//!
//! Nothing here writes anything. Each step gives back what is to be written,
//! and a request that is rejected gives back nothing but the reason.

use crate::storage::bytes::{append_bytes, be_u64, le_u64, two_64, u64_to_be, u64_to_le};
use crate::storage::dbtypes::{format_hex_bytes, hex_text, FileId};
use crate::storage::fingerprint::{xxh3_64, xxh3_64_of};
use crate::storage::generate_id;
use crate::storage::tables::executables::{ExecutableMeta, ExecutableMetaView, SymbStatus};
use crate::storage::tables::stackframes::{FrameId, FrameMetaData, FrameMetaDataView};
use crate::storage::dbtypes::UtcTimestamp;
use crate::storage::tables::stacktraces::{Frame, FrameKind, InterpKind, TraceHash};
use crate::storage::tables::traceevents::{SampleKind, TraceCount, TraceCountId, TraceCountView};
use vstd::prelude::*;
use vstd::string::StringSliceAdditionalSpecFns;
use vstd::utf8::encode_utf8;

verus! {

/// Why a request is turned down.
#[derive(Debug, PartialEq, Eq, Clone, Copy, Structural)]
pub enum Rejection {
    /// The request holds no dictionary.
    MissingDictionary,
    /// A string index is zero where a string must be given.
    FieldNotOptional,
    /// A string index points outside the string table.
    StringIndexOutOfBounds,
    /// An attribute is looked for in an empty list of attribute indices.
    NoAttributeIndices,
    /// An attribute index points outside the attribute table.
    AttributeIndexOutOfBounds,
    /// The attribute is there, but its value is no string.
    AttributeNotString,
    /// None of the attributes has the key that is looked for.
    AttributeNotFound,
    /// The frame type is none of the known ones.
    UnsupportedFrameKind,
    /// A mapping index points outside the mapping table.
    MappingIndexOutOfBounds,
    /// The build id is neither in the base64 nor in the hexadecimal form.
    UnparsableFileId,
    /// A function index points outside the function table.
    FunctionIndexOutOfBounds,
    /// A sample's range of locations reaches outside the profile's list of
    /// location indices.
    LocationRangeOutOfBounds,
    /// A location index points outside the location table.
    LocationIndexOutOfBounds,
}

impl Rejection {
    /// The words that go back to the sender.
    pub open spec fn message_spec(self) -> Seq<char> {
        match self {
            Rejection::MissingDictionary => "ProfilesDictionary is required"@,
            Rejection::FieldNotOptional => "field is not optional"@,
            Rejection::StringIndexOutOfBounds => "string index out of bounds"@,
            Rejection::NoAttributeIndices => "empty list of attribute indices"@,
            Rejection::AttributeIndexOutOfBounds => "attribute index out of bounds"@,
            Rejection::AttributeNotString => "failed to cast attribute value as string"@,
            Rejection::AttributeNotFound => "failed to get attribute from attribute table"@,
            Rejection::UnsupportedFrameKind => "unsupported frame kind"@,
            Rejection::MappingIndexOutOfBounds => "mapping index is out of bounds"@,
            Rejection::UnparsableFileId => "failed to parse file ID"@,
            Rejection::FunctionIndexOutOfBounds => "invalid function index"@,
            Rejection::LocationRangeOutOfBounds => "location_indices: range is out of bounds"@,
            Rejection::LocationIndexOutOfBounds => "location_table: index is out of bounds"@,
        }
    }

    /// The words that go back to the sender.
    pub fn message(&self) -> (text: &'static str)
        ensures
            text@ == self.message_spec(),
    {
        match self {
            Rejection::MissingDictionary => "ProfilesDictionary is required",
            Rejection::FieldNotOptional => "field is not optional",
            Rejection::StringIndexOutOfBounds => "string index out of bounds",
            Rejection::NoAttributeIndices => "empty list of attribute indices",
            Rejection::AttributeIndexOutOfBounds => "attribute index out of bounds",
            Rejection::AttributeNotString => "failed to cast attribute value as string",
            Rejection::AttributeNotFound => "failed to get attribute from attribute table",
            Rejection::UnsupportedFrameKind => "unsupported frame kind",
            Rejection::MappingIndexOutOfBounds => "mapping index is out of bounds",
            Rejection::UnparsableFileId => "failed to parse file ID",
            Rejection::FunctionIndexOutOfBounds => "invalid function index",
            Rejection::LocationRangeOutOfBounds => "location_indices: range is out of bounds",
            Rejection::LocationIndexOutOfBounds => "location_table: index is out of bounds",
        }
    }
}

/// Value of an attribute.
#[derive(Debug, Clone, PartialEq, Eq)]
pub enum AttributeValue {
    String(String),
    Other,
}

/// Entry of the attribute table: a key, by its place in the string table,
/// and a value.
#[derive(Debug, Clone, PartialEq, Eq)]
pub struct KeyValue {
    pub key_strindex: i32,
    pub value: Option<AttributeValue>,
}

/// Entry of the function table.
#[derive(Debug, Clone, Copy, PartialEq, Eq)]
pub struct Function {
    pub name_strindex: i32,
    pub filename_strindex: i32,
}

/// A line of a location: the function it lies in and where.
#[derive(Debug, Clone, Copy, PartialEq, Eq)]
pub struct Line {
    pub function_index: i32,
    pub line: i64,
    pub column: i64,
}

/// Entry of the mapping table: a mapped executable.
#[derive(Debug, Clone, PartialEq, Eq)]
pub struct Mapping {
    pub filename_strindex: i32,
    pub attribute_indices: Vec<i32>,
}

/// Entry of the location table.
#[derive(Debug, Clone, PartialEq, Eq)]
pub struct Location {
    pub mapping_index: i32,
    pub address: u64,
    pub line: Vec<Line>,
    pub attribute_indices: Vec<i32>,
}

/// The tables that the samples of a request point into.
#[derive(Debug, Clone, PartialEq, Eq)]
pub struct ProfilesDictionary {
    pub mapping_table: Vec<Mapping>,
    pub location_table: Vec<Location>,
    pub function_table: Vec<Function>,
    pub string_table: Vec<String>,
    pub attribute_table: Vec<KeyValue>,
}

/// The string at a place of the string table that must be given.
pub open spec fn str_at(table: Seq<String>, index: int) -> Result<Seq<char>, Rejection> {
    if index == 0 {
        Err(Rejection::FieldNotOptional)
    } else if 0 < index < table.len() {
        Ok(table[index]@)
    } else {
        Err(Rejection::StringIndexOutOfBounds)
    }
}

/// The string at a place of the string table, where zero stands for none.
pub open spec fn str_opt_at(table: Seq<String>, index: int) -> Result<Option<Seq<char>>, Rejection> {
    if index == 0 {
        Ok(None)
    } else {
        match str_at(table, index) {
            Ok(text) => Ok(Some(text)),
            Err(e) => Err(e),
        }
    }
}

/// The value of the first attribute, from place `from` of `indices` on,
/// whose key is `field`.
pub open spec fn attr_from(
    strings: Seq<String>,
    attributes: Seq<KeyValue>,
    indices: Seq<i32>,
    field: Seq<char>,
    from: int,
) -> Result<Seq<char>, Rejection>
    decreases indices.len() - from,
{
    if from < 0 || from >= indices.len() {
        Err(Rejection::AttributeNotFound)
    } else {
        let idx = indices[from] as int;
        if !(0 <= idx < attributes.len()) {
            Err(Rejection::AttributeIndexOutOfBounds)
        } else {
            match str_at(strings, attributes[idx].key_strindex as int) {
                Err(e) => Err(e),
                Ok(key) => if key != field {
                    attr_from(strings, attributes, indices, field, from + 1)
                } else {
                    match attributes[idx].value {
                        Some(AttributeValue::String(text)) => Ok(text@),
                        _ => Err(Rejection::AttributeNotString),
                    }
                },
            }
        }
    }
}

/// The value of the first of the listed attributes whose key is `field`.
///
/// The attributes are read in the order of the list. An index outside the
/// attribute table, or a key outside the string table, rejects the request
/// where it is met, also when a later attribute would have matched.
pub open spec fn attr_spec(
    strings: Seq<String>,
    attributes: Seq<KeyValue>,
    indices: Seq<i32>,
    field: Seq<char>,
) -> Result<Seq<char>, Rejection> {
    if indices.len() == 0 {
        Err(Rejection::NoAttributeIndices)
    } else {
        attr_from(strings, attributes, indices, field, 0)
    }
}

/// Reads a string that must be given.
pub fn get_str<'tab>(table: &'tab Vec<String>, index: i32) -> (text: Result<&'tab str, Rejection>)
    ensures
        match text {
            Ok(t) => str_at(table@, index as int) == Ok::<Seq<char>, Rejection>(t@),
            Err(e) => str_at(table@, index as int) == Err::<Seq<char>, Rejection>(e),
        },
{
    if index == 0 {
        return Err(Rejection::FieldNotOptional);
    }
    if index < 0 || index as usize >= table.len() {
        return Err(Rejection::StringIndexOutOfBounds);
    }
    Ok(table[index as usize].as_str())
}

/// Reads a string that may be left out.
pub fn get_str_opt<'tab>(table: &'tab Vec<String>, index: i32) -> (text: Result<
    Option<&'tab str>,
    Rejection,
>)
    ensures
        match text {
            Ok(Some(t)) => str_opt_at(table@, index as int) == Ok::<Option<Seq<char>>, Rejection>(
                Some(t@),
            ),
            Ok(None) => str_opt_at(table@, index as int) == Ok::<Option<Seq<char>>, Rejection>(
                None,
            ),
            Err(e) => str_opt_at(table@, index as int) == Err::<Option<Seq<char>>, Rejection>(e),
        },
{
    if index == 0 {
        return Ok(None);
    }
    match get_str(table, index) {
        Ok(t) => Ok(Some(t)),
        Err(e) => Err(e),
    }
}

/// Looks the listed attributes up and returns the value of the first whose
/// key is `field`.
pub fn get_attr<'tab>(
    str_table: &Vec<String>,
    kvu_table: &'tab Vec<KeyValue>,
    indices: &Vec<i32>,
    field: &str,
) -> (value: Result<&'tab str, Rejection>)
    ensures
        match value {
            Ok(t) => attr_spec(str_table@, kvu_table@, indices@, field@) == Ok::<
                Seq<char>,
                Rejection,
            >(t@),
            Err(e) => attr_spec(str_table@, kvu_table@, indices@, field@) == Err::<
                Seq<char>,
                Rejection,
            >(e),
        },
{
    if indices.len() == 0 {
        return Err(Rejection::NoAttributeIndices);
    }
    let mut i: usize = 0;
    while i < indices.len()
        invariant
            i <= indices.len(),
            indices.len() > 0,
            attr_spec(str_table@, kvu_table@, indices@, field@) == attr_from(
                str_table@,
                kvu_table@,
                indices@,
                field@,
                i as int,
            ),
        decreases indices.len() - i,
    {
        let idx = indices[i];
        if idx < 0 || idx as usize >= kvu_table.len() {
            return Err(Rejection::AttributeIndexOutOfBounds);
        }
        let kv = &kvu_table[idx as usize];
        let attr_key = match get_str(str_table, kv.key_strindex) {
            Ok(key) => key,
            Err(e) => {
                return Err(e);
            },
        };
        if str::eq(attr_key, field) {
            return match &kv.value {
                Some(AttributeValue::String(text)) => Ok(text.as_str()),
                _ => Err(Rejection::AttributeNotString),
            };
        }
        i += 1;
    }
    Err(Rejection::AttributeNotFound)
}

/// The frame kind that a value of the attribute `profile.frame.type` names.
pub open spec fn frame_kind_of(name: Seq<char>) -> Option<FrameKind> {
    if name == "native"@ {
        Some(FrameKind::Regular(InterpKind::Native))
    } else if name == "kernel"@ {
        Some(FrameKind::Regular(InterpKind::Kernel))
    } else if name == "jvm"@ {
        Some(FrameKind::Regular(InterpKind::Jvm))
    } else if name == "perl"@ {
        Some(FrameKind::Regular(InterpKind::Perl))
    } else if name == "cpython"@ {
        Some(FrameKind::Regular(InterpKind::Python))
    } else if name == "php"@ {
        Some(FrameKind::Regular(InterpKind::Php))
    } else if name == "phpjit"@ {
        Some(FrameKind::Regular(InterpKind::PhpJit))
    } else if name == "ruby"@ {
        Some(FrameKind::Regular(InterpKind::Ruby))
    } else if name == "dotnet"@ {
        Some(FrameKind::Regular(InterpKind::DotNet))
    } else if name == "v8js"@ {
        Some(FrameKind::Regular(InterpKind::Js))
    } else if name == "beam"@ {
        Some(FrameKind::Regular(InterpKind::Beam))
    } else if name == "go"@ {
        Some(FrameKind::Regular(InterpKind::Go))
    } else if name == "abort-marker"@ {
        Some(FrameKind::Abort)
    } else {
        None
    }
}

/// Maps the value of the attribute `profile.frame.type` to a frame kind.
pub fn frame_kind_from_name(name: &str) -> (kind: Option<FrameKind>)
    ensures
        kind == frame_kind_of(name@),
{
    if str::eq(name, "native") {
        Some(FrameKind::Regular(InterpKind::Native))
    } else if str::eq(name, "kernel") {
        Some(FrameKind::Regular(InterpKind::Kernel))
    } else if str::eq(name, "jvm") {
        Some(FrameKind::Regular(InterpKind::Jvm))
    } else if str::eq(name, "perl") {
        Some(FrameKind::Regular(InterpKind::Perl))
    } else if str::eq(name, "cpython") {
        Some(FrameKind::Regular(InterpKind::Python))
    } else if str::eq(name, "php") {
        Some(FrameKind::Regular(InterpKind::Php))
    } else if str::eq(name, "phpjit") {
        Some(FrameKind::Regular(InterpKind::PhpJit))
    } else if str::eq(name, "ruby") {
        Some(FrameKind::Regular(InterpKind::Ruby))
    } else if str::eq(name, "dotnet") {
        Some(FrameKind::Regular(InterpKind::DotNet))
    } else if str::eq(name, "v8js") {
        Some(FrameKind::Regular(InterpKind::Js))
    } else if str::eq(name, "beam") {
        Some(FrameKind::Regular(InterpKind::Beam))
    } else if str::eq(name, "go") {
        Some(FrameKind::Regular(InterpKind::Go))
    } else if str::eq(name, "abort-marker") {
        Some(FrameKind::Abort)
    } else {
        None
    }
}

/// The 64 bits of a signed integer, read as an unsigned one.
pub open spec fn i64_bits(x: i64) -> u64 {
    if x >= 0 {
        x as u64
    } else {
        (x + two_64()) as u64
    }
}

/// The 64 bits of a signed integer, read as an unsigned one.
pub fn i64_to_bits(x: i64) -> (bits: u64)
    ensures
        bits == i64_bits(x),
{
    if x >= 0 {
        x as u64
    } else {
        u64::MAX - ((-(x + 1)) as u64)
    }
}

/// The bytes of a text that was looked up; none where the text is absent or
/// the lookup failed.
pub open spec fn text_bytes(text: Result<Option<Seq<char>>, Rejection>) -> Seq<u8> {
    match text {
        Ok(Some(t)) => encode_utf8(t),
        _ => Seq::empty(),
    }
}

/// What a line adds to the bytes from which a build id is made up: the name
/// and the file name of its function, where the line names a function that
/// the tables hold, then line and column, least significant byte first.
pub open spec fn line_bytes(dic: &ProfilesDictionary, line: Line) -> Seq<u8> {
    let names = if line.function_index != 0 && 0 <= line.function_index
        < dic.function_table.len() {
        let f = dic.function_table[line.function_index as int];
        text_bytes(str_opt_at(dic.string_table@, f.name_strindex as int)) + text_bytes(
            str_opt_at(dic.string_table@, f.filename_strindex as int),
        )
    } else {
        Seq::empty()
    };
    names + le_u64(i64_bits(line.line)) + le_u64(i64_bits(line.column))
}

/// The bytes from which the build id of a location without one is made up.
pub open spec fn lines_bytes(dic: &ProfilesDictionary, lines: Seq<Line>) -> Seq<u8>
    decreases lines.len(),
{
    if lines.len() == 0 {
        Seq::empty()
    } else {
        lines_bytes(dic, lines.drop_last()) + line_bytes(dic, lines.last())
    }
}

/// The build id that stands in for a missing one: the 64-bit XXH3 hash of
/// the lines of the location.
pub fn hash_lines(dic: &ProfilesDictionary, lines: &Vec<Line>) -> (digest: u64)
    ensures
        digest == xxh3_64_of(lines_bytes(dic, lines@)),
{
    let mut buf: Vec<u8> = Vec::new();
    let mut i: usize = 0;
    while i < lines.len()
        invariant
            i <= lines.len(),
            buf@ == lines_bytes(dic, lines@.take(i as int)),
        decreases lines.len() - i,
    {
        let line = lines[i];
        let before = Ghost(buf@);
        if line.function_index > 0 && (line.function_index as usize) < dic.function_table.len() {
            let f = dic.function_table[line.function_index as usize];
            match get_str_opt(&dic.string_table, f.name_strindex) {
                Ok(Some(name)) => {
                    append_bytes(&mut buf, name.as_bytes());
                },
                _ => {},
            }
            match get_str_opt(&dic.string_table, f.filename_strindex) {
                Ok(Some(name)) => {
                    append_bytes(&mut buf, name.as_bytes());
                },
                _ => {},
            }
        }
        let l = u64_to_le(i64_to_bits(line.line));
        let c = u64_to_le(i64_to_bits(line.column));
        append_bytes(&mut buf, l.as_slice());
        append_bytes(&mut buf, c.as_slice());
        proof {
            assert(lines@.take(i + 1).drop_last() =~= lines@.take(i as int));
            assert(buf@ =~= before@ + line_bytes(dic, line));
        }
        i += 1;
    }
    assert(lines@.take(lines.len() as int) =~= lines@);
    xxh3_64(buf.as_slice())
}

/// The text of the build id of a mapped location.
///
/// A mapping with attributes names it, under the key
/// `process.executable.build_id.htlhash` or, failing that, under
/// `process.executable.build_id.profiling`. For a mapping without
/// attributes it is made up: sixteen hexadecimal digits of the hash of the
/// location's lines.
pub open spec fn build_id_text(dic: &ProfilesDictionary, loc: Location, mapping: Mapping) -> Result<
    Seq<u8>,
    Rejection,
> {
    if mapping.attribute_indices.len() > 0 {
        match attr_spec(
            dic.string_table@,
            dic.attribute_table@,
            mapping.attribute_indices@,
            "process.executable.build_id.htlhash"@,
        ) {
            Ok(text) => Ok(encode_utf8(text)),
            Err(_) => match attr_spec(
                dic.string_table@,
                dic.attribute_table@,
                mapping.attribute_indices@,
                "process.executable.build_id.profiling"@,
            ) {
                Ok(text) => Ok(encode_utf8(text)),
                Err(e) => Err(e),
            },
        }
    } else {
        Ok(encode_utf8(hex_text(be_u64(xxh3_64_of(lines_bytes(dic, loc.line@))))))
    }
}

/// The executable that a mapped location belongs to.
pub open spec fn location_file_id_spec(
    dic: &ProfilesDictionary,
    loc: Location,
    mapping: Mapping,
) -> Result<FileId, Rejection> {
    match build_id_text(dic, loc, mapping) {
        Err(e) => Err(e),
        Ok(text) => match FileId::parse_spec(text) {
            Some(id) => Ok(id),
            None => Err(Rejection::UnparsableFileId),
        },
    }
}

/// Finds the executable that a mapped location belongs to.
pub fn location_file_id(dic: &ProfilesDictionary, loc: &Location, mapping: &Mapping) -> (id: Result<
    FileId,
    Rejection,
>)
    ensures
        id == location_file_id_spec(dic, *loc, *mapping),
{
    let parsed = if mapping.attribute_indices.len() > 0 {
        let named = match get_attr(
            &dic.string_table,
            &dic.attribute_table,
            &mapping.attribute_indices,
            "process.executable.build_id.htlhash",
        ) {
            Ok(text) => text,
            Err(_) => match get_attr(
                &dic.string_table,
                &dic.attribute_table,
                &mapping.attribute_indices,
                "process.executable.build_id.profiling",
            ) {
                Ok(text) => text,
                Err(e) => {
                    return Err(e);
                },
            },
        };
        FileId::parse_bytes(named.as_bytes())
    } else {
        let digest = u64_to_be(hash_lines(dic, &loc.line));
        let generated = format_hex_bytes(digest.as_slice());
        FileId::parse_bytes(generated.as_str().as_bytes())
    };
    match parsed {
        Some(id) => Ok(id),
        None => Err(Rejection::UnparsableFileId),
    }
}

/// What a location of the dictionary gives rise to.
pub struct LocationFacts {
    /// The frame that stands for the location in every trace.
    pub frame: Frame,
    /// For a native frame: the executable, to be recorded where the table
    /// holds no record of it yet.
    pub executable: Option<(FileId, ExecutableMetaView)>,
    /// For an interpreted frame whose first line names a function: what is
    /// known of the frame.
    pub meta: Option<(FrameId, FrameMetaDataView)>,
}

/// The identifier of the executable that frames without one are booked on.
pub open spec fn synthetic_file_id() -> FileId {
    FileId((two_64() + 1) as u128)
}

/// What is known of an interpreted frame: taken from the first line of its
/// location, where that line names a function.
pub open spec fn location_meta(dic: &ProfilesDictionary, loc: Location, id: FrameId) -> Result<
    Option<(FrameId, FrameMetaDataView)>,
    Rejection,
> {
    if loc.line.len() == 0 || loc.line[0].function_index == 0 {
        Ok(None)
    } else {
        let line = loc.line[0];
        if !(0 <= line.function_index < dic.function_table.len()) {
            Err(Rejection::FunctionIndexOutOfBounds)
        } else {
            let f = dic.function_table[line.function_index as int];
            match str_opt_at(dic.string_table@, f.name_strindex as int) {
                Err(e) => Err(e),
                Ok(function_name) => match str_opt_at(
                    dic.string_table@,
                    f.filename_strindex as int,
                ) {
                    Err(e) => Err(e),
                    Ok(file_name) => Ok(
                        Some(
                            (
                                id,
                                FrameMetaDataView {
                                    file_name,
                                    function_name,
                                    line_number: i64_bits(line.line),
                                    function_offset: 0,
                                },
                            ),
                        ),
                    ),
                },
            }
        }
    }
}

/// What a location gives rise to, or why it rejects the request.
///
/// The frame type decides. The abort marker is booked on the synthetic
/// executable and needs no mapping. Every other frame belongs to the
/// executable of its mapping; a native one has the executable recorded and
/// no meta-data, an interpreted one has its meta-data recorded.
pub open spec fn location_facts(dic: &ProfilesDictionary, loc: Location) -> Result<
    LocationFacts,
    Rejection,
> {
    match attr_spec(
        dic.string_table@,
        dic.attribute_table@,
        loc.attribute_indices@,
        "profile.frame.type"@,
    ) {
        Err(e) => Err(e),
        Ok(name) => match frame_kind_of(name) {
            None => Err(Rejection::UnsupportedFrameKind),
            Some(kind) => if kind == FrameKind::Abort {
                Ok(
                    LocationFacts {
                        frame: Frame {
                            id: FrameId {
                                file_id: synthetic_file_id(),
                                addr_or_line: loc.address,
                            },
                            kind,
                        },
                        executable: None,
                        meta: None,
                    },
                )
            } else if !(0 <= loc.mapping_index < dic.mapping_table.len()) {
                Err(Rejection::MappingIndexOutOfBounds)
            } else {
                let mapping = dic.mapping_table[loc.mapping_index as int];
                match location_file_id_spec(dic, loc, mapping) {
                    Err(e) => Err(e),
                    Ok(file_id) => {
                        let id = FrameId { file_id, addr_or_line: loc.address };
                        let frame = Frame { id, kind };
                        if kind == FrameKind::Regular(InterpKind::Native) {
                            match str_opt_at(dic.string_table@, mapping.filename_strindex as int) {
                                Err(e) => Err(e),
                                Ok(file_name) => Ok(
                                    LocationFacts {
                                        frame,
                                        executable: Some(
                                            (
                                                file_id,
                                                ExecutableMetaView {
                                                    build_id: None,
                                                    file_name,
                                                    symb_status: SymbStatus::NotAttempted,
                                                },
                                            ),
                                        ),
                                        meta: None,
                                    },
                                ),
                            }
                        } else {
                            match location_meta(dic, loc, id) {
                                Err(e) => Err(e),
                                Ok(meta) => Ok(LocationFacts { frame, executable: None, meta }),
                            }
                        }
                    },
                }
            },
        },
    }
}

/// What was worked out for one location.
pub struct IngestedLocation {
    /// The frame that stands for the location in every trace.
    pub frame: Frame,
    /// For a native frame: the executable, to be recorded where the table
    /// holds no record of it yet.
    pub executable: Option<(FileId, ExecutableMeta)>,
    /// For an interpreted frame whose first line names a function: what is
    /// known of the frame.
    pub meta: Option<(FrameId, FrameMetaData)>,
}

impl View for IngestedLocation {
    type V = LocationFacts;

    open spec fn view(&self) -> LocationFacts {
        LocationFacts {
            frame: self.frame,
            executable: match self.executable {
                Some((id, meta)) => Some((id, meta@)),
                None => None,
            },
            meta: match self.meta {
                Some((id, meta)) => Some((id, meta@)),
                None => None,
            },
        }
    }
}

fn owned(text: Option<&str>) -> (copy: Option<String>)
    ensures
        match text {
            Some(t) => copy matches Some(c) && c@ == t@,
            None => copy is None,
        },
{
    match text {
        Some(t) => Some(t.to_owned()),
        None => None,
    }
}

fn ingest_meta(dic: &ProfilesDictionary, loc: &Location, id: FrameId) -> (meta: Result<
    Option<(FrameId, FrameMetaData)>,
    Rejection,
>)
    ensures
        match meta {
            Ok(Some((i, m))) => location_meta(dic, *loc, id) == Ok::<
                Option<(FrameId, FrameMetaDataView)>,
                Rejection,
            >(Some((i, m@))),
            Ok(None) => location_meta(dic, *loc, id) == Ok::<
                Option<(FrameId, FrameMetaDataView)>,
                Rejection,
            >(None),
            Err(e) => location_meta(dic, *loc, id) == Err::<
                Option<(FrameId, FrameMetaDataView)>,
                Rejection,
            >(e),
        },
{
    if loc.line.len() == 0 {
        return Ok(None);
    }
    let line = loc.line[0];
    if line.function_index == 0 {
        return Ok(None);
    }
    if line.function_index < 0 || line.function_index as usize >= dic.function_table.len() {
        return Err(Rejection::FunctionIndexOutOfBounds);
    }
    let f = dic.function_table[line.function_index as usize];
    let function_name = match get_str_opt(&dic.string_table, f.name_strindex) {
        Ok(name) => name,
        Err(e) => {
            return Err(e);
        },
    };
    let file_name = match get_str_opt(&dic.string_table, f.filename_strindex) {
        Ok(name) => name,
        Err(e) => {
            return Err(e);
        },
    };
    Ok(
        Some(
            (
                id,
                FrameMetaData {
                    file_name: owned(file_name),
                    function_name: owned(function_name),
                    line_number: i64_to_bits(line.line),
                    function_offset: 0,
                },
            ),
        ),
    )
}

/// Works one location of the dictionary out.
pub fn ingest_location(dic: &ProfilesDictionary, loc: &Location) -> (res: Result<
    IngestedLocation,
    Rejection,
>)
    ensures
        match res {
            Ok(l) => location_facts(dic, *loc) == Ok::<LocationFacts, Rejection>(l@),
            Err(e) => location_facts(dic, *loc) == Err::<LocationFacts, Rejection>(e),
        },
{
    let name = match get_attr(
        &dic.string_table,
        &dic.attribute_table,
        &loc.attribute_indices,
        "profile.frame.type",
    ) {
        Ok(name) => name,
        Err(e) => {
            return Err(e);
        },
    };
    let kind = match frame_kind_from_name(name) {
        Some(kind) => kind,
        None => {
            return Err(Rejection::UnsupportedFrameKind);
        },
    };
    if kind == FrameKind::Abort {
        let id = FrameId { file_id: FileId::from_parts(1, 1), addr_or_line: loc.address };
        return Ok(IngestedLocation { frame: Frame { id, kind }, executable: None, meta: None });
    }
    if loc.mapping_index < 0 || loc.mapping_index as usize >= dic.mapping_table.len() {
        return Err(Rejection::MappingIndexOutOfBounds);
    }
    let mapping = &dic.mapping_table[loc.mapping_index as usize];
    let file_id = match location_file_id(dic, loc, mapping) {
        Ok(id) => id,
        Err(e) => {
            return Err(e);
        },
    };
    let id = FrameId { file_id, addr_or_line: loc.address };
    let frame = Frame { id, kind };
    if kind == FrameKind::Regular(InterpKind::Native) {
        let file_name = match get_str_opt(&dic.string_table, mapping.filename_strindex) {
            Ok(name) => name,
            Err(e) => {
                return Err(e);
            },
        };
        let meta = ExecutableMeta {
            build_id: None,
            file_name: owned(file_name),
            symb_status: SymbStatus::NotAttempted,
        };
        return Ok(IngestedLocation { frame, executable: Some((file_id, meta)), meta: None });
    }
    match ingest_meta(dic, loc, id) {
        Ok(meta) => Ok(IngestedLocation { frame, executable: None, meta }),
        Err(e) => Err(e),
    }
}

/// What all the locations of a dictionary give rise to, in their order, or
/// the rejection of the first location that has one.
pub open spec fn locations_facts(dic: &ProfilesDictionary, locs: Seq<Location>) -> Result<
    Seq<LocationFacts>,
    Rejection,
>
    decreases locs.len(),
{
    if locs.len() == 0 {
        Ok(Seq::empty())
    } else {
        match locations_facts(dic, locs.drop_last()) {
            Err(e) => Err(e),
            Ok(facts) => match location_facts(dic, locs.last()) {
                Err(e) => Err(e),
                Ok(f) => Ok(facts.push(f)),
            },
        }
    }
}

/// The frames of the locations, one for each and in their order.
pub open spec fn frames_of(facts: Seq<LocationFacts>) -> Seq<Frame> {
    Seq::new(facts.len(), |i: int| facts[i].frame)
}

/// The executables that the native locations belong to, in the order of the
/// locations.
pub open spec fn executables_of(facts: Seq<LocationFacts>) -> Seq<(FileId, ExecutableMetaView)>
    decreases facts.len(),
{
    if facts.len() == 0 {
        Seq::empty()
    } else {
        executables_of(facts.drop_last()) + match facts.last().executable {
            Some(e) => seq![e],
            None => Seq::empty(),
        }
    }
}

/// The meta-data of the interpreted locations, in the order of the
/// locations.
pub open spec fn meta_of(facts: Seq<LocationFacts>) -> Seq<(FrameId, FrameMetaDataView)>
    decreases facts.len(),
{
    if facts.len() == 0 {
        Seq::empty()
    } else {
        meta_of(facts.drop_last()) + match facts.last().meta {
            Some(m) => seq![m],
            None => Seq::empty(),
        }
    }
}

/// What the first pass over a request gives: the frames that the samples
/// point at, and what is to be written for them.
#[derive(Debug, Clone, PartialEq, Eq)]
pub struct LocationPlan {
    /// One frame for each location of the dictionary, in their order.
    pub frames: Vec<Frame>,
    /// The executables of the native frames. Each is to be recorded unless
    /// the table holds a record of it already.
    pub executables: Vec<(FileId, ExecutableMeta)>,
    /// The meta-data of the interpreted frames, to be written in one batch
    /// before any trace event of the request is.
    pub frame_meta: Vec<(FrameId, FrameMetaData)>,
}

impl LocationPlan {
    /// What the plan holds of executables.
    pub open spec fn executables_view(&self) -> Seq<(FileId, ExecutableMetaView)> {
        Seq::new(self.executables@.len(), |i: int| (self.executables@[i].0, self.executables@[i].1@))
    }

    /// What the plan holds of meta-data.
    pub open spec fn meta_view(&self) -> Seq<(FrameId, FrameMetaDataView)> {
        Seq::new(self.frame_meta@.len(), |i: int| (self.frame_meta@[i].0, self.frame_meta@[i].1@))
    }

    /// Whether the plan holds what the locations give rise to.
    pub open spec fn holds(&self, facts: Seq<LocationFacts>) -> bool {
        &&& self.frames@ == frames_of(facts)
        &&& self.executables_view() == executables_of(facts)
        &&& self.meta_view() == meta_of(facts)
    }
}

proof fn lemma_rejection_stays(dic: &ProfilesDictionary, locs: Seq<Location>, j: int)
    requires
        0 <= j <= locs.len(),
        locations_facts(dic, locs.take(j)) is Err,
    ensures
        locations_facts(dic, locs) == locations_facts(dic, locs.take(j)),
    decreases locs.len() - j,
{
    if j == locs.len() {
        assert(locs.take(j) =~= locs);
    } else {
        assert(locs.take(j + 1).drop_last() =~= locs.take(j));
        lemma_rejection_stays(dic, locs, j + 1);
    }
}

/// First pass over a request: works out every location of the dictionary.
///
/// The plan holds one frame for each location. A location that cannot be
/// worked out rejects the request, and nothing is to be written then.
pub fn ingest_locations(dic: &ProfilesDictionary) -> (plan: Result<LocationPlan, Rejection>)
    ensures
        match plan {
            Ok(p) => locations_facts(dic, dic.location_table@) matches Ok(facts) && p.holds(facts)
                && p.frames.len() == dic.location_table.len(),
            Err(e) => locations_facts(dic, dic.location_table@) == Err::<
                Seq<LocationFacts>,
                Rejection,
            >(e),
        },
{
    let locs = &dic.location_table;
    let mut plan = LocationPlan {
        frames: Vec::new(),
        executables: Vec::new(),
        frame_meta: Vec::new(),
    };
    let ghost mut facts: Seq<LocationFacts> = Seq::empty();
    let mut i: usize = 0;
    assert(plan.frames@ =~= frames_of(facts));
    assert(plan.executables_view() =~= executables_of(facts));
    assert(plan.meta_view() =~= meta_of(facts));
    while i < locs.len()
        invariant
            i <= locs.len(),
            locs == &dic.location_table,
            locations_facts(dic, locs@.take(i as int)) == Ok::<Seq<LocationFacts>, Rejection>(
                facts,
            ),
            facts.len() == i,
            plan.holds(facts),
        decreases locs.len() - i,
    {
        proof {
            assert(locs@.take(i + 1).drop_last() =~= locs@.take(i as int));
        }
        let ghost before = plan;
        match ingest_location(dic, &locs[i]) {
            Err(e) => {
                proof {
                    lemma_rejection_stays(dic, locs@, i + 1);
                }
                return Err(e);
            },
            Ok(l) => {
                let ghost next = facts.push(l@);
                plan.frames.push(l.frame);
                match l.executable {
                    Some(e) => {
                        plan.executables.push(e);
                    },
                    None => {},
                }
                match l.meta {
                    Some(m) => {
                        plan.frame_meta.push(m);
                    },
                    None => {},
                }
                proof {
                    assert(next.drop_last() =~= facts);
                    assert(plan.frames@ =~= frames_of(next));
                    assert(plan.executables_view() =~= executables_of(next));
                    assert(plan.meta_view() =~= meta_of(next));
                    facts = next;
                }
            },
        }
        i += 1;
    }
    assert(locs@.take(locs.len() as int) =~= locs@);
    Ok(plan)
}

/// Collects the entries of `loc_mapping` that `location_indices` points at,
/// in the order of the indices.
///
/// An index outside `loc_mapping` rejects the whole list.
pub fn collect_frame_list<V: Copy>(loc_mapping: &Vec<V>, location_indices: &Vec<i32>) -> (frames:
    Result<Vec<V>, Rejection>)
    ensures
        frames.is_ok() <==> forall|i: int|
            0 <= i < location_indices.len() ==> 0 <= #[trigger] location_indices[i]
                < loc_mapping.len(),
        frames matches Ok(list) ==> list.len() == location_indices.len() && forall|i: int|
            0 <= i < list.len() ==> #[trigger] list[i] == loc_mapping[location_indices[i] as int],
        frames matches Err(e) ==> e == Rejection::LocationIndexOutOfBounds,
{
    let mut frame_list: Vec<V> = Vec::new();
    let mut i: usize = 0;
    while i < location_indices.len()
        invariant
            i <= location_indices.len(),
            frame_list.len() == i,
            forall|k: int| 0 <= k < i ==> 0 <= #[trigger] location_indices[k] < loc_mapping.len(),
            forall|k: int|
                0 <= k < i ==> #[trigger] frame_list[k] == loc_mapping[location_indices[k] as int],
        decreases location_indices.len() - i,
    {
        let loc_index = location_indices[i];
        if loc_index < 0 || loc_index as usize >= loc_mapping.len() {
            return Err(Rejection::LocationIndexOutOfBounds);
        }
        frame_list.push(loc_mapping[loc_index as usize]);
        i += 1;
    }
    Ok(frame_list)
}

/// The kind of value that the samples of a profile hold: what is counted and
/// in which unit, both by their place in the string table.
#[derive(Debug, Clone, Copy, PartialEq, Eq)]
pub struct ValueType {
    pub type_strindex: i32,
    pub unit_strindex: i32,
}

/// One sampled stack trace.
#[derive(Debug, Clone, PartialEq, Eq)]
pub struct Sample {
    /// Where the locations of the sample start in the profile's list of
    /// location indices.
    pub locations_start_index: i32,
    /// How many of them there are.
    pub locations_length: i32,
    pub attribute_indices: Vec<i32>,
    pub timestamps_unix_nano: Vec<u64>,
}

/// A profile: samples of one kind of value.
#[derive(Debug, Clone, PartialEq, Eq)]
pub struct Profile {
    pub sample_type: Vec<ValueType>,
    pub sample: Vec<Sample>,
    pub location_indices: Vec<i32>,
}

/// An export request, with the profiles of all its resources and scopes in
/// the order in which they arrived.
#[derive(Debug, Clone, PartialEq, Eq)]
pub struct ExportRequest {
    pub dictionary: Option<ProfilesDictionary>,
    pub profiles: Vec<Profile>,
}

/// 2024-01-01 00:00 in seconds: a timestamp above a billion times this is
/// taken to count nanoseconds.
pub const NS_BOUNDARY: u64 = 1_704_063_600;

/// A timestamp of a sample in seconds: a value above `10^9 * NS_BOUNDARY`
/// counts nanoseconds, any other milliseconds.
pub open spec fn normalized(timestamp: u64) -> u64 {
    if 1_000_000_000 * NS_BOUNDARY < timestamp {
        timestamp / 1_000_000_000
    } else {
        timestamp / 1_000
    }
}

/// Brings a timestamp of a sample to seconds.
pub fn normalize_timestamp(timestamp: u64) -> (seconds: UtcTimestamp)
    ensures
        seconds == normalized(timestamp),
{
    if timestamp > NS_BOUNDARY * 1_000_000_000 {
        timestamp / 1_000_000_000
    } else {
        timestamp / 1_000
    }
}

/// How a sample was recorded, by what its profile counts and in which unit.
pub open spec fn sample_kind_of(counted: Seq<char>, unit: Seq<char>) -> SampleKind {
    if counted == "samples"@ && unit == "count"@ {
        SampleKind::OnCPU
    } else if counted == "events"@ && unit == "nanoseconds"@ {
        SampleKind::OffCPU
    } else {
        SampleKind::Unknown
    }
}

/// How the samples of a profile were recorded. Both strings must be given.
pub open spec fn sample_kind_spec(dic: &ProfilesDictionary, sample_type: ValueType) -> Result<
    SampleKind,
    Rejection,
> {
    match str_at(dic.string_table@, sample_type.type_strindex as int) {
        Err(e) => Err(e),
        Ok(counted) => match str_at(dic.string_table@, sample_type.unit_strindex as int) {
            Err(e) => Err(e),
            Ok(unit) => Ok(sample_kind_of(counted, unit)),
        },
    }
}

/// Finds out how the samples of a profile were recorded.
pub fn sample_kind(dic: &ProfilesDictionary, sample_type: &ValueType) -> (kind: Result<
    SampleKind,
    Rejection,
>)
    ensures
        kind == sample_kind_spec(dic, *sample_type),
{
    let counted = match get_str(&dic.string_table, sample_type.type_strindex) {
        Ok(t) => t,
        Err(e) => {
            return Err(e);
        },
    };
    let unit = match get_str(&dic.string_table, sample_type.unit_strindex) {
        Ok(t) => t,
        Err(e) => {
            return Err(e);
        },
    };
    if str::eq(counted, "samples") && str::eq(unit, "count") {
        Ok(SampleKind::OnCPU)
    } else if str::eq(counted, "events") && str::eq(unit, "nanoseconds") {
        Ok(SampleKind::OffCPU)
    } else {
        Ok(SampleKind::Unknown)
    }
}

/// The name of the thread that a sample was taken in: its attribute
/// `thread.name`, and the empty string where that cannot be had.
pub open spec fn sample_comm(dic: &ProfilesDictionary, sample: Sample) -> Seq<char> {
    match attr_spec(
        dic.string_table@,
        dic.attribute_table@,
        sample.attribute_indices@,
        "thread.name"@,
    ) {
        Ok(name) => name,
        Err(_) => Seq::empty(),
    }
}

/// The timestamps of a sample as they arrived; the time of arrival, in
/// seconds, for a sample that brings none.
pub open spec fn sample_stamps(sample: Sample, now: UtcTimestamp) -> Seq<u64> {
    if sample.timestamps_unix_nano.len() == 0 {
        seq![now]
    } else {
        sample.timestamps_unix_nano@
    }
}

/// The record of one trace event.
pub open spec fn trace_event_spec(
    timestamp: UtcTimestamp,
    kind: SampleKind,
    id: u64,
    trace_hash: TraceHash,
    comm: Seq<char>,
) -> (TraceCountId, TraceCountView) {
    (
        TraceCountId { timestamp, kind, id },
        TraceCountView {
            timestamp,
            trace_hash,
            count: 1,
            comm,
            pod_name: None,
            container_name: None,
        },
    )
}

/// The view of a record of the `trace_events` table.
pub open spec fn event_view(event: (TraceCountId, TraceCount)) -> (TraceCountId, TraceCountView) {
    (event.0, event.1@)
}

/// Makes the record of one trace event: one occurrence of the trace at
/// `timestamp`, keyed by time, kind and `id`.
pub fn trace_event(
    timestamp: UtcTimestamp,
    kind: SampleKind,
    id: u64,
    trace_hash: TraceHash,
    comm: &str,
) -> (event: (TraceCountId, TraceCount))
    ensures
        event_view(event) == trace_event_spec(timestamp, kind, id, trace_hash, comm@),
{
    (
        TraceCountId { timestamp, kind, id },
        TraceCount {
            timestamp,
            trace_hash,
            count: 1,
            comm: comm.to_owned(),
            pod_name: None,
            container_name: None,
        },
    )
}

/// What is to be written for one sample.
#[derive(Debug, Clone, PartialEq, Eq)]
pub struct SamplePlan {
    /// The fingerprint of the frame list.
    pub trace_hash: TraceHash,
    /// The frame list, to be stored under its fingerprint.
    pub frames: Vec<Frame>,
    /// One trace event for each timestamp of the sample.
    pub events: Vec<(TraceCountId, TraceCount)>,
}

impl SamplePlan {
    /// Whether the plan is what the sample asks for: the frame list under
    /// its fingerprint, and for each timestamp one event of the sample's
    /// kind, thread and trace. The `id` of an event is drawn at random and
    /// nothing is said of it.
    pub open spec fn fits(
        &self,
        dic: &ProfilesDictionary,
        sample_type: ValueType,
        sample: Sample,
        frame_list: Seq<Frame>,
        now: UtcTimestamp,
    ) -> bool {
        let stamps = sample_stamps(sample, now);
        &&& self.frames@ == frame_list
        &&& self.trace_hash == TraceHash::of_frames_spec(frame_list)
        &&& self.events.len() == stamps.len()
        &&& sample_kind_spec(dic, sample_type) matches Ok(kind) && forall|i: int|
            0 <= i < stamps.len() ==> event_view(#[trigger] self.events[i]) == trace_event_spec(
                normalized(stamps[i]),
                kind,
                self.events[i].0.id,
                self.trace_hash,
                sample_comm(dic, sample),
            )
    }
}

/// Second pass, for one sample: fingerprints its frame list and makes one
/// trace event for each of its timestamps.
///
/// `now` is the time of arrival in seconds; it stands in where the sample
/// brings no timestamp. The sample is rejected where the profile does not
/// say what it counts, and nothing is to be written then.
pub fn process_sample(
    dict: &ProfilesDictionary,
    sample_type: &ValueType,
    sample: &Sample,
    frame_list: Vec<Frame>,
    now: UtcTimestamp,
) -> (plan: Result<SamplePlan, Rejection>)
    ensures
        match plan {
            Ok(p) => p.fits(dict, *sample_type, *sample, frame_list@, now),
            Err(e) => sample_kind_spec(dict, *sample_type) == Err::<SampleKind, Rejection>(e),
        },
{
    let trace_hash = TraceHash::of_frames(&frame_list);
    let kind = match sample_kind(dict, sample_type) {
        Ok(kind) => kind,
        Err(e) => {
            return Err(e);
        },
    };
    let comm = match get_attr(
        &dict.string_table,
        &dict.attribute_table,
        &sample.attribute_indices,
        "thread.name",
    ) {
        Ok(name) => name,
        Err(_) => "",
    };
    proof {
        reveal_strlit("");
        assert(comm@ =~= sample_comm(dict, *sample));
    }
    let mut events: Vec<(TraceCountId, TraceCount)> = Vec::new();
    let ghost stamps = sample_stamps(*sample, now);
    if sample.timestamps_unix_nano.len() == 0 {
        events.push(trace_event(normalize_timestamp(now), kind, generate_id(), trace_hash, comm));
    } else {
        let mut i: usize = 0;
        while i < sample.timestamps_unix_nano.len()
            invariant
                i <= sample.timestamps_unix_nano.len(),
                stamps == sample.timestamps_unix_nano@,
                events.len() == i,
                forall|k: int|
                    0 <= k < i ==> event_view(#[trigger] events[k]) == trace_event_spec(
                        normalized(stamps[k]),
                        kind,
                        events[k].0.id,
                        trace_hash,
                        comm@,
                    ),
            decreases sample.timestamps_unix_nano.len() - i,
        {
            let timestamp = normalize_timestamp(sample.timestamps_unix_nano[i]);
            events.push(trace_event(timestamp, kind, generate_id(), trace_hash, comm));
            i += 1;
        }
    }
    Ok(SamplePlan { trace_hash, frames: frame_list, events })
}

/// The part of a profile's list of location indices that belongs to a sample.
pub open spec fn sample_range(location_indices: Seq<i32>, start: int, length: int) -> Result<
    Seq<i32>,
    Rejection,
> {
    if 0 <= start && 0 <= length && start + length <= location_indices.len() {
        Ok(location_indices.subrange(start, start + length))
    } else {
        Err(Rejection::LocationRangeOutOfBounds)
    }
}

/// Cuts the part that belongs to a sample out of a profile's list of
/// location indices.
pub fn sample_location_indices(location_indices: &Vec<i32>, start: i32, length: i32) -> (range:
    Result<Vec<i32>, Rejection>)
    ensures
        match range {
            Ok(r) => sample_range(location_indices@, start as int, length as int) == Ok::<
                Seq<i32>,
                Rejection,
            >(r@),
            Err(e) => sample_range(location_indices@, start as int, length as int) == Err::<
                Seq<i32>,
                Rejection,
            >(e),
        },
{
    if start < 0 || length < 0 {
        return Err(Rejection::LocationRangeOutOfBounds);
    }
    let first = start as usize;
    let count = length as usize;
    if first > location_indices.len() || count > location_indices.len() - first {
        return Err(Rejection::LocationRangeOutOfBounds);
    }
    let mut range: Vec<i32> = Vec::new();
    let mut i: usize = 0;
    while i < count
        invariant
            i <= count,
            first + count <= location_indices.len(),
            range@ == location_indices@.subrange(first as int, first + i),
        decreases count - i,
    {
        range.push(location_indices[first + i]);
        assert(location_indices@.subrange(first as int, first + i + 1) =~= location_indices@.subrange(
            first as int,
            first + i,
        ).push(location_indices@[first + i]));
        i += 1;
    }
    Ok(range)
}

/// The frame list of a sample: the frames of the first pass that the
/// sample's part of the location indices points at.
pub open spec fn sample_frames(frames: Seq<Frame>, profile: Profile, sample: Sample) -> Result<
    Seq<Frame>,
    Rejection,
> {
    match sample_range(
        profile.location_indices@,
        sample.locations_start_index as int,
        sample.locations_length as int,
    ) {
        Err(e) => Err(e),
        Ok(range) => if forall|i: int|
            0 <= i < range.len() ==> 0 <= #[trigger] range[i] < frames.len() {
            Ok(Seq::new(range.len(), |i: int| frames[range[i] as int]))
        } else {
            Err(Rejection::LocationIndexOutOfBounds)
        },
    }
}

/// Collects the frame list of a sample. Both steps are checked: the
/// sample's range within the profile's location indices, and each index
/// within the frames of the first pass.
pub fn sample_frame_list(frames: &Vec<Frame>, profile: &Profile, sample: &Sample) -> (list: Result<
    Vec<Frame>,
    Rejection,
>)
    ensures
        match list {
            Ok(l) => sample_frames(frames@, *profile, *sample) == Ok::<Seq<Frame>, Rejection>(l@),
            Err(e) => sample_frames(frames@, *profile, *sample) == Err::<Seq<Frame>, Rejection>(e),
        },
{
    let range = match sample_location_indices(
        &profile.location_indices,
        sample.locations_start_index,
        sample.locations_length,
    ) {
        Ok(range) => range,
        Err(e) => {
            return Err(e);
        },
    };
    match collect_frame_list(frames, &range) {
        Ok(list) => {
            assert(list@ =~= Seq::new(range@.len(), |i: int| frames@[range@[i] as int]));
            Ok(list)
        },
        Err(e) => Err(e),
    }
}

/// Whether the samples of a profile are taken in: a profile that does not
/// name exactly one kind of value is passed over.
pub open spec fn is_counted(profile: Profile) -> bool {
    profile.sample_type.len() == 1
}

/// Whether `plan` is what a sample of a profile asks for, given the frames
/// of the first pass.
pub open spec fn sample_fits(
    plan: SamplePlan,
    dic: &ProfilesDictionary,
    frames: Seq<Frame>,
    profile: Profile,
    sample: Sample,
    now: UtcTimestamp,
) -> bool {
    sample_frames(frames, profile, sample) matches Ok(list) && plan.fits(
        dic,
        profile.sample_type[0],
        sample,
        list,
        now,
    )
}

/// Whether a sample can be taken in: its frame list, or why it rejects the
/// request.
pub open spec fn sample_verdict(
    dic: &ProfilesDictionary,
    frames: Seq<Frame>,
    profile: Profile,
    sample: Sample,
) -> Result<Seq<Frame>, Rejection> {
    match sample_frames(frames, profile, sample) {
        Err(e) => Err(e),
        Ok(list) => match sample_kind_spec(dic, profile.sample_type[0]) {
            Err(e) => Err(e),
            Ok(_) => Ok(list),
        },
    }
}

/// The rejection of the first of the first `n` samples of a profile that
/// has one.
pub open spec fn profile_verdict(
    dic: &ProfilesDictionary,
    frames: Seq<Frame>,
    profile: Profile,
    n: int,
) -> Result<(), Rejection>
    decreases n,
{
    if n <= 0 {
        Ok(())
    } else {
        match profile_verdict(dic, frames, profile, n - 1) {
            Err(e) => Err(e),
            Ok(_) => match sample_verdict(dic, frames, profile, profile.sample[n - 1]) {
                Err(e) => Err(e),
                Ok(_) => Ok(()),
            },
        }
    }
}

/// The rejection of the first sample, in the order of the profiles, that
/// has one. The samples of a profile that is passed over reject nothing.
pub open spec fn profiles_verdict(
    dic: &ProfilesDictionary,
    frames: Seq<Frame>,
    profiles: Seq<Profile>,
) -> Result<(), Rejection>
    decreases profiles.len(),
{
    if profiles.len() == 0 {
        Ok(())
    } else {
        match profiles_verdict(dic, frames, profiles.drop_last()) {
            Err(e) => Err(e),
            Ok(_) => if is_counted(profiles.last()) {
                profile_verdict(dic, frames, profiles.last(), profiles.last().sample.len() as int)
            } else {
                Ok(())
            },
        }
    }
}

/// The samples that are taken in, each with its profile, in the order of
/// the request.
pub open spec fn counted_samples(profiles: Seq<Profile>) -> Seq<(Profile, Sample)>
    decreases profiles.len(),
{
    if profiles.len() == 0 {
        Seq::empty()
    } else {
        let last = profiles.last();
        counted_samples(profiles.drop_last()) + if is_counted(last) {
            Seq::new(last.sample.len() as nat, |j: int| (last, last.sample[j]))
        } else {
            Seq::empty()
        }
    }
}

/// The number of profiles that are passed over.
pub open spec fn skipped_profiles(profiles: Seq<Profile>) -> nat
    decreases profiles.len(),
{
    if profiles.len() == 0 {
        0
    } else {
        skipped_profiles(profiles.drop_last()) + if is_counted(profiles.last()) {
            0nat
        } else {
            1nat
        }
    }
}

/// Whether a request is taken in, and why not.
pub open spec fn request_verdict(req: &ExportRequest) -> Result<(), Rejection> {
    match req.dictionary {
        None => Err(Rejection::MissingDictionary),
        Some(dic) => match locations_facts(&dic, dic.location_table@) {
            Err(e) => Err(e),
            Ok(facts) => profiles_verdict(&dic, frames_of(facts), req.profiles@),
        },
    }
}

/// Everything that is to be written for a request.
///
/// The order of writing is: the executables, each where the table holds no
/// record of it yet; the meta-data of the frames, in one batch; then, for
/// each sample, the frame list under its fingerprint; and last the trace
/// events of all samples, so that whoever sees an event finds its trace.
#[derive(Debug, Clone, PartialEq, Eq)]
pub struct IngestPlan {
    pub locations: LocationPlan,
    pub samples: Vec<SamplePlan>,
    /// How many profiles were passed over for not naming exactly one kind
    /// of value.
    pub skipped_profiles: usize,
}

impl IngestPlan {
    /// Whether the plan is what the request asks for.
    pub open spec fn fits(&self, req: &ExportRequest, now: UtcTimestamp) -> bool {
        &&& req.dictionary matches Some(dic) && locations_facts(&dic, dic.location_table@) matches Ok(
            facts,
        ) && {
            let taken = counted_samples(req.profiles@);
            &&& self.locations.holds(facts)
            &&& self.samples.len() == taken.len()
            &&& forall|k: int|
                0 <= k < taken.len() ==> sample_fits(
                    #[trigger] self.samples[k],
                    &dic,
                    frames_of(facts),
                    taken[k].0,
                    taken[k].1,
                    now,
                )
        }
        &&& self.skipped_profiles == skipped_profiles(req.profiles@)
    }
}

proof fn lemma_profile_rejection_stays(
    dic: &ProfilesDictionary,
    frames: Seq<Frame>,
    profile: Profile,
    j: int,
)
    requires
        0 <= j <= profile.sample.len(),
        profile_verdict(dic, frames, profile, j) is Err,
    ensures
        profile_verdict(dic, frames, profile, profile.sample.len() as int) == profile_verdict(
            dic,
            frames,
            profile,
            j,
        ),
    decreases profile.sample.len() - j,
{
    if j < profile.sample.len() {
        lemma_profile_rejection_stays(dic, frames, profile, j + 1);
    }
}

proof fn lemma_profiles_rejection_stays(
    dic: &ProfilesDictionary,
    frames: Seq<Frame>,
    profiles: Seq<Profile>,
    j: int,
)
    requires
        0 <= j <= profiles.len(),
        profiles_verdict(dic, frames, profiles.take(j)) is Err,
    ensures
        profiles_verdict(dic, frames, profiles) == profiles_verdict(dic, frames, profiles.take(j)),
    decreases profiles.len() - j,
{
    if j == profiles.len() {
        assert(profiles.take(j) =~= profiles);
    } else {
        assert(profiles.take(j + 1).drop_last() =~= profiles.take(j));
        lemma_profiles_rejection_stays(dic, frames, profiles, j + 1);
    }
}

fn ingest_profile(
    dic: &ProfilesDictionary,
    frames: &Vec<Frame>,
    profile: &Profile,
    now: UtcTimestamp,
    samples: &mut Vec<SamplePlan>,
) -> (res: Result<(), Rejection>)
    requires
        is_counted(*profile),
    ensures
        match res {
            Err(e) => profile_verdict(dic, frames@, *profile, profile.sample.len() as int) == Err::<
                (),
                Rejection,
            >(e),
            Ok(_) => {
                &&& profile_verdict(dic, frames@, *profile, profile.sample.len() as int) is Ok
                &&& final(samples).len() == old(samples).len() + profile.sample.len()
                &&& forall|k: int|
                    0 <= k < old(samples).len() ==> #[trigger] final(samples)[k] == old(samples)[k]
                &&& forall|k: int|
                    old(samples).len() <= k < final(samples).len() ==> sample_fits(
                        #[trigger] final(samples)[k],
                        dic,
                        frames@,
                        *profile,
                        profile.sample[k - old(samples).len()],
                        now,
                    )
            },
        },
{
    let sample_type = &profile.sample_type[0];
    let mut j: usize = 0;
    while j < profile.sample.len()
        invariant
            j <= profile.sample.len(),
            is_counted(*profile),
            sample_type == &profile.sample_type[0],
            profile_verdict(dic, frames@, *profile, j as int) is Ok,
            samples.len() == old(samples).len() + j,
            forall|k: int| 0 <= k < old(samples).len() ==> #[trigger] samples[k] == old(samples)[k],
            forall|k: int|
                old(samples).len() <= k < samples.len() ==> sample_fits(
                    #[trigger] samples[k],
                    dic,
                    frames@,
                    *profile,
                    profile.sample[k - old(samples).len()],
                    now,
                ),
        decreases profile.sample.len() - j,
    {
        let sample = &profile.sample[j];
        let list = match sample_frame_list(frames, profile, sample) {
            Ok(list) => list,
            Err(e) => {
                proof {
                    lemma_profile_rejection_stays(dic, frames@, *profile, j + 1);
                }
                return Err(e);
            },
        };
        let ghost frame_list = list@;
        let ghost before = samples@;
        let plan = match process_sample(dic, sample_type, sample, list, now) {
            Ok(plan) => plan,
            Err(e) => {
                proof {
                    lemma_profile_rejection_stays(dic, frames@, *profile, j + 1);
                }
                return Err(e);
            },
        };
        let ghost made = plan;
        samples.push(plan);
        proof {
            let base = old(samples).len() as int;
            assert(samples@[base + j] == made);
            assert forall|k: int| base <= k < samples.len() implies sample_fits(
                #[trigger] samples[k],
                dic,
                frames@,
                *profile,
                profile.sample[k - base],
                now,
            ) by {
                if k < base + j {
                    assert(samples[k] == before[k]);
                }
            }
            assert forall|k: int| 0 <= k < base implies #[trigger] samples[k] == old(samples)[k] by {
                assert(samples[k] == before[k]);
            }
        }
        j += 1;
    }
    Ok(())
}

/// Takes a request in: works out what is to be written for it, or why it
/// is rejected.
///
/// `now` is the time of arrival in seconds. A request without a dictionary
/// is rejected. A profile that does not name exactly one kind of value is
/// passed over and the rest of the request goes on. The first location or
/// sample that cannot be worked out rejects the whole request, and nothing
/// is to be written then.
pub fn ingest_request(req: &ExportRequest, now: UtcTimestamp) -> (plan: Result<
    IngestPlan,
    Rejection,
>)
    ensures
        match plan {
            Ok(p) => request_verdict(req) is Ok && p.fits(req, now),
            Err(e) => request_verdict(req) == Err::<(), Rejection>(e),
        },
{
    let dic = match &req.dictionary {
        Some(dic) => dic,
        None => {
            return Err(Rejection::MissingDictionary);
        },
    };
    let locations = match ingest_locations(dic) {
        Ok(locations) => locations,
        Err(e) => {
            return Err(e);
        },
    };
    let ghost facts = locations_facts(dic, dic.location_table@)->Ok_0;
    let mut samples: Vec<SamplePlan> = Vec::new();
    let mut skipped: usize = 0;
    let mut i: usize = 0;
    while i < req.profiles.len()
        invariant
            i <= req.profiles.len(),
            skipped <= i,
            req.dictionary == Some(*dic),
            locations_facts(dic, dic.location_table@) == Ok::<Seq<LocationFacts>, Rejection>(facts),
            locations.frames@ == frames_of(facts),
            profiles_verdict(dic, locations.frames@, req.profiles@.take(i as int)) is Ok,
            skipped == skipped_profiles(req.profiles@.take(i as int)),
            samples.len() == counted_samples(req.profiles@.take(i as int)).len(),
            forall|k: int|
                0 <= k < samples.len() ==> sample_fits(
                    #[trigger] samples[k],
                    dic,
                    locations.frames@,
                    counted_samples(req.profiles@.take(i as int))[k].0,
                    counted_samples(req.profiles@.take(i as int))[k].1,
                    now,
                ),
        decreases req.profiles.len() - i,
    {
        let profile = &req.profiles[i];
        proof {
            assert(req.profiles@.take(i + 1).drop_last() =~= req.profiles@.take(i as int));
            assert(req.profiles@.take(i + 1).last() == *profile);
        }
        let ghost taken = counted_samples(req.profiles@.take(i as int));
        let ghost next = counted_samples(req.profiles@.take(i + 1));
        if profile.sample_type.len() != 1 {
            skipped += 1;
            proof {
                assert(next =~= taken);
            }
        } else {
            let ghost before = samples@;
            match ingest_profile(dic, &locations.frames, profile, now, &mut samples) {
                Ok(_) => {
                    proof {
                        let added = Seq::new(
                            profile.sample.len() as nat,
                            |j: int| (*profile, profile.sample[j]),
                        );
                        assert(next =~= taken + added);
                        assert forall|k: int| 0 <= k < samples.len() implies sample_fits(
                            #[trigger] samples[k],
                            dic,
                            locations.frames@,
                            next[k].0,
                            next[k].1,
                            now,
                        ) by {
                            if k < before.len() {
                                assert(samples[k] == before[k]);
                                assert(next[k] == taken[k]);
                            } else {
                                assert(next[k] == added[k - before.len()]);
                            }
                        }
                    }
                },
                Err(e) => {
                    proof {
                        lemma_profiles_rejection_stays(
                            dic,
                            locations.frames@,
                            req.profiles@,
                            i + 1,
                        );
                    }
                    return Err(e);
                },
            }
        }
        i += 1;
    }
    assert(req.profiles@.take(req.profiles.len() as int) =~= req.profiles@);
    Ok(IngestPlan { locations, samples, skipped_profiles: skipped })
}

} // verus!
