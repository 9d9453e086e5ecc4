//! Evaluated values, native file selection, and format compilation.
use vstd::prelude::*;

use crate::config::{bytes_view, file_views, hex, noted, read_hash, records_file, sha256, Inputs, InputFile};
use crate::publication::{has_stage_prefix, stage_prefix};
use crate::render::{outside_view, render, render_spec};
use vstd::utf8::encode_utf8;
use crate::path::{absolute, is_normal_absolute, is_prefix, key_text, path_key, path_less, path_lt, path_in, path_views, paths_sorted, sort_paths, FsPath};
use crate::outcome::{first_failure, lemma_first_failure_prefix, lemma_first_failure_push};
use crate::text::{append_str, str_eq, string_views};
use crate::Failure;

verus! {

/// A finite floating-point number: its IEEE 754 bits, and its shortest
/// decimal text as JSON writes it.
pub struct FloatNumber {
    pub bits: u64,
    pub text: String,
}

/// A named member of an object value.
pub struct Field {
    pub name: String,
    pub value: Value,
}

/// An evaluated configuration value.
pub enum Value {
    Null,
    Bool(bool),
    Int(i64),
    Float(FloatNumber),
    String(String),
    Array(Vec<Value>),
    Object(Vec<Field>),
}

/// The value of the first field named `key`.
pub open spec fn field_value(fields: Seq<Field>, key: Seq<char>) -> Option<Value>
    decreases fields.len(),
{
    if fields.len() == 0 {
        None
    } else if fields[0].name@ == key {
        Some(fields[0].value)
    } else {
        field_value(fields.drop_first(), key)
    }
}

/// `Value::get`: the member named `key` of an object, nothing otherwise.
pub open spec fn value_get(v: Value, key: Seq<char>) -> Option<Value> {
    match v {
        Value::Object(fields) => field_value(fields@, key),
        _ => None,
    }
}

/// `Value::text`: the text of a member that is a string; an absent or null
/// member is `None`; any other member is an error.
pub open spec fn value_text(v: Value, key: Seq<char>) -> Result<Option<Seq<char>>, ()> {
    match value_get(v, key) {
        None => Ok(None),
        Some(Value::Null) => Ok(None),
        Some(Value::String(s)) => Ok(Some(s@)),
        Some(_) => Err(()),
    }
}

proof fn lemma_field_value_at(fields: Seq<Field>, key: Seq<char>, i: int)
    requires
        0 <= i < fields.len(),
        fields[i].name@ == key,
        forall|k: int| 0 <= k < i ==> (#[trigger] fields[k]).name@ != key,
    ensures
        field_value(fields, key) == Some(fields[i].value),
    decreases i,
{
    if i > 0 {
        lemma_field_value_at(fields.drop_first(), key, i - 1);
    }
}

proof fn lemma_field_value_none(fields: Seq<Field>, key: Seq<char>)
    requires
        forall|k: int| 0 <= k < fields.len() ==> (#[trigger] fields[k]).name@ != key,
    ensures
        field_value(fields, key) is None,
    decreases fields.len(),
{
    if fields.len() > 0 {
        lemma_field_value_none(fields.drop_first(), key);
    }
}

impl Value {
    /// The member named `key`, when this is an object that has one.
    pub fn get(&self, key: &str) -> (r: Option<&Value>)
        ensures
            match value_get(*self, key@) {
                None => r is None,
                Some(v) => r matches Some(x) && *x == v,
            },
    {
        match self {
            Value::Object(fields) => {
                let mut i: usize = 0;
                while i < fields.len()
                    invariant
                        *self == Value::Object(*fields),
                        i <= fields@.len(),
                        forall|k: int| 0 <= k < i ==> (#[trigger] fields@[k]).name@ != key@,
                    decreases fields@.len() - i,
                {
                    if crate::text::str_eq(fields[i].name.as_str(), key) {
                        proof {
                            lemma_field_value_at(fields@, key@, i as int);
                        }
                        return Some(&fields[i].value);
                    }
                    i = i + 1;
                }
                proof {
                    lemma_field_value_none(fields@, key@);
                }
                None
            },
            _ => None,
        }
    }

    /// The text of the member named `key` (see `value_text`).
    pub fn text(&self, key: &str) -> (r: Result<Option<&String>, ()>)
        ensures
            match value_text(*self, key@) {
                Err(()) => r is Err,
                Ok(None) => r matches Ok(None),
                Ok(Some(t)) => r matches Ok(Some(s)) && s@ == t,
            },
    {
        match self.get(key) {
            None => Ok(None),
            Some(Value::Null) => Ok(None),
            Some(Value::String(s)) => Ok(Some(s)),
            Some(_) => Err(()),
        }
    }
}

/// Why a value cannot be written in INI.
#[derive(Clone, Copy, Debug, PartialEq, Eq, Structural)]
pub enum IniFault {
    /// The document is not an object of entries and sections.
    NotAnObject,
    /// A key is empty, padded, or holds `=`, `:`, a line break or NUL, or
    /// starts with `#`, `;` or `[`.
    InvalidKey,
    /// A string is padded or holds a line break or NUL.
    InvalidString,
    /// An entry is not a string, number or boolean.
    InvalidEntry,
    /// A section name is empty or holds a bracket, a line break or NUL.
    InvalidSection,
    /// A float is not finite.
    NonFinite,
}

/// Why an output could not be rendered.
pub enum RenderFault {
    /// The JSON, YAML or TOML serializer refused the value.
    Outside(Failure),
    /// INI cannot hold the value.
    Ini(IniFault),
    /// A text output's value is not a string.
    ExpectedString,
    /// No renderer has that name.
    UnsupportedFormat,
}

/// Why compilation fails.
pub enum CompileFault {
    /// A value that must be an object is not one.
    ExpectedObject,
    /// A value that must be a string is not one.
    ExpectedString,
    /// An object has a member that its schema does not know.
    UnknownField(String),
    /// A path leaves the filesystem root.
    PathEscapes(String),
    /// No built-in producer has that name.
    UnknownBuiltin(String),
    /// The built-in producer does not support the format.
    UnsupportedFormat { builtin: String, format: String, supported: Vec<String> },
    /// An explicit path differs from the built-in producer's native filename.
    NativeFilename { builtin: String, filename: String },
    /// The package manifest could not be read.
    ManifestRead { manifest: FsPath, failure: Failure },
    /// The package manifest is not JSON.
    ManifestUnreadable(FsPath),
    /// The package manifest holds a competing configuration key.
    ManifestConflict { manifest: FsPath, key: String },
    /// An output declaration has no `config`.
    MissingConfig,
    /// A custom output names no format.
    CustomWithoutFormat,
    /// A tool declares nothing to generate.
    NothingToGenerate,
    /// A file declaration has no path.
    MissingPath { owner: String, name: String },
    /// An output could not be rendered.
    Render { label: String, format: String, cause: RenderFault },
    /// A fault inside the named tool.
    InTool { name: String, reason: Box<CompileFault> },
    /// Two outputs write the same file.
    Duplicate { label: String, previous: String, path: FsPath },
    /// An output is a configuration input or the source itself.
    InputCollision(FsPath),
    /// An output lies in the state directory.
    StateCollision(FsPath),
    /// An output's name carries the staging prefix.
    ReservedName(FsPath),
    /// A path is both an output file and an output's directory.
    FileAndDirectory(FsPath),
    /// An output is another configured producer's competing native file.
    AlternativeConflict(FsPath),
}

/// A render fault as plain values.
pub enum RenderFaultView {
    Outside(Seq<char>),
    Ini(IniFault),
    ExpectedString,
    UnsupportedFormat,
}

/// A compile fault as plain values.
pub enum CompileFaultView {
    ExpectedObject,
    ExpectedString,
    UnknownField(Seq<char>),
    PathEscapes(Seq<char>),
    UnknownBuiltin(Seq<char>),
    UnsupportedFormat(Seq<char>, Seq<char>, Seq<Seq<char>>),
    NativeFilename(Seq<char>, Seq<char>),
    ManifestRead(Seq<Seq<char>>, Seq<char>),
    ManifestUnreadable(Seq<Seq<char>>),
    ManifestConflict(Seq<Seq<char>>, Seq<char>),
    MissingConfig,
    CustomWithoutFormat,
    NothingToGenerate,
    MissingPath(Seq<char>, Seq<char>),
    Render(Seq<char>, Seq<char>, RenderFaultView),
    InTool(Seq<char>, Box<CompileFaultView>),
    Duplicate(Seq<char>, Seq<char>, Seq<Seq<char>>),
    InputCollision(Seq<Seq<char>>),
    StateCollision(Seq<Seq<char>>),
    ReservedName(Seq<Seq<char>>),
    FileAndDirectory(Seq<Seq<char>>),
    AlternativeConflict(Seq<Seq<char>>),
}

impl View for RenderFault {
    type V = RenderFaultView;

    open spec fn view(&self) -> RenderFaultView {
        match self {
            RenderFault::Outside(f) => RenderFaultView::Outside(f.message@),
            RenderFault::Ini(i) => RenderFaultView::Ini(*i),
            RenderFault::ExpectedString => RenderFaultView::ExpectedString,
            RenderFault::UnsupportedFormat => RenderFaultView::UnsupportedFormat,
        }
    }
}

impl View for CompileFault {
    type V = CompileFaultView;

    open spec fn view(&self) -> CompileFaultView
        decreases self,
    {
        match self {
            CompileFault::ExpectedObject => CompileFaultView::ExpectedObject,
            CompileFault::ExpectedString => CompileFaultView::ExpectedString,
            CompileFault::UnknownField(n) => CompileFaultView::UnknownField(n@),
            CompileFault::PathEscapes(t) => CompileFaultView::PathEscapes(t@),
            CompileFault::UnknownBuiltin(n) => CompileFaultView::UnknownBuiltin(n@),
            CompileFault::UnsupportedFormat { builtin, format, supported } => CompileFaultView::UnsupportedFormat(
                builtin@,
                format@,
                string_views(supported@),
            ),
            CompileFault::NativeFilename { builtin, filename } => CompileFaultView::NativeFilename(
                builtin@,
                filename@,
            ),
            CompileFault::ManifestRead { manifest, failure } => CompileFaultView::ManifestRead(
                manifest@,
                failure.message@,
            ),
            CompileFault::ManifestUnreadable(p) => CompileFaultView::ManifestUnreadable(p@),
            CompileFault::ManifestConflict { manifest, key } => CompileFaultView::ManifestConflict(
                manifest@,
                key@,
            ),
            CompileFault::MissingConfig => CompileFaultView::MissingConfig,
            CompileFault::CustomWithoutFormat => CompileFaultView::CustomWithoutFormat,
            CompileFault::NothingToGenerate => CompileFaultView::NothingToGenerate,
            CompileFault::MissingPath { owner, name } => CompileFaultView::MissingPath(owner@, name@),
            CompileFault::Render { label, format, cause } => CompileFaultView::Render(
                label@,
                format@,
                cause@,
            ),
            CompileFault::InTool { name, reason } => CompileFaultView::InTool(
                name@,
                Box::new((**reason).view()),
            ),
            CompileFault::Duplicate { label, previous, path } => CompileFaultView::Duplicate(
                label@,
                previous@,
                path@,
            ),
            CompileFault::InputCollision(p) => CompileFaultView::InputCollision(p@),
            CompileFault::StateCollision(p) => CompileFaultView::StateCollision(p@),
            CompileFault::ReservedName(p) => CompileFaultView::ReservedName(p@),
            CompileFault::FileAndDirectory(p) => CompileFaultView::FileAndDirectory(p@),
            CompileFault::AlternativeConflict(p) => CompileFaultView::AlternativeConflict(p@),
        }
    }
}

/// The view of an optional fault.
pub open spec fn fault_view(o: Option<CompileFault>) -> Option<CompileFaultView> {
    match o {
        None => None,
        Some(f) => Some(f@),
    }
}

/// A generated file: where it goes, which declaration produced it, its
/// format, and its bytes.
pub struct Output {
    pub path: FsPath,
    pub label: String,
    pub format: String,
    pub bytes: Vec<u8>,
}

impl Output {
    /// The destination.
    pub fn path(&self) -> (r: &FsPath)
        ensures
            r == &self.path,
    {
        &self.path
    }

    /// The declaration that produced the file.
    pub fn label(&self) -> (r: &str)
        ensures
            r@ == self.label@,
    {
        self.label.as_str()
    }

    /// The format name.
    pub fn format(&self) -> (r: &str)
        ensures
            r@ == self.format@,
    {
        self.format.as_str()
    }

    /// The rendered bytes.
    pub fn bytes(&self) -> (r: &[u8])
        ensures
            r@ == self.bytes@,
    {
        self.bytes.as_slice()
    }
}

/// Outputs in strictly increasing path order, hence at distinct paths.
pub open spec fn outputs_sorted(outputs: Seq<Output>) -> bool {
    forall|i: int, j: int|
        0 <= i < j < outputs.len() ==> path_lt((#[trigger] outputs[i]).path@, (#[trigger] outputs[j]).path@)
}

/// Everything one generation would publish, and what it depended on.
pub struct Plan {
    pub outputs: Vec<Output>,
    pub alternatives: Vec<FsPath>,
    pub inputs: Inputs,
}

impl Plan {
    /// The outputs, in path order.
    pub fn outputs(&self) -> (r: &Vec<Output>)
        ensures
            r == &self.outputs,
    {
        &self.outputs
    }

    /// Native files that compete with the outputs.
    pub fn alternatives(&self) -> (r: &Vec<FsPath>)
        ensures
            r == &self.alternatives,
    {
        &self.alternatives
    }

    /// The inputs that evaluation and compilation read.
    pub fn inputs(&self) -> (r: &Inputs)
        ensures
            r == &self.inputs,
    {
        &self.inputs
    }
}


/// A file name that a built-in producer writes for one format.
pub struct FormatFile {
    pub format: String,
    pub filename: String,
}

/// A built-in producer from the catalog.
pub struct Builtin {
    pub id: String,
    pub default: String,
    pub formats: Vec<FormatFile>,
    pub alternatives: Vec<String>,
    pub manifest_key: Option<String>,
}

/// The members an object may have.
#[derive(Clone, Copy, Debug, PartialEq, Eq, Structural)]
pub enum Schema {
    /// The document: `tools` and `files`.
    Document,
    /// A tool: `builtin`, `format`, `directory`, `path`, `config`, `files`.
    Tool,
    /// A file: `path`, `format`, `config`.
    File,
}

/// Whether a schema allows a member name.
pub open spec fn allows(schema: Schema, name: Seq<char>) -> bool {
    match schema {
        Schema::Document => name == "tools"@ || name == "files"@,
        Schema::Tool => name == "builtin"@ || name == "format"@ || name == "directory"@ || name
            == "path"@ || name == "config"@ || name == "files"@,
        Schema::File => name == "path"@ || name == "format"@ || name == "config"@,
    }
}

/// The first member outside the schema, or the fault of a non-object.
pub open spec fn schema_fault(v: Value, schema: Schema) -> Option<CompileFaultView> {
    match v {
        Value::Object(fields) => first_failure(
            Seq::new(
                fields@.len(),
                |i: int|
                    if allows(schema, fields@[i].name@) {
                        None
                    } else {
                        Some(CompileFaultView::UnknownField(fields@[i].name@))
                    },
            ),
        ),
        _ => Some(CompileFaultView::ExpectedObject),
    }
}

fn allowed(schema: Schema, name: &str) -> (r: bool)
    ensures
        r == allows(schema, name@),
{
    match schema {
        Schema::Document => str_eq(name, "tools") || str_eq(name, "files"),
        Schema::Tool => str_eq(name, "builtin") || str_eq(name, "format") || str_eq(name, "directory")
            || str_eq(name, "path") || str_eq(name, "config") || str_eq(name, "files"),
        Schema::File => str_eq(name, "path") || str_eq(name, "format") || str_eq(name, "config"),
    }
}

/// Checks that a value is an object whose members its schema allows.
pub fn check_fields(v: &Value, schema: Schema) -> (r: Option<CompileFault>)
    ensures
        fault_view(r) == schema_fault(*v, schema),
{
    match v {
        Value::Object(fields) => {
            let ghost checks = Seq::new(
                fields@.len(),
                |i: int|
                    if allows(schema, fields@[i].name@) {
                        None
                    } else {
                        Some(CompileFaultView::UnknownField(fields@[i].name@))
                    },
            );
            let mut i: usize = 0;
            while i < fields.len()
                invariant
                    *v == Value::Object(*fields),
                    i <= fields@.len(),
                    checks == Seq::new(
                        fields@.len(),
                        |i: int|
                            if allows(schema, fields@[i].name@) {
                                None
                            } else {
                                Some(CompileFaultView::UnknownField(fields@[i].name@))
                            },
                    ),
                    first_failure(checks.take(i as int)) is None,
                decreases fields@.len() - i,
            {
                proof {
                    lemma_first_failure_push(checks, i as int);
                }
                if !allowed(schema, fields[i].name.as_str()) {
                    proof {
                        lemma_first_failure_prefix(checks, i + 1);
                    }
                    return Some(CompileFault::UnknownField(fields[i].name.clone()));
                }
                i = i + 1;
            }
            assert(checks.take(fields@.len() as int) =~= checks);
            None
        },
        _ => Some(CompileFault::ExpectedObject),
    }
}

/// A step of compilation that a later stage completes: a package
/// manifest to inspect, or an output to render.
pub enum Step<'a> {
    /// Inspect `path` for a member `key` that competes with the tool's output.
    Manifest { owner: String, path: FsPath, key: String },
    /// Render `value` as `format` into `path`; `tool` names the enclosing tool.
    Render { tool: Option<String>, path: FsPath, label: String, format: String, value: &'a Value },
}

/// A step as plain values.
pub enum StepView {
    Manifest(Seq<char>, Seq<Seq<char>>, Seq<char>),
    Render(Option<Seq<char>>, Seq<Seq<char>>, Seq<char>, Seq<char>, Value),
}

impl<'a> View for Step<'a> {
    type V = StepView;

    open spec fn view(&self) -> StepView {
        match self {
            Step::Manifest { owner, path, key } => StepView::Manifest(owner@, path@, key@),
            Step::Render { tool, path, label, format, value } => StepView::Render(
                match tool {
                    Some(t) => Some(t@),
                    None => None,
                },
                path@,
                label@,
                format@,
                **value,
            ),
        }
    }
}

/// The views of a sequence of steps.
pub open spec fn step_views<'a>(v: Seq<Step<'a>>) -> Seq<StepView> {
    v.map_values(|s: Step<'a>| s@)
}

/// The steps and competing files that declarations yield, and the fault
/// that stopped them, if any.
pub struct Declared {
    pub steps: Seq<StepView>,
    pub alts: Seq<Seq<Seq<char>>>,
    pub halt: Option<CompileFaultView>,
}

/// Nothing declared, and stopped by `f`.
pub open spec fn halted(f: CompileFaultView) -> Declared {
    Declared { steps: Seq::empty(), alts: Seq::empty(), halt: Some(f) }
}

/// Nothing declared.
pub open spec fn nothing() -> Declared {
    Declared { steps: Seq::empty(), alts: Seq::empty(), halt: None }
}

/// Two runs of declarations, the second after the first completed.
pub open spec fn then(a: Declared, b: Declared) -> Declared {
    Declared { steps: a.steps + b.steps, alts: a.alts + b.alts, halt: b.halt }
}

/// A label: owner and name joined by a slash.
pub open spec fn label_of(owner: Seq<char>, name: Seq<char>) -> Seq<char> {
    owner + seq!['/'] + name
}

/// The text of a member, or a default when it is absent or null.
pub open spec fn text_or(v: Value, key: Seq<char>, default: Seq<char>) -> Seq<char> {
    match value_text(v, key) {
        Ok(Some(t)) => t,
        _ => default,
    }
}

/// The file declarations among the first `n` members of `files`, relative
/// to `dir`, labelled under `owner`.
pub open spec fn files_fold(
    dir: Seq<Seq<char>>,
    owner: Seq<char>,
    tool: Option<Seq<char>>,
    fields: Seq<Field>,
    n: int,
) -> Declared
    decreases n,
{
    if n <= 0 {
        nothing()
    } else {
        let prev = files_fold(dir, owner, tool, fields, n - 1);
        if prev.halt is Some {
            prev
        } else {
            then(prev, file_spec(dir, owner, tool, fields[n - 1].name@, fields[n - 1].value))
        }
    }
}

/// One file declaration.
pub open spec fn file_spec(
    dir: Seq<Seq<char>>,
    owner: Seq<char>,
    tool: Option<Seq<char>>,
    name: Seq<char>,
    file: Value,
) -> Declared {
    if schema_fault(file, Schema::File) is Some {
        halted(schema_fault(file, Schema::File)->0)
    } else if value_text(file, "path"@) is Err {
        halted(CompileFaultView::ExpectedString)
    } else if value_text(file, "path"@) == Ok::<Option<Seq<char>>, ()>(None) {
        halted(CompileFaultView::MissingPath(owner, name))
    } else {
        let text = value_text(file, "path"@)->Ok_0->0;
        match crate::path::absolute_spec(dir, text) {
            None => halted(CompileFaultView::PathEscapes(text)),
            Some(path) => if value_text(file, "format"@) is Err {
                halted(CompileFaultView::ExpectedString)
            } else {
                match value_get(file, "config"@) {
                    None => halted(CompileFaultView::MissingConfig),
                    Some(config) => Declared {
                        steps: seq![
                            StepView::Render(
                                tool,
                                path,
                                label_of(owner, name),
                                text_or(file, "format"@, "json"@),
                                config,
                            ),
                        ],
                        alts: Seq::empty(),
                        halt: None,
                    },
                }
            },
        }
    }
}

/// The declarations of a `files` member.
pub open spec fn files_spec(dir: Seq<Seq<char>>, owner: Seq<char>, tool: Option<Seq<char>>, files: Value) -> Declared {
    match files {
        Value::Object(fields) => files_fold(dir, owner, tool, fields@, fields@.len() as int),
        _ => halted(CompileFaultView::ExpectedObject),
    }
}

/// The first catalog entry with the given name.
pub open spec fn find_builtin(catalog: Seq<Builtin>, id: Seq<char>) -> Option<Builtin>
    decreases catalog.len(),
{
    if catalog.len() == 0 {
        None
    } else if catalog[0].id@ == id {
        Some(catalog[0])
    } else {
        find_builtin(catalog.drop_first(), id)
    }
}

/// The file name a producer writes for a format.
pub open spec fn find_filename(formats: Seq<FormatFile>, format: Seq<char>) -> Option<Seq<char>>
    decreases formats.len(),
{
    if formats.len() == 0 {
        None
    } else if formats[0].format@ == format {
        Some(formats[0].filename@)
    } else {
        find_filename(formats.drop_first(), format)
    }
}

/// The competing native files among the first `n` alternatives: each made
/// absolute against `dir`, kept unless it is the output itself.
pub open spec fn alternatives_fold(
    dir: Seq<Seq<char>>,
    path: Seq<Seq<char>>,
    alts: Seq<String>,
    n: int,
) -> Declared
    decreases n,
{
    if n <= 0 {
        nothing()
    } else {
        let prev = alternatives_fold(dir, path, alts, n - 1);
        if prev.halt is Some {
            prev
        } else {
            match crate::path::absolute_spec(dir, alts[n - 1]@) {
                None => Declared { steps: prev.steps, alts: prev.alts, halt: Some(CompileFaultView::PathEscapes(alts[n - 1]@)) },
                Some(c) => if c != path {
                    Declared { steps: prev.steps, alts: prev.alts.push(c), halt: None }
                } else {
                    prev
                },
            }
        }
    }
}

/// The declarations of a tool that names a built-in producer.
pub open spec fn builtin_spec(
    dir: Seq<Seq<char>>,
    name: Seq<char>,
    id: Seq<char>,
    requested: Seq<char>,
    explicit: Option<Seq<char>>,
    tool: Value,
    catalog: Seq<Builtin>,
) -> Declared {
    match find_builtin(catalog, id) {
        None => halted(CompileFaultView::UnknownBuiltin(id)),
        Some(b) => {
            let format = if requested.len() == 0 {
                b.default@
            } else {
                requested
            };
            match find_filename(b.formats@, format) {
                None => halted(
                    CompileFaultView::UnsupportedFormat(
                        id,
                        format,
                        b.formats@.map_values(|f: FormatFile| f.format@),
                    ),
                ),
                Some(filename) => if explicit matches Some(p) && p != filename {
                    halted(CompileFaultView::NativeFilename(id, filename))
                } else {
                    match crate::path::absolute_spec(dir, filename) {
                        None => halted(CompileFaultView::PathEscapes(filename)),
                        Some(path) => {
                            let alts = alternatives_fold(dir, path, b.alternatives@, b.alternatives@.len() as int);
                            if alts.halt is Some {
                                alts
                            } else {
                                let manifest = match b.manifest_key {
                                    Some(k) => seq![StepView::Manifest(name, dir.push("package.json"@), k@)],
                                    None => Seq::empty(),
                                };
                                match value_get(tool, "config"@) {
                                    None => Declared {
                                        steps: manifest,
                                        alts: alts.alts,
                                        halt: Some(CompileFaultView::MissingConfig),
                                    },
                                    Some(config) => Declared {
                                        steps: manifest.push(
                                            StepView::Render(
                                                Some(name),
                                                path,
                                                label_of(name, filename),
                                                format,
                                                config,
                                            ),
                                        ),
                                        alts: alts.alts,
                                        halt: None,
                                    },
                                }
                            }
                        },
                    }
                },
            }
        },
    }
}

/// A tool declares nothing of its own and no files.
pub open spec fn declares_nothing(tool: Value) -> bool {
    match value_get(tool, "files"@) {
        None => true,
        Some(files) => files matches Value::Object(fields) && fields@.len() == 0,
    }
}

/// What a tool declares of its own: a built-in's output, a custom output,
/// or nothing when it only has files.
pub open spec fn tool_head(
    dir: Seq<Seq<char>>,
    name: Seq<char>,
    id: Seq<char>,
    requested: Seq<char>,
    explicit: Option<Seq<char>>,
    tool: Value,
    catalog: Seq<Builtin>,
) -> Declared {
    if id.len() > 0 {
        builtin_spec(dir, name, id, requested, explicit, tool, catalog)
    } else if explicit is Some {
        if requested.len() == 0 {
            halted(CompileFaultView::CustomWithoutFormat)
        } else {
            match crate::path::absolute_spec(dir, explicit->0) {
                None => halted(CompileFaultView::PathEscapes(explicit->0)),
                Some(path) => match value_get(tool, "config"@) {
                    None => halted(CompileFaultView::MissingConfig),
                    Some(config) => Declared {
                        steps: seq![
                            StepView::Render(Some(name), path, label_of(name, explicit->0), requested, config),
                        ],
                        alts: Seq::empty(),
                        halt: None,
                    },
                },
            }
        }
    } else if declares_nothing(tool) {
        halted(CompileFaultView::NothingToGenerate)
    } else {
        nothing()
    }
}

/// The declarations of one tool, before its fault gets the tool's name.
pub open spec fn tool_spec(root: Seq<Seq<char>>, name: Seq<char>, tool: Value, catalog: Seq<Builtin>) -> Declared {
    if schema_fault(tool, Schema::Tool) is Some {
        halted(schema_fault(tool, Schema::Tool)->0)
    } else if value_text(tool, "directory"@) is Err {
        halted(CompileFaultView::ExpectedString)
    } else {
        let dir_text = text_or(tool, "directory"@, "."@);
        match crate::path::absolute_spec(root, dir_text) {
            None => halted(CompileFaultView::PathEscapes(dir_text)),
            Some(dir) => if value_text(tool, "builtin"@) is Err || value_text(tool, "format"@) is Err
                || value_text(tool, "path"@) is Err {
                halted(CompileFaultView::ExpectedString)
            } else {
                let id = text_or(tool, "builtin"@, Seq::empty());
                let requested = text_or(tool, "format"@, Seq::empty());
                let explicit = value_text(tool, "path"@)->Ok_0;
                let head = tool_head(dir, name, id, requested, explicit, tool, catalog);
                if head.halt is Some {
                    head
                } else {
                    match value_get(tool, "files"@) {
                        None => head,
                        Some(files) => then(head, files_spec(dir, name, Some(name), files)),
                    }
                }
            },
        }
    }
}

/// The declarations of the first `n` tools; a tool's fault carries its name.
pub open spec fn tools_fold(root: Seq<Seq<char>>, fields: Seq<Field>, catalog: Seq<Builtin>, n: int) -> Declared
    decreases n,
{
    if n <= 0 {
        nothing()
    } else {
        let prev = tools_fold(root, fields, catalog, n - 1);
        if prev.halt is Some {
            prev
        } else {
            let t = tool_spec(root, fields[n - 1].name@, fields[n - 1].value, catalog);
            Declared {
                steps: prev.steps + t.steps,
                alts: prev.alts + t.alts,
                halt: match t.halt {
                    None => None,
                    Some(f) => Some(CompileFaultView::InTool(fields[n - 1].name@, Box::new(f))),
                },
            }
        }
    }
}

/// The declarations of a whole document: its tools, then its files.
pub open spec fn declare_spec(root: Seq<Seq<char>>, doc: Value, catalog: Seq<Builtin>) -> Declared {
    if schema_fault(doc, Schema::Document) is Some {
        halted(schema_fault(doc, Schema::Document)->0)
    } else {
        let t = match value_get(doc, "tools"@) {
            None => nothing(),
            Some(Value::Object(fields)) => tools_fold(root, fields@, catalog, fields@.len() as int),
            Some(_) => halted(CompileFaultView::ExpectedObject),
        };
        if t.halt is Some {
            t
        } else {
            match value_get(doc, "files"@) {
                None => t,
                Some(files) => then(t, files_spec(root, "files"@, None, files)),
            }
        }
    }
}


/// The view of an optional tool name.
pub open spec fn name_view(t: Option<&String>) -> Option<Seq<char>> {
    match t {
        Some(s) => Some(s@),
        None => None,
    }
}

fn join_label(owner: &str, name: &str) -> (r: String)
    ensures
        r@ == label_of(owner@, name@),
{
    proof {
        crate::path::lemma_part_literals();
    }
    let mut label = owner.to_owned();
    append_str(&mut label, "/");
    append_str(&mut label, name);
    label
}

fn copy_name(t: Option<&String>) -> (r: Option<String>)
    ensures
        match r {
            Some(s) => name_view(t) == Some(s@),
            None => name_view(t) is None,
        },
{
    match t {
        Some(s) => Some(s.clone()),
        None => None,
    }
}

/// Pushes the step of one file declaration, or reports its fault.
fn declare_file<'a>(
    dir: &FsPath,
    owner: &str,
    tool: Option<&String>,
    name: &String,
    file: &'a Value,
    steps: &mut Vec<Step<'a>>,
) -> (r: Option<CompileFault>)
    requires
        is_normal_absolute(dir@),
    ensures
        step_views(final(steps)@) == step_views(old(steps)@) + file_spec(
            dir@,
            owner@,
            name_view(tool),
            name@,
            *file,
        ).steps,
        fault_view(r) == file_spec(dir@, owner@, name_view(tool), name@, *file).halt,
{
    if let Some(f) = check_fields(file, Schema::File) {
        assert(step_views(steps@) =~= step_views(steps@) + Seq::<StepView>::empty());
        return Some(f);
    }
    let text = match file.text("path") {
        Err(()) => {
            assert(step_views(steps@) =~= step_views(steps@) + Seq::<StepView>::empty());
            return Some(CompileFault::ExpectedString);
        },
        Ok(None) => {
            assert(step_views(steps@) =~= step_views(steps@) + Seq::<StepView>::empty());
            return Some(CompileFault::MissingPath { owner: owner.to_owned(), name: name.clone() });
        },
        Ok(Some(t)) => t,
    };
    let path = match absolute(dir, text.as_str()) {
        Err(()) => {
            assert(step_views(steps@) =~= step_views(steps@) + Seq::<StepView>::empty());
            return Some(CompileFault::PathEscapes(text.clone()));
        },
        Ok(p) => p,
    };
    let format = match file.text("format") {
        Err(()) => {
            assert(step_views(steps@) =~= step_views(steps@) + Seq::<StepView>::empty());
            return Some(CompileFault::ExpectedString);
        },
        Ok(None) => "json".to_owned(),
        Ok(Some(f)) => f.clone(),
    };
    let config = match file.get("config") {
        None => {
            assert(step_views(steps@) =~= step_views(steps@) + Seq::<StepView>::empty());
            return Some(CompileFault::MissingConfig);
        },
        Some(c) => c,
    };
    let step = Step::Render {
        tool: copy_name(tool),
        path,
        label: join_label(owner, name.as_str()),
        format,
        value: config,
    };
    let ghost before = steps@;
    steps.push(step);
    assert(step_views(steps@) =~= step_views(before) + seq![step@]);
    None
}

/// Pushes the steps of a `files` member, or reports its first fault.
fn declare_files<'a>(
    dir: &FsPath,
    owner: &str,
    tool: Option<&String>,
    files: &'a Value,
    steps: &mut Vec<Step<'a>>,
) -> (r: Option<CompileFault>)
    requires
        is_normal_absolute(dir@),
    ensures
        step_views(final(steps)@) == step_views(old(steps)@) + files_spec(
            dir@,
            owner@,
            name_view(tool),
            *files,
        ).steps,
        fault_view(r) == files_spec(dir@, owner@, name_view(tool), *files).halt,
        files_spec(dir@, owner@, name_view(tool), *files).alts.len() == 0,
{
    match files {
        Value::Object(fields) => {
            let mut i: usize = 0;
            while i < fields.len()
                invariant
                    is_normal_absolute(dir@),
                    *files == Value::Object(*fields),
                    i <= fields@.len(),
                    step_views(steps@) == step_views(old(steps)@) + files_fold(
                        dir@,
                        owner@,
                        name_view(tool),
                        fields@,
                        i as int,
                    ).steps,
                    files_fold(dir@, owner@, name_view(tool), fields@, i as int).halt is None,
                    files_fold(dir@, owner@, name_view(tool), fields@, i as int).alts.len() == 0,
                decreases fields@.len() - i,
            {
                let ghost before = step_views(steps@);
                let ghost prev = files_fold(dir@, owner@, name_view(tool), fields@, i as int);
                let r = declare_file(dir, owner, tool, &fields[i].name, &fields[i].value, steps);
                assert(step_views(steps@) =~= step_views(old(steps)@) + files_fold(
                    dir@,
                    owner@,
                    name_view(tool),
                    fields@,
                    i + 1,
                ).steps);
                if r.is_some() {
                    proof {
                        lemma_files_fold_halted(dir@, owner@, name_view(tool), fields@, i + 1);
                    }
                    return r;
                }
                i = i + 1;
            }
            None
        },
        _ => {
            assert(step_views(steps@) =~= step_views(old(steps)@) + Seq::<StepView>::empty());
            Some(CompileFault::ExpectedObject)
        },
    }
}

/// Once a fault stops the file declarations, later members add nothing.
proof fn lemma_files_fold_halted(
    dir: Seq<Seq<char>>,
    owner: Seq<char>,
    tool: Option<Seq<char>>,
    fields: Seq<Field>,
    n: int,
)
    requires
        0 <= n <= fields.len(),
        files_fold(dir, owner, tool, fields, n).halt is Some,
    ensures
        files_fold(dir, owner, tool, fields, fields.len() as int) == files_fold(dir, owner, tool, fields, n),
    decreases fields.len() - n,
{
    if n < fields.len() {
        lemma_files_fold_halted(dir, owner, tool, fields, n + 1);
    }
}

/// Pushes the competing native files of a built-in, or reports a path
/// that leaves the root.
fn declare_alternatives(dir: &FsPath, path: &FsPath, alts: &Vec<String>, out: &mut Vec<FsPath>) -> (r: Option<
    CompileFault,
>)
    requires
        is_normal_absolute(dir@),
    ensures
        path_views(final(out)@) == path_views(old(out)@) + alternatives_fold(
            dir@,
            path@,
            alts@,
            alts@.len() as int,
        ).alts,
        fault_view(r) == alternatives_fold(dir@, path@, alts@, alts@.len() as int).halt,
        alternatives_fold(dir@, path@, alts@, alts@.len() as int).steps.len() == 0,
{
    let mut i: usize = 0;
    while i < alts.len()
        invariant
            is_normal_absolute(dir@),
            i <= alts@.len(),
            path_views(out@) == path_views(old(out)@) + alternatives_fold(dir@, path@, alts@, i as int).alts,
            alternatives_fold(dir@, path@, alts@, i as int).halt is None,
            alternatives_fold(dir@, path@, alts@, i as int).steps.len() == 0,
        decreases alts@.len() - i,
    {
        match absolute(dir, alts[i].as_str()) {
            Err(()) => {
                proof {
                    lemma_alternatives_fold_halted(dir@, path@, alts@, i + 1);
                }
                return Some(CompileFault::PathEscapes(alts[i].clone()));
            },
            Ok(c) => {
                if !c.same(path) {
                    let ghost before = out@;
                    out.push(c);
                    assert(path_views(out@) =~= path_views(before).push(c@));
                }
            },
        }
        i = i + 1;
    }
    None
}

/// Once a fault stops the alternatives, later ones add nothing.
proof fn lemma_alternatives_fold_halted(dir: Seq<Seq<char>>, path: Seq<Seq<char>>, alts: Seq<String>, n: int)
    requires
        0 <= n <= alts.len(),
        alternatives_fold(dir, path, alts, n).halt is Some,
    ensures
        alternatives_fold(dir, path, alts, alts.len() as int) == alternatives_fold(dir, path, alts, n),
    decreases alts.len() - n,
{
    if n < alts.len() {
        lemma_alternatives_fold_halted(dir, path, alts, n + 1);
    }
}

fn builtin_position(catalog: &Vec<Builtin>, id: &str) -> (r: Option<usize>)
    ensures
        match r {
            Some(i) => i < catalog@.len() && find_builtin(catalog@, id@) == Some(catalog@[i as int]),
            None => find_builtin(catalog@, id@) is None,
        },
{
    let mut i: usize = 0;
    assert(catalog@.skip(0) =~= catalog@);
    while i < catalog.len()
        invariant
            i <= catalog@.len(),
            find_builtin(catalog@, id@) == find_builtin(catalog@.skip(i as int), id@),
        decreases catalog@.len() - i,
    {
        assert(catalog@.skip(i as int)[0] == catalog@[i as int]);
        if str_eq(catalog[i].id.as_str(), id) {
            return Some(i);
        }
        assert(catalog@.skip(i as int).drop_first() =~= catalog@.skip(i + 1));
        i = i + 1;
    }
    None
}

fn filename_position(formats: &Vec<FormatFile>, format: &str) -> (r: Option<usize>)
    ensures
        match r {
            Some(i) => i < formats@.len() && find_filename(formats@, format@) == Some(formats@[i as int].filename@),
            None => find_filename(formats@, format@) is None,
        },
{
    let mut i: usize = 0;
    assert(formats@.skip(0) =~= formats@);
    while i < formats.len()
        invariant
            i <= formats@.len(),
            find_filename(formats@, format@) == find_filename(formats@.skip(i as int), format@),
        decreases formats@.len() - i,
    {
        assert(formats@.skip(i as int)[0] == formats@[i as int]);
        if str_eq(formats[i].format.as_str(), format) {
            return Some(i);
        }
        assert(formats@.skip(i as int).drop_first() =~= formats@.skip(i + 1));
        i = i + 1;
    }
    None
}

fn format_names(formats: &Vec<FormatFile>) -> (r: Vec<String>)
    ensures
        string_views(r@) == formats@.map_values(|f: FormatFile| f.format@),
{
    let mut r: Vec<String> = Vec::new();
    let mut i: usize = 0;
    while i < formats.len()
        invariant
            i <= formats@.len(),
            string_views(r@) == formats@.map_values(|f: FormatFile| f.format@).take(i as int),
        decreases formats@.len() - i,
    {
        let ghost before = r@;
        let x = formats[i].format.clone();
        r.push(x);
        proof {
            crate::text::lemma_views_push(before, x);
        }
        assert(string_views(r@) =~= formats@.map_values(|f: FormatFile| f.format@).take(i + 1));
        i = i + 1;
    }
    assert(formats@.map_values(|f: FormatFile| f.format@).take(formats@.len() as int)
        =~= formats@.map_values(|f: FormatFile| f.format@));
    r
}


/// Pushes what a built-in tool declares, or reports its fault.
fn declare_builtin<'a>(
    dir: &FsPath,
    name: &String,
    id: &str,
    requested: &str,
    explicit: Option<&String>,
    tool: &'a Value,
    catalog: &Vec<Builtin>,
    steps: &mut Vec<Step<'a>>,
    alts: &mut Vec<FsPath>,
) -> (r: Option<CompileFault>)
    requires
        is_normal_absolute(dir@),
    ensures
        step_views(final(steps)@) == step_views(old(steps)@) + builtin_spec(
            dir@,
            name@,
            id@,
            requested@,
            name_view(explicit),
            *tool,
            catalog@,
        ).steps,
        path_views(final(alts)@) == path_views(old(alts)@) + builtin_spec(
            dir@,
            name@,
            id@,
            requested@,
            name_view(explicit),
            *tool,
            catalog@,
        ).alts,
        fault_view(r) == builtin_spec(dir@, name@, id@, requested@, name_view(explicit), *tool, catalog@).halt,
{
    let ghost steps0 = step_views(steps@);
    let ghost alts0 = path_views(alts@);
    assert(steps0 =~= steps0 + Seq::<StepView>::empty());
    assert(alts0 =~= alts0 + Seq::<Seq<Seq<char>>>::empty());
    let b = match builtin_position(catalog, id) {
        None => {
            return Some(CompileFault::UnknownBuiltin(id.to_owned()));
        },
        Some(i) => &catalog[i],
    };
    let format: &str = if requested.is_empty() {
        b.default.as_str()
    } else {
        requested
    };
    let filename: &String = match filename_position(&b.formats, format) {
        None => {
            return Some(
                CompileFault::UnsupportedFormat {
                    builtin: id.to_owned(),
                    format: format.to_owned(),
                    supported: format_names(&b.formats),
                },
            );
        },
        Some(k) => &b.formats[k].filename,
    };
    if let Some(p) = explicit {
        if !str_eq(p.as_str(), filename.as_str()) {
            return Some(CompileFault::NativeFilename { builtin: id.to_owned(), filename: filename.clone() });
        }
    }
    let path = match absolute(dir, filename.as_str()) {
        Err(()) => {
            return Some(CompileFault::PathEscapes(filename.clone()));
        },
        Ok(p) => p,
    };
    if let Some(f) = declare_alternatives(dir, &path, &b.alternatives, alts) {
        return Some(f);
    }
    let ghost manifest: Seq<StepView> = if b.manifest_key is Some {
        seq![StepView::Manifest(name@, dir@.push("package.json"@), b.manifest_key->0@)]
    } else {
        Seq::empty()
    };
    match &b.manifest_key {
        Some(k) => {
            let step = Step::Manifest { owner: name.clone(), path: dir.join_name("package.json"), key: k.clone() };
            steps.push(step);
            assert(step_views(steps@) =~= steps0 + manifest);
        },
        None => {
            assert(step_views(steps@) =~= steps0 + manifest);
        },
    }
    let config = match tool.get("config") {
        None => {
            return Some(CompileFault::MissingConfig);
        },
        Some(c) => c,
    };
    let ghost before = step_views(steps@);
    let step = Step::Render {
        tool: Some(name.clone()),
        path,
        label: join_label(name.as_str(), filename.as_str()),
        format: format.to_owned(),
        value: config,
    };
    steps.push(step);
    assert(step_views(steps@) =~= steps0 + manifest.push(step@));
    None
}

/// Pushes what a tool declares of its own (see `tool_head`), or reports its
/// fault.
fn declare_head<'a>(
    dir: &FsPath,
    name: &String,
    id: &str,
    requested: &str,
    explicit: Option<&String>,
    tool: &'a Value,
    catalog: &Vec<Builtin>,
    steps: &mut Vec<Step<'a>>,
    alts: &mut Vec<FsPath>,
) -> (r: Option<CompileFault>)
    requires
        is_normal_absolute(dir@),
    ensures
        step_views(final(steps)@) == step_views(old(steps)@) + tool_head(
            dir@,
            name@,
            id@,
            requested@,
            name_view(explicit),
            *tool,
            catalog@,
        ).steps,
        path_views(final(alts)@) == path_views(old(alts)@) + tool_head(
            dir@,
            name@,
            id@,
            requested@,
            name_view(explicit),
            *tool,
            catalog@,
        ).alts,
        fault_view(r) == tool_head(dir@, name@, id@, requested@, name_view(explicit), *tool, catalog@).halt,
{
    if !id.is_empty() {
        return declare_builtin(dir, name, id, requested, explicit, tool, catalog, steps, alts);
    }
    let ghost steps0 = step_views(steps@);
    let ghost alts0 = path_views(alts@);
    assert(steps0 =~= steps0 + Seq::<StepView>::empty());
    assert(alts0 =~= alts0 + Seq::<Seq<Seq<char>>>::empty());
    match explicit {
        Some(p) => {
            if requested.is_empty() {
                return Some(CompileFault::CustomWithoutFormat);
            }
            let path = match absolute(dir, p.as_str()) {
                Err(()) => {
                    return Some(CompileFault::PathEscapes(p.clone()));
                },
                Ok(q) => q,
            };
            let config = match tool.get("config") {
                None => {
                    return Some(CompileFault::MissingConfig);
                },
                Some(c) => c,
            };
            let step = Step::Render {
                tool: Some(name.clone()),
                path,
                label: join_label(name.as_str(), p.as_str()),
                format: requested.to_owned(),
                value: config,
            };
            steps.push(step);
            assert(step_views(steps@) =~= steps0 + seq![step@]);
            None
        },
        None => {
            let empty = match tool.get("files") {
                None => true,
                Some(Value::Object(fields)) => fields.len() == 0,
                Some(_) => false,
            };
            if empty {
                Some(CompileFault::NothingToGenerate)
            } else {
                None
            }
        },
    }
}

/// Pushes what one tool declares, its files included, or reports its fault
/// (without the tool's name).
fn declare_tool<'a>(
    root: &FsPath,
    name: &String,
    tool: &'a Value,
    catalog: &Vec<Builtin>,
    steps: &mut Vec<Step<'a>>,
    alts: &mut Vec<FsPath>,
) -> (r: Option<CompileFault>)
    requires
        is_normal_absolute(root@),
    ensures
        step_views(final(steps)@) == step_views(old(steps)@) + tool_spec(root@, name@, *tool, catalog@).steps,
        path_views(final(alts)@) == path_views(old(alts)@) + tool_spec(root@, name@, *tool, catalog@).alts,
        fault_view(r) == tool_spec(root@, name@, *tool, catalog@).halt,
{
    let ghost steps0 = step_views(steps@);
    let ghost alts0 = path_views(alts@);
    assert(steps0 =~= steps0 + Seq::<StepView>::empty());
    assert(alts0 =~= alts0 + Seq::<Seq<Seq<char>>>::empty());
    proof {
        crate::path::lemma_part_literals();
        reveal_strlit("");
    }
    if let Some(f) = check_fields(tool, Schema::Tool) {
        return Some(f);
    }
    let dir_text: &str = match tool.text("directory") {
        Err(()) => {
            return Some(CompileFault::ExpectedString);
        },
        Ok(None) => ".",
        Ok(Some(t)) => t.as_str(),
    };
    let dir = match absolute(root, dir_text) {
        Err(()) => {
            return Some(CompileFault::PathEscapes(dir_text.to_owned()));
        },
        Ok(d) => d,
    };
    let id: &str = match tool.text("builtin") {
        Err(()) => {
            return Some(CompileFault::ExpectedString);
        },
        Ok(None) => "",
        Ok(Some(t)) => t.as_str(),
    };
    let requested: &str = match tool.text("format") {
        Err(()) => {
            return Some(CompileFault::ExpectedString);
        },
        Ok(None) => "",
        Ok(Some(t)) => t.as_str(),
    };
    let explicit: Option<&String> = match tool.text("path") {
        Err(()) => {
            return Some(CompileFault::ExpectedString);
        },
        Ok(e) => e,
    };
    let ghost head = tool_head(dir@, name@, id@, requested@, name_view(explicit), *tool, catalog@);
    if let Some(f) = declare_head(&dir, name, id, requested, explicit, tool, catalog, steps, alts) {
        return Some(f);
    }
    match tool.get("files") {
        None => None,
        Some(files) => {
            let ghost mid = step_views(steps@);
            let r = declare_files(&dir, name.as_str(), Some(name), files, steps);
            assert(step_views(steps@) =~= steps0 + then(head, files_spec(dir@, name@, Some(name@), *files)).steps);
            assert(path_views(alts@) =~= alts0 + then(head, files_spec(dir@, name@, Some(name@), *files)).alts);
            r
        },
    }
}

/// Once a tool's fault stops the declarations, later tools add nothing.
proof fn lemma_tools_fold_halted(root: Seq<Seq<char>>, fields: Seq<Field>, catalog: Seq<Builtin>, n: int)
    requires
        0 <= n <= fields.len(),
        tools_fold(root, fields, catalog, n).halt is Some,
    ensures
        tools_fold(root, fields, catalog, fields.len() as int) == tools_fold(root, fields, catalog, n),
    decreases fields.len() - n,
{
    if n < fields.len() {
        lemma_tools_fold_halted(root, fields, catalog, n + 1);
    }
}

/// What a configuration document declares: the steps that a later stage
/// completes, in order, the competing native files, and the fault that
/// stopped the declarations, if any. Steps before a fault still run before
/// it is reported.
pub struct Declarations<'a> {
    pub steps: Vec<Step<'a>>,
    pub alternatives: Vec<FsPath>,
    pub halt: Option<CompileFault>,
}

/// Reads a configuration document: its tools in order (each built-in or
/// custom output, a built-in's competing files and package manifest, and the
/// tool's files), then its top-level files.
pub fn declare<'a>(root: &FsPath, doc: &'a Value, catalog: &Vec<Builtin>) -> (r: Declarations<'a>)
    requires
        is_normal_absolute(root@),
    ensures
        step_views(r.steps@) == declare_spec(root@, *doc, catalog@).steps,
        path_views(r.alternatives@) == declare_spec(root@, *doc, catalog@).alts,
        fault_view(r.halt) == declare_spec(root@, *doc, catalog@).halt,
{
    let mut steps: Vec<Step<'a>> = Vec::new();
    let mut alternatives: Vec<FsPath> = Vec::new();
    proof {
        reveal_strlit("files");
        reveal_strlit("tools");
    }
    assert(step_views(steps@) =~= Seq::<StepView>::empty());
    assert(path_views(alternatives@) =~= Seq::<Seq<Seq<char>>>::empty());
    if let Some(f) = check_fields(doc, Schema::Document) {
        return Declarations { steps, alternatives, halt: Some(f) };
    }
    match doc.get("tools") {
        None => {},
        Some(Value::Object(fields)) => {
            let mut i: usize = 0;
            while i < fields.len()
                invariant
                    is_normal_absolute(root@),
                    schema_fault(*doc, Schema::Document) is None,
                    value_get(*doc, "tools"@) == Some(Value::Object(*fields)),
                    i <= fields@.len(),
                    step_views(steps@) == tools_fold(root@, fields@, catalog@, i as int).steps,
                    path_views(alternatives@) == tools_fold(root@, fields@, catalog@, i as int).alts,
                    tools_fold(root@, fields@, catalog@, i as int).halt is None,
                decreases fields@.len() - i,
            {
                let r = declare_tool(root, &fields[i].name, &fields[i].value, catalog, &mut steps, &mut alternatives);
                assert(step_views(steps@) =~= tools_fold(root@, fields@, catalog@, i + 1).steps);
                assert(path_views(alternatives@) =~= tools_fold(root@, fields@, catalog@, i + 1).alts);
                if let Some(f) = r {
                    proof {
                        lemma_tools_fold_halted(root@, fields@, catalog@, i + 1);
                    }
                    let halt = CompileFault::InTool { name: fields[i].name.clone(), reason: Box::new(f) };
                    return Declarations { steps, alternatives, halt: Some(halt) };
                }
                i = i + 1;
            }
        },
        Some(_) => {
            return Declarations { steps, alternatives, halt: Some(CompileFault::ExpectedObject) };
        },
    }
    let ghost t_steps = step_views(steps@);
    let ghost t_alts = path_views(alternatives@);
    match doc.get("files") {
        None => Declarations { steps, alternatives, halt: None },
        Some(files) => {
            let root_owned = root.duplicate();
            let halt = declare_files(&root_owned, "files", None, files, &mut steps);
            assert(path_views(alternatives@) =~= t_alts + Seq::<Seq<Seq<char>>>::empty());
            Declarations { steps, alternatives, halt }
        },
    }
}


/// Whether a JSON document has a top-level member named `key`: `None` when
/// the bytes are not a JSON document, `Some(false)` when it is not an object
/// or has no such member.
pub uninterp spec fn json_has_member(bytes: Seq<u8>, key: Seq<char>) -> Option<bool>;

/// `serde_json::from_slice::<serde_json::Value>`, then `Value::get` with the
/// key: parses the bytes as JSON and looks the key up among the top-level
/// members of an object. The contract names the outcome and says nothing of
/// how JSON is parsed.
#[verifier::external_body]
fn json_member(bytes: &[u8], key: &str) -> (r: Option<bool>)
    ensures
        r == json_has_member(bytes@, key@),
{
    match serde_json::from_slice::<serde_json::Value>(bytes) {
        Ok(document) => Some(document.get(key).is_some()),
        Err(_) => None,
    }
}

/// What the surrounding program found for one step.
pub enum StepAnswer {
    /// The package manifest's bytes, `None` when it does not exist, or the
    /// failure to read it.
    Manifest(Result<Option<Vec<u8>>, Failure>),
    /// For an output: the serializer's text or failure when its format is
    /// JSON, YAML or TOML (not looked at otherwise), and the real path that
    /// its destination resolves to, when it resolves.
    Render { outside: Result<String, Failure>, canonical: Option<FsPath> },
}

/// An answer of the kind its step asks for.
pub open spec fn answer_fits(s: StepView, a: StepAnswer) -> bool {
    (s is Manifest) == (a is Manifest)
}

/// One answer of the right kind for each step.
pub open spec fn answers_fit(steps: Seq<StepView>, answers: Seq<StepAnswer>) -> bool {
    &&& steps.len() == answers.len()
    &&& forall|i: int| 0 <= i < steps.len() ==> answer_fits(#[trigger] steps[i], answers[i])
}

/// Whether each step has an answer of its kind.
pub fn answers_match<'a>(steps: &Vec<Step<'a>>, answers: &Vec<StepAnswer>) -> (r: bool)
    ensures
        r == answers_fit(step_views(steps@), answers@),
{
    if steps.len() != answers.len() {
        return false;
    }
    let mut i: usize = 0;
    while i < steps.len()
        invariant
            i <= steps@.len(),
            steps@.len() == answers@.len(),
            forall|k: int| 0 <= k < i ==> answer_fits(#[trigger] step_views(steps@)[k], answers@[k]),
        decreases steps@.len() - i,
    {
        let fits = match (&steps[i], &answers[i]) {
            (Step::Manifest { .. }, StepAnswer::Manifest(_)) => true,
            (Step::Render { .. }, StepAnswer::Render { .. }) => true,
            _ => false,
        };
        if !fits {
            assert(!answer_fits(step_views(steps@)[i as int], answers@[i as int]));
            return false;
        }
        i = i + 1;
    }
    true
}

/// An output as plain values.
pub struct OutputView {
    pub path: Seq<Seq<char>>,
    pub label: Seq<char>,
    pub format: Seq<char>,
    pub bytes: Seq<u8>,
}

impl View for Output {
    type V = OutputView;

    open spec fn view(&self) -> OutputView {
        OutputView { path: self.path@, label: self.label@, format: self.format@, bytes: self.bytes@ }
    }
}

/// The views of a sequence of outputs.
pub open spec fn output_views(v: Seq<Output>) -> Seq<OutputView> {
    v.map_values(|o: Output| o@)
}

/// Where a run of steps stands: the outputs rendered so far with the real
/// paths of their destinations, the recorded input files, and the fault
/// that stopped the run, if any.
pub struct Progress {
    pub outputs: Seq<OutputView>,
    pub canonical: Seq<Option<Seq<Seq<char>>>>,
    pub files: Seq<(Seq<Seq<char>>, Option<Seq<char>>)>,
    pub halt: Option<CompileFaultView>,
}

/// A fault inside a tool carries the tool's name.
pub open spec fn in_tool(tool: Option<Seq<char>>, f: CompileFaultView) -> CompileFaultView {
    match tool {
        Some(t) => CompileFaultView::InTool(t, Box::new(f)),
        None => f,
    }
}

/// The view of an optional path.
pub open spec fn opt_path_view(c: Option<FsPath>) -> Option<Seq<Seq<char>>> {
    match c {
        Some(p) => Some(p@),
        None => None,
    }
}

/// One step completed with its answer. A manifest read is recorded as an
/// input; a manifest that is not JSON, or that holds the competing key,
/// stops the run; an output is rendered, or its fault stops the run.
pub open spec fn step_effect(p: Progress, s: StepView, a: StepAnswer) -> Progress {
    match s {
        StepView::Manifest(owner, path, key) => match a {
            StepAnswer::Manifest(read) => match read {
                Err(f) => Progress {
                    outputs: p.outputs,
                    canonical: p.canonical,
                    files: p.files,
                    halt: Some(
                        CompileFaultView::InTool(
                            owner,
                            Box::new(CompileFaultView::ManifestRead(path, f.message@)),
                        ),
                    ),
                },
                Ok(None) => Progress {
                    outputs: p.outputs,
                    canonical: p.canonical,
                    files: noted(p.files, path, None),
                    halt: None,
                },
                Ok(Some(b)) => Progress {
                    outputs: p.outputs,
                    canonical: p.canonical,
                    files: noted(p.files, path, Some(hex(sha256(b@)))),
                    halt: match json_has_member(b@, key) {
                        None => Some(
                            CompileFaultView::InTool(owner, Box::new(CompileFaultView::ManifestUnreadable(path))),
                        ),
                        Some(true) => Some(
                            CompileFaultView::InTool(
                                owner,
                                Box::new(CompileFaultView::ManifestConflict(path, key)),
                            ),
                        ),
                        Some(false) => None,
                    },
                },
            },
            _ => p,
        },
        StepView::Render(tool, path, label, format, value) => match a {
            StepAnswer::Render { outside, canonical } => match render_spec(format, value, outside_view(outside)) {
                Err(rf) => Progress {
                    outputs: p.outputs,
                    canonical: p.canonical,
                    files: p.files,
                    halt: Some(in_tool(tool, CompileFaultView::Render(label, format, rf))),
                },
                Ok(t) => Progress {
                    outputs: p.outputs.push(OutputView { path, label, format, bytes: encode_utf8(t) }),
                    canonical: p.canonical.push(opt_path_view(canonical)),
                    files: p.files,
                    halt: None,
                },
            },
            _ => p,
        },
    }
}

/// The first `n` steps completed in order, stopping at a fault.
pub open spec fn run_steps(
    steps: Seq<StepView>,
    answers: Seq<StepAnswer>,
    files: Seq<(Seq<Seq<char>>, Option<Seq<char>>)>,
    n: int,
) -> Progress
    decreases n,
{
    if n <= 0 {
        Progress { outputs: Seq::empty(), canonical: Seq::empty(), files, halt: None }
    } else {
        let p = run_steps(steps, answers, files, n - 1);
        if p.halt is Some {
            p
        } else {
            step_effect(p, steps[n - 1], answers[n - 1])
        }
    }
}

/// Some record is of the path `p`.
pub open spec fn records(files: Seq<(Seq<Seq<char>>, Option<Seq<char>>)>, p: Seq<Seq<char>>) -> bool {
    exists|i: int| 0 <= i < files.len() && (#[trigger] files[i]).0 == p
}

/// The last of the first `n` outputs whose path has the key `k`.
pub open spec fn last_with_key(o: Seq<OutputView>, k: Seq<char>, fold_case: bool, n: int) -> Option<int>
    decreases n,
{
    if n <= 0 {
        None
    } else if key_text(o[n - 1].path, fold_case) == k {
        Some(n - 1)
    } else {
        last_with_key(o, k, fold_case, n - 1)
    }
}

/// Some output's path has the key `k`.
pub open spec fn some_output_keyed(o: Seq<OutputView>, k: Seq<char>, fold_case: bool) -> bool {
    exists|m: int| 0 <= m < o.len() && key_text((#[trigger] o[m]).path, fold_case) == k
}

/// The nearest of the first `k` leading parts of `p` (its ancestors, the
/// nearest first) that has the key of some output's path.
pub open spec fn nearest_output_dir(o: Seq<OutputView>, p: Seq<Seq<char>>, k: int, fold_case: bool) -> Option<
    Seq<Seq<char>>,
>
    decreases k,
{
    if k < 1 {
        None
    } else if some_output_keyed(o, key_text(p.take(k), fold_case), fold_case) {
        Some(p.take(k))
    } else {
        nearest_output_dir(o, p, k - 1, fold_case)
    }
}

/// The path, or one of its ancestors, has the key of the state directory.
pub open spec fn in_state(state: Seq<Seq<char>>, p: Seq<Seq<char>>, fold_case: bool) -> bool {
    exists|k: int|
        (1 <= k <= p.len() || (p.len() == 0 && k == 0)) && key_text(#[trigger] p.take(k), fold_case)
            == key_text(state, fold_case)
}

/// The name of a path carries the staging prefix.
pub open spec fn reserved_name(p: Seq<Seq<char>>) -> bool {
    p.len() > 1 && stage_prefix().len() <= p.last().len() && p.last().take(stage_prefix().len() as int)
        == stage_prefix()
}

/// What is wrong with output `i`, checked in order: an earlier output
/// writes the same file (its path has the same key); it is a configuration
/// input or the source; it or an ancestor has the key of the state
/// directory `state`; its name carries the staging prefix; an ancestor has
/// the key of an output. Keys ignore letter case when `fold_case` holds.
pub open spec fn output_fault(
    o: Seq<OutputView>,
    canon: Seq<Option<Seq<Seq<char>>>>,
    files: Seq<(Seq<Seq<char>>, Option<Seq<char>>)>,
    source: Seq<Seq<char>>,
    state: Seq<Seq<char>>,
    fold_case: bool,
    i: int,
) -> Option<CompileFaultView> {
    let out = o[i];
    match last_with_key(o, key_text(out.path, fold_case), fold_case, i) {
        Some(j) => Some(CompileFaultView::Duplicate(out.label, o[j].label, out.path)),
        None => if records(files, out.path) || (canon[i] matches Some(c) && records(files, c))
            || out.path == source {
            Some(CompileFaultView::InputCollision(out.path))
        } else if in_state(state, out.path, fold_case) {
            Some(CompileFaultView::StateCollision(out.path))
        } else if reserved_name(out.path) {
            Some(CompileFaultView::ReservedName(out.path))
        } else {
            match nearest_output_dir(o, out.path, out.path.len() - 1, fold_case) {
                Some(a) => Some(CompileFaultView::FileAndDirectory(a)),
                None => None,
            }
        },
    }
}

/// The checks of each output, in order.
pub open spec fn output_checks(
    o: Seq<OutputView>,
    canon: Seq<Option<Seq<Seq<char>>>>,
    files: Seq<(Seq<Seq<char>>, Option<Seq<char>>)>,
    source: Seq<Seq<char>>,
    state: Seq<Seq<char>>,
    fold_case: bool,
) -> Seq<Option<CompileFaultView>> {
    Seq::new(o.len(), |i: int| output_fault(o, canon, files, source, state, fold_case, i))
}

/// Whether each output competes with a configured producer's native file.
pub open spec fn alternative_checks(o: Seq<OutputView>, alts: Seq<Seq<Seq<char>>>) -> Seq<Option<CompileFaultView>> {
    Seq::new(
        o.len(),
        |i: int|
            if alts.contains(o[i].path) {
                Some(CompileFaultView::AlternativeConflict(o[i].path))
            } else {
                None
            },
    )
}

/// A compilation completed: the steps run with their answers, then the
/// fault that stopped the declarations, then the checks of each output,
/// then the competing files. On success: the outputs in the order rendered,
/// the competing files, and the recorded input files. Paths are compared by
/// their keys, which ignore letter case when `fold_case` holds.
pub open spec fn compile_spec(
    root: Seq<Seq<char>>,
    source: Seq<Seq<char>>,
    d: Declared,
    answers: Seq<StepAnswer>,
    files: Seq<(Seq<Seq<char>>, Option<Seq<char>>)>,
    fold_case: bool,
) -> Result<(Seq<OutputView>, Seq<Seq<Seq<char>>>, Seq<(Seq<Seq<char>>, Option<Seq<char>>)>), CompileFaultView> {
    let p = run_steps(d.steps, answers, files, d.steps.len() as int);
    if p.halt is Some {
        Err(p.halt->0)
    } else if d.halt is Some {
        Err(d.halt->0)
    } else {
        match first_failure(output_checks(p.outputs, p.canonical, p.files, source, root.push(".confset"@), fold_case)) {
            Some(f) => Err(f),
            None => match first_failure(alternative_checks(p.outputs, d.alts)) {
                Some(f) => Err(f),
                None => Ok((p.outputs, d.alts, p.files)),
            },
        }
    }
}

/// The view of what `declare` produced.
pub open spec fn declared_view<'a>(d: Declarations<'a>) -> Declared {
    Declared { steps: step_views(d.steps@), alts: path_views(d.alternatives@), halt: fault_view(d.halt) }
}



/// The views of optional paths.
pub open spec fn canon_views(v: Seq<Option<FsPath>>) -> Seq<Option<Seq<Seq<char>>>> {
    v.map_values(|c: Option<FsPath>| opt_path_view(c))
}

/// Where a run stands, from the values that hold it.
pub open spec fn exec_progress(outputs: Seq<Output>, canon: Seq<Option<FsPath>>, files: Seq<InputFile>) -> Progress {
    Progress {
        outputs: output_views(outputs),
        canonical: canon_views(canon),
        files: file_views(files),
        halt: None,
    }
}

fn string_bytes(t: &String) -> (r: Vec<u8>)
    ensures
        r@ == encode_utf8(t@),
{
    vstd::slice::slice_to_vec(t.as_str().as_bytes())
}

fn copy_path(c: &Option<FsPath>) -> (r: Option<FsPath>)
    ensures
        opt_path_view(r) == opt_path_view(*c),
{
    match c {
        Some(p) => Some(p.duplicate()),
        None => None,
    }
}

/// Completes one step with its answer (see `step_effect`).
fn run_step<'a>(
    step: &Step<'a>,
    answer: &StepAnswer,
    inputs: &mut Inputs,
    outputs: &mut Vec<Output>,
    canon: &mut Vec<Option<FsPath>>,
) -> (r: Option<CompileFault>)
    requires
        old(inputs).wf(),
        answer_fits(step@, *answer),
    ensures
        final(inputs).wf(),
        final(canon)@.len() - old(canon)@.len() == final(outputs)@.len() - old(outputs)@.len(),
        final(inputs).directories@ == old(inputs).directories@,
        final(inputs).globs@ == old(inputs).globs@,
        final(inputs).excluded@ == old(inputs).excluded@,
        step_effect(exec_progress(old(outputs)@, old(canon)@, old(inputs).files@), step@, *answer) == (Progress {
            outputs: output_views(final(outputs)@),
            canonical: canon_views(final(canon)@),
            files: file_views(final(inputs).files@),
            halt: fault_view(r),
        }),
{
    let ghost want = step_effect(exec_progress(outputs@, canon@, inputs.files@), step@, *answer);
    match step {
        Step::Manifest { owner, path, key } => match answer {
            StepAnswer::Manifest(read) => match read {
                Err(f) => {
                    let inner = CompileFault::ManifestRead { manifest: path.duplicate(), failure: f.duplicate() };
                    assert(inner@ == CompileFaultView::ManifestRead(path@, f.message@));
                    let r = Some(CompileFault::InTool { name: owner.clone(), reason: Box::new(inner) });
                    assert(fault_view(r) == want.halt);
                    r
                },
                Ok(None) => {
                    inputs.note_read(path, None);
                    assert(file_views(inputs.files@) == noted(file_views(old(inputs).files@), path@, None));
                    None
                },
                Ok(Some(b)) => {
                    inputs.note_read(path, Some(b.as_slice()));
                    match json_member(b.as_slice(), key.as_str()) {
                        None => {
                            let inner = CompileFault::ManifestUnreadable(path.duplicate());
                            assert(inner@ == CompileFaultView::ManifestUnreadable(path@));
                            let r = Some(CompileFault::InTool { name: owner.clone(), reason: Box::new(inner) });
                            assert(fault_view(r) == want.halt);
                            r
                        },
                        Some(true) => {
                            let inner = CompileFault::ManifestConflict { manifest: path.duplicate(), key: key.clone() };
                            assert(inner@ == CompileFaultView::ManifestConflict(path@, key@));
                            let r = Some(CompileFault::InTool { name: owner.clone(), reason: Box::new(inner) });
                            assert(fault_view(r) == want.halt);
                            r
                        },
                        Some(false) => {
                            assert(file_views(inputs.files@) == noted(
                                file_views(old(inputs).files@),
                                path@,
                                Some(hex(sha256(b@))),
                            ));
                            None
                        },
                    }
                },
            },
            StepAnswer::Render { .. } => None,
        },
        Step::Render { tool, path, label, format, value } => match answer {
            StepAnswer::Render { outside, canonical } => match render(format.as_str(), value, outside) {
                Err(rf) => {
                    let ghost rv = rf@;
                    let f = CompileFault::Render { label: label.clone(), format: format.clone(), cause: rf };
                    assert(f@ == CompileFaultView::Render(label@, format@, rv));
                    let r = match tool {
                        Some(t) => Some(CompileFault::InTool { name: t.clone(), reason: Box::new(f) }),
                        None => Some(f),
                    };
                    assert(fault_view(r) == want.halt);
                    r
                },
                Ok(t) => {
                    let bytes = string_bytes(&t);
                    let ghost o0 = outputs@;
                    let ghost c0 = canon@;
                    let out = Output { path: path.duplicate(), label: label.clone(), format: format.clone(), bytes };
                    outputs.push(out);
                    let c = copy_path(canonical);
                    canon.push(c);
                    assert(output_views(outputs@) =~= output_views(o0).push(out@));
                    assert(canon_views(canon@) =~= canon_views(c0).push(opt_path_view(c)));
                    None
                },
            },
            StepAnswer::Manifest(_) => None,
        },
    }
}

/// `keys` holds the key of each output's path.
pub open spec fn keys_of(keys: Seq<String>, o: Seq<OutputView>, fold_case: bool) -> bool {
    keys.len() == o.len() && forall|m: int| 0 <= m < o.len() ==> (#[trigger] keys[m])@ == key_text(o[m].path, fold_case)
}

/// The keys of the outputs' paths.
fn output_keys(outputs: &Vec<Output>, fold_case: bool) -> (r: Vec<String>)
    ensures
        keys_of(r@, output_views(outputs@), fold_case),
{
    let mut keys: Vec<String> = Vec::new();
    let mut i: usize = 0;
    while i < outputs.len()
        invariant
            i <= outputs@.len(),
            keys@.len() == i,
            forall|m: int| 0 <= m < i ==> (#[trigger] keys@[m])@ == key_text(output_views(outputs@)[m].path, fold_case),
        decreases outputs@.len() - i,
    {
        assert(output_views(outputs@)[i as int].path == outputs@[i as int].path@);
        keys.push(path_key(&outputs[i].path, fold_case));
        i = i + 1;
    }
    keys
}

/// The last of the first `n` outputs whose path has the key `k`.
fn last_output_keyed(keys: &Vec<String>, k: &String, n: usize, Ghost(o): Ghost<Seq<OutputView>>, fold_case: bool) -> (r:
    Option<usize>)
    requires
        n <= o.len(),
        keys_of(keys@, o, fold_case),
    ensures
        match last_with_key(o, k@, fold_case, n as int) {
            Some(j) => r == Some(j as usize) && 0 <= j < n,
            None => r is None,
        },
{
    let mut m = n;
    while m > 0
        invariant
            m <= n <= o.len(),
            keys_of(keys@, o, fold_case),
            last_with_key(o, k@, fold_case, n as int) == last_with_key(o, k@, fold_case, m as int),
        decreases m,
    {
        assert(keys@[m - 1]@ == key_text(o[m - 1].path, fold_case));
        if crate::text::str_eq(keys[m - 1].as_str(), k.as_str()) {
            return Some(m - 1);
        }
        m = m - 1;
    }
    None
}

/// Whether some output's path has the key `k`.
fn keyed_output(keys: &Vec<String>, k: &String, Ghost(o): Ghost<Seq<OutputView>>, fold_case: bool) -> (r: bool)
    requires
        keys_of(keys@, o, fold_case),
    ensures
        r == some_output_keyed(o, k@, fold_case),
{
    let mut i: usize = 0;
    while i < keys.len()
        invariant
            i <= keys@.len(),
            keys_of(keys@, o, fold_case),
            forall|m: int| 0 <= m < i ==> key_text((#[trigger] o[m]).path, fold_case) != k@,
        decreases keys@.len() - i,
    {
        assert(keys@[i as int]@ == key_text(o[i as int].path, fold_case));
        if crate::text::str_eq(keys[i].as_str(), k.as_str()) {
            return true;
        }
        i = i + 1;
    }
    false
}

/// The nearest proper ancestor of `p` that has the key of some output.
fn nearest_dir(keys: &Vec<String>, p: &FsPath, Ghost(o): Ghost<Seq<OutputView>>, fold_case: bool) -> (r: Option<FsPath>)
    requires
        keys_of(keys@, o, fold_case),
    ensures
        match nearest_output_dir(o, p@, p@.len() - 1, fold_case) {
            Some(a) => r matches Some(x) && x@ == a,
            None => r is None,
        },
{
    if p.parts.len() == 0 {
        return None;
    }
    let mut k = p.parts.len() - 1;
    while k >= 1
        invariant
            k <= p@.len() - 1,
            p@.len() >= 1,
            keys_of(keys@, o, fold_case),
            nearest_output_dir(o, p@, p@.len() - 1, fold_case) == nearest_output_dir(o, p@, k as int, fold_case),
        decreases k,
    {
        let q = p.prefix(k);
        let qk = path_key(&q, fold_case);
        if keyed_output(keys, &qk, Ghost(o), fold_case) {
            return Some(q);
        }
        k = k - 1;
    }
    None
}

/// Whether `p`, or one of its ancestors, has the key `state_key` of the
/// state directory.
fn within_state(state: &FsPath, state_key: &String, p: &FsPath, fold_case: bool) -> (r: bool)
    requires
        state_key@ == key_text(state@, fold_case),
    ensures
        r == in_state(state@, p@, fold_case),
{
    let n = p.parts.len();
    if n == 0 {
        let q = p.prefix(0);
        let qk = path_key(&q, fold_case);
        let hit = crate::text::str_eq(qk.as_str(), state_key.as_str());
        proof {
            if in_state(state@, p@, fold_case) {
                let k = choose|k: int|
                    (1 <= k <= p@.len() || (p@.len() == 0 && k == 0)) && key_text(#[trigger] p@.take(k), fold_case)
                        == key_text(state@, fold_case);
                assert(k == 0);
            }
            if hit {
                assert(key_text(p@.take(0), fold_case) == key_text(state@, fold_case));
            }
        }
        return hit;
    }
    let mut k: usize = n;
    while k >= 1
        invariant
            k <= n,
            n == p@.len(),
            n >= 1,
            state_key@ == key_text(state@, fold_case),
            forall|m: int| k < m <= n ==> key_text(#[trigger] p@.take(m), fold_case) != key_text(state@, fold_case),
        decreases k,
    {
        let q = p.prefix(k);
        let qk = path_key(&q, fold_case);
        if crate::text::str_eq(qk.as_str(), state_key.as_str()) {
            assert(key_text(p@.take(k as int), fold_case) == key_text(state@, fold_case));
            return true;
        }
        k = k - 1;
    }
    proof {
        if in_state(state@, p@, fold_case) {
            let m = choose|m: int|
                (1 <= m <= p@.len() || (p@.len() == 0 && m == 0)) && key_text(#[trigger] p@.take(m), fold_case)
                    == key_text(state@, fold_case);
            assert(false);
        }
    }
    false
}

proof fn lemma_records_views(files: Seq<InputFile>, p: Seq<Seq<char>>)
    ensures
        records_file(files, p) == records(file_views(files), p),
{
    if records_file(files, p) {
        let i = choose|i: int| 0 <= i < files.len() && (#[trigger] files[i]).path@ == p;
        assert(file_views(files)[i].0 == p);
    }
    if records(file_views(files), p) {
        let i = choose|i: int| 0 <= i < file_views(files).len() && (#[trigger] file_views(files)[i]).0 == p;
        assert(files[i].path@ == p);
    }
}

/// Checks output `i` (see `output_fault`).
fn check_output(
    outputs: &Vec<Output>,
    keys: &Vec<String>,
    canon: &Vec<Option<FsPath>>,
    inputs: &Inputs,
    source: &FsPath,
    state: &FsPath,
    state_key: &String,
    fold_case: bool,
    i: usize,
) -> (r: Option<CompileFault>)
    requires
        i < outputs@.len(),
        canon@.len() == outputs@.len(),
        keys_of(keys@, output_views(outputs@), fold_case),
        state_key@ == key_text(state@, fold_case),
    ensures
        fault_view(r) == output_fault(
            output_views(outputs@),
            canon_views(canon@),
            file_views(inputs.files@),
            source@,
            state@,
            fold_case,
            i as int,
        ),
{
    let ghost ov = output_views(outputs@);
    let o = &outputs[i];
    assert(ov[i as int] == o@);
    assert(keys@[i as int]@ == key_text(o.path@, fold_case));
    if let Some(j) = last_output_keyed(keys, &keys[i], i, Ghost(ov), fold_case) {
        return Some(
            CompileFault::Duplicate {
                label: o.label.clone(),
                previous: outputs[j].label.clone(),
                path: o.path.duplicate(),
            },
        );
    }
    let c: Option<&FsPath> = match &canon[i] {
        Some(x) => Some(x),
        None => None,
    };
    proof {
        lemma_records_views(inputs.files@, o.path@);
        if canon@[i as int] is Some {
            lemma_records_views(inputs.files@, canon@[i as int]->0@);
        }
    }
    if inputs.contains(&o.path, c) || o.path.same(source) {
        return Some(CompileFault::InputCollision(o.path.duplicate()));
    }
    if within_state(state, state_key, &o.path, fold_case) {
        return Some(CompileFault::StateCollision(o.path.duplicate()));
    }
    let n = o.path.parts.len();
    if n > 1 && has_stage_prefix(o.path.parts[n - 1].as_str()) {
        return Some(CompileFault::ReservedName(o.path.duplicate()));
    }
    match nearest_dir(keys, &o.path, Ghost(ov), fold_case) {
        Some(a) => Some(CompileFault::FileAndDirectory(a)),
        None => None,
    }
}

/// Inserts an output into outputs ordered by path, where no output has its path.
fn insert_output(v: &mut Vec<Output>, o: Output)
    requires
        outputs_sorted(old(v)@),
        forall|k: int| 0 <= k < old(v)@.len() ==> (#[trigger] old(v)@[k]).path@ != o.path@,
    ensures
        outputs_sorted(final(v)@),
        output_views(final(v)@).to_set() == output_views(old(v)@).to_set().insert(o@),
        final(v)@.len() == old(v)@.len() + 1,
{
    let ghost ov = v@;
    let mut i: usize = 0;
    while i < v.len() && path_less(&v[i].path, &o.path)
        invariant
            i <= v@.len(),
            v@ == ov,
            forall|k: int| 0 <= k < i ==> path_lt((#[trigger] v@[k]).path@, o.path@),
        decreases v@.len() - i,
    {
        i = i + 1;
    }
    proof {
        if i < v@.len() {
            crate::path::lemma_path_lt_total(ov[i as int].path@, o.path@);
        }
    }
    let ghost x = o@;
    let ghost op = o.path@;
    v.insert(i, o);
    let ghost nv = v@;
    assert(nv =~= ov.insert(i as int, nv[i as int]));
    assert forall|a: int, b: int| 0 <= a < b < nv.len() implies path_lt(
        (#[trigger] nv[a]).path@,
        (#[trigger] nv[b]).path@,
    ) by {
        if b == i {
            assert(nv[a] == ov[a]);
        } else if a == i {
            assert(nv[b] == ov[b - 1]);
            if b - 1 > i {
                crate::path::lemma_path_lt_transitive(op, ov[i as int].path@, ov[b - 1].path@);
            }
        } else if a < i && b > i {
            assert(nv[a] == ov[a]);
            assert(nv[b] == ov[b - 1]);
            if b - 1 > i {
                crate::path::lemma_path_lt_transitive(op, ov[i as int].path@, ov[b - 1].path@);
            }
            crate::path::lemma_path_lt_transitive(ov[a].path@, op, ov[b - 1].path@);
        } else if a > i {
            assert(nv[a] == ov[a - 1]);
            assert(nv[b] == ov[b - 1]);
        } else {
            assert(nv[a] == ov[a]);
            assert(nv[b] == ov[b]);
        }
    }
    let ghost nvv = output_views(nv);
    let ghost ovv = output_views(ov);
    assert(nvv =~= ovv.insert(i as int, x));
    assert(nvv.to_set() =~= ovv.to_set().insert(x)) by {
        assert forall|y: OutputView| nvv.to_set().contains(y) implies ovv.to_set().insert(x).contains(y) by {
            let k = choose|k: int| 0 <= k < nvv.len() && nvv[k] == y;
            if k < i {
                assert(ovv[k] == y);
            } else if k > i {
                assert(ovv[k - 1] == y);
            }
        }
        assert forall|y: OutputView| ovv.to_set().insert(x).contains(y) implies nvv.to_set().contains(y) by {
            if y == x {
                assert(nvv[i as int] == y);
            } else {
                let k = choose|k: int| 0 <= k < ovv.len() && ovv[k] == y;
                if k < i {
                    assert(nvv[k] == y);
                } else {
                    assert(nvv[k + 1] == y);
                }
            }
        }
    }
}

proof fn lemma_run_steps_stops(
    steps: Seq<StepView>,
    answers: Seq<StepAnswer>,
    files: Seq<(Seq<Seq<char>>, Option<Seq<char>>)>,
    n: int,
)
    requires
        0 <= n <= steps.len(),
        run_steps(steps, answers, files, n).halt is Some,
    ensures
        run_steps(steps, answers, files, steps.len() as int) == run_steps(steps, answers, files, n),
    decreases steps.len() - n,
{
    if n < steps.len() {
        lemma_run_steps_stops(steps, answers, files, n + 1);
    }
}

proof fn lemma_no_earlier(o: Seq<OutputView>, k: Seq<char>, fold_case: bool, n: int)
    requires
        0 <= n <= o.len(),
        last_with_key(o, k, fold_case, n) is None,
    ensures
        forall|j: int| 0 <= j < n ==> key_text((#[trigger] o[j]).path, fold_case) != k,
    decreases n,
{
    if n > 0 {
        lemma_no_earlier(o, k, fold_case, n - 1);
    }
}


/// Runs every step with its answer, in order, until one fails.
fn run_all<'a>(
    steps: &Vec<Step<'a>>,
    answers: &Vec<StepAnswer>,
    inputs: &mut Inputs,
    outputs: &mut Vec<Output>,
    canon: &mut Vec<Option<FsPath>>,
) -> (r: Option<CompileFault>)
    requires
        old(inputs).wf(),
        answers_fit(step_views(steps@), answers@),
        old(outputs)@.len() == 0,
        old(canon)@.len() == 0,
    ensures
        final(inputs).wf(),
        final(inputs).directories@ == old(inputs).directories@,
        final(inputs).globs@ == old(inputs).globs@,
        final(inputs).excluded@ == old(inputs).excluded@,
        final(canon)@.len() == final(outputs)@.len(),
        run_steps(step_views(steps@), answers@, file_views(old(inputs).files@), steps@.len() as int) == (Progress {
            outputs: output_views(final(outputs)@),
            canonical: canon_views(final(canon)@),
            files: file_views(final(inputs).files@),
            halt: fault_view(r),
        }),
{
    let ghost sv = step_views(steps@);
    let ghost f0 = file_views(inputs.files@);
    assert(output_views(outputs@) =~= Seq::<OutputView>::empty());
    assert(canon_views(canon@) =~= Seq::<Option<Seq<Seq<char>>>>::empty());
    let mut i: usize = 0;
    while i < steps.len()
        invariant
            i <= steps@.len(),
            sv == step_views(steps@),
            answers_fit(sv, answers@),
            inputs.wf(),
            inputs.directories@ == old(inputs).directories@,
            inputs.globs@ == old(inputs).globs@,
            inputs.excluded@ == old(inputs).excluded@,
            f0 == file_views(old(inputs).files@),
            canon@.len() == outputs@.len(),
            run_steps(sv, answers@, f0, i as int) == (Progress {
                outputs: output_views(outputs@),
                canonical: canon_views(canon@),
                files: file_views(inputs.files@),
                halt: None,
            }),
        decreases steps@.len() - i,
    {
        assert(sv[i as int] == steps@[i as int]@);
        let ghost before = exec_progress(outputs@, canon@, inputs.files@);
        let r = run_step(&steps[i], &answers[i], inputs, outputs, canon);
        assert(canon_views(canon@).len() == output_views(outputs@).len());
        if r.is_some() {
            proof {
                lemma_run_steps_stops(sv, answers@, f0, i + 1);
            }
            return r;
        }
        i = i + 1;
    }
    None
}

/// Checks every output in order (see `output_fault`).
fn check_outputs(
    outputs: &Vec<Output>,
    canon: &Vec<Option<FsPath>>,
    inputs: &Inputs,
    source: &FsPath,
    state: &FsPath,
    fold_case: bool,
) -> (r: Option<CompileFault>)
    requires
        canon@.len() == outputs@.len(),
    ensures
        fault_view(r) == first_failure(
            output_checks(
                output_views(outputs@),
                canon_views(canon@),
                file_views(inputs.files@),
                source@,
                state@,
                fold_case,
            ),
        ),
{
    let ghost checks = output_checks(
        output_views(outputs@),
        canon_views(canon@),
        file_views(inputs.files@),
        source@,
        state@,
        fold_case,
    );
    let keys = output_keys(outputs, fold_case);
    let state_key = path_key(state, fold_case);
    let mut i: usize = 0;
    while i < outputs.len()
        invariant
            i <= outputs@.len(),
            canon@.len() == outputs@.len(),
            keys_of(keys@, output_views(outputs@), fold_case),
            state_key@ == key_text(state@, fold_case),
            checks == output_checks(
                output_views(outputs@),
                canon_views(canon@),
                file_views(inputs.files@),
                source@,
                state@,
                fold_case,
            ),
            first_failure(checks.take(i as int)) is None,
        decreases outputs@.len() - i,
    {
        proof {
            lemma_first_failure_push(checks, i as int);
        }
        if let Some(f) = check_output(outputs, &keys, canon, inputs, source, state, &state_key, fold_case, i) {
            proof {
                lemma_first_failure_prefix(checks, i + 1);
            }
            return Some(f);
        }
        i = i + 1;
    }
    assert(checks.take(outputs@.len() as int) =~= checks);
    None
}

/// The first output that competes with a configured producer's native file.
fn check_alternatives(outputs: &Vec<Output>, alternatives: &Vec<FsPath>) -> (r: Option<CompileFault>)
    ensures
        fault_view(r) == first_failure(alternative_checks(output_views(outputs@), path_views(alternatives@))),
{
    let ghost checks = alternative_checks(output_views(outputs@), path_views(alternatives@));
    let mut i: usize = 0;
    while i < outputs.len()
        invariant
            i <= outputs@.len(),
            checks == alternative_checks(output_views(outputs@), path_views(alternatives@)),
            first_failure(checks.take(i as int)) is None,
        decreases outputs@.len() - i,
    {
        proof {
            lemma_first_failure_push(checks, i as int);
        }
        assert(output_views(outputs@)[i as int].path == outputs@[i as int].path@);
        if path_in(alternatives, &outputs[i].path) {
            proof {
                lemma_first_failure_prefix(checks, i + 1);
            }
            return Some(CompileFault::AlternativeConflict(outputs[i].path.duplicate()));
        }
        i = i + 1;
    }
    assert(checks.take(outputs@.len() as int) =~= checks);
    None
}

/// The outputs, which write distinct paths, ordered by path.
fn sort_outputs(outputs: Vec<Output>) -> (r: Vec<Output>)
    requires
        forall|a: int, b: int|
            0 <= a < b < outputs@.len() ==> (#[trigger] outputs@[a]).path@ != (#[trigger] outputs@[b]).path@,
    ensures
        outputs_sorted(r@),
        output_views(r@).to_set() == output_views(outputs@).to_set(),
        r@.len() == outputs@.len(),
{
    let ghost all = outputs@;
    let mut outputs = outputs;
    let mut sorted: Vec<Output> = Vec::new();
    assert(output_views(sorted@).to_set() =~= output_views(all).subrange(all.len() as int, all.len() as int).to_set());
    while outputs.len() > 0
        invariant
            outputs@ == all.take(outputs@.len() as int),
            outputs@.len() <= all.len(),
            sorted@.len() + outputs@.len() == all.len(),
            outputs_sorted(sorted@),
            output_views(sorted@).to_set() == output_views(all).subrange(outputs@.len() as int, all.len() as int).to_set(),
            forall|a: int, b: int| 0 <= a < b < all.len() ==> (#[trigger] all[a]).path@ != (#[trigger] all[b]).path@,
        decreases outputs@.len(),
    {
        let ghost m = outputs@.len() - 1;
        let o = outputs.pop().unwrap();
        assert(o == all[m]);
        assert(outputs@ =~= all.take(m));
        assert forall|k: int| 0 <= k < sorted@.len() implies (#[trigger] sorted@[k]).path@ != o.path@ by {
            let y = output_views(sorted@)[k];
            assert(output_views(sorted@).to_set().contains(y));
            let sub = output_views(all).subrange(m + 1, all.len() as int);
            let q = choose|q: int| 0 <= q < sub.len() && sub[q] == y;
            assert(sub[q] == output_views(all)[m + 1 + q]);
            assert(all[m + 1 + q].path@ == y.path);
        }
        insert_output(&mut sorted, o);
        assert(output_views(all).subrange(m, all.len() as int).to_set() =~= output_views(all).subrange(
            m + 1,
            all.len() as int,
        ).to_set().insert(o@)) by {
            let a = output_views(all).subrange(m, all.len() as int);
            let b = output_views(all).subrange(m + 1, all.len() as int);
            assert forall|y: OutputView| a.to_set().contains(y) implies b.to_set().insert(o@).contains(y) by {
                let q = choose|q: int| 0 <= q < a.len() && a[q] == y;
                if q > 0 {
                    assert(b[q - 1] == y);
                }
            }
            assert forall|y: OutputView| b.to_set().insert(o@).contains(y) implies a.to_set().contains(y) by {
                if y == o@ {
                    assert(a[0] == y);
                } else {
                    let q = choose|q: int| 0 <= q < b.len() && b[q] == y;
                    assert(a[q + 1] == y);
                }
            }
        }
    }
    assert(output_views(all).subrange(0, all.len() as int) =~= output_views(all));
    sorted
}

/// Completes a compilation (see `compile_spec`): runs each declared step
/// with its answer, in order; reports the declarations' own fault once the
/// steps before it ran; checks each output, then the competing files; and
/// returns the outputs ordered by path, the competing files ordered and
/// without repeats, and the inputs with the manifest reads recorded.
/// `fold_case` holds where the file system ignores letter case (Windows,
/// macOS): paths are then compared by their lowercased text.
pub fn assemble<'a>(
    root: &FsPath,
    source: &FsPath,
    declared: Declarations<'a>,
    answers: &Vec<StepAnswer>,
    inputs: Inputs,
    fold_case: bool,
) -> (r: Result<Plan, CompileFault>)
    requires
        inputs.wf(),
        answers_fit(step_views(declared.steps@), answers@),
    ensures
        match compile_spec(
            root@,
            source@,
            declared_view(declared),
            answers@,
            file_views(inputs.files@),
            fold_case,
        ) {
            Err(f) => r matches Err(g) && g@ == f,
            Ok(res) => r matches Ok(plan) && outputs_sorted(plan.outputs@) && output_views(
                plan.outputs@,
            ).to_set() == res.0.to_set() && plan.outputs@.len() == res.0.len() && paths_sorted(
                path_views(plan.alternatives@),
            ) && path_views(plan.alternatives@).to_set() == res.1.to_set() && file_views(
                plan.inputs.files@,
            ) == res.2 && plan.inputs.wf() && plan.inputs.directories@ == inputs.directories@
                && plan.inputs.globs@ == inputs.globs@ && plan.inputs.excluded@ == inputs.excluded@,
        },
{
    let ghost d = declared_view(declared);
    let ghost f0 = file_views(inputs.files@);
    let mut recorded = inputs;
    let mut outputs: Vec<Output> = Vec::new();
    let mut canon: Vec<Option<FsPath>> = Vec::new();
    if let Some(f) = run_all(&declared.steps, answers, &mut recorded, &mut outputs, &mut canon) {
        return Err(f);
    }
    if let Some(h) = declared.halt {
        return Err(h);
    }
    let state = root.join_name(".confset");
    if let Some(f) = check_outputs(&outputs, &canon, &recorded, source, &state, fold_case) {
        return Err(f);
    }
    if let Some(f) = check_alternatives(&outputs, &declared.alternatives) {
        return Err(f);
    }
    let ghost o = output_views(outputs@);
    proof {
        let checks = output_checks(o, canon_views(canon@), file_views(recorded.files@), source@, state@, fold_case);
        crate::outcome::lemma_first_failure_none_all(checks);
        assert forall|a: int, b: int| 0 <= a < b < outputs@.len() implies (#[trigger] outputs@[a]).path@ != (
        #[trigger] outputs@[b]).path@ by {
            assert(checks[b] is None);
            assert(o[b].path == outputs@[b].path@);
            lemma_no_earlier(o, key_text(o[b].path, fold_case), fold_case, b);
            assert(o[a].path == outputs@[a].path@);
        }
    }
    let sorted = sort_outputs(outputs);
    let alternatives = sort_paths(&declared.alternatives);
    Ok(Plan { outputs: sorted, alternatives, inputs: recorded })
}

} // verus!

verus! {

/// A render step writes a normalized absolute path.
pub open spec fn step_normal(st: StepView) -> bool {
    match st {
        StepView::Render(_, p, _, _, _) => is_normal_absolute(p),
        _ => true,
    }
}

/// Every path a declaration names is normalized and absolute.
pub open spec fn declared_normal(d: Declared) -> bool {
    &&& forall|k: int| 0 <= k < d.steps.len() ==> step_normal(#[trigger] d.steps[k])
    &&& forall|k: int| 0 <= k < d.alts.len() ==> is_normal_absolute(#[trigger] d.alts[k])
}

proof fn lemma_abs_normal(base: Seq<Seq<char>>, text: Seq<char>)
    requires
        is_normal_absolute(base),
    ensures
        crate::path::absolute_spec(base, text) matches Some(p) ==> is_normal_absolute(p),
{
    crate::path::law_absolute_normalizes(base, base, text);
    crate::path::lemma_absolute_any(base, text);
}

proof fn lemma_then_normal(a: Declared, b: Declared)
    requires
        declared_normal(a),
        declared_normal(b),
    ensures
        declared_normal(then(a, b)),
{
    let t = then(a, b);
    assert forall|k: int| 0 <= k < t.steps.len() implies step_normal(#[trigger] t.steps[k]) by {
        if k < a.steps.len() {
            assert(t.steps[k] == a.steps[k]);
        } else {
            assert(t.steps[k] == b.steps[k - a.steps.len()]);
        }
    }
    assert forall|k: int| 0 <= k < t.alts.len() implies is_normal_absolute(#[trigger] t.alts[k]) by {
        if k < a.alts.len() {
            assert(t.alts[k] == a.alts[k]);
        } else {
            assert(t.alts[k] == b.alts[k - a.alts.len()]);
        }
    }
}

proof fn lemma_files_normal(dir: Seq<Seq<char>>, owner: Seq<char>, tool: Option<Seq<char>>, fields: Seq<Field>, n: int)
    requires
        is_normal_absolute(dir),
    ensures
        declared_normal(files_fold(dir, owner, tool, fields, n)),
    decreases n,
{
    if n > 0 {
        lemma_files_normal(dir, owner, tool, fields, n - 1);
        let prev = files_fold(dir, owner, tool, fields, n - 1);
        if prev.halt is None {
            let f = file_spec(dir, owner, tool, fields[n - 1].name@, fields[n - 1].value);
            if let Ok(Some(text)) = value_text(fields[n - 1].value, "path"@) {
                lemma_abs_normal(dir, text);
            }
            assert(declared_normal(f));
            lemma_then_normal(prev, f);
        }
    }
}

proof fn lemma_files_spec_normal(dir: Seq<Seq<char>>, owner: Seq<char>, tool: Option<Seq<char>>, files: Value)
    requires
        is_normal_absolute(dir),
    ensures
        declared_normal(files_spec(dir, owner, tool, files)),
{
    if let Value::Object(fields) = files {
        lemma_files_normal(dir, owner, tool, fields@, fields@.len() as int);
    }
}

proof fn lemma_alternatives_normal(dir: Seq<Seq<char>>, path: Seq<Seq<char>>, alts: Seq<String>, n: int)
    requires
        is_normal_absolute(dir),
    ensures
        declared_normal(alternatives_fold(dir, path, alts, n)),
    decreases n,
{
    if n > 0 {
        lemma_alternatives_normal(dir, path, alts, n - 1);
        lemma_abs_normal(dir, alts[n - 1]@);
        let prev = alternatives_fold(dir, path, alts, n - 1);
        if let Some(c) = crate::path::absolute_spec(dir, alts[n - 1]@) {
            let nx = prev.alts.push(c);
            assert forall|k: int| 0 <= k < nx.len() implies is_normal_absolute(#[trigger] nx[k]) by {
                if k < prev.alts.len() {
                    assert(nx[k] == prev.alts[k]);
                }
            }
        }
    }
}

proof fn lemma_tool_normal(root: Seq<Seq<char>>, name: Seq<char>, tool: Value, catalog: Seq<Builtin>)
    requires
        is_normal_absolute(root),
    ensures
        declared_normal(tool_spec(root, name, tool, catalog)),
{
    let dir_text = text_or(tool, "directory"@, "."@);
    lemma_abs_normal(root, dir_text);
    if let Some(dir) = crate::path::absolute_spec(root, dir_text) {
        let id = text_or(tool, "builtin"@, Seq::empty());
        let requested = text_or(tool, "format"@, Seq::empty());
        let explicit = value_text(tool, "path"@)->Ok_0;
        if id.len() > 0 {
            let format = match find_builtin(catalog, id) {
                Some(b) => if requested.len() == 0 {
                    b.default@
                } else {
                    requested
                },
                None => requested,
            };
            if let Some(b) = find_builtin(catalog, id) {
                if let Some(filename) = find_filename(b.formats@, format) {
                    lemma_abs_normal(dir, filename);
                    if let Some(path) = crate::path::absolute_spec(dir, filename) {
                        lemma_alternatives_normal(dir, path, b.alternatives@, b.alternatives@.len() as int);
                        let manifest: Seq<StepView> = match b.manifest_key {
                            Some(k) => seq![StepView::Manifest(name, dir.push("package.json"@), k@)],
                            None => Seq::empty(),
                        };
                        if let Some(config) = value_get(tool, "config"@) {
                            let st = manifest.push(StepView::Render(Some(name), path, label_of(name, filename), format, config));
                            assert forall|k: int| 0 <= k < st.len() implies step_normal(#[trigger] st[k]) by {
                                if k < manifest.len() {
                                    assert(st[k] == manifest[k]);
                                }
                            }
                        }
                    }
                }
            }
        } else if explicit is Some {
            lemma_abs_normal(dir, explicit->0);
        }
        let head = tool_head(dir, name, id, requested, explicit, tool, catalog);
        assert(declared_normal(head));
        if let Some(files) = value_get(tool, "files"@) {
            lemma_files_spec_normal(dir, name, Some(name), files);
            lemma_then_normal(head, files_spec(dir, name, Some(name), files));
        }
    }
}

proof fn lemma_tools_normal(root: Seq<Seq<char>>, fields: Seq<Field>, catalog: Seq<Builtin>, n: int)
    requires
        is_normal_absolute(root),
    ensures
        declared_normal(tools_fold(root, fields, catalog, n)),
    decreases n,
{
    if n > 0 {
        lemma_tools_normal(root, fields, catalog, n - 1);
        let prev = tools_fold(root, fields, catalog, n - 1);
        if prev.halt is None {
            let t = tool_spec(root, fields[n - 1].name@, fields[n - 1].value, catalog);
            lemma_tool_normal(root, fields[n - 1].name@, fields[n - 1].value, catalog);
            lemma_then_normal(prev, t);
        }
    }
}

/// Everything a document declares names normalized absolute paths.
proof fn lemma_declare_normal(root: Seq<Seq<char>>, doc: Value, catalog: Seq<Builtin>)
    requires
        is_normal_absolute(root),
    ensures
        declared_normal(declare_spec(root, doc, catalog)),
{
    let t = match value_get(doc, "tools"@) {
        None => nothing(),
        Some(Value::Object(fields)) => tools_fold(root, fields@, catalog, fields@.len() as int),
        Some(_) => halted(CompileFaultView::ExpectedObject),
    };
    if let Some(Value::Object(fields)) = value_get(doc, "tools"@) {
        lemma_tools_normal(root, fields@, catalog, fields@.len() as int);
    }
    if let Some(files) = value_get(doc, "files"@) {
        lemma_files_spec_normal(root, "files"@, None, files);
        lemma_then_normal(t, files_spec(root, "files"@, None, files));
    }
}

/// The outputs of a run write paths that its render steps named.
proof fn lemma_run_outputs_normal(
    steps: Seq<StepView>,
    answers: Seq<StepAnswer>,
    files: Seq<(Seq<Seq<char>>, Option<Seq<char>>)>,
    n: int,
)
    requires
        n <= steps.len(),
        forall|k: int| 0 <= k < steps.len() ==> step_normal(#[trigger] steps[k]),
    ensures
        forall|i: int|
            0 <= i < run_steps(steps, answers, files, n).outputs.len() ==> is_normal_absolute(
                (#[trigger] run_steps(steps, answers, files, n).outputs[i]).path,
            ),
    decreases n,
{
    if n > 0 {
        lemma_run_outputs_normal(steps, answers, files, n - 1);
        let p = run_steps(steps, answers, files, n - 1);
        let q = run_steps(steps, answers, files, n);
        assert(step_normal(steps[n - 1]));
        assert forall|i: int| 0 <= i < q.outputs.len() implies is_normal_absolute((#[trigger] q.outputs[i]).path) by {
            if i < p.outputs.len() {
                assert(q.outputs[i] == p.outputs[i]);
            }
        }
    }
}

/// A compilation of a document under a normalized absolute root that
/// succeeds writes, and competes with, only normalized absolute paths.
pub proof fn law_outputs_are_normal(
    root: Seq<Seq<char>>,
    source: Seq<Seq<char>>,
    doc: Value,
    catalog: Seq<Builtin>,
    answers: Seq<StepAnswer>,
    files: Seq<(Seq<Seq<char>>, Option<Seq<char>>)>,
    fold_case: bool,
)
    requires
        is_normal_absolute(root),
        compile_spec(root, source, declare_spec(root, doc, catalog), answers, files, fold_case) is Ok,
    ensures
        ({
            let (o, alts, _) = compile_spec(root, source, declare_spec(root, doc, catalog), answers, files, fold_case)->Ok_0;
            &&& forall|i: int| 0 <= i < o.len() ==> is_normal_absolute((#[trigger] o[i]).path)
            &&& forall|k: int| 0 <= k < alts.len() ==> is_normal_absolute(#[trigger] alts[k])
        }),
{
    let d = declare_spec(root, doc, catalog);
    lemma_declare_normal(root, doc, catalog);
    lemma_run_outputs_normal(d.steps, answers, files, d.steps.len() as int);
}

proof fn lemma_nearest_none(o: Seq<OutputView>, p: Seq<Seq<char>>, k: int, fold_case: bool)
    requires
        nearest_output_dir(o, p, k, fold_case) is None,
    ensures
        forall|m: int| 1 <= m <= k ==> !some_output_keyed(o, key_text(#[trigger] p.take(m), fold_case), fold_case),
    decreases k,
{
    if k >= 1 {
        lemma_nearest_none(o, p, k - 1, fold_case);
    }
}

/// A compilation that succeeds yields outputs that can all be written: no
/// two share a destination, nor a key (so, where the file system ignores
/// letter case, no two differ only in case); none is a recorded input or
/// the source, and none resolves, through links, to a recorded input; none lies in the state directory or carries the staging
/// prefix; no output lies inside another output; and none is a configured
/// producer's competing file.
pub proof fn law_outputs_are_writable(
    root: Seq<Seq<char>>,
    source: Seq<Seq<char>>,
    d: Declared,
    answers: Seq<StepAnswer>,
    files: Seq<(Seq<Seq<char>>, Option<Seq<char>>)>,
    fold_case: bool,
)
    requires
        compile_spec(root, source, d, answers, files, fold_case) is Ok,
    ensures
        ({
            let (o, alts, recorded) = compile_spec(root, source, d, answers, files, fold_case)->Ok_0;
            &&& forall|i: int, j: int|
                0 <= i < j < o.len() ==> (#[trigger] o[i]).path != (#[trigger] o[j]).path && key_text(
                    o[i].path,
                    fold_case,
                ) != key_text(o[j].path, fold_case)
            &&& forall|i: int|
                0 <= i < o.len() ==> !records(recorded, (#[trigger] o[i]).path) && o[i].path != source
                    && !is_prefix(root.push(".confset"@), o[i].path) && !reserved_name(o[i].path)
                    && !alts.contains(o[i].path)
            &&& forall|i: int, j: int|
                0 <= i < o.len() && 0 <= j < o.len() && 0 < (#[trigger] o[j]).path.len() < (#[trigger] o[i]).path.len()
                    ==> !is_prefix(o[j].path, o[i].path)
            &&& forall|i: int|
                #![trigger run_steps(d.steps, answers, files, d.steps.len() as int).canonical[i]]
                0 <= i < o.len() && run_steps(d.steps, answers, files, d.steps.len() as int).canonical[i] is Some
                    ==> !records(recorded, run_steps(d.steps, answers, files, d.steps.len() as int).canonical[i]->0)
        }),
{
    let p = run_steps(d.steps, answers, files, d.steps.len() as int);
    let o = p.outputs;
    let state = root.push(".confset"@);
    let checks = output_checks(o, p.canonical, p.files, source, state, fold_case);
    let alt_checks = alternative_checks(o, d.alts);
    crate::outcome::lemma_first_failure_none_all(checks);
    crate::outcome::lemma_first_failure_none_all(alt_checks);
    assert forall|i: int, j: int| 0 <= i < j < o.len() implies (#[trigger] o[i]).path != (#[trigger] o[j]).path
        && key_text(o[i].path, fold_case) != key_text(o[j].path, fold_case) by {
        assert(checks[j] is None);
        lemma_no_earlier(o, key_text(o[j].path, fold_case), fold_case, j);
    }
    assert forall|i: int|
        0 <= i < o.len() implies !records(p.files, (#[trigger] o[i]).path) && o[i].path != source && !is_prefix(
        state,
        o[i].path,
    ) && !reserved_name(o[i].path) && !d.alts.contains(o[i].path) by {
        assert(checks[i] is None);
        assert(alt_checks[i] is None);
        if is_prefix(state, o[i].path) {
            let m = state.len() as int;
            assert(o[i].path.take(m) =~= state);
            assert(1 <= m <= o[i].path.len());
            assert(in_state(state, o[i].path, fold_case));
        }
    }
    assert forall|i: int| 0 <= i < o.len() && (#[trigger] p.canonical[i]) is Some implies !records(
        p.files,
        p.canonical[i]->0,
    ) by {
        assert(checks[i] is None);
    }
    assert forall|i: int, j: int|
        0 <= i < o.len() && 0 <= j < o.len() && 0 < (#[trigger] o[j]).path.len() < (#[trigger] o[i]).path.len()
            implies !is_prefix(o[j].path, o[i].path) by {
        assert(checks[i] is None);
        lemma_nearest_none(o, o[i].path, o[i].path.len() - 1, fold_case);
        if is_prefix(o[j].path, o[i].path) {
            let m = o[j].path.len() as int;
            assert(o[i].path.take(m) == o[j].path);
            assert(some_output_keyed(o, key_text(o[i].path.take(m), fold_case), fold_case));
        }
    }
}

} // verus!

verus! {

/// A file declaration that is accepted declares one render of its `config`
/// to the path it names, in the format it names, and in JSON when it names
/// none (no `format` member, or a null one).
pub proof fn law_file_format_defaults_to_json(
    dir: Seq<Seq<char>>,
    owner: Seq<char>,
    tool: Option<Seq<char>>,
    name: Seq<char>,
    file: Value,
)
    requires
        file_spec(dir, owner, tool, name, file).halt is None,
    ensures
        ({
            let d = file_spec(dir, owner, tool, name, file);
            &&& d.steps.len() == 1
            &&& d.steps[0] matches StepView::Render(t, path, label, format, config) && {
                &&& t == tool
                &&& value_text(file, "path"@) matches Ok(Some(text))
                &&& crate::path::absolute_spec(dir, text) == Some(path)
                &&& value_get(file, "config"@) == Some(config)
                &&& value_text(file, "format"@) == Ok::<Option<Seq<char>>, ()>(None) ==> format == seq!['j', 's', 'o', 'n']
                &&& value_text(file, "format"@) matches Ok(Some(f)) ==> format == f
            }
        }),
{
    reveal_strlit("json");
    assert("json"@ =~= seq!['j', 's', 'o', 'n']);
}

/// The built-in producer found for an id is the first catalog entry with
/// that id, and none is found when no entry has it.
pub proof fn law_builtin_lookup(catalog: Seq<Builtin>, id: Seq<char>)
    ensures
        find_builtin(catalog, id) matches Some(b) ==> exists|k: int|
            0 <= k < catalog.len() && #[trigger] catalog[k] == b && b.id@ == id && forall|m: int|
                0 <= m < k ==> (#[trigger] catalog[m]).id@ != id,
        find_builtin(catalog, id) is None ==> forall|k: int| 0 <= k < catalog.len() ==> (#[trigger] catalog[k]).id@ != id,
    decreases catalog.len(),
{
    if catalog.len() > 0 && catalog[0].id@ != id {
        let rest = catalog.drop_first();
        law_builtin_lookup(rest, id);
        if let Some(b) = find_builtin(catalog, id) {
            let k = choose|k: int|
                0 <= k < rest.len() && #[trigger] rest[k] == b && b.id@ == id && forall|m: int|
                    0 <= m < k ==> (#[trigger] rest[m]).id@ != id;
            assert(catalog[k + 1] == b);
            assert forall|m: int| 0 <= m < k + 1 implies (#[trigger] catalog[m]).id@ != id by {
                if m > 0 {
                    assert(catalog[m] == rest[m - 1]);
                }
            }
        } else {
            assert forall|k: int| 0 <= k < catalog.len() implies (#[trigger] catalog[k]).id@ != id by {
                if k > 0 {
                    assert(catalog[k] == rest[k - 1]);
                }
            }
        }
    } else if catalog.len() > 0 {
        assert(catalog[0] == find_builtin(catalog, id)->0);
    }
}

/// The file name found for a format is that of the first entry naming the
/// format, and none is found when no entry names it.
pub proof fn law_filename_lookup(formats: Seq<FormatFile>, format: Seq<char>)
    ensures
        find_filename(formats, format) matches Some(f) ==> exists|k: int|
            0 <= k < formats.len() && (#[trigger] formats[k]).format@ == format && formats[k].filename@ == f,
        find_filename(formats, format) is None ==> forall|k: int|
            0 <= k < formats.len() ==> (#[trigger] formats[k]).format@ != format,
    decreases formats.len(),
{
    if formats.len() > 0 && formats[0].format@ != format {
        let rest = formats.drop_first();
        law_filename_lookup(rest, format);
        if let Some(f) = find_filename(formats, format) {
            let k = choose|k: int| 0 <= k < rest.len() && (#[trigger] rest[k]).format@ == format && rest[k].filename@ == f;
            assert(formats[k + 1] == rest[k]);
        } else {
            assert forall|k: int| 0 <= k < formats.len() implies (#[trigger] formats[k]).format@ != format by {
                if k > 0 {
                    assert(formats[k] == rest[k - 1]);
                }
            }
        }
    }
}

/// A built-in tool that is accepted renders its `config`, labelled under
/// the tool, to the producer's native file for the requested format, or
/// for the producer's default format when none is requested; a path the
/// tool names must be that native file.
pub proof fn law_builtin_renders_requested_format(
    dir: Seq<Seq<char>>,
    name: Seq<char>,
    id: Seq<char>,
    requested: Seq<char>,
    explicit: Option<Seq<char>>,
    tool: Value,
    catalog: Seq<Builtin>,
)
    requires
        builtin_spec(dir, name, id, requested, explicit, tool, catalog).halt is None,
    ensures
        ({
            let d = builtin_spec(dir, name, id, requested, explicit, tool, catalog);
            &&& find_builtin(catalog, id) matches Some(b) && b.id@ == id && {
                let format = if requested.len() == 0 {
                    b.default@
                } else {
                    requested
                };
                &&& find_filename(b.formats@, format) matches Some(f) && {
                    &&& explicit matches Some(p) ==> p == f
                    &&& d.steps.len() >= 1
                    &&& d.steps.last() matches StepView::Render(t, path, label, fmt, config) && {
                        &&& t == Some(name)
                        &&& fmt == format
                        &&& label == label_of(name, f)
                        &&& crate::path::absolute_spec(dir, f) == Some(path)
                        &&& value_get(tool, "config"@) == Some(config)
                    }
                }
            }
        }),
{
    law_builtin_lookup(catalog, id);
}

} // verus!
