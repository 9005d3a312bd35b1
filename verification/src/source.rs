//! The sources a field's raw value is looked up in: the process
//! environment first, then a loaded manifest document, else absence.

use vstd::prelude::*;
use heck::ToShoutySnakeCase;
use crate::codec::{DecodeFault, FaultView, Kind, KindView};
use crate::value::{doc_get_spec, DocEntry, DocValue, DocView};

verus! {

/// One variable of the environment snapshot: readable text, or bytes
/// that are not valid text.
#[derive(Debug, PartialEq, Eq)]
pub enum EnvEntry {
    Text(String),
    NotUnicode,
}

/// The mathematical form of an environment entry.
pub enum EnvEntryView {
    Text(Seq<char>),
    NotUnicode,
}

impl View for EnvEntry {
    type V = EnvEntryView;

    open spec fn view(&self) -> EnvEntryView {
        match self {
            EnvEntry::Text(t) => EnvEntryView::Text(t@),
            EnvEntry::NotUnicode => EnvEntryView::NotUnicode,
        }
    }
}

impl Clone for EnvEntry {
    /// Clone an entry; the copy has the same view.
    fn clone(&self) -> (r: Self)
        ensures
            r@ == self@,
    {
        match self {
            EnvEntry::Text(t) => EnvEntry::Text(t.clone()),
            EnvEntry::NotUnicode => EnvEntry::NotUnicode,
        }
    }
}

/// One named variable of the environment snapshot.
#[derive(Debug, PartialEq, Eq)]
pub struct EnvVar {
    pub name: String,
    pub entry: EnvEntry,
}

impl View for EnvVar {
    type V = (Seq<char>, EnvEntryView);

    open spec fn view(&self) -> (Seq<char>, EnvEntryView) {
        (self.name@, self.entry@)
    }
}

impl Clone for EnvVar {
    /// Clone a variable; the copy has the same view.
    fn clone(&self) -> (r: Self)
        ensures
            r@ == self@,
    {
        EnvVar { name: self.name.clone(), entry: self.entry.clone() }
    }
}

/// Look a variable up in the snapshot, first match wins.
pub open spec fn env_get(rows: Seq<(Seq<char>, EnvEntryView)>, name: Seq<char>) -> Option<
    EnvEntryView,
>
    decreases rows.len(),
{
    if rows.len() == 0 {
        None
    } else if rows[0].0 == name {
        Some(rows[0].1)
    } else {
        env_get(rows.drop_first(), name)
    }
}

/// What became of the manifest document at startup: none found, loaded,
/// or found but malformed, its error waiting to be surfaced once.
#[derive(Debug, PartialEq, Eq)]
pub enum DocState {
    Absent,
    Loaded(DocValue),
    Failed(String),
}

/// The mathematical form of the document state.
pub enum DocStateView {
    Absent,
    Loaded(DocView),
    Failed(Seq<char>),
}

impl View for DocState {
    type V = DocStateView;

    open spec fn view(&self) -> DocStateView {
        match self {
            DocState::Absent => DocStateView::Absent,
            DocState::Loaded(d) => DocStateView::Loaded(d@),
            DocState::Failed(m) => DocStateView::Failed(m@),
        }
    }
}

impl Clone for DocState {
    /// Clone the state; the copy has the same view.
    fn clone(&self) -> (r: Self)
        ensures
            r@ == self@,
    {
        match self {
            DocState::Absent => DocState::Absent,
            DocState::Loaded(d) => DocState::Loaded(d.clone()),
            DocState::Failed(m) => DocState::Failed(m.clone()),
        }
    }
}

/// A raw value produced by a source: plain environment text, or a node
/// of the loaded document.
#[derive(Debug, PartialEq, Eq)]
pub enum RawValue {
    Text(String),
    Structured(DocValue),
}

/// The mathematical form of a raw value.
pub enum RawView {
    Text(Seq<char>),
    Structured(DocView),
}

impl View for RawValue {
    type V = RawView;

    open spec fn view(&self) -> RawView {
        match self {
            RawValue::Text(t) => RawView::Text(t@),
            RawValue::Structured(d) => RawView::Structured(d@),
        }
    }
}

/// Why a whole resolution failed.
#[derive(Debug, PartialEq, Eq)]
pub enum ConfigError {
    /// A field's raw value failed to decode into its expected kind.
    Decode { field: String, kind: Kind, fault: DecodeFault },
    /// An environment variable exists but its bytes are not valid text.
    NotUnicode { var: String },
    /// The manifest document was found but could not be parsed; surfaced
    /// on the first lookup that needed it.
    Document { message: String },
}

/// The mathematical form of a resolution error.
pub enum ErrView {
    Decode { field: Seq<char>, kind: KindView, fault: FaultView },
    NotUnicode(Seq<char>),
    Document(Seq<char>),
}

impl View for ConfigError {
    type V = ErrView;

    open spec fn view(&self) -> ErrView {
        match self {
            ConfigError::Decode { field, kind, fault } => ErrView::Decode {
                field: field@,
                kind: kind@,
                fault: fault@,
            },
            ConfigError::NotUnicode { var } => ErrView::NotUnicode(var@),
            ConfigError::Document { message } => ErrView::Document(message@),
        }
    }
}

/// The built-in source: an environment snapshot backed by an optional
/// manifest document.
pub struct DefaultSource {
    pub env: Vec<EnvVar>,
    pub doc: DocState,
}

/// The mathematical form of the built-in source.
pub struct DefaultSourceView {
    pub env: Seq<(Seq<char>, EnvEntryView)>,
    pub doc: DocStateView,
}

impl View for DefaultSource {
    type V = DefaultSourceView;

    open spec fn view(&self) -> DefaultSourceView {
        DefaultSourceView { env: self.env.deep_view(), doc: self.doc@ }
    }
}

impl DeepView for EnvVar {
    type V = (Seq<char>, EnvEntryView);

    open spec fn deep_view(&self) -> (Seq<char>, EnvEntryView) {
        self@
    }
}

/// What one lookup in the built-in source yields, and the document state
/// it leaves behind: the environment always wins; a loaded document
/// answers by its `package.field` entry; a recorded load failure is
/// surfaced exactly once, by the first lookup that needed the document.
pub open spec fn find_spec(
    src: DefaultSourceView,
    var: Seq<char>,
    package: Seq<char>,
    field: Seq<char>,
) -> (Result<Option<RawView>, ErrView>, DocStateView) {
    match env_get(src.env, var) {
        Some(EnvEntryView::Text(t)) => (Ok(Some(RawView::Text(t))), src.doc),
        Some(EnvEntryView::NotUnicode) => (Err(ErrView::NotUnicode(var)), src.doc),
        None => match src.doc {
            DocStateView::Loaded(d) => match doc_get_spec(d, package) {
                Some(pkg) => match doc_get_spec(pkg, field) {
                    Some(n) => (Ok(Some(RawView::Structured(n))), src.doc),
                    None => (Ok(None), src.doc),
                },
                None => (Ok(None), src.doc),
            },
            DocStateView::Absent => (Ok(None), src.doc),
            DocStateView::Failed(m) => (Err(ErrView::Document(m)), DocStateView::Absent),
        },
    }
}

impl Clone for DefaultSource {
    /// Clone the source; the copy has the same view.
    fn clone(&self) -> (r: Self)
        ensures
            r@ == self@,
    {
        let mut env: Vec<EnvVar> = Vec::new();
        let mut i: usize = 0;
        while i < self.env.len()
            invariant
                i <= self.env@.len(),
                env@.len() == i,
                forall|j: int| 0 <= j < i ==> #[trigger] env@[j]@ == self.env@[j]@,
            decreases self.env@.len() - i,
        {
            let c = self.env[i].clone();
            env.push(c);
            i += 1;
        }
        proof {
            assert forall|j: int| 0 <= j < env@.len() implies #[trigger] env.deep_view()[j]
                == self.env.deep_view()[j] by {
                assert(env@[j]@ == self.env@[j]@);
            }
            assert(env.deep_view() =~= self.env.deep_view());
        }
        DefaultSource { env, doc: self.doc.clone() }
    }
}

impl DefaultSource {
    /// A source with the given environment snapshot and document state.
    pub fn new(env: Vec<EnvVar>, doc: DocState) -> (r: DefaultSource)
        ensures
            r@.env == env.deep_view(),
            r@.doc == doc@,
    {
        DefaultSource { env, doc }
    }

    /// A source with no environment snapshot and the given document,
    /// for callers that assemble the document themselves.
    pub fn test(doc: Option<DocValue>) -> (r: DefaultSource)
        ensures
            r@.env.len() == 0,
            r@.doc == match doc {
                Some(d) => DocStateView::Loaded(d@),
                None => DocStateView::Absent,
            },
    {
        let state = match doc {
            Some(d) => DocState::Loaded(d),
            None => DocState::Absent,
        };
        let env: Vec<EnvVar> = Vec::new();
        proof {
            assert(env.deep_view().len() == 0);
        }
        DefaultSource { env, doc: state }
    }

    /// Resolve one field: the environment variable first, then the
    /// document's `package.field` entry, else absence. A recorded
    /// document load failure is returned once and then cleared.
    pub fn find(&mut self, var_name: &str, package: &str, field: &str) -> (r: Result<
        Option<RawValue>,
        ConfigError,
    >)
        ensures
            ({
                let (res, doc2) = find_spec(old(self)@, var_name@, package@, field@);
                &&& final(self)@.env == old(self)@.env
                &&& final(self)@.doc == doc2
                &&& match r {
                    Ok(None) => res == Ok::<Option<RawView>, ErrView>(None),
                    Ok(Some(v)) => res == Ok::<Option<RawView>, ErrView>(Some(v@)),
                    Err(e) => res == Err::<Option<RawView>, ErrView>(e@),
                }
            }),
    {
        let ghost rows = self.env.deep_view();
        proof {
            assert(rows.skip(0) =~= rows);
        }
        let mut i: usize = 0;
        while i < self.env.len()
            invariant
                i <= self.env@.len(),
                rows == self.env.deep_view(),
                rows.len() == self.env@.len(),
                forall|j: int| 0 <= j < self.env@.len() ==> #[trigger] rows[j] == self.env@[j]@,
                env_get(rows, var_name@) == env_get(rows.skip(i as int), var_name@),
            decreases self.env@.len() - i,
        {
            proof {
                assert(rows.skip(i as int)[0] == rows[i as int]);
                assert(rows.skip(i as int).drop_first() =~= rows.skip(i + 1));
            }
            if crate::codec::str_eq(self.env[i].name.as_str(), var_name) {
                match &self.env[i].entry {
                    EnvEntry::Text(t) => {
                        return Ok(Some(RawValue::Text(t.clone())));
                    },
                    EnvEntry::NotUnicode => {
                        return Err(ConfigError::NotUnicode { var: var_name.to_owned() });
                    },
                }
            }
            i += 1;
        }
        proof {
            assert(rows.skip(i as int) =~= Seq::<(Seq<char>, EnvEntryView)>::empty());
        }
        match &self.doc {
            DocState::Loaded(d) => match d.get(package) {
                Some(pkg) => match pkg.get(field) {
                    Some(n) => Ok(Some(RawValue::Structured(n.clone()))),
                    None => Ok(None),
                },
                None => Ok(None),
            },
            DocState::Absent => Ok(None),
            DocState::Failed(_) => {
                let message = match &self.doc {
                    DocState::Failed(m) => m.clone(),
                    _ => String::new(),
                };
                self.doc = DocState::Absent;
                Err(ConfigError::Document { message })
            },
        }
    }
}

/// A source that yields no raw values: every field keeps its default.
pub struct NullDeserializer;

impl Clone for NullDeserializer {
    /// Clone the empty source.
    fn clone(&self) -> (r: Self) {
        NullDeserializer
    }
}

/// One entry of a user-supplied source.
pub struct SuppliedEntry {
    pub package: String,
    pub field: String,
    pub value: crate::value::StructuredValue,
}

impl View for SuppliedEntry {
    type V = (Seq<char>, Seq<char>, DocView);

    open spec fn view(&self) -> (Seq<char>, Seq<char>, DocView) {
        (self.package@, self.field@, self.value@)
    }
}

impl DeepView for SuppliedEntry {
    type V = (Seq<char>, Seq<char>, DocView);

    open spec fn deep_view(&self) -> (Seq<char>, Seq<char>, DocView) {
        self@
    }
}

impl Clone for SuppliedEntry {
    /// Clone an entry; the copy has the same view.
    fn clone(&self) -> (r: Self)
        ensures
            r@ == self@,
    {
        SuppliedEntry {
            package: self.package.clone(),
            field: self.field.clone(),
            value: self.value.clone(),
        }
    }
}

/// A user-supplied source: a fixed table from package and field to a
/// structured value.
pub struct SuppliedSource {
    pub entries: Vec<SuppliedEntry>,
}

impl View for SuppliedSource {
    type V = Seq<(Seq<char>, Seq<char>, DocView)>;

    open spec fn view(&self) -> Seq<(Seq<char>, Seq<char>, DocView)> {
        self.entries.deep_view()
    }
}

impl Clone for SuppliedSource {
    /// Clone the table; the copy has the same view.
    fn clone(&self) -> (r: Self)
        ensures
            r@ == self@,
    {
        let mut entries: Vec<SuppliedEntry> = Vec::new();
        let mut i: usize = 0;
        while i < self.entries.len()
            invariant
                i <= self.entries@.len(),
                entries@.len() == i,
                forall|j: int| 0 <= j < i ==> #[trigger] entries@[j]@ == self.entries@[j]@,
            decreases self.entries@.len() - i,
        {
            let c = self.entries[i].clone();
            entries.push(c);
            i += 1;
        }
        proof {
            assert forall|j: int| 0 <= j < entries@.len() implies #[trigger] entries.deep_view()[j]
                == self.entries.deep_view()[j] by {
                assert(entries@[j]@ == self.entries@[j]@);
            }
            assert(entries.deep_view() =~= self.entries.deep_view());
        }
        SuppliedSource { entries }
    }
}


impl SuppliedSource {
    /// Look this table's entry for `(package, field)` up, first match
    /// wins; absence is not an error.
    pub fn find(&self, package: &str, field: &str) -> (r: Result<Option<RawValue>, ConfigError>)
        ensures
            match r {
                Ok(None) => supplied_get(self@, package@, field@) is None,
                Ok(Some(v)) => match supplied_get(self@, package@, field@) {
                    Some(d) => v@ == RawView::Structured(d),
                    None => false,
                },
                Err(_) => false,
            },
    {
        let ghost rows = self.entries.deep_view();
        proof {
            assert(rows.skip(0) =~= rows);
        }
        let mut i: usize = 0;
        while i < self.entries.len()
            invariant
                i <= self.entries@.len(),
                rows == self.entries.deep_view(),
                rows.len() == self.entries@.len(),
                forall|j: int| 0 <= j < self.entries@.len() ==> #[trigger] rows[j]
                    == self.entries@[j]@,
                supplied_get(rows, package@, field@) == supplied_get(
                    rows.skip(i as int),
                    package@,
                    field@,
                ),
            decreases self.entries@.len() - i,
        {
            proof {
                assert(rows.skip(i as int)[0] == rows[i as int]);
                assert(rows.skip(i as int).drop_first() =~= rows.skip(i + 1));
            }
            if crate::codec::str_eq(self.entries[i].package.as_str(), package)
                && crate::codec::str_eq(self.entries[i].field.as_str(), field) {
                let node = self.entries[i].value.clone();
                return Ok(Some(RawValue::Structured(node.into_doc())));
            }
            i += 1;
        }
        proof {
            assert(rows.skip(i as int) =~= Seq::<(Seq<char>, Seq<char>, DocView)>::empty());
        }
        Ok(None)
    }
}

/// Look a `(package, field)` pair up in a supplied table, first match
/// wins.
pub open spec fn supplied_get(
    entries: Seq<(Seq<char>, Seq<char>, DocView)>,
    package: Seq<char>,
    field: Seq<char>,
) -> Option<DocView>
    decreases entries.len(),
{
    if entries.len() == 0 {
        None
    } else if entries[0].0 == package && entries[0].1 == field {
        Some(entries[0].2)
    } else {
        supplied_get(entries.drop_first(), package, field)
    }
}

/// The active kind of source: the empty one, the built-in environment
/// and document pair, or a user-supplied table.
pub enum ConfigSource {
    Null(NullDeserializer),
    EnvAndDocument(DefaultSource),
    UserSupplied(SuppliedSource),
}

/// The mathematical form of a source.
pub enum SourceView {
    Null,
    EnvAndDocument(DefaultSourceView),
    UserSupplied(Seq<(Seq<char>, Seq<char>, DocView)>),
}

impl View for ConfigSource {
    type V = SourceView;

    open spec fn view(&self) -> SourceView {
        match self {
            ConfigSource::Null(_) => SourceView::Null,
            ConfigSource::EnvAndDocument(d) => SourceView::EnvAndDocument(d@),
            ConfigSource::UserSupplied(s) => SourceView::UserSupplied(s@),
        }
    }
}

impl Clone for ConfigSource {
    /// Clone the source; the copy has the same view.
    fn clone(&self) -> (r: Self)
        ensures
            r@ == self@,
    {
        match self {
            ConfigSource::Null(_) => ConfigSource::Null(NullDeserializer),
            ConfigSource::EnvAndDocument(d) => ConfigSource::EnvAndDocument(d.clone()),
            ConfigSource::UserSupplied(s) => ConfigSource::UserSupplied(s.clone()),
        }
    }
}

/// What one lookup in the active source yields, with the state it
/// leaves: the empty source yields nothing; the built-in source follows
/// its priority policy; a supplied table answers by its entries.
pub open spec fn source_find_spec(
    src: SourceView,
    var: Seq<char>,
    package: Seq<char>,
    field: Seq<char>,
) -> (Result<Option<RawView>, ErrView>, SourceView) {
    match src {
        SourceView::Null => (Ok(None), src),
        SourceView::EnvAndDocument(d) => {
            let (res, doc2) = find_spec(d, var, package, field);
            (res, SourceView::EnvAndDocument(DefaultSourceView { env: d.env, doc: doc2 }))
        },
        SourceView::UserSupplied(entries) => (
            Ok(
                match supplied_get(entries, package, field) {
                    Some(d) => Some(RawView::Structured(d)),
                    None => None,
                },
            ),
            src,
        ),
    }
}

impl ConfigSource {
    /// Resolve one field through the active source.
    pub fn find(&mut self, var_name: &str, package: &str, field: &str) -> (r: Result<
        Option<RawValue>,
        ConfigError,
    >)
        ensures
            ({
                let (res, src2) = source_find_spec(old(self)@, var_name@, package@, field@);
                &&& final(self)@ == src2
                &&& match r {
                    Ok(None) => res == Ok::<Option<RawView>, ErrView>(None),
                    Ok(Some(v)) => res == Ok::<Option<RawView>, ErrView>(Some(v@)),
                    Err(e) => res == Err::<Option<RawView>, ErrView>(e@),
                }
            }),
    {
        match self {
            ConfigSource::Null(_) => Ok(None),
            ConfigSource::EnvAndDocument(d) => d.find(var_name, package, field),
            ConfigSource::UserSupplied(s) => s.find(package, field),
        }
    }
}


/// The name of the environment variable that configures one field: what
/// heck's conversion yields on `package_field`.
pub uninterp spec fn upper_snake_of(s: Seq<char>) -> Seq<char>;

/// Relies on heck's `to_shouty_snake_case`: word boundaries become
/// underscores and every letter uppercase; the result depends on the
/// characters alone.
#[verifier::external_body]
fn shouty_snake_name(package: &str, field: &str) -> (r: String)
    ensures
        r@ == upper_snake_of(package@ + seq!['_'] + field@),
{
    format!("{}_{}", package, field).to_shouty_snake_case()
}

/// The environment variable name for a field: the upper snake case form
/// of `package_field`.
pub fn env_var_name(package: &str, field: &str) -> (r: String)
    ensures
        r@ == upper_snake_of(package@ + seq!['_'] + field@),
{
    shouty_snake_name(package, field)
}

/// The parsed document type of the manifest format.
#[verifier::external_type_specification]
#[verifier::external_body]
pub struct ExTomlValue(toml::Value);

/// What parsing a manifest text yields, when it parses; the document
/// grammar itself lives in the parser.
pub uninterp spec fn parsed_doc_of(s: Seq<char>) -> Option<DocView>;

/// Relies on `toml::from_str::<toml::Value>`: parses manifest text into
/// a document value; the result depends on the text alone.
#[verifier::external_body]
fn parse_toml_text(s: &str) -> (r: Result<DocValue, String>)
    ensures
        match r {
            Ok(d) => parsed_doc_of(s@) == Some(d@),
            Err(_) => parsed_doc_of(s@) is None,
        },
{
    match toml::from_str::<toml::Value>(s) {
        Ok(v) => Ok(toml_node(v)),
        Err(e) => Err(e.to_string()),
    }
}

/// Relies on `toml::Value`'s public variants: each node moves to the
/// library's tree one for one; floats and datetimes have no counterpart
/// and become opaque nodes.
#[verifier::external_body]
fn toml_node(v: toml::Value) -> DocValue {
    match v {
        toml::Value::String(t) => DocValue::Str(t),
        toml::Value::Integer(i) => DocValue::Int(i),
        toml::Value::Float(_) => DocValue::Other,
        toml::Value::Boolean(b) => DocValue::Bool(b),
        toml::Value::Datetime(_) => DocValue::Other,
        toml::Value::Array(a) => DocValue::Array(a.into_iter().map(toml_node).collect()),
        toml::Value::Table(t) => DocValue::Table(
            t.into_iter().map(|(key, value)| DocEntry { key, value: toml_node(value) }).collect(),
        ),
    }
}

/// Parse a manifest document from its text; an error keeps the parser's
/// message.
pub fn parse_document(text: &str) -> (r: Result<DocValue, String>)
    ensures
        match r {
            Ok(d) => parsed_doc_of(text@) == Some(d@),
            Err(_) => parsed_doc_of(text@) is None,
        },
{
    parse_toml_text(text)
}

/// The fallback table of a manifest: the subtree at `package.metadata`.
pub open spec fn metadata_of(doc: DocView) -> Option<DocView> {
    match doc_get_spec(doc, "package"@) {
        Some(p) => doc_get_spec(p, "metadata"@),
        None => None,
    }
}

/// Load the manifest's fallback table from its text: the subtree at
/// `package.metadata` when the text parses and has one; absence when it
/// parses without one; a recorded failure otherwise.
pub fn load_document(text: &str) -> (r: DocState)
    ensures
        match parsed_doc_of(text@) {
            Some(doc) => r@ == match metadata_of(doc) {
                Some(m) => DocStateView::Loaded(m),
                None => DocStateView::Absent,
            },
            None => r@ is Failed,
        },
{
    match parse_document(text) {
        Ok(doc) => match doc.get("package") {
            Some(p) => match p.get("metadata") {
                Some(m) => DocState::Loaded(m.clone()),
                None => DocState::Absent,
            },
            None => DocState::Absent,
        },
        Err(message) => DocState::Failed(message),
    }
}

} // verus!
