use vstd::prelude::*;
use serde::Deserialize;
use std::path::PathBuf;
use crate::colors::{green, is_green_form};
use crate::config::{config_keys_unique, keys, DependencyConfig, DependencyKind, DependencyNameOrDependencyConfig, ProjectConfig, TargetConfig};
use crate::names::{NameView, NormalOrPluginName, concat_str, split_once_char, str_to_string};
use crate::seqs::first_index_of;
use crate::plugin::LoadPluginResult;

verus! {

#[verifier::external_type_specification]
#[verifier::external_body]
pub struct ExIoError(std::io::Error);

/// The name the cargo plugin registers under and prefixes its names with.
pub open spec fn cargo_plugin_name() -> Seq<char> {
    seq!['c', 'a', 'r', 'g', 'o']
}

/// Provides the cargo plugin.
pub struct CargoPluginProvider;

impl CargoPluginProvider {
    /// The name of the cargo plugin.
    pub fn plugin_name() -> (r: &'static str)
        ensures
            r@ == cargo_plugin_name(),
    {
        let r = "cargo";
        proof {
            reveal_strlit("cargo");
            assert(r@ =~= cargo_plugin_name());
        }
        r
    }

    /// The name qualified by the cargo plugin: `cargo:name`.
    pub fn prefix_name(name: String) -> (r: NormalOrPluginName)
        ensures
            r@ == NameView::Plugin(cargo_plugin_name(), name@),
    {
        NormalOrPluginName::Plugin { plugin_name: str_to_string(Self::plugin_name()), name }
    }
}

/// The extra configuration fields the cargo plugin understands.
#[derive(Debug, PartialEq, Eq)]
pub struct CargoPluginExtraConfigFields {
    pub extra_cargo_args: Vec<String>,
}

impl Default for CargoPluginExtraConfigFields {
    fn default() -> (r: Self)
        ensures
            r.extra_cargo_args@.len() == 0,
    {
        CargoPluginExtraConfigFields { extra_cargo_args: Vec::new() }
    }
}

#[derive(Debug)]
pub enum CargoPluginGenerateError {
    RunCargoBuild(std::io::Error),
    CargoBuildReportedError { error: String },
    UnsuccessfullCargoBuild,
    DidNotFindArtifactOutputFilepath { artifact_name: String },
    InvalidCargoExtraConfigField { field_name: String },
}

/// The views of a list of strings.
pub open spec fn views(s: Seq<String>) -> Seq<Seq<char>> {
    s.map_values(|x: String| x@)
}

/// The name of the extra field that holds extra arguments for `cargo build`.
pub open spec fn extra_cargo_args_field() -> Seq<char> {
    "extra_cargo_args"@
}

/// `unknown field named '<name>'`
pub open spec fn unknown_field_warning(name: Seq<char>) -> Seq<char> {
    "unknown field named '"@ + name + "'"@
}

/// What deserializing a toml value as a list of strings gives: the strings,
/// or the text of the deserialization error.
pub uninterp spec fn toml_string_list(value: toml::Value) -> Result<Seq<Seq<char>>, Seq<char>>;

/// Calls `<Vec<String> as serde::Deserialize>::deserialize` on a clone of a
/// toml value and formats a failure with its `Display`; the outcome is named
/// `toml_string_list` of the value.
#[verifier::external_body]
fn deserialize_string_list(value: &toml::Value) -> (r: Result<Vec<String>, String>)
    ensures
        match r {
            Ok(v) => toml_string_list(*value) == Ok::<Seq<Seq<char>>, Seq<char>>(views(v@)),
            Err(e) => toml_string_list(*value) == Err::<Seq<Seq<char>>, Seq<char>>(e@),
        },
{
    match Vec::<String>::deserialize(value.clone()) {
        Ok(v) => Ok(v),
        Err(e) => Err(format!("{e}")),
    }
}

/// Reading the extra fields in order: `extra_cargo_args` sets the arguments
/// (the last one given wins) or stops with its name and the reason; every
/// other field adds a warning. Gives the arguments and the warnings, or the
/// failing field, the reason and the warnings given before.
pub open spec fn extra_fields_outcome(fields: Seq<(String, toml::Value)>)
    -> Result<(Seq<Seq<char>>, Seq<Seq<char>>), (Seq<char>, Seq<char>, Seq<Seq<char>>)>
    decreases fields.len(),
{
    if fields.len() == 0 {
        Ok((Seq::empty(), Seq::empty()))
    } else {
        match extra_fields_outcome(fields.drop_last()) {
            Err(e) => Err(e),
            Ok((args, warnings)) => {
                let (name, value) = fields.last();
                if name@ == extra_cargo_args_field() {
                    match toml_string_list(value) {
                        Ok(list) => Ok((list, warnings)),
                        Err(reason) => Err((name@, reason, warnings)),
                    }
                } else {
                    Ok((args, warnings.push(unknown_field_warning(name@))))
                }
            },
        }
    }
}

proof fn lemma_extra_fields_outcome_err(fields: Seq<(String, toml::Value)>, m: int)
    requires
        0 <= m <= fields.len(),
        extra_fields_outcome(fields.take(m)) is Err,
    ensures
        extra_fields_outcome(fields) == extra_fields_outcome(fields.take(m)),
    decreases fields.len() - m,
{
    if m < fields.len() {
        assert(fields.take(m + 1).drop_last() =~= fields.take(m));
        lemma_extra_fields_outcome_err(fields, m + 1);
    } else {
        assert(fields.take(m) =~= fields);
    }
}

impl CargoPluginExtraConfigFields {
    /// Reads the extra fields of the cargo plugin's configuration, as
    /// `extra_fields_outcome` says: the field `extra_cargo_args` must hold a
    /// list of strings; for every other field a warning is added.
    pub fn from_extra_config_fields(
        fields: &Vec<(String, toml::Value)>,
        warnings: &mut Vec<String>,
    ) -> (r: Result<Self, (String, String)>)
        ensures
            match extra_fields_outcome(fields@) {
                Ok((args, ws)) => {
                    &&& r matches Ok(parsed)
                    &&& views(parsed.extra_cargo_args@) == args
                    &&& views(final(warnings)@) == views(old(warnings)@) + ws
                },
                Err((name, reason, ws)) => {
                    &&& r matches Err((field_name, error))
                    &&& field_name@ == name
                    &&& error@ == reason
                    &&& views(final(warnings)@) == views(old(warnings)@) + ws
                },
            },
    {
        let mut parsed = CargoPluginExtraConfigFields::default();
        let extra_field = str_to_string("extra_cargo_args");
        let ghost w0 = views(warnings@);
        let n = fields.len();
        proof {
            assert(views(parsed.extra_cargo_args@) =~= Seq::<Seq<char>>::empty());
            assert(views(warnings@) =~= w0 + Seq::<Seq<char>>::empty());
        }
        for k in 0..n
            invariant
                n == fields@.len(),
                extra_field@ == extra_cargo_args_field(),
                w0 == views(old(warnings)@),
                extra_fields_outcome(fields@.take(k as int)) matches Ok((args, ws))
                    && views(parsed.extra_cargo_args@) == args && views(warnings@) == w0 + ws,
        {
            let (field_name, field_value) = (&fields[k].0, &fields[k].1);
            proof {
                assert(fields@.take(k + 1).drop_last() =~= fields@.take(k as int));
                assert(fields@.take(k + 1).last() == fields@[k as int]);
            }
            if *field_name == extra_field {
                match deserialize_string_list(field_value) {
                    Ok(args) => {
                        parsed.extra_cargo_args = args;
                    },
                    Err(error) => {
                        proof {
                            lemma_extra_fields_outcome_err(fields@, k + 1);
                        }
                        return Err((field_name.clone(), error));
                    },
                }
            } else {
                let w = concat_str(str_to_string("unknown field named '"), field_name.as_str());
                let w = concat_str(w, "'");
                let ghost before = warnings@;
                warnings.push(w);
                proof {
                    assert(views(warnings@) =~= views(before).push(w@));
                    let ws = extra_fields_outcome(fields@.take(k as int))->Ok_0.1;
                    assert(w0 + ws.push(w@) =~= (w0 + ws).push(w@));
                }
            }
        }
        proof {
            assert(fields@.take(n as int) =~= fields@);
        }
        Ok(parsed)
    }
}

/// What is said when `cargo metadata` failed for a project that has a
/// `Cargo.toml`: nothing when cargo is not installed at all, otherwise a
/// warning that carries the error.
pub fn metadata_failure_warning(cargo_not_installed: bool, error: &str) -> (r: Option<String>)
    ensures
        cargo_not_installed ==> r is None,
        !cargo_not_installed ==> (r matches Some(w) && w@
            == "Could not load cargo plugin, found Cargo.toml file but cargo metadata process failed:\n"@
                + error@ + "\nCargo plugin will be disabled!"@),
{
    if cargo_not_installed {
        None
    } else {
        let w = str_to_string("Could not load cargo plugin, found Cargo.toml file but cargo metadata process failed:\n");
        let w = concat_str(w, error);
        Some(concat_str(w, "\nCargo plugin will be disabled!"))
    }
}

/// What loading the cargo plugin does next.
pub enum CargoLoadStep<P> {
    /// stop with this answer
    Answer(LoadPluginResult<P>),
    /// run `cargo metadata` in the project directory, then go on with these fields
    RunCargoMetadata(CargoPluginExtraConfigFields),
}

impl CargoPluginProvider {
    /// The first part of loading the cargo plugin: the extra fields are read
    /// (a failure is the answer); a project without a `Cargo.toml` does not
    /// suit the plugin, even though a cargo workspace could lie in a parent
    /// directory; otherwise `cargo metadata` is to be run.
    pub fn load_step<P>(
        extra_config_fields: &Vec<(String, toml::Value)>,
        manifest_exists: bool,
        warnings: &mut Vec<String>,
    ) -> (r: CargoLoadStep<P>)
        ensures
            match extra_fields_outcome(extra_config_fields@) {
                Ok((args, ws)) => {
                    &&& views(final(warnings)@) == views(old(warnings)@) + ws
                    &&& if manifest_exists {
                        r matches CargoLoadStep::RunCargoMetadata(fields) && views(fields.extra_cargo_args@) == args
                    } else {
                        r matches CargoLoadStep::Answer(LoadPluginResult::NotSuitable)
                    }
                },
                Err((name, reason, ws)) => {
                    &&& views(final(warnings)@) == views(old(warnings)@) + ws
                    &&& r matches CargoLoadStep::Answer(LoadPluginResult::ExtraConfigFieldsError { field_name, error })
                    &&& field_name@ == name
                    &&& error@ == reason
                },
            },
    {
        match CargoPluginExtraConfigFields::from_extra_config_fields(extra_config_fields, warnings) {
            Err((field_name, error)) => CargoLoadStep::Answer(LoadPluginResult::ExtraConfigFieldsError { field_name, error }),
            Ok(fields) => {
                if manifest_exists {
                    CargoLoadStep::RunCargoMetadata(fields)
                } else {
                    CargoLoadStep::Answer(LoadPluginResult::NotSuitable)
                }
            },
        }
    }

    /// The last part of loading the cargo plugin: with the metadata of the
    /// workspace the plugin is loaded; when `cargo metadata` failed (the
    /// error: whether cargo is missing altogether, and its text) the project
    /// does not suit it, with the warning `metadata_failure_warning` gives.
    pub fn load_with_metadata<M>(
        extra_config_fields: CargoPluginExtraConfigFields,
        metadata: Result<M, (bool, String)>,
        warnings: &mut Vec<String>,
    ) -> (r: LoadPluginResult<(M, CargoPluginExtraConfigFields)>)
        ensures
            match metadata {
                Ok(m) => {
                    &&& r == LoadPluginResult::Loaded((m, extra_config_fields))
                    &&& final(warnings)@ == old(warnings)@
                },
                Err((cargo_not_installed, error)) => {
                    &&& r matches LoadPluginResult::NotSuitable
                    &&& if cargo_not_installed {
                        final(warnings)@ == old(warnings)@
                    } else {
                        &&& final(warnings)@.len() == old(warnings)@.len() + 1
                        &&& final(warnings)@.drop_last() == old(warnings)@
                        &&& final(warnings)@.last()@
                            == "Could not load cargo plugin, found Cargo.toml file but cargo metadata process failed:\n"@
                                + error@ + "\nCargo plugin will be disabled!"@
                    }
                },
            },
    {
        match metadata {
            Ok(m) => LoadPluginResult::Loaded((m, extra_config_fields)),
            Err((cargo_not_installed, error)) => {
                match metadata_failure_warning(cargo_not_installed, error.as_str()) {
                    Some(warning) => {
                        let ghost before = warnings@;
                        warnings.push(warning);
                        proof {
                            assert(warnings@.drop_last() =~= before);
                        }
                    },
                    None => {},
                }
                LoadPluginResult::NotSuitable
            },
        }
    }
}

/// `build --message-format=json` and then the extra arguments.
pub fn cargo_build_args(extra_cargo_args: &Vec<String>) -> (r: Vec<String>)
    ensures
        views(r@) == seq!["build"@, "--message-format=json"@] + views(extra_cargo_args@),
{
    let mut args: Vec<String> = Vec::new();
    args.push(str_to_string("build"));
    args.push(str_to_string("--message-format=json"));
    let n = extra_cargo_args.len();
    for k in 0..n
        invariant
            n == extra_cargo_args@.len(),
            views(args@) == seq!["build"@, "--message-format=json"@] + views(extra_cargo_args@.take(k as int)),
    {
        let ghost before = args@;
        args.push(extra_cargo_args[k].clone());
        proof {
            assert(views(extra_cargo_args@.take(k + 1)) =~= views(extra_cargo_args@.take(k as int)).push(extra_cargo_args@[k as int]@));
            assert(views(args@) =~= views(before).push(extra_cargo_args@[k as int]@));
        }
    }
    proof {
        assert(extra_cargo_args@.take(n as int) =~= extra_cargo_args@);
    }
    args
}

/// ` <arg>` for each argument, in order.
pub open spec fn spaced_args(args: Seq<Seq<char>>) -> Seq<char>
    decreases args.len(),
{
    if args.len() == 0 {
        Seq::empty()
    } else {
        spaced_args(args.drop_last()) + " "@ + args.last()
    }
}

/// `Running cargo build <args>...`, with `Running` in green.
pub fn running_cargo_build_message(extra_cargo_args: &Vec<String>) -> (r: String)
    ensures
        r@.len() >= (" cargo build"@ + spaced_args(views(extra_cargo_args@)) + "..."@).len(),
        is_green_form("Running"@, r@.take(r@.len() - (" cargo build"@ + spaced_args(views(extra_cargo_args@)) + "..."@).len())),
        r@.skip(r@.len() - (" cargo build"@ + spaced_args(views(extra_cargo_args@)) + "..."@).len())
            == " cargo build"@ + spaced_args(views(extra_cargo_args@)) + "..."@,
{
    let mut extra = String::new();
    let n = extra_cargo_args.len();
    for k in 0..n
        invariant
            n == extra_cargo_args@.len(),
            extra@ == spaced_args(views(extra_cargo_args@.take(k as int))),
    {
        proof {
            assert(views(extra_cargo_args@.take(k + 1)).drop_last() =~= views(extra_cargo_args@.take(k as int)));
        }
        extra.append(" ");
        extra.append(extra_cargo_args[k].as_str());
    }
    proof {
        assert(extra_cargo_args@.take(n as int) =~= extra_cargo_args@);
    }
    let head = green("Running");
    let r = concat_str(head, " cargo build");
    let r = concat_str(r, extra.as_str());
    let r = concat_str(r, "...");
    proof {
        let tail = " cargo build"@ + spaced_args(views(extra_cargo_args@)) + "..."@;
        assert(r@ =~= head@ + tail);
        assert(r@.take(r@.len() - tail.len()) =~= head@);
        assert(r@.skip(r@.len() - tail.len()) =~= tail);
    }
    r
}


// ---------------------------------------------------------------------------
// Following the messages of `cargo build`.

/// Position of the first entry whose key has the given view.
pub open spec fn first_key_index<V>(s: Seq<(String, V)>, key: Seq<char>) -> Option<int>
    decreases s.len(),
{
    if s.len() == 0 {
        None
    } else {
        match first_key_index(s.drop_last(), key) {
            Some(i) => Some(i),
            None => if s.last().0@ == key {
                Some(s.len() - 1)
            } else {
                None
            },
        }
    }
}

/// Inserting into a map by name: the value of an entry with an equal key is
/// replaced (its key kept), otherwise the entry is appended.
pub open spec fn assoc_insert<V>(s: Seq<(String, V)>, key: String, value: V) -> Seq<(String, V)> {
    match first_key_index(s, key@) {
        Some(i) => s.update(i, (s[i].0, value)),
        None => s.push((key, value)),
    }
}

proof fn lemma_first_key_index_step<V>(s: Seq<(String, V)>, key: Seq<char>, k: int)
    requires
        0 <= k < s.len(),
    ensures
        first_key_index(s.take(k + 1), key) == (match first_key_index(s.take(k), key) {
            Some(i) => Some(i),
            None => if s[k].0@ == key { Some(k) } else { None },
        }),
{
    assert(s.take(k + 1).drop_last() =~= s.take(k));
}

proof fn lemma_first_key_index_prefix<V>(s: Seq<(String, V)>, key: Seq<char>, m: int)
    requires
        0 <= m <= s.len(),
        first_key_index(s.take(m), key) is Some,
    ensures
        first_key_index(s, key) == first_key_index(s.take(m), key),
    decreases s.len() - m,
{
    if m < s.len() {
        lemma_first_key_index_step(s, key, m);
        lemma_first_key_index_prefix(s, key, m + 1);
    } else {
        assert(s.take(m) =~= s);
    }
}

pub(crate) proof fn lemma_first_key_index_bounds<V>(s: Seq<(String, V)>, key: Seq<char>)
    ensures
        first_key_index(s, key) matches Some(i) ==> 0 <= i < s.len() && s[i].0@ == key,
    decreases s.len(),
{
    if s.len() > 0 {
        lemma_first_key_index_bounds(s.drop_last(), key);
    }
}

/// Position of the first entry with the given key.
fn find_key<V>(v: &Vec<(String, V)>, key: &String) -> (r: Option<usize>)
    ensures
        match r {
            Some(i) => first_key_index(v@, key@) == Some(i as int),
            None => first_key_index(v@, key@) is None,
        },
{
    let n = v.len();
    for i in 0..n
        invariant
            n == v@.len(),
            first_key_index(v@.take(i as int), key@) is None,
    {
        proof {
            lemma_first_key_index_step(v@, key@, i as int);
        }
        if v[i].0 == *key {
            proof {
                lemma_first_key_index_prefix(v@, key@, i + 1);
            }
            return Some(i);
        }
    }
    proof {
        assert(v@.take(n as int) =~= v@);
    }
    None
}

/// Inserts by key, as `HashMap::insert` does.
pub fn assoc_insert_exec<V>(v: &mut Vec<(String, V)>, key: String, value: V)
    ensures
        final(v)@ == assoc_insert(old(v)@, key, value),
{
    match find_key(v, &key) {
        Some(i) => {
            proof {
                lemma_first_key_index_bounds(v@, key@);
            }
            let old_key = v[i].0.clone();
            v.set(i, (old_key, value));
        },
        None => {
            v.push((key, value));
        },
    }
}

/// What a linked library or search path entry `kind=value` gives for the
/// wanted kind: the value, or nothing for another kind or an entry without `=`.
pub open spec fn entry_of_kind(entry: Seq<char>, kind: Seq<char>) -> Option<Seq<char>> {
    match first_index_of(entry, '=') {
        Some(i) => if entry.take(i) == kind {
            Some(entry.skip(i + 1))
        } else {
            None
        },
        None => None,
    }
}

/// The values of the entries of the wanted kind, in order.
pub open spec fn entries_of_kind(entries: Seq<Seq<char>>, kind: Seq<char>) -> Seq<Seq<char>>
    decreases entries.len(),
{
    if entries.len() == 0 {
        Seq::empty()
    } else {
        match entry_of_kind(entries.last(), kind) {
            Some(v) => entries_of_kind(entries.drop_last(), kind).push(v),
            None => entries_of_kind(entries.drop_last(), kind),
        }
    }
}

/// The values of the `kind=value` entries of the wanted kind, in order.
pub fn filter_entries_of_kind(entries: &Vec<String>, kind: &str) -> (r: Vec<String>)
    ensures
        views(r@) == entries_of_kind(views(entries@), kind@),
{
    let kind_string = str_to_string(kind);
    let mut r: Vec<String> = Vec::new();
    let n = entries.len();
    for k in 0..n
        invariant
            n == entries@.len(),
            kind_string@ == kind@,
            views(r@) == entries_of_kind(views(entries@.take(k as int)), kind@),
    {
        proof {
            assert(views(entries@.take(k + 1)).drop_last() =~= views(entries@.take(k as int)));
            assert(views(entries@.take(k + 1)).last() == entries@[k as int]@);
        }
        match split_once_char(entries[k].as_str(), '=') {
            Some((entry_kind, value)) => {
                if entry_kind == kind_string {
                    let ghost before = r@;
                    r.push(value);
                    proof {
                        assert(views(r@) =~= views(before).push(r@.last()@));
                    }
                }
            },
            None => {},
        }
    }
    proof {
        assert(entries@.take(n as int) =~= entries@);
    }
    r
}

/// How `cargo_metadata` rates a compiler message, as far as the plugin cares.
#[derive(Debug, Clone, Copy, PartialEq, Eq)]
pub enum CompilerMessageLevel {
    Error,
    Warning,
    Other,
}

/// An output file of a compiled target: its path and, when it has one that
/// is valid UTF-8, its file name.
#[derive(Debug)]
pub struct ArtifactFile {
    pub path: PathBuf,
    pub file_name: Option<String>,
}

/// A message of `cargo build --message-format=json`, with what the plugin reads of it.
#[derive(Debug)]
pub enum CargoMessage {
    CompilerArtifact { fresh: bool, target_name: String, filenames: Vec<ArtifactFile> },
    CompilerMessage { level: CompilerMessageLevel, rendered: Option<String>, message: String },
    BuildScriptExecuted { package_id: String, linked_libs: Vec<String>, linked_paths: Vec<String> },
    TextLine(String),
    BuildFinished { success: bool },
    Other,
    /// a line that could not be read as a message
    Unreadable { error: String },
}

/// What to do after a message of `cargo build`.
#[derive(Debug)]
pub enum CargoBuildAction {
    Nothing,
    Println(String),
    Warn(String),
    Fail(CargoPluginGenerateError),
}

/// The dynamic libraries a build script links, and where it searches for them.
#[derive(Debug)]
pub struct ArtifactLinkedLibsInfo {
    pub linked_lib_names: Vec<String>,
    pub linked_lib_search_paths: Vec<String>,
}

/// What the messages of a `cargo build` told so far.
#[derive(Debug)]
pub struct CargoBuildOutputs {
    /// the packages of the workspace, as (package id, package name)
    pub packages: Vec<(String, String)>,
    /// the output files of each compiled target, by target name
    pub artifact_output_filepaths: Vec<(String, Vec<ArtifactFile>)>,
    /// the libraries each build script links, by package name
    pub artifact_linked_libs: Vec<(String, ArtifactLinkedLibsInfo)>,
}

/// Position of the first package with the given id.
pub open spec fn package_with_id(packages: Seq<(String, String)>, id: Seq<char>) -> Option<int>
    decreases packages.len(),
{
    if packages.len() == 0 {
        None
    } else {
        match package_with_id(packages.drop_last(), id) {
            Some(i) => Some(i),
            None => if packages.last().0@ == id {
                Some(packages.len() - 1)
            } else {
                None
            },
        }
    }
}

/// The text of a compiler message: rendered when it is, plain otherwise.
pub open spec fn message_text(rendered: Option<String>, message: String) -> Seq<char> {
    match rendered {
        Some(r) => r@,
        None => message@,
    }
}

/// `<green Compiling> <name>...`
pub open spec fn is_compiling_message(target_name: Seq<char>, r: Seq<char>) -> bool {
    let tail = " "@ + target_name + "..."@;
    &&& r.len() >= tail.len()
    &&& is_green_form("Compiling"@, r.take(r.len() - tail.len()))
    &&& r.skip(r.len() - tail.len()) == tail
}

impl CargoBuildOutputs {
    pub fn new(packages: Vec<(String, String)>) -> (r: Self)
        ensures
            r.packages == packages,
            r.artifact_output_filepaths@.len() == 0,
            r.artifact_linked_libs@.len() == 0,
    {
        CargoBuildOutputs { packages, artifact_output_filepaths: Vec::new(), artifact_linked_libs: Vec::new() }
    }

    /// Takes in one message of the build and says what to do about it.
    pub fn handle_message(&mut self, message: CargoMessage) -> (action: CargoBuildAction)
        ensures
            final(self).packages == old(self).packages,
            match message {
                CargoMessage::CompilerArtifact { fresh, target_name, filenames } => {
                    &&& final(self).artifact_output_filepaths@ == assoc_insert(old(self).artifact_output_filepaths@, target_name, filenames)
                    &&& final(self).artifact_linked_libs == old(self).artifact_linked_libs
                    &&& if fresh {
                        action is Nothing
                    } else {
                        action matches CargoBuildAction::Println(m) && is_compiling_message(target_name@, m@)
                    }
                },
                CargoMessage::CompilerMessage { level, rendered, message } => {
                    &&& final(self).artifact_output_filepaths == old(self).artifact_output_filepaths
                    &&& final(self).artifact_linked_libs == old(self).artifact_linked_libs
                    &&& match level {
                        CompilerMessageLevel::Warning => action matches CargoBuildAction::Warn(w)
                            && w@ == "cargo build reported warning:\n"@ + message_text(rendered, message),
                        CompilerMessageLevel::Error => action matches CargoBuildAction::Fail(
                            CargoPluginGenerateError::CargoBuildReportedError { error })
                            && error@ == message_text(rendered, message),
                        CompilerMessageLevel::Other => action matches CargoBuildAction::Println(m)
                            && m@ == message_text(rendered, message),
                    }
                },
                CargoMessage::BuildScriptExecuted { package_id, linked_libs, linked_paths } => {
                    &&& action is Nothing
                    &&& final(self).artifact_output_filepaths == old(self).artifact_output_filepaths
                    &&& match package_with_id(old(self).packages@, package_id@) {
                        Some(p) => exists|info: ArtifactLinkedLibsInfo| {
                            &&& #[trigger] views(info.linked_lib_names@) == entries_of_kind(views(linked_libs@), "dylib"@)
                            &&& views(info.linked_lib_search_paths@) == entries_of_kind(views(linked_paths@), "native"@)
                            &&& final(self).artifact_linked_libs@ == assoc_insert(
                                old(self).artifact_linked_libs@, old(self).packages@[p].1, info)
                        },
                        None => final(self).artifact_linked_libs == old(self).artifact_linked_libs,
                    }
                },
                CargoMessage::TextLine(line) => {
                    &&& action matches CargoBuildAction::Println(m) && m == line
                    &&& final(self).artifact_output_filepaths == old(self).artifact_output_filepaths
                    &&& final(self).artifact_linked_libs == old(self).artifact_linked_libs
                },
                CargoMessage::BuildFinished { success } => {
                    &&& (if success {
                        action is Nothing
                    } else {
                        action matches CargoBuildAction::Fail(CargoPluginGenerateError::UnsuccessfullCargoBuild)
                    })
                    &&& final(self).artifact_output_filepaths == old(self).artifact_output_filepaths
                    &&& final(self).artifact_linked_libs == old(self).artifact_linked_libs
                },
                CargoMessage::Other => {
                    &&& action is Nothing
                    &&& final(self).artifact_output_filepaths == old(self).artifact_output_filepaths
                    &&& final(self).artifact_linked_libs == old(self).artifact_linked_libs
                },
                CargoMessage::Unreadable { error } => {
                    &&& action matches CargoBuildAction::Println(m)
                        && m@ == "failed to parse cargo metadata message: "@ + error@
                    &&& final(self).artifact_output_filepaths == old(self).artifact_output_filepaths
                    &&& final(self).artifact_linked_libs == old(self).artifact_linked_libs
                },
            },
    {
        match message {
            CargoMessage::CompilerArtifact { fresh, target_name, filenames } => {
                let action = if !fresh {
                    let head = green("Compiling");
                    let m = concat_str(head, " ");
                    let m = concat_str(m, target_name.as_str());
                    let m = concat_str(m, "...");
                    proof {
                        let tail = " "@ + target_name@ + "..."@;
                        assert(m@ =~= head@ + tail);
                        assert(m@.take(m@.len() - tail.len()) =~= head@);
                        assert(m@.skip(m@.len() - tail.len()) =~= tail);
                    }
                    CargoBuildAction::Println(m)
                } else {
                    CargoBuildAction::Nothing
                };
                assoc_insert_exec(&mut self.artifact_output_filepaths, target_name, filenames);
                action
            },
            CargoMessage::CompilerMessage { level, rendered, message } => {
                let text = match rendered {
                    Some(r) => r,
                    None => message,
                };
                match level {
                    CompilerMessageLevel::Warning => {
                        CargoBuildAction::Warn(concat_str(str_to_string("cargo build reported warning:\n"), text.as_str()))
                    },
                    CompilerMessageLevel::Error => {
                        CargoBuildAction::Fail(CargoPluginGenerateError::CargoBuildReportedError { error: text })
                    },
                    CompilerMessageLevel::Other => CargoBuildAction::Println(text),
                }
            },
            CargoMessage::BuildScriptExecuted { package_id, linked_libs, linked_paths } => {
                match find_package(&self.packages, &package_id) {
                    Some(p) => {
                        let info = ArtifactLinkedLibsInfo {
                            linked_lib_names: filter_entries_of_kind(&linked_libs, "dylib"),
                            linked_lib_search_paths: filter_entries_of_kind(&linked_paths, "native"),
                        };
                        let package_name = self.packages[p].1.clone();
                        let ghost info_g = info;
                        assoc_insert_exec(&mut self.artifact_linked_libs, package_name, info);
                        proof {
                            assert(views(info_g.linked_lib_names@) == entries_of_kind(views(linked_libs@), "dylib"@));
                        }
                    },
                    None => {},
                }
                CargoBuildAction::Nothing
            },
            CargoMessage::TextLine(line) => CargoBuildAction::Println(line),
            CargoMessage::BuildFinished { success } => {
                if !success {
                    CargoBuildAction::Fail(CargoPluginGenerateError::UnsuccessfullCargoBuild)
                } else {
                    CargoBuildAction::Nothing
                }
            },
            CargoMessage::Other => CargoBuildAction::Nothing,
            CargoMessage::Unreadable { error } => {
                CargoBuildAction::Println(concat_str(str_to_string("failed to parse cargo metadata message: "), error.as_str()))
            },
        }
    }
}

/// Position of the first package with the given id.
fn find_package(packages: &Vec<(String, String)>, id: &String) -> (r: Option<usize>)
    ensures
        match r {
            Some(i) => i < packages@.len() && package_with_id(packages@, id@) == Some(i as int),
            None => package_with_id(packages@, id@) is None,
        },
{
    let n = packages.len();
    for i in 0..n
        invariant
            n == packages@.len(),
            package_with_id(packages@.take(i as int), id@) is None,
    {
        proof {
            assert(packages@.take(i + 1).drop_last() =~= packages@.take(i as int));
        }
        if packages[i].0 == *id {
            proof {
                lemma_package_with_id_prefix(packages@, id@, i + 1);
            }
            return Some(i);
        }
    }
    proof {
        assert(packages@.take(n as int) =~= packages@);
    }
    None
}

proof fn lemma_package_with_id_prefix(packages: Seq<(String, String)>, id: Seq<char>, m: int)
    requires
        0 <= m <= packages.len(),
        package_with_id(packages.take(m), id) is Some,
    ensures
        package_with_id(packages, id) == package_with_id(packages.take(m), id),
    decreases packages.len() - m,
{
    if m < packages.len() {
        assert(packages.take(m + 1).drop_last() =~= packages.take(m));
        lemma_package_with_id_prefix(packages, id, m + 1);
    } else {
        assert(packages.take(m) =~= packages);
    }
}


// ---------------------------------------------------------------------------
// The project configuration the cargo plugin generates.

/// A target of a workspace package, with what the plugin reads of it.
#[derive(Debug, Clone, PartialEq, Eq)]
pub struct CargoTargetInfo {
    pub name: String,
    pub is_cdylib: bool,
    pub is_bin: bool,
}

/// A workspace package, with what the plugin reads of it.
#[derive(Debug, Clone, PartialEq, Eq)]
pub struct CargoPackageInfo {
    /// whether its manifest lies inside the project directory
    pub is_inside_project_dir: bool,
    pub targets: Vec<CargoTargetInfo>,
}

/// `cargo:<name>`
pub open spec fn cargo_key(name: Seq<char>) -> Seq<char> {
    cargo_plugin_name() + seq![':'] + name
}

/// A dependency entry of a configuration: name, kinds, provided libraries,
/// names of its subdependencies.
pub type DependencyEntryView = (Seq<char>, (Seq<DependencyKind>, Seq<Seq<char>>, Seq<Seq<char>>));

/// A target entry of a configuration: name, file path, names of its dependencies.
pub type TargetEntryView = (Seq<char>, (PathBuf, Seq<Seq<char>>));

/// What a generated configuration holds so far, and the warnings given so far.
pub type GeneratedView = (Seq<DependencyEntryView>, Seq<TargetEntryView>, Seq<Seq<char>>);

pub open spec fn dependency_entry_view(e: (String, DependencyConfig)) -> DependencyEntryView {
    (e.0@, (e.1.kinds@, views(e.1.provides@), crate::config::ref_names(e.1.subdependencies@)))
}

pub open spec fn target_entry_view(e: (String, TargetConfig)) -> TargetEntryView {
    (e.0@, (e.1.filepath, crate::config::ref_names(e.1.dependencies@)))
}

/// Inserting into a map view by name: the entry with that name is replaced,
/// otherwise the entry is appended.
pub open spec fn view_insert<X>(s: Seq<(Seq<char>, X)>, key: Seq<char>, x: X) -> Seq<(Seq<char>, X)> {
    match view_first_index(s, key) {
        Some(i) => s.update(i, (key, x)),
        None => s.push((key, x)),
    }
}

pub open spec fn view_first_index<X>(s: Seq<(Seq<char>, X)>, key: Seq<char>) -> Option<int>
    decreases s.len(),
{
    if s.len() == 0 {
        None
    } else {
        match view_first_index(s.drop_last(), key) {
            Some(i) => Some(i),
            None => if s.last().0 == key { Some(s.len() - 1) } else { None },
        }
    }
}

/// The file names of the output files that have one, in order.
pub open spec fn output_file_names(files: Seq<ArtifactFile>) -> Seq<Seq<char>>
    decreases files.len(),
{
    if files.len() == 0 {
        Seq::empty()
    } else {
        match files.last().file_name {
            Some(n) => output_file_names(files.drop_last()).push(n@),
            None => output_file_names(files.drop_last()),
        }
    }
}

pub open spec fn more_than_one_output_warning(target_name: Seq<char>) -> Seq<char> {
    "there are more than just one output file associated with the target named '"@ + target_name
        + "', not supported (yet?), target will be ignored!"@
}

pub open spec fn no_output_warning(target_name: Seq<char>) -> Seq<char> {
    "could not find any output file associated with the target named '"@ + target_name
        + "', target will be ignored!"@
}

/// The names of the dynamic libraries the build script of `name` links, as
/// dependency names of the cargo plugin.
pub open spec fn linked_dependency_names(outputs: CargoBuildOutputs, name: Seq<char>) -> Seq<Seq<char>> {
    match first_key_index(outputs.artifact_linked_libs@, name) {
        Some(j) => views(outputs.artifact_linked_libs@[j].1.linked_lib_names@).map_values(|n: Seq<char>| cargo_key(n)),
        None => Seq::empty(),
    }
}

/// One target of a package: a cdylib becomes a dependency that provides its
/// output files, a binary inside the project directory a target that depends
/// on the libraries its build script links; a target that was not built fails
/// the generation with its name.
pub open spec fn target_step(outputs: CargoBuildOutputs, inside: bool, g: Result<GeneratedView, (Seq<char>, Seq<Seq<char>>)>, t: CargoTargetInfo) -> Result<GeneratedView, (Seq<char>, Seq<Seq<char>>)> {
    match g {
        Err(e) => Err(e),
        Ok((deps, targets, warnings)) => {
            if !t.is_cdylib && !t.is_bin {
                g
            } else {
                match first_key_index(outputs.artifact_output_filepaths@, t.name@) {
                    None => Err((t.name@, warnings)),
                    Some(i) => {
                        let files = outputs.artifact_output_filepaths@[i].1@;
                        let key = cargo_key(t.name@);
                        if t.is_cdylib {
                            Ok((view_insert(deps, key, (seq![DependencyKind::Runtime], output_file_names(files), Seq::empty())), targets, warnings))
                        } else if inside {
                            if files.len() == 1 {
                                Ok((deps, view_insert(targets, key, (files[0].path, linked_dependency_names(outputs, t.name@))), warnings))
                            } else if files.len() > 1 {
                                Ok((deps, targets, warnings.push(more_than_one_output_warning(t.name@))))
                            } else {
                                Ok((deps, targets, warnings.push(no_output_warning(t.name@))))
                            }
                        } else {
                            g
                        }
                    },
                }
            }
        },
    }
}

pub open spec fn package_steps(outputs: CargoBuildOutputs, inside: bool, g: Result<GeneratedView, (Seq<char>, Seq<Seq<char>>)>, ts: Seq<CargoTargetInfo>) -> Result<GeneratedView, (Seq<char>, Seq<Seq<char>>)>
    decreases ts.len(),
{
    if ts.len() == 0 {
        g
    } else {
        target_step(outputs, inside, package_steps(outputs, inside, g, ts.drop_last()), ts.last())
    }
}

pub open spec fn packages_steps(outputs: CargoBuildOutputs, g: Result<GeneratedView, (Seq<char>, Seq<Seq<char>>)>, ps: Seq<CargoPackageInfo>) -> Result<GeneratedView, (Seq<char>, Seq<Seq<char>>)>
    decreases ps.len(),
{
    if ps.len() == 0 {
        g
    } else {
        let p = ps.last();
        package_steps(outputs, p.is_inside_project_dir, packages_steps(outputs, g, ps.drop_last()), p.targets@)
    }
}

/// What the cargo plugin generates from the workspace packages and the build outputs.
pub open spec fn generated_config(outputs: CargoBuildOutputs, ps: Seq<CargoPackageInfo>) -> Result<GeneratedView, (Seq<char>, Seq<Seq<char>>)> {
    packages_steps(outputs, Ok((Seq::empty(), Seq::empty(), Seq::empty())), ps)
}


proof fn lemma_first_index_views<V, X>(s: Seq<(String, V)>, key: Seq<char>, f: spec_fn((String, V)) -> (Seq<char>, X))
    requires
        forall|e: (String, V)| #[trigger] f(e).0 == e.0@,
    ensures
        view_first_index(s.map_values(f), key) == first_key_index(s, key),
    decreases s.len(),
{
    if s.len() > 0 {
        assert(s.map_values(f).drop_last() =~= s.drop_last().map_values(f));
        lemma_first_index_views(s.drop_last(), key, f);
        assert(s.map_values(f).last() == f(s.last()));
    }
}

/// Inserting by key commutes with taking views of the entries.
proof fn lemma_view_insert<V, X>(s: Seq<(String, V)>, key: String, value: V, f: spec_fn((String, V)) -> (Seq<char>, X))
    requires
        forall|e: (String, V)| #[trigger] f(e).0 == e.0@,
        forall|k1: String, k2: String, v: V| k1@ == k2@ ==> #[trigger] f((k1, v)) == #[trigger] f((k2, v)),
    ensures
        assoc_insert(s, key, value).map_values(f) == view_insert(s.map_values(f), key@, f((key, value)).1),
{
    lemma_first_index_views(s, key@, f);
    lemma_first_key_index_bounds(s, key@);
    match first_key_index(s, key@) {
        Some(i) => {
            let lhs = assoc_insert(s, key, value).map_values(f);
            let rhs = s.map_values(f).update(i, (key@, f((key, value)).1));
            assert(f((s[i].0, value)) == f((key, value)));
            assert(f((key, value)) == (f((key, value)).0, f((key, value)).1));
            assert forall|j: int| 0 <= j < lhs.len() implies lhs[j] == rhs[j] by {
                if j == i {
                    assert(assoc_insert(s, key, value)[j] == (s[i].0, value));
                }
            }
            assert(lhs =~= rhs);
        },
        None => {
            let lhs = assoc_insert(s, key, value).map_values(f);
            let rhs = s.map_values(f).push((key@, f((key, value)).1));
            assert(f((key, value)) == (f((key, value)).0, f((key, value)).1));
            assert forall|j: int| 0 <= j < lhs.len() implies lhs[j] == rhs[j] by {
                if j == s.len() {
                    assert(assoc_insert(s, key, value)[j] == (key, value));
                }
            }
            assert(lhs =~= rhs);
        },
    }
}

proof fn lemma_package_steps_err(outputs: CargoBuildOutputs, inside: bool, g: Result<GeneratedView, (Seq<char>, Seq<Seq<char>>)>, ts: Seq<CargoTargetInfo>, m: int)
    requires
        0 <= m <= ts.len(),
        package_steps(outputs, inside, g, ts.take(m)) is Err,
    ensures
        package_steps(outputs, inside, g, ts) == package_steps(outputs, inside, g, ts.take(m)),
    decreases ts.len() - m,
{
    if m < ts.len() {
        assert(ts.take(m + 1).drop_last() =~= ts.take(m));
        lemma_package_steps_err(outputs, inside, g, ts, m + 1);
    } else {
        assert(ts.take(m) =~= ts);
    }
}

proof fn lemma_package_steps_of_err(outputs: CargoBuildOutputs, inside: bool, e: (Seq<char>, Seq<Seq<char>>), ts: Seq<CargoTargetInfo>)
    ensures
        package_steps(outputs, inside, Err(e), ts) == Err::<GeneratedView, (Seq<char>, Seq<Seq<char>>)>(e),
    decreases ts.len(),
{
    if ts.len() > 0 {
        lemma_package_steps_of_err(outputs, inside, e, ts.drop_last());
    }
}

proof fn lemma_packages_steps_err(outputs: CargoBuildOutputs, g: Result<GeneratedView, (Seq<char>, Seq<Seq<char>>)>, ps: Seq<CargoPackageInfo>, m: int)
    requires
        0 <= m <= ps.len(),
        packages_steps(outputs, g, ps.take(m)) is Err,
    ensures
        packages_steps(outputs, g, ps) == packages_steps(outputs, g, ps.take(m)),
    decreases ps.len() - m,
{
    if m < ps.len() {
        assert(ps.take(m + 1).drop_last() =~= ps.take(m));
        let e = packages_steps(outputs, g, ps.take(m))->Err_0;
        lemma_package_steps_of_err(outputs, ps[m].is_inside_project_dir, e, ps[m].targets@);
        lemma_packages_steps_err(outputs, g, ps, m + 1);
    } else {
        assert(ps.take(m) =~= ps);
    }
}


/// The file names of the output files that have one.
fn output_file_name_list(files: &Vec<ArtifactFile>) -> (r: Vec<String>)
    ensures
        views(r@) == output_file_names(files@),
{
    let mut r: Vec<String> = Vec::new();
    let n = files.len();
    for k in 0..n
        invariant
            n == files@.len(),
            views(r@) == output_file_names(files@.take(k as int)),
    {
        proof {
            assert(files@.take(k + 1).drop_last() =~= files@.take(k as int));
        }
        match &files[k].file_name {
            Some(file_name) => {
                let ghost before = r@;
                r.push(file_name.clone());
                proof {
                    assert(views(r@) =~= views(before).push(file_name@));
                }
            },
            None => {},
        }
    }
    proof {
        assert(files@.take(n as int) =~= files@);
    }
    r
}

/// The names of the libraries linked by the build script of `name`, as
/// references to dependencies of the cargo plugin.
fn linked_dependencies(outputs: &CargoBuildOutputs, name: &String) -> (r: Vec<DependencyNameOrDependencyConfig>)
    ensures
        crate::config::ref_names(r@) == linked_dependency_names(*outputs, name@),
        all_name_references(r@),
{
    let mut r: Vec<DependencyNameOrDependencyConfig> = Vec::new();
    match find_key(&outputs.artifact_linked_libs, name) {
        Some(j) => {
            proof {
                lemma_first_key_index_bounds(outputs.artifact_linked_libs@, name@);
            }
            let names = &outputs.artifact_linked_libs[j].1.linked_lib_names;
            let ghost target = views(names@).map_values(|n: Seq<char>| cargo_key(n));
            let n = names.len();
            for k in 0..n
                invariant
                    n == names@.len(),
                    target == views(names@).map_values(|n: Seq<char>| cargo_key(n)),
                    crate::config::ref_names(r@) == target.take(k as int),
                    all_name_references(r@),
            {
                let dep_name = CargoPluginProvider::prefix_name(names[k].clone()).to_display_string();
                let ghost before = r@;
                r.push(DependencyNameOrDependencyConfig::Name(dep_name));
                proof {
                    assert(dep_name@ =~= cargo_key(names@[k as int]@));
                    assert(crate::config::ref_names(r@) =~= crate::config::ref_names(before).push(dep_name@));
                    assert(target.take(k + 1) =~= target.take(k as int).push(target[k as int]));
                }
            }
            proof {
                assert(target.take(n as int) =~= target);
            }
        },
        None => {
            proof {
                assert(crate::config::ref_names(r@) =~= Seq::<Seq<char>>::empty());
            }
        },
    }
    r
}


/// The dependency entries of a configuration, by their views.
pub open spec fn config_dependency_views(pc: ProjectConfig) -> Seq<DependencyEntryView> {
    pc.dependencies@.map_values(|e: (String, DependencyConfig)| dependency_entry_view(e))
}

/// The target entries of a configuration, by their views.
pub open spec fn config_target_views(pc: ProjectConfig) -> Seq<TargetEntryView> {
    pc.targets@.map_values(|e: (String, TargetConfig)| target_entry_view(e))
}

impl CargoBuildOutputs {
    /// One target of a workspace package, as `target_step` says; `ws` are the
    /// warnings given so far, the last ones of `warnings`.
    fn generate_for_target(
        &self,
        inside: bool,
        t: &CargoTargetInfo,
        config: &mut ProjectConfig,
        warnings: &mut Vec<String>,
        Ghost(ws): Ghost<Seq<Seq<char>>>,
    ) -> (r: Result<(), CargoPluginGenerateError>)
        requires
            old(config).name is None,
            config_keys_unique(*old(config)),
            targets_reference_by_name(*old(config)),
            views(old(warnings)@).len() >= ws.len(),
            views(old(warnings)@).skip(views(old(warnings)@).len() - ws.len()) == ws,
        ensures
            final(config).name is None,
            config_keys_unique(*final(config)),
            targets_reference_by_name(*final(config)),
            match target_step(*self, inside, Ok((config_dependency_views(*old(config)), config_target_views(*old(config)), ws)), *t) {
                Ok((deps, targets, ws2)) => {
                    &&& r is Ok
                    &&& config_dependency_views(*final(config)) == deps
                    &&& config_target_views(*final(config)) == targets
                    &&& ws2.len() >= ws.len()
                    &&& views(final(warnings)@) == views(old(warnings)@) + ws2.skip(ws.len() as int)
                },
                Err((name, ws2)) => {
                    &&& r matches Err(CargoPluginGenerateError::DidNotFindArtifactOutputFilepath { artifact_name })
                    &&& artifact_name@ == name
                    &&& ws2 == ws
                    &&& final(warnings)@ == old(warnings)@
                },
            },
    {
        let ghost g = Ok::<GeneratedView, (Seq<char>, Seq<Seq<char>>)>((config_dependency_views(*config), config_target_views(*config), ws));
        if !t.is_cdylib && !t.is_bin {
            proof {
                assert(ws.skip(ws.len() as int) =~= Seq::<Seq<char>>::empty());
                assert(views(warnings@) =~= views(warnings@) + Seq::<Seq<char>>::empty());
            }
            return Ok(());
        }
        let i = match find_key(&self.artifact_output_filepaths, &t.name) {
            Some(i) => i,
            None => {
                return Err(CargoPluginGenerateError::DidNotFindArtifactOutputFilepath { artifact_name: t.name.clone() });
            },
        };
        proof {
            lemma_first_key_index_bounds(self.artifact_output_filepaths@, t.name@);
        }
        let files = &self.artifact_output_filepaths[i].1;
        let key = CargoPluginProvider::prefix_name(t.name.clone()).to_display_string();
        proof {
            reveal_strlit("cargo");
            assert(key@ =~= cargo_key(t.name@));
            assert(ws.skip(ws.len() as int) =~= Seq::<Seq<char>>::empty());
        }
        if t.is_cdylib {
            let mut kinds: Vec<DependencyKind> = Vec::new();
            kinds.push(DependencyKind::Runtime);
            let dependency = DependencyConfig {
                kinds,
                provides: output_file_name_list(files),
                subdependencies: Vec::new(),
            };
            let ghost before = config.dependencies@;
            let ghost entry = (key, dependency);
            proof {
                assert(dependency_entry_view(entry).1 =~= (seq![DependencyKind::Runtime], output_file_names(files@), Seq::<Seq<char>>::empty()));
                lemma_view_insert(before, key, dependency, |e: (String, DependencyConfig)| dependency_entry_view(e));
            }
            proof {
                lemma_assoc_insert_keys_unique(config.dependencies@, key, dependency);
            }
            assoc_insert_exec(&mut config.dependencies, key, dependency);
            proof {
                assert(views(warnings@) =~= views(warnings@) + Seq::<Seq<char>>::empty());
            }
            Ok(())
        } else if inside {
            if files.len() == 1 {
                let target = TargetConfig {
                    filepath: files[0].path.clone(),
                    dependencies: linked_dependencies(self, &t.name),
                };
                let ghost before = config.targets@;
                proof {
                    lemma_view_insert(before, key, target, |e: (String, TargetConfig)| target_entry_view(e));
                }
                proof {
                    lemma_assoc_insert_keys_unique(config.targets@, key, target);
                    lemma_assoc_insert_entries(config.targets@, key, target);
                }
                assoc_insert_exec(&mut config.targets, key, target);
                proof {
                    assert(views(warnings@) =~= views(warnings@) + Seq::<Seq<char>>::empty());
                }
                Ok(())
            } else {
                let w = if files.len() > 1 {
                    let w = concat_str(str_to_string("there are more than just one output file associated with the target named '"), t.name.as_str());
                    concat_str(w, "', not supported (yet?), target will be ignored!")
                } else {
                    let w = concat_str(str_to_string("could not find any output file associated with the target named '"), t.name.as_str());
                    concat_str(w, "', target will be ignored!")
                };
                let ghost before = warnings@;
                warnings.push(w);
                proof {
                    assert(views(warnings@) =~= views(before).push(w@));
                    assert(ws.push(w@).skip(ws.len() as int) =~= seq![w@]);
                }
                Ok(())
            }
        } else {
            proof {
                assert(views(warnings@) =~= views(warnings@) + Seq::<Seq<char>>::empty());
            }
            Ok(())
        }
    }
}


impl CargoBuildOutputs {
    /// The project configuration the cargo plugin generates once the build is
    /// over: for each target of the workspace packages, in order, what
    /// `target_step` says; warnings are added to `warnings`.
    pub fn generate_project_config(
        &self,
        workspace_packages: &Vec<CargoPackageInfo>,
        warnings: &mut Vec<String>,
    ) -> (r: Result<ProjectConfig, CargoPluginGenerateError>)
        ensures
            match generated_config(*self, workspace_packages@) {
                Ok((deps, targets, ws)) => {
                    &&& r matches Ok(pc)
                    &&& pc.name is None
                    &&& config_keys_unique(pc)
                    &&& targets_reference_by_name(pc)
                    &&& config_dependency_views(pc) == deps
                    &&& config_target_views(pc) == targets
                    &&& views(final(warnings)@) == views(old(warnings)@) + ws
                },
                Err((name, ws)) => {
                    &&& r matches Err(CargoPluginGenerateError::DidNotFindArtifactOutputFilepath { artifact_name })
                    &&& artifact_name@ == name
                    &&& views(final(warnings)@) == views(old(warnings)@) + ws
                },
            },
    {
        let mut config = ProjectConfig::default();
        let ghost w0 = views(warnings@);
        let ghost mut ws: Seq<Seq<char>> = Seq::empty();
        let ghost init = Ok::<GeneratedView, (Seq<char>, Seq<Seq<char>>)>((Seq::empty(), Seq::empty(), Seq::empty()));
        proof {
            assert(config_dependency_views(config) =~= Seq::<DependencyEntryView>::empty());
            assert(config_target_views(config) =~= Seq::<TargetEntryView>::empty());
            assert(views(warnings@) =~= w0 + ws);
        }
        let np = workspace_packages.len();
        for pi in 0..np
            invariant
                np == workspace_packages@.len(),
                w0 == views(old(warnings)@),
                config.name is None,
                config_keys_unique(config),
                targets_reference_by_name(config),
                views(warnings@) == w0 + ws,
                init == Ok::<GeneratedView, (Seq<char>, Seq<Seq<char>>)>((Seq::empty(), Seq::empty(), Seq::empty())),
                packages_steps(*self, init, workspace_packages@.take(pi as int))
                    == Ok::<GeneratedView, (Seq<char>, Seq<Seq<char>>)>((config_dependency_views(config), config_target_views(config), ws)),
        {
            let package = &workspace_packages[pi];
            let inside = package.is_inside_project_dir;
            let ghost start = packages_steps(*self, init, workspace_packages@.take(pi as int));
            proof {
                assert(workspace_packages@.take(pi + 1).drop_last() =~= workspace_packages@.take(pi as int));
                assert(package_steps(*self, inside, start, package.targets@.take(0)) == start);
            }
            let nt = package.targets.len();
            for ti in 0..nt
                invariant
                    np == workspace_packages@.len(),
                    pi < np,
                    package == workspace_packages@[pi as int],
                    inside == package.is_inside_project_dir,
                    nt == package.targets@.len(),
                    w0 == views(old(warnings)@),
                    config.name is None,
                    config_keys_unique(config),
                    targets_reference_by_name(config),
                    views(warnings@) == w0 + ws,
                    init == Ok::<GeneratedView, (Seq<char>, Seq<Seq<char>>)>((Seq::empty(), Seq::empty(), Seq::empty())),
                    start == packages_steps(*self, init, workspace_packages@.take(pi as int)),
                    package_steps(*self, inside, start, package.targets@.take(ti as int))
                        == Ok::<GeneratedView, (Seq<char>, Seq<Seq<char>>)>((config_dependency_views(config), config_target_views(config), ws)),
            {
                let t = &package.targets[ti];
                proof {
                    assert(package.targets@.take(ti + 1).drop_last() =~= package.targets@.take(ti as int));
                    assert(views(warnings@).skip(views(warnings@).len() - ws.len()) =~= ws);
                }
                let ghost old_config = config;
                match self.generate_for_target(inside, t, &mut config, warnings, Ghost(ws)) {
                    Ok(()) => {
                        proof {
                            let ws2 = package_steps(*self, inside, start, package.targets@.take(ti + 1))->Ok_0.2;
                            assert(ws2 =~= ws + ws2.skip(ws.len() as int));
                            ws = ws2;
                        }
                    },
                    Err(e) => {
                        proof {
                            lemma_package_steps_err(*self, inside, start, package.targets@, ti + 1);
                            assert(workspace_packages@.take(pi + 1).drop_last() =~= workspace_packages@.take(pi as int));
                            assert(workspace_packages@.take(pi + 1).last() == package);
                            assert(packages_steps(*self, init, workspace_packages@.take(pi + 1)) == package_steps(*self, inside, start, package.targets@));
                            assert(package_steps(*self, inside, start, package.targets@.take(ti + 1)) == target_step(*self, inside, Ok((config_dependency_views(old_config), config_target_views(old_config), ws)), *t));
                            lemma_packages_steps_err(*self, init, workspace_packages@, pi + 1);
                        }
                        return Err(e);
                    },
                }
            }
            proof {
                assert(package.targets@.take(nt as int) =~= package.targets@);
            }
        }
        proof {
            assert(workspace_packages@.take(np as int) =~= workspace_packages@);
        }
        Ok(config)
    }
}


/// Whether a name lies in the namespace of the cargo plugin: `cargo:<name>`.
pub open spec fn cargo_named(s: Seq<char>) -> bool {
    &&& s.len() >= 6
    &&& s.take(6) == cargo_plugin_name() + seq![':']
}

/// Every name of a generated configuration lies in the namespace of the
/// cargo plugin: its dependencies, its targets and what the targets depend on.
pub open spec fn generated_in_cargo_namespace(g: GeneratedView) -> bool {
    &&& forall|i: int| 0 <= i < g.0.len() ==> cargo_named(#[trigger] g.0[i].0)
    &&& forall|i: int| 0 <= i < g.1.len() ==> cargo_named(#[trigger] g.1[i].0)
    &&& forall|i: int, j: int| 0 <= i < g.1.len() && 0 <= j < g.1[i].1.1.len() ==> cargo_named(#[trigger] g.1[i].1.1[j])
}

proof fn lemma_cargo_key_named(n: Seq<char>)
    ensures
        cargo_named(cargo_key(n)),
{
    assert(cargo_key(n).take(6) =~= cargo_plugin_name() + seq![':']);
}

proof fn lemma_view_first_index_bounds<X>(s: Seq<(Seq<char>, X)>, key: Seq<char>)
    ensures
        view_first_index(s, key) matches Some(i) ==> 0 <= i < s.len(),
    decreases s.len(),
{
    if s.len() > 0 {
        lemma_view_first_index_bounds(s.drop_last(), key);
    }
}

proof fn lemma_view_insert_entries<X>(s: Seq<(Seq<char>, X)>, key: Seq<char>, x: X)
    ensures
        view_insert(s, key, x).len() >= s.len(),
        forall|i: int| 0 <= i < view_insert(s, key, x).len() ==>
            #[trigger] view_insert(s, key, x)[i] == (key, x) || (i < s.len() && view_insert(s, key, x)[i] == s[i]),
{
    lemma_view_first_index_bounds(s, key);
}

proof fn lemma_target_step_namespace(outputs: CargoBuildOutputs, inside: bool, g: Result<GeneratedView, (Seq<char>, Seq<Seq<char>>)>, t: CargoTargetInfo)
    requires
        g matches Ok(v) ==> generated_in_cargo_namespace(v),
    ensures
        target_step(outputs, inside, g, t) matches Ok(v) ==> generated_in_cargo_namespace(v),
{
    if let Ok((deps, targets, warnings)) = g {
        if t.is_cdylib || t.is_bin {
            if let Some(i) = first_key_index(outputs.artifact_output_filepaths@, t.name@) {
                let files = outputs.artifact_output_filepaths@[i].1@;
                let key = cargo_key(t.name@);
                lemma_cargo_key_named(t.name@);
                if t.is_cdylib {
                    let x = (seq![DependencyKind::Runtime], output_file_names(files), Seq::<Seq<char>>::empty());
                    lemma_view_insert_entries(deps, key, x);
                    let d2 = view_insert(deps, key, x);
                    assert forall|k: int| 0 <= k < d2.len() implies cargo_named(#[trigger] d2[k].0) by {
                        if d2[k] != (key, x) {
                            assert(cargo_named(deps[k].0));
                        }
                    }
                } else if inside && files.len() == 1 {
                    let refs = linked_dependency_names(outputs, t.name@);
                    assert forall|j: int| 0 <= j < refs.len() implies cargo_named(#[trigger] refs[j]) by {
                        let lj = first_key_index(outputs.artifact_linked_libs@, t.name@)->Some_0;
                        let names = views(outputs.artifact_linked_libs@[lj].1.linked_lib_names@);
                        lemma_cargo_key_named(names[j]);
                    }
                    let x = (files[0].path, refs);
                    lemma_view_insert_entries(targets, key, x);
                    let t2 = view_insert(targets, key, x);
                    assert forall|k: int| 0 <= k < t2.len() implies cargo_named(#[trigger] t2[k].0) by {
                        if t2[k] != (key, x) {
                            assert(cargo_named(targets[k].0));
                        }
                    }
                    assert forall|k: int, j: int| 0 <= k < t2.len() && 0 <= j < t2[k].1.1.len() implies cargo_named(#[trigger] t2[k].1.1[j]) by {
                        if t2[k] != (key, x) {
                            assert(t2[k] == targets[k]);
                            assert(cargo_named(targets[k].1.1[j]));
                        } else {
                            assert(cargo_named(refs[j]));
                        }
                    }
                }
            }
        }
    }
}

proof fn lemma_package_steps_namespace(outputs: CargoBuildOutputs, inside: bool, g: Result<GeneratedView, (Seq<char>, Seq<Seq<char>>)>, ts: Seq<CargoTargetInfo>)
    requires
        g matches Ok(v) ==> generated_in_cargo_namespace(v),
    ensures
        package_steps(outputs, inside, g, ts) matches Ok(v) ==> generated_in_cargo_namespace(v),
    decreases ts.len(),
{
    if ts.len() > 0 {
        lemma_package_steps_namespace(outputs, inside, g, ts.drop_last());
        lemma_target_step_namespace(outputs, inside, package_steps(outputs, inside, g, ts.drop_last()), ts.last());
    }
}

proof fn lemma_packages_steps_namespace(outputs: CargoBuildOutputs, g: Result<GeneratedView, (Seq<char>, Seq<Seq<char>>)>, ps: Seq<CargoPackageInfo>)
    requires
        g matches Ok(v) ==> generated_in_cargo_namespace(v),
    ensures
        packages_steps(outputs, g, ps) matches Ok(v) ==> generated_in_cargo_namespace(v),
    decreases ps.len(),
{
    if ps.len() > 0 {
        lemma_packages_steps_namespace(outputs, g, ps.drop_last());
        let p = ps.last();
        lemma_package_steps_namespace(outputs, p.is_inside_project_dir, packages_steps(outputs, g, ps.drop_last()), p.targets@);
    }
}

/// Everything the cargo plugin generates lies in its own namespace: each
/// dependency and each target it generates is named `cargo:<target name>`,
/// and each dependency of a generated target is a `cargo:` name as well.
pub proof fn lemma_generated_names_in_cargo_namespace(outputs: CargoBuildOutputs, ps: Seq<CargoPackageInfo>)
    ensures
        generated_config(outputs, ps) matches Ok(v) ==> generated_in_cargo_namespace(v),
{
    lemma_packages_steps_namespace(outputs, Ok((Seq::empty(), Seq::empty(), Seq::empty())), ps);
}


pub(crate) proof fn lemma_first_key_index_none<V>(s: Seq<(String, V)>, key: Seq<char>)
    ensures
        first_key_index(s, key) is None ==> !keys(s).contains(key),
    decreases s.len(),
{
    if s.len() > 0 {
        lemma_first_key_index_none(s.drop_last(), key);
        if first_key_index(s, key) is None && keys(s).contains(key) {
            let k = choose|k: int| 0 <= k < keys(s).len() && keys(s)[k] == key;
            if k < s.len() - 1 {
                assert(keys(s.drop_last())[k] == key);
            }
        }
    }
}

/// Inserting by key keeps the keys unique.
proof fn lemma_assoc_insert_keys_unique<V>(s: Seq<(String, V)>, key: String, value: V)
    requires
        keys(s).no_duplicates(),
    ensures
        keys(assoc_insert(s, key, value)).no_duplicates(),
{
    lemma_first_key_index_bounds(s, key@);
    lemma_first_key_index_none(s, key@);
    match first_key_index(s, key@) {
        Some(i) => {
            assert(keys(assoc_insert(s, key, value)) =~= keys(s));
        },
        None => {
            let k2 = keys(assoc_insert(s, key, value));
            assert(k2 =~= keys(s).push(key@));
            assert forall|x: int, y: int| 0 <= x < k2.len() && 0 <= y < k2.len() && x != y implies k2[x] != k2[y] by {
                if x < s.len() && y < s.len() {
                    assert(k2[x] == keys(s)[x] && k2[y] == keys(s)[y]);
                } else if x < s.len() {
                    assert(k2[x] == keys(s)[x]);
                } else {
                    assert(k2[y] == keys(s)[y]);
                }
            }
        },
    }
}


/// Every entry of the list refers to a dependency by name; none declares one inline.
pub open spec fn all_name_references(l: Seq<DependencyNameOrDependencyConfig>) -> bool {
    forall|j: int| 0 <= j < l.len() ==> (#[trigger] l[j]) is Name
}

/// The targets of the configuration refer to their dependencies by name only.
pub open spec fn targets_reference_by_name(pc: ProjectConfig) -> bool {
    forall|t: int| 0 <= t < pc.targets@.len() ==> all_name_references((#[trigger] pc.targets@[t]).1.dependencies@)
}

/// Inserting by key leaves every entry as it was, but for the one that gets the new value.
proof fn lemma_assoc_insert_entries<V>(s: Seq<(String, V)>, key: String, value: V)
    ensures
        forall|i: int| 0 <= i < assoc_insert(s, key, value).len() ==>
            (#[trigger] assoc_insert(s, key, value)[i]).1 == value || (i < s.len() && assoc_insert(s, key, value)[i] == s[i]),
{
    lemma_first_key_index_bounds(s, key@);
}


/// A binary target built into exactly one file, in a package inside the
/// project directory, becomes the target `cargo:<name>` at that file, whose
/// dependencies are exactly the dynamic libraries the build script of the
/// package of that name links, in order, each as `cargo:<library>`; none
/// when no build script reported libraries for it.
pub proof fn lemma_generated_binary_target(outputs: CargoBuildOutputs, ps: Seq<CargoPackageInfo>)
    requires
        ps.len() == 1,
        ps[0].is_inside_project_dir,
        ps[0].targets@.len() == 1,
        ps[0].targets@[0].is_bin,
        !ps[0].targets@[0].is_cdylib,
        first_key_index(outputs.artifact_output_filepaths@, ps[0].targets@[0].name@) is Some,
        outputs.artifact_output_filepaths@[
            first_key_index(outputs.artifact_output_filepaths@, ps[0].targets@[0].name@)->0].1@.len() == 1,
    ensures
        ({
            let t = ps[0].targets@[0];
            let files = outputs.artifact_output_filepaths@[first_key_index(outputs.artifact_output_filepaths@, t.name@)->0].1@;
            &&& generated_config(outputs, ps) matches Ok((deps, targets, ws))
            &&& deps.len() == 0
            &&& ws.len() == 0
            &&& targets.len() == 1
            &&& targets[0].0 == cargo_key(t.name@)
            &&& targets[0].1.0 == files[0].path
            &&& match first_key_index(outputs.artifact_linked_libs@, t.name@) {
                Some(j) => {
                    let libs = outputs.artifact_linked_libs@[j].1.linked_lib_names@;
                    &&& targets[0].1.1.len() == libs.len()
                    &&& forall|m: int| 0 <= m < libs.len() ==> #[trigger] targets[0].1.1[m] == cargo_key(libs[m]@)
                },
                None => targets[0].1.1.len() == 0,
            }
        }),
{
    let t = ps[0].targets@[0];
    let empty = Ok::<GeneratedView, (Seq<char>, Seq<Seq<char>>)>((Seq::empty(), Seq::empty(), Seq::empty()));
    assert(ps.drop_last() =~= Seq::<CargoPackageInfo>::empty());
    assert(packages_steps(outputs, empty, ps.drop_last()) == empty);
    assert(ps[0].targets@.drop_last() =~= Seq::<CargoTargetInfo>::empty());
    assert(package_steps(outputs, true, empty, ps[0].targets@.drop_last()) == empty);
    assert(package_steps(outputs, true, empty, ps[0].targets@) == target_step(outputs, true, empty, t));
    assert(generated_config(outputs, ps) == package_steps(outputs, true, empty, ps[0].targets@));
    let refs = linked_dependency_names(outputs, t.name@);
    let files = outputs.artifact_output_filepaths@[first_key_index(outputs.artifact_output_filepaths@, t.name@)->0].1@;
    let key = cargo_key(t.name@);
    assert(view_first_index(Seq::<TargetEntryView>::empty(), key) is None);
    assert(view_insert(Seq::<TargetEntryView>::empty(), key, (files[0].path, refs)) =~= seq![(key, (files[0].path, refs))]);
}

}
