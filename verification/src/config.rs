use vstd::prelude::*;
use std::path::PathBuf;

verus! {

#[verifier::external_type_specification]
#[verifier::external_body]
pub struct ExPathBuf(PathBuf);

/// `PathBuf::clone` gives the same path.
pub assume_specification[ <PathBuf as Clone>::clone ](p: &PathBuf) -> (r: PathBuf)
    ensures
        r == *p,
;

#[verifier::external_type_specification]
#[verifier::external_body]
pub struct ExTomlValue(toml::Value);

/// What kind of dependency, so when is it needed.
#[derive(Debug, Clone, Copy, PartialEq, Eq, Hash, Structural)]
pub enum DependencyKind {
    /// needed when running the program
    Runtime,
    /// needed when building/compiling the program
    Build,
}

/// The configuration of one dependency; its name is the key it is stored under.
#[derive(Debug, PartialEq, Eq, Hash)]
pub struct DependencyConfig {
    /// what kind the dependency is, when it is used; can be multiple kinds
    pub kinds: Vec<DependencyKind>,
    /// what shared libraries this dependency provides
    pub provides: Vec<String>,
    /// subdependencies required by this dependency
    pub subdependencies: Vec<DependencyNameOrDependencyConfig>,
}

/// A dependency configuration together with its name.
#[derive(Debug, PartialEq, Eq, Hash)]
pub struct NamedDependencyConfig {
    pub name: String,
    pub config: DependencyConfig,
}

impl NamedDependencyConfig {
    pub fn new(name: String, config: DependencyConfig) -> (r: Self)
        ensures
            r.name == name,
            r.config == config,
    {
        Self { name, config }
    }
}

/// Dependencies can either be referenced by their unique name, or declared
/// explicitly inline.
#[derive(Debug, PartialEq, Eq, Hash)]
pub enum DependencyNameOrDependencyConfig {
    Name(String),
    Config(NamedDependencyConfig),
}

/// A copy of a list of dependency kinds.
pub(crate) fn copy_kinds(v: &Vec<DependencyKind>) -> (r: Vec<DependencyKind>)
    ensures
        r@ == v@,
{
    let mut r: Vec<DependencyKind> = Vec::new();
    let n = v.len();
    for i in 0..n
        invariant
            n == v@.len(),
            r@ == v@.take(i as int),
    {
        r.push(v[i]);
        proof {
            assert(r@ =~= v@.take(i + 1));
        }
    }
    proof {
        assert(v@.take(n as int) =~= v@);
    }
    r
}

/// A copy of a list of strings.
pub(crate) fn clone_strings(v: &Vec<String>) -> (r: Vec<String>)
    ensures
        r@ == v@,
{
    let mut r: Vec<String> = Vec::new();
    let n = v.len();
    for i in 0..n
        invariant
            n == v@.len(),
            r@ == v@.take(i as int),
    {
        r.push(v[i].clone());
        proof {
            assert(r@ =~= v@.take(i + 1));
        }
    }
    proof {
        assert(v@.take(n as int) =~= v@);
    }
    r
}

/// `a` and `b` hold the same configuration: the same kinds, the same
/// libraries and, entry for entry, the same subdependencies.
pub open spec fn same_config(a: DependencyConfig, b: DependencyConfig) -> bool
    decreases a, 2int,
{
    &&& a.kinds@ == b.kinds@
    &&& a.provides@ == b.provides@
    &&& same_refs(a.subdependencies@, b.subdependencies@)
}

/// Entry for entry the same subdependencies.
pub open spec fn same_refs(a: Seq<DependencyNameOrDependencyConfig>, b: Seq<DependencyNameOrDependencyConfig>) -> bool
    decreases a, 1int,
{
    &&& a.len() == b.len()
    &&& a.len() > 0 ==> {
        &&& same_refs(a.drop_last(), b.drop_last())
        &&& same_ref(a.last(), b.last())
    }
}

/// The same reference, or the same inline declaration.
pub open spec fn same_ref(a: DependencyNameOrDependencyConfig, b: DependencyNameOrDependencyConfig) -> bool
    decreases a, 0int,
{
    match (a, b) {
        (DependencyNameOrDependencyConfig::Name(x), DependencyNameOrDependencyConfig::Name(y)) => x == y,
        (DependencyNameOrDependencyConfig::Config(x), DependencyNameOrDependencyConfig::Config(y)) => {
            x.name == y.name && same_config(x.config, y.config)
        },
        _ => false,
    }
}

/// A copy of a list of subdependencies, entry for entry.
fn clone_subdependencies(v: &Vec<DependencyNameOrDependencyConfig>) -> (r: Vec<DependencyNameOrDependencyConfig>)
    ensures
        same_refs(r@, v@),
    decreases v@,
{
    let mut r: Vec<DependencyNameOrDependencyConfig> = Vec::new();
    let n = v.len();
    for i in 0..n
        invariant
            n == v@.len(),
            same_refs(r@, v@.take(i as int)),
            r@.len() == i,
    {
        let item = match &v[i] {
            DependencyNameOrDependencyConfig::Name(name) => DependencyNameOrDependencyConfig::Name(name.clone()),
            DependencyNameOrDependencyConfig::Config(named) => {
                proof {
                    assert(decreases_to!(v@ => v@[i as int]));
                }
                let config = DependencyConfig {
                    kinds: copy_kinds(&named.config.kinds),
                    provides: clone_strings(&named.config.provides),
                    subdependencies: clone_subdependencies(&named.config.subdependencies),
                };
                DependencyNameOrDependencyConfig::Config(NamedDependencyConfig { name: named.name.clone(), config })
            },
        };
        assert(same_ref(item, v@[i as int]));
        let ghost before = r@;
        r.push(item);
        proof {
            assert(r@.drop_last() =~= before);
            assert(v@.take(i + 1).drop_last() =~= v@.take(i as int));
            assert(v@.take(i + 1).last() == v@[i as int]);
            assert(same_refs(r@, v@.take(i + 1)));
        }
    }
    proof {
        assert(v@.take(n as int) =~= v@);
    }
    r
}

impl Clone for DependencyConfig {
    /// A copy, entry for entry.
    fn clone(&self) -> (r: Self)
        ensures
            same_config(r, *self),
    {
        DependencyConfig {
            kinds: copy_kinds(&self.kinds),
            provides: clone_strings(&self.provides),
            subdependencies: clone_subdependencies(&self.subdependencies),
        }
    }
}

impl Clone for NamedDependencyConfig {
    /// A copy, entry for entry.
    fn clone(&self) -> (r: Self)
        ensures
            r.name == self.name,
            same_config(r.config, self.config),
    {
        NamedDependencyConfig { name: self.name.clone(), config: self.config.clone() }
    }
}

impl Clone for DependencyNameOrDependencyConfig {
    /// A copy, entry for entry.
    fn clone(&self) -> (r: Self)
        ensures
            same_ref(r, *self),
    {
        match self {
            DependencyNameOrDependencyConfig::Name(name) => DependencyNameOrDependencyConfig::Name(name.clone()),
            DependencyNameOrDependencyConfig::Config(named) => DependencyNameOrDependencyConfig::Config(named.clone()),
        }
    }
}

/// A field that accepts a single value or a sequence of values.
#[derive(Debug)]
pub enum OneOrMany<T> {
    One(T),
    Many(Vec<T>),
}

impl<T> OneOrMany<T> {
    pub fn make_vec(self) -> (r: Vec<T>)
        ensures
            match self {
                OneOrMany::One(single) => r@ == seq![single],
                OneOrMany::Many(v) => r@ == v@,
            },
    {
        match self {
            OneOrMany::One(single) => {
                let mut v = Vec::new();
                v.push(single);
                v
            },
            OneOrMany::Many(v) => v,
        }
    }
}

/// target <=> executable; the name of the target is the key it is stored under
#[derive(Debug, Clone, PartialEq, Eq, Hash)]
pub struct TargetConfig {
    pub filepath: PathBuf,
    /// the dependencies of the target, by name or declared inline
    pub dependencies: Vec<DependencyNameOrDependencyConfig>,
}

/// Configuration of a project.
/// Named entries are held as lists of (name, value) pairs; `==` compares
/// those lists entry by entry, in order.
#[derive(Debug, Clone, PartialEq, Eq)]
pub struct ProjectConfig {
    /// name of the entire project (optional)
    pub name: Option<String>,
    /// dependency configurations that are reused in multiple targets, by name
    pub dependencies: Vec<(String, DependencyConfig)>,
    /// the targets of the project, by name
    pub targets: Vec<(String, TargetConfig)>,
}

#[derive(Debug, Clone, PartialEq, Eq)]
pub enum MergeProjectConfigError {
    MultipleDifferentProjectNames,
    DublicateTarget,
    DublicateDependency,
}

// ---------------------------------------------------------------------------
// The model: what a configuration declares and references.

/// The name that a list entry refers to: a plain reference or an inline declaration.
pub open spec fn ref_name(d: DependencyNameOrDependencyConfig) -> Seq<char> {
    match d {
        DependencyNameOrDependencyConfig::Name(n) => n@,
        DependencyNameOrDependencyConfig::Config(nc) => nc.name@,
    }
}

/// The names a list of subdependencies refers to, in order.
pub open spec fn ref_names(l: Seq<DependencyNameOrDependencyConfig>) -> Seq<Seq<char>> {
    l.map_values(|d: DependencyNameOrDependencyConfig| ref_name(d))
}

/// Declarations made inline in a list of subdependencies, in pre-order.
pub open spec fn inline_decls(l: Seq<DependencyNameOrDependencyConfig>) -> Seq<(Seq<char>, DependencyConfig)>
    decreases l, 1int,
{
    if l.len() == 0 {
        Seq::empty()
    } else {
        inline_decls(l.drop_last()) + item_decls(l.last())
    }
}

/// Declarations made by one list entry: none for a reference; the entry itself
/// followed by what its own subdependencies declare for an inline declaration.
pub open spec fn item_decls(d: DependencyNameOrDependencyConfig) -> Seq<(Seq<char>, DependencyConfig)>
    decreases d, 0int,
{
    match d {
        DependencyNameOrDependencyConfig::Name(_) => Seq::empty(),
        DependencyNameOrDependencyConfig::Config(nc) => {
            seq![(nc.name@, nc.config)] + inline_decls(nc.config.subdependencies@)
        },
    }
}

/// The keys of an association list, by their views.
pub open spec fn keys<V>(s: Seq<(String, V)>) -> Seq<Seq<char>> {
    s.map_values(|p: (String, V)| p.0@)
}

/// The top-level dependency declarations of a project.
pub open spec fn top_decls(ds: Seq<(String, DependencyConfig)>) -> Seq<(Seq<char>, DependencyConfig)> {
    ds.map_values(|p: (String, DependencyConfig)| (p.0@, p.1))
}

/// What the subdependencies of the top-level dependencies declare inline, in order.
pub open spec fn nested_in_dependencies(ds: Seq<(String, DependencyConfig)>) -> Seq<(Seq<char>, DependencyConfig)>
    decreases ds.len(),
{
    if ds.len() == 0 {
        Seq::empty()
    } else {
        nested_in_dependencies(ds.drop_last()) + inline_decls(ds.last().1.subdependencies@)
    }
}

/// What the dependency lists of the targets declare inline, in order.
pub open spec fn nested_in_targets(ts: Seq<(String, TargetConfig)>) -> Seq<(Seq<char>, DependencyConfig)>
    decreases ts.len(),
{
    if ts.len() == 0 {
        Seq::empty()
    } else {
        nested_in_targets(ts.drop_last()) + inline_decls(ts.last().1.dependencies@)
    }
}

/// Every dependency declaration of a project, in the order they are collected:
/// the top-level ones, then those nested in them, then those inside the targets.
pub open spec fn project_decls(pc: ProjectConfig) -> Seq<(Seq<char>, DependencyConfig)> {
    top_decls(pc.dependencies@) + nested_in_dependencies(pc.dependencies@) + nested_in_targets(pc.targets@)
}

/// The names of a list of declarations.
pub open spec fn decl_names(d: Seq<(Seq<char>, DependencyConfig)>) -> Seq<Seq<char>> {
    d.map_values(|p: (Seq<char>, DependencyConfig)| p.0)
}

/// The value `count_dependency_declarations` computes.
pub open spec fn counted_declarations(pc: ProjectConfig) -> int {
    pc.dependencies@.len() + nested_in_targets(pc.targets@).len() as int
}

pub proof fn lemma_inline_decls_step(l: Seq<DependencyNameOrDependencyConfig>, i: int)
    requires
        0 <= i < l.len(),
    ensures
        inline_decls(l.take(i + 1)) == inline_decls(l.take(i)) + item_decls(l[i]),
{
    assert(l.take(i + 1).drop_last() =~= l.take(i));
}

pub proof fn lemma_nested_in_targets_step(ts: Seq<(String, TargetConfig)>, i: int)
    requires
        0 <= i < ts.len(),
    ensures
        nested_in_targets(ts.take(i + 1)) == nested_in_targets(ts.take(i)) + inline_decls(ts[i].1.dependencies@),
{
    assert(ts.take(i + 1).drop_last() =~= ts.take(i));
}

pub proof fn lemma_nested_in_dependencies_step(ds: Seq<(String, DependencyConfig)>, i: int)
    requires
        0 <= i < ds.len(),
    ensures
        nested_in_dependencies(ds.take(i + 1)) == nested_in_dependencies(ds.take(i)) + inline_decls(ds[i].1.subdependencies@),
{
    assert(ds.take(i + 1).drop_last() =~= ds.take(i));
}

pub proof fn lemma_inline_decls_prefix_len(l: Seq<DependencyNameOrDependencyConfig>, i: int)
    requires
        0 <= i <= l.len(),
    ensures
        inline_decls(l.take(i)).len() <= inline_decls(l).len(),
    decreases l.len() - i,
{
    if i < l.len() {
        lemma_inline_decls_step(l, i);
        lemma_inline_decls_prefix_len(l, i + 1);
    } else {
        assert(l.take(i) =~= l);
    }
}

pub proof fn lemma_nested_in_targets_prefix_len(ts: Seq<(String, TargetConfig)>, i: int)
    requires
        0 <= i <= ts.len(),
    ensures
        nested_in_targets(ts.take(i)).len() <= nested_in_targets(ts).len(),
    decreases ts.len() - i,
{
    if i < ts.len() {
        lemma_nested_in_targets_step(ts, i);
        lemma_nested_in_targets_prefix_len(ts, i + 1);
    } else {
        assert(ts.take(i) =~= ts);
    }
}

/// Counts the declarations a list of subdependencies makes inline.
fn count_inline_declarations(subdependencies: &Vec<DependencyNameOrDependencyConfig>) -> (r: usize)
    requires
        inline_decls(subdependencies@).len() <= usize::MAX,
    ensures
        r == inline_decls(subdependencies@).len(),
    decreases subdependencies@,
{
    let mut count: usize = 0;
    let n = subdependencies.len();
    for i in 0..n
        invariant
            n == subdependencies@.len(),
            inline_decls(subdependencies@).len() <= usize::MAX,
            count == inline_decls(subdependencies@.take(i as int)).len(),
    {
        proof {
            lemma_inline_decls_step(subdependencies@, i as int);
            lemma_inline_decls_prefix_len(subdependencies@, i + 1);
        }
        match &subdependencies[i] {
            DependencyNameOrDependencyConfig::Name(_) => {},
            DependencyNameOrDependencyConfig::Config(subdep) => {
                proof {
                    assert(decreases_to!(subdependencies@ => subdependencies@[i as int]));
                }
                let inner = count_inline_declarations(&subdep.config.subdependencies);
                count = count + 1 + inner;
            },
        }
    }
    proof {
        assert(subdependencies@.take(n as int) =~= subdependencies@);
    }
    count
}

impl ProjectConfig {
    /// Counts the top-level dependencies and the dependencies the targets declare
    /// inline; referencing a dependency by name does not count as a declaration.
    pub fn count_dependency_declarations(&self) -> (r: usize)
        requires
            counted_declarations(*self) <= usize::MAX,
        ensures
            r == counted_declarations(*self),
    {
        let mut total: usize = self.dependencies.len();
        let n = self.targets.len();
        for i in 0..n
            invariant
                n == self.targets@.len(),
                counted_declarations(*self) <= usize::MAX,
                total == self.dependencies@.len() + nested_in_targets(self.targets@.take(i as int)).len(),
        {
            proof {
                lemma_nested_in_targets_step(self.targets@, i as int);
                lemma_nested_in_targets_prefix_len(self.targets@, i + 1);
            }
            let c = count_inline_declarations(&self.targets[i].1.dependencies);
            total = total + c;
        }
        proof {
            assert(self.targets@.take(n as int) =~= self.targets@);
        }
        total
    }
}


/// Whether one of the first `upto` keys of `v` equals `key`.
fn key_among<V>(v: &Vec<(String, V)>, upto: usize, key: &String) -> (r: bool)
    requires
        upto <= v@.len(),
    ensures
        r == keys(v@).take(upto as int).contains(key@),
{
    for i in 0..upto
        invariant
            upto <= v@.len(),
            forall|j: int| 0 <= j < i ==> v@[j].0@ != key@,
    {
        if v[i].0 == *key {
            proof {
                assert(keys(v@).take(upto as int)[i as int] == key@);
            }
            return true;
        }
    }
    proof {
        let ks = keys(v@).take(upto as int);
        if ks.contains(key@) {
            let k = choose|k: int| 0 <= k < ks.len() && ks[k] == key@;
            assert(v@[k].0@ == key@);
        }
    }
    false
}

/// Whether the keys of `a` followed by those of `b` hold no name twice.
fn keys_disjoint<V>(a: &Vec<(String, V)>, b: &Vec<(String, V)>) -> (r: bool)
    ensures
        r == (keys(a@) + keys(b@)).no_duplicates(),
{
    let ghost all = keys(a@) + keys(b@);
    let na = a.len();
    let nb = b.len();
    for x in 0..na
        invariant
            na == a@.len(),
            all == keys(a@) + keys(b@),
            forall|i: int, j: int| 0 <= i < x && 0 <= j < x && i != j ==> all[i] != all[j],
    {
        if key_among(a, x, &a[x].0) {
            proof {
                let k = choose|k: int| 0 <= k < x && keys(a@).take(x as int)[k] == a@[x as int].0@;
                assert(all[k] == all[x as int]);
            }
            return false;
        }
        proof {
            assert forall|i: int, j: int| 0 <= i < x + 1 && 0 <= j < x + 1 && i != j implies all[i] != all[j] by {
                if i == x {
                    assert(keys(a@).take(x as int)[j] == all[j]);
                } else if j == x {
                    assert(keys(a@).take(x as int)[i] == all[i]);
                }
            }
        }
    }
    for x in 0..nb
        invariant
            na == a@.len(),
            nb == b@.len(),
            all == keys(a@) + keys(b@),
            forall|i: int, j: int| 0 <= i < na + x && 0 <= j < na + x && i != j ==> all[i] != all[j],
    {
        let in_a = key_among(a, na, &b[x].0);
        let in_b = key_among(b, x, &b[x].0);
        proof {
            assert(keys(a@).take(na as int) =~= keys(a@));
            assert(all[na + x] == b@[x as int].0@);
        }
        if in_a || in_b {
            proof {
                if in_a {
                    let k = choose|k: int| 0 <= k < na && keys(a@)[k] == b@[x as int].0@;
                    assert(all[k] == all[na + x]);
                } else {
                    let k = choose|k: int| 0 <= k < x && keys(b@).take(x as int)[k] == b@[x as int].0@;
                    assert(all[na + k] == all[na + x]);
                }
            }
            return false;
        }
        proof {
            assert forall|i: int, j: int| 0 <= i < na + x + 1 && 0 <= j < na + x + 1 && i != j implies all[i] != all[j] by {
                if i == na + x && j < na {
                    assert(keys(a@)[j] == all[j]);
                } else if i == na + x {
                    assert(keys(b@).take(x as int)[j - na] == all[j]);
                } else if j == na + x && i < na {
                    assert(keys(a@)[i] == all[i]);
                } else if j == na + x {
                    assert(keys(b@).take(x as int)[i - na] == all[i]);
                }
            }
        }
    }
    true
}

impl ProjectConfig {
    /// Merges two configurations: the project names must agree where both are
    /// given, and no dependency and no target may be defined by both.
    pub fn merge(self, other: Self) -> (r: Result<Self, MergeProjectConfigError>)
        requires
            config_keys_unique(self),
            config_keys_unique(other),
        ensures
            merge_outcome(self, other, r),
            r matches Ok(m) ==> config_keys_unique(m),
    {
        let name = match (&self.name, &other.name) {
            (Some(self_name), Some(other_name)) => {
                if *self_name == *other_name {
                    self.name
                } else {
                    return Err(MergeProjectConfigError::MultipleDifferentProjectNames);
                }
            },
            _ => match self.name {
                Some(n) => Some(n),
                None => other.name,
            },
        };
        if !keys_disjoint(&self.dependencies, &other.dependencies) {
            return Err(MergeProjectConfigError::DublicateDependency);
        }
        if !keys_disjoint(&self.targets, &other.targets) {
            return Err(MergeProjectConfigError::DublicateTarget);
        }
        let mut dependencies = self.dependencies;
        let mut other_dependencies = other.dependencies;
        dependencies.append(&mut other_dependencies);
        let mut targets = self.targets;
        let mut other_targets = other.targets;
        targets.append(&mut other_targets);
        proof {
            assert(keys(dependencies@) =~= keys(self.dependencies@) + keys(other.dependencies@));
            assert(keys(targets@) =~= keys(self.targets@) + keys(other.targets@));
        }
        Ok(ProjectConfig { name, dependencies, targets })
    }

    /// Whether no dependency name and no target name occurs twice, as in a
    /// map from names to entries.
    pub fn has_unique_keys(&self) -> (r: bool)
        ensures
            r == config_keys_unique(*self),
    {
        let no_dependencies: Vec<(String, DependencyConfig)> = Vec::new();
        let no_targets: Vec<(String, TargetConfig)> = Vec::new();
        let dependencies_unique = keys_disjoint(&self.dependencies, &no_dependencies);
        let targets_unique = keys_disjoint(&self.targets, &no_targets);
        proof {
            assert(keys(self.dependencies@) + keys(no_dependencies@) =~= keys(self.dependencies@));
            assert(keys(self.targets@) + keys(no_targets@) =~= keys(self.targets@));
        }
        dependencies_unique && targets_unique
    }
}

/// Both configurations name the project, differently.
pub open spec fn names_conflict(a: ProjectConfig, b: ProjectConfig) -> bool {
    a.name is Some && b.name is Some && a.name->0@ != b.name->0@
}

/// What `merge` returns: the errors in the order they are checked, else the
/// name that is given and the entries of both, those of `a` first.
pub open spec fn merge_outcome(
    a: ProjectConfig,
    b: ProjectConfig,
    r: Result<ProjectConfig, MergeProjectConfigError>,
) -> bool {
    match r {
        Err(MergeProjectConfigError::MultipleDifferentProjectNames) => names_conflict(a, b),
        Err(MergeProjectConfigError::DublicateDependency) => {
            &&& !names_conflict(a, b)
            &&& !(keys(a.dependencies@) + keys(b.dependencies@)).no_duplicates()
        },
        Err(MergeProjectConfigError::DublicateTarget) => {
            &&& !names_conflict(a, b)
            &&& (keys(a.dependencies@) + keys(b.dependencies@)).no_duplicates()
            &&& !(keys(a.targets@) + keys(b.targets@)).no_duplicates()
        },
        Ok(m) => {
            &&& !names_conflict(a, b)
            &&& (keys(a.dependencies@) + keys(b.dependencies@)).no_duplicates()
            &&& (keys(a.targets@) + keys(b.targets@)).no_duplicates()
            &&& m.name == (if a.name is Some { a.name } else { b.name })
            &&& m.dependencies@ == a.dependencies@ + b.dependencies@
            &&& m.targets@ == a.targets@ + b.targets@
        },
    }
}


pub fn default_enabled() -> (r: bool)
    ensures
        r,
{
    true
}

/// The configuration of one plugin.
/// Named entries are held as lists of (name, value) pairs; `==` compares
/// those lists entry by entry, in order.
#[derive(Debug, Clone, PartialEq)]
pub struct PluginConfig {
    pub enabled: bool,
    /// read by the plugin for its own configuration, by field name
    pub extra_fields: Vec<(String, toml::Value)>,
}

impl Default for ProjectConfig {
    fn default() -> (r: Self)
        ensures
            r.name is None,
            r.dependencies@.len() == 0,
            r.targets@.len() == 0,
            config_keys_unique(r),
    {
        let r = ProjectConfig { name: None, dependencies: Vec::new(), targets: Vec::new() };
        proof {
            assert(keys(r.dependencies@) =~= Seq::<Seq<char>>::empty());
            assert(keys(r.targets@) =~= Seq::<Seq<char>>::empty());
        }
        r
    }
}

impl Default for PluginConfig {
    fn default() -> (r: Self)
        ensures
            r.enabled,
            r.extra_fields@.len() == 0,
    {
        PluginConfig { enabled: default_enabled(), extra_fields: Vec::new() }
    }
}

/// The message of a toml parse error.
#[derive(Debug, Clone, PartialEq, Eq)]
pub struct TomlDeErrorMsg(pub String);

/// A project configuration file.
/// Named entries are held as lists of (name, value) pairs; `==` compares
/// those lists entry by entry, in order.
#[derive(Debug, Clone, PartialEq)]
pub struct ProjectConfigFile {
    pub config: ProjectConfig,
    /// treat warnings as errors, exiting with an error code on warnings
    pub warnings_as_errors: bool,
    /// the configurations of the plugins, by plugin name
    pub plugins: Vec<(String, PluginConfig)>,
}

impl Default for ProjectConfigFile {
    /// The file that configures nothing.
    fn default() -> (r: Self)
        ensures
            r.config.name is None,
            r.config.dependencies@.len() == 0,
            r.config.targets@.len() == 0,
            !r.warnings_as_errors,
            r.plugins@.len() == 0,
    {
        ProjectConfigFile { config: ProjectConfig::default(), warnings_as_errors: false, plugins: Vec::new() }
    }
}

/// The first configuration given under the plugin name `name`, if there is one.
pub fn find_plugin_config<'a>(plugins: &'a Vec<(String, PluginConfig)>, name: &str) -> (r: Option<&'a PluginConfig>)
    ensures
        match r {
            Some(c) => exists|k: int| 0 <= k < plugins@.len() && plugins@[k].0@ == name@
                && *c == plugins@[k].1
                && (forall|j: int| 0 <= j < k ==> #[trigger] plugins@[j].0@ != name@),
            None => !keys(plugins@).contains(name@),
        },
{
    let name_string = crate::names::str_to_string(name);
    let n = plugins.len();
    for k in 0..n
        invariant
            n == plugins@.len(),
            name_string@ == name@,
            forall|j: int| 0 <= j < k ==> #[trigger] plugins@[j].0@ != name@,
    {
        if plugins[k].0 == name_string {
            return Some(&plugins[k].1);
        }
    }
    proof {
        if keys(plugins@).contains(name@) {
            let j = choose|j: int| 0 <= j < keys(plugins@).len() && keys(plugins@)[j] == name@;
            assert(plugins@[j].0@ == name@);
        }
    }
    None
}

impl ProjectConfigFile {
    /// The configuration given for the named plugin: the first one under that
    /// name, if there is one.
    pub fn plugin_config(&self, name: &str) -> (r: Option<&PluginConfig>)
        ensures
            match r {
                Some(c) => exists|k: int| 0 <= k < self.plugins@.len() && self.plugins@[k].0@ == name@
                    && *c == self.plugins@[k].1
                    && (forall|j: int| 0 <= j < k ==> #[trigger] self.plugins@[j].0@ != name@),
                None => !keys(self.plugins@).contains(name@),
            },
    {
        find_plugin_config(&self.plugins, name)
    }

    /// The names of the plugins that the file switches off, in order.
    pub fn disabled_plugins(&self) -> (r: Vec<String>)
        ensures
            r@ == disabled_plugin_entries(self.plugins@),
    {
        let mut r: Vec<String> = Vec::new();
        let n = self.plugins.len();
        for k in 0..n
            invariant
                n == self.plugins@.len(),
                r@ == disabled_plugin_entries(self.plugins@.take(k as int)),
        {
            proof {
                assert(self.plugins@.take(k + 1).drop_last() =~= self.plugins@.take(k as int));
            }
            if !self.plugins[k].1.enabled {
                r.push(self.plugins[k].0.clone());
            }
        }
        proof {
            assert(self.plugins@.take(n as int) =~= self.plugins@);
        }
        r
    }
}

/// The files a project configuration is read from, relative to the project
/// directory, in the order they are tried.
pub fn project_config_filenames() -> (r: Vec<String>)
    ensures
        r@.map_values(|s: String| s@) == seq!["deptrace.toml"@, ".deptrace.toml"@],
{
    let mut r: Vec<String> = Vec::new();
    r.push(crate::names::str_to_string("deptrace.toml"));
    r.push(crate::names::str_to_string(".deptrace.toml"));
    proof {
        assert(r@.map_values(|s: String| s@) =~= seq!["deptrace.toml"@, ".deptrace.toml"@]);
    }
    r
}

/// What to do with the next candidate configuration file.
#[derive(Debug, Clone, Copy, PartialEq, Eq)]
pub enum ConfigFileStep {
    /// read it; a missing file is skipped
    Read,
    /// stop: a configuration was already read from another file and this one exists too
    MultipleFiles,
}

/// Only one configuration file may exist: once one was read, another
/// candidate that exists is an error.
pub fn config_file_step(loaded_before: bool, candidate_exists: bool) -> (r: ConfigFileStep)
    ensures
        r == (if loaded_before && candidate_exists { ConfigFileStep::MultipleFiles } else { ConfigFileStep::Read }),
{
    if loaded_before && candidate_exists {
        ConfigFileStep::MultipleFiles
    } else {
        ConfigFileStep::Read
    }
}

/// The names of the plugins whose configuration switches them off, in order.
pub open spec fn disabled_plugin_entries(s: Seq<(String, PluginConfig)>) -> Seq<String>
    decreases s.len(),
{
    if s.len() == 0 {
        Seq::empty()
    } else if !s.last().1.enabled {
        disabled_plugin_entries(s.drop_last()).push(s.last().0)
    } else {
        disabled_plugin_entries(s.drop_last())
    }
}


// ---------------------------------------------------------------------------
// Laws.

/// Referencing a dependency by name declares nothing: adding a name reference
/// anywhere in a list of subdependencies leaves its declarations as they were.
pub proof fn lemma_name_reference_declares_nothing(l: Seq<DependencyNameOrDependencyConfig>, i: int, name: String)
    requires
        0 <= i <= l.len(),
    ensures
        inline_decls(l.insert(i, DependencyNameOrDependencyConfig::Name(name))) == inline_decls(l),
    decreases l.len(),
{
    let x = DependencyNameOrDependencyConfig::Name(name);
    if i == l.len() {
        assert(l.insert(i, x).drop_last() =~= l);
        assert(l.insert(i, x).last() == x);
        assert(item_decls(x) =~= Seq::<(Seq<char>, DependencyConfig)>::empty());
        assert(inline_decls(l.insert(i, x)) =~= inline_decls(l) + Seq::<(Seq<char>, DependencyConfig)>::empty());
    } else {
        assert(l.insert(i, x).drop_last() =~= l.drop_last().insert(i, x));
        assert(l.insert(i, x).last() == l.last());
        lemma_name_reference_declares_nothing(l.drop_last(), i, name);
    }
}

proof fn lemma_nested_in_targets_update(ts: Seq<(String, TargetConfig)>, t: int, e: (String, TargetConfig))
    requires
        0 <= t < ts.len(),
        inline_decls(e.1.dependencies@) == inline_decls(ts[t].1.dependencies@),
    ensures
        nested_in_targets(ts.update(t, e)) == nested_in_targets(ts),
    decreases ts.len(),
{
    if t == ts.len() - 1 {
        assert(ts.update(t, e).drop_last() =~= ts.drop_last());
    } else {
        assert(ts.update(t, e).drop_last() =~= ts.drop_last().update(t, e));
        lemma_nested_in_targets_update(ts.drop_last(), t, e);
    }
}

/// Referencing a dependency by name does not count as a declaration: a
/// configuration whose only difference is one more name reference in the
/// dependencies of one target counts as many declarations.
pub proof fn lemma_name_reference_not_counted(pc: ProjectConfig, other: ProjectConfig, t: int, i: int, name: String)
    requires
        0 <= t < pc.targets@.len(),
        0 <= i <= pc.targets@[t].1.dependencies@.len(),
        other.dependencies@ == pc.dependencies@,
        other.targets@.len() == pc.targets@.len(),
        forall|u: int| 0 <= u < pc.targets@.len() && u != t ==> #[trigger] other.targets@[u] == pc.targets@[u],
        other.targets@[t].1.dependencies@
            == pc.targets@[t].1.dependencies@.insert(i, DependencyNameOrDependencyConfig::Name(name)),
    ensures
        counted_declarations(other) == counted_declarations(pc),
{
    lemma_name_reference_declares_nothing(pc.targets@[t].1.dependencies@, i, name);
    lemma_nested_in_targets_update(pc.targets@, t, other.targets@[t]);
    assert(other.targets@ =~= pc.targets@.update(t, other.targets@[t]));
}

/// The empty configuration: no name, no dependency, no target.
pub open spec fn is_empty_config(pc: ProjectConfig) -> bool {
    &&& pc.name is None
    &&& pc.dependencies@.len() == 0
    &&& pc.targets@.len() == 0
}

/// A configuration is well formed when, as a map from names to entries, no
/// dependency name and no target name occurs twice.
pub open spec fn config_keys_unique(pc: ProjectConfig) -> bool {
    &&& keys(pc.dependencies@).no_duplicates()
    &&& keys(pc.targets@).no_duplicates()
}

/// Merging with the empty configuration, on either side, gives the other
/// configuration back.
pub proof fn lemma_merge_with_empty(a: ProjectConfig, e: ProjectConfig, r1: Result<ProjectConfig, MergeProjectConfigError>, r2: Result<ProjectConfig, MergeProjectConfigError>)
    requires
        is_empty_config(e),
        config_keys_unique(a),
        merge_outcome(a, e, r1),
        merge_outcome(e, a, r2),
    ensures
        r1 matches Ok(m) && m.name == a.name && m.dependencies@ == a.dependencies@ && m.targets@ == a.targets@,
        r2 matches Ok(m) && m.name == a.name && m.dependencies@ == a.dependencies@ && m.targets@ == a.targets@,
{
    assert(keys(e.dependencies@) =~= Seq::<Seq<char>>::empty());
    assert(keys(e.targets@) =~= Seq::<Seq<char>>::empty());
    assert(keys(a.dependencies@) + keys(e.dependencies@) =~= keys(a.dependencies@));
    assert(keys(a.targets@) + keys(e.targets@) =~= keys(a.targets@));
    assert(keys(e.dependencies@) + keys(a.dependencies@) =~= keys(a.dependencies@));
    assert(keys(e.targets@) + keys(a.targets@) =~= keys(a.targets@));
    assert(a.dependencies@ + e.dependencies@ =~= a.dependencies@);
    assert(a.targets@ + e.targets@ =~= a.targets@);
    assert(e.dependencies@ + a.dependencies@ =~= a.dependencies@);
    assert(e.targets@ + a.targets@ =~= a.targets@);
}

proof fn lemma_no_duplicates_concat_commutes<A>(s: Seq<A>, t: Seq<A>)
    ensures
        (s + t).no_duplicates() == (t + s).no_duplicates(),
{
    assert forall|u: Seq<A>, v: Seq<A>| (#[trigger] (u + v)).no_duplicates() implies (v + u).no_duplicates() by {
        let w = u + v;
        let x = v + u;
        assert forall|i: int, j: int| 0 <= i < x.len() && 0 <= j < x.len() && i != j implies x[i] != x[j] by {
            let wi = if i < v.len() { i + u.len() } else { i - v.len() };
            let wj = if j < v.len() { j + u.len() } else { j - v.len() };
            assert(x[i] == w[wi]);
            assert(x[j] == w[wj]);
        }
    }
    assert((s + t).no_duplicates() ==> (t + s).no_duplicates());
    assert((t + s).no_duplicates() ==> (s + t).no_duplicates());
}

/// The name a configuration gives, by its view.
pub open spec fn name_view(name: Option<String>) -> Option<Seq<char>> {
    match name {
        Some(n) => Some(n@),
        None => None,
    }
}

/// Merging is commutative: both orders fail with the same error, or both
/// succeed with the same name and the same entries (in another order).
pub proof fn lemma_merge_commutes(a: ProjectConfig, b: ProjectConfig, r1: Result<ProjectConfig, MergeProjectConfigError>, r2: Result<ProjectConfig, MergeProjectConfigError>)
    requires
        merge_outcome(a, b, r1),
        merge_outcome(b, a, r2),
    ensures
        r1 is Ok <==> r2 is Ok,
        r1 is Err ==> r1->Err_0 == r2->Err_0,
        r1 is Ok ==> {
            &&& name_view(r1->Ok_0.name) == name_view(r2->Ok_0.name)
            &&& entries_map(r1->Ok_0.dependencies@) == entries_map(r2->Ok_0.dependencies@)
            &&& entries_map(r1->Ok_0.targets@) == entries_map(r2->Ok_0.targets@)
            &&& r1->Ok_0.dependencies@.to_multiset() == r2->Ok_0.dependencies@.to_multiset()
            &&& r1->Ok_0.targets@.to_multiset() == r2->Ok_0.targets@.to_multiset()
        },
{
    lemma_no_duplicates_concat_commutes(keys(a.dependencies@), keys(b.dependencies@));
    lemma_no_duplicates_concat_commutes(keys(a.targets@), keys(b.targets@));
    if r1 is Ok {
        lemma_entries_map_concat_commutes(a.dependencies@, b.dependencies@);
        lemma_entries_map_concat_commutes(a.targets@, b.targets@);
    }
    vstd::seq_lib::lemma_seq_union_to_multiset_commutative(a.dependencies@, b.dependencies@);
    vstd::seq_lib::lemma_seq_union_to_multiset_commutative(a.targets@, b.targets@);
}


/// Position of an entry with the given key.
pub open spec fn key_position<V>(s: Seq<(String, V)>, k: Seq<char>) -> int {
    choose|i: int| 0 <= i < s.len() && s[i].0@ == k
}

/// An association list read as a map from names (by their views) to entries;
/// meant for lists whose keys are unique.
pub open spec fn entries_map<V>(s: Seq<(String, V)>) -> Map<Seq<char>, V> {
    Map::new(|k: Seq<char>| keys(s).contains(k), |k: Seq<char>| s[key_position(s, k)].1)
}

proof fn lemma_entries_map_concat_commutes<V>(a: Seq<(String, V)>, b: Seq<(String, V)>)
    requires
        (keys(a) + keys(b)).no_duplicates(),
    ensures
        entries_map(a + b) == entries_map(b + a),
{
    let ab = a + b;
    let ba = b + a;
    let kab = keys(a) + keys(b);
    assert(keys(ab) =~= kab);
    assert(keys(ba) =~= keys(b) + keys(a));
    assert forall|k: Seq<char>| keys(ab).contains(k) <==> keys(ba).contains(k) by {
        if keys(ab).contains(k) {
            let i = choose|i: int| 0 <= i < keys(ab).len() && keys(ab)[i] == k;
            if i < a.len() {
                assert(keys(ba)[b.len() + i] == k);
            } else {
                assert(keys(ba)[i - a.len()] == k);
            }
        }
        if keys(ba).contains(k) {
            let j = choose|j: int| 0 <= j < keys(ba).len() && keys(ba)[j] == k;
            if j < b.len() {
                assert(keys(ab)[a.len() + j] == k);
            } else {
                assert(keys(ab)[j - b.len()] == k);
            }
        }
    }
    assert forall|k: Seq<char>| #[trigger] keys(ab).contains(k) implies ab[key_position(ab, k)] == ba[key_position(ba, k)] by {
        let x = choose|x: int| 0 <= x < keys(ab).len() && keys(ab)[x] == k;
        assert(ab[x].0@ == k);
        let i = key_position(ab, k);
        assert(keys(ba).contains(k));
        let y = choose|y: int| 0 <= y < keys(ba).len() && keys(ba)[y] == k;
        assert(ba[y].0@ == k);
        let j = key_position(ba, k);
        let pj = if j < b.len() { j + a.len() } else { j - b.len() };
        assert(ba[j] == ab[pj]);
        assert(kab[i] == k);
        assert(kab[pj] == k);
    }
    assert(entries_map(ab) =~= entries_map(ba));
}


proof fn lemma_names_declare_nothing(l: Seq<DependencyNameOrDependencyConfig>)
    requires
        forall|j: int| 0 <= j < l.len() ==> (#[trigger] l[j]) is Name,
    ensures
        inline_decls(l).len() == 0,
    decreases l.len(),
{
    if l.len() > 0 {
        assert forall|j: int| 0 <= j < l.drop_last().len() implies (#[trigger] l.drop_last()[j]) is Name by {
            assert(l.drop_last()[j] == l[j]);
        }
        lemma_names_declare_nothing(l.drop_last());
        assert(l[l.len() - 1] is Name);
        assert(item_decls(l.last()) =~= Seq::<(Seq<char>, DependencyConfig)>::empty());
        assert(inline_decls(l) == inline_decls(l.drop_last()) + item_decls(l.last()));
    }
}

proof fn lemma_name_only_targets_declare_nothing(ts: Seq<(String, TargetConfig)>)
    requires
        forall|t: int, j: int| 0 <= t < ts.len() && 0 <= j < ts[t].1.dependencies@.len()
            ==> (#[trigger] ts[t].1.dependencies@[j]) is Name,
    ensures
        nested_in_targets(ts).len() == 0,
    decreases ts.len(),
{
    if ts.len() > 0 {
        let p = ts.drop_last();
        assert forall|t: int, j: int| 0 <= t < p.len() && 0 <= j < p[t].1.dependencies@.len()
            implies (#[trigger] p[t].1.dependencies@[j]) is Name by {
            assert(p[t] == ts[t]);
        }
        lemma_name_only_targets_declare_nothing(p);
        let last = ts.last().1.dependencies@;
        assert forall|j: int| 0 <= j < last.len() implies (#[trigger] last[j]) is Name by {
            assert(ts[ts.len() - 1].1.dependencies@[j] is Name);
        }
        lemma_names_declare_nothing(last);
    }
}

/// A configuration whose targets refer to their dependencies by name only
/// counts exactly its top-level dependencies: targets themselves are not
/// declarations, and neither are name references.
pub proof fn lemma_count_of_name_only_targets(pc: ProjectConfig)
    requires
        forall|t: int, j: int| 0 <= t < pc.targets@.len() && 0 <= j < pc.targets@[t].1.dependencies@.len()
            ==> (#[trigger] pc.targets@[t].1.dependencies@[j]) is Name,
    ensures
        counted_declarations(pc) == pc.dependencies@.len(),
{
    lemma_name_only_targets_declare_nothing(pc.targets@);
}

/// Adding a target that declares nothing inline leaves the count unchanged;
/// adding one that declares dependencies inline adds exactly those.
pub proof fn lemma_count_after_adding_target(pc: ProjectConfig, other: ProjectConfig, t: (String, TargetConfig))
    requires
        other.dependencies@ == pc.dependencies@,
        other.targets@ == pc.targets@.push(t),
    ensures
        counted_declarations(other) == counted_declarations(pc) + inline_decls(t.1.dependencies@).len(),
        (forall|j: int| 0 <= j < t.1.dependencies@.len() ==> (#[trigger] t.1.dependencies@[j]) is Name)
            ==> counted_declarations(other) == counted_declarations(pc),
{
    assert(other.targets@.drop_last() =~= pc.targets@);
    if forall|j: int| 0 <= j < t.1.dependencies@.len() ==> (#[trigger] t.1.dependencies@[j]) is Name {
        lemma_names_declare_nothing(t.1.dependencies@);
    }
}

}
