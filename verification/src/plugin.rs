use vstd::prelude::*;
use std::path::PathBuf;
use crate::config::{find_plugin_config, PluginConfig, ProjectConfig};
use crate::names::{concat_str, str_to_string};
use crate::cargo::{first_key_index, view_first_index, view_insert};

verus! {

/// What a plugin provider answers when asked to load its plugin for a project.
#[derive(Debug)]
pub enum LoadPluginResult<P> {
    Loaded(P),
    /// the plugin will not load this project
    NotSuitable,
    /// the plugin found something wrong with its extra config fields
    ExtraConfigFieldsError { field_name: String, error: String },
}

/// A plugin generates a project configuration, for example from what a build
/// system knows about the project.
pub trait Plugin {
    type Error;

    /// Generates the configuration; lines to show the user are handed to
    /// `println_callback`, the warnings it finds are added to `warnings`.
    fn generate_project_config<F: Fn(String)>(
        &self,
        println_callback: &F,
        warnings: &mut Vec<String>,
    ) -> Result<ProjectConfig, Self::Error>;
}

/// Knows a plugin by name and decides whether it fits a project.
pub trait PluginProvider {
    type Plugin;

    fn get_plugin_name(&self) -> &'static str;

    /// Should answer `LoadPluginResult::NotSuitable` as soon as it knows the
    /// project does not fit the plugin; warnings go to `warnings`.
    fn try_load_plugin(
        &self,
        project_dir: &PathBuf,
        extra_config_fields: &Vec<(String, toml::Value)>,
        warnings: &mut Vec<String>,
    ) -> LoadPluginResult<Self::Plugin>;
}

/// A plugin failed to generate its configuration.
#[derive(Debug)]
pub struct PluginsGenerateConfigError<E> {
    pub plugin_name: String,
    pub source: E,
}

/// The loaded plugins, by name.
pub struct Plugins<P> {
    plugins: Vec<(String, P)>,
}

/// The names of a list of named entries.
pub open spec fn entry_names<P>(s: Seq<(String, P)>) -> Seq<Seq<char>> {
    s.map_values(|e: (String, P)| e.0@)
}

impl<P> View for Plugins<P> {
    type V = Seq<(String, P)>;

    closed spec fn view(&self) -> Seq<(String, P)> {
        self.plugins@
    }
}

impl<P> Plugins<P> {
    #[verifier::type_invariant]
    spec fn names_unique(&self) -> bool {
        entry_names(self.plugins@).no_duplicates()
    }

    /// No plugin loaded.
    pub fn new() -> (r: Self)
        ensures
            r@ == Seq::<(String, P)>::empty(),
    {
        Plugins { plugins: Vec::new() }
    }

    /// The number of loaded plugins; no two of them have the same name.
    pub fn len(&self) -> (r: usize)
        ensures
            r == self@.len(),
            entry_names(self@).no_duplicates(),
    {
        proof {
            use_type_invariant(self);
        }
        self.plugins.len()
    }

    pub fn is_empty(&self) -> (r: bool)
        ensures
            r == (self@.len() == 0),
            entry_names(self@).no_duplicates(),
    {
        proof {
            use_type_invariant(self);
        }
        self.plugins.len() == 0
    }

    /// The loaded plugins, in the order they were loaded, each name once.
    pub fn iter(&self) -> (r: std::slice::Iter<'_, (String, P)>)
        ensures
            vstd::std_specs::iter::IteratorSpec::remaining(&r).unref() == self@,
            entry_names(self@).no_duplicates(),
    {
        proof {
            use_type_invariant(self);
        }
        self.plugins.iter()
    }

    /// The loaded plugins, in the order they were loaded, each name once.
    pub fn into_vec(self) -> (r: Vec<(String, P)>)
        ensures
            r@ == self@,
            entry_names(r@).no_duplicates(),
    {
        proof {
            use_type_invariant(&self);
        }
        self.plugins
    }
}


/// `plugin '<name>' had an error with the extra config field '<field_name>': <error>`
pub open spec fn extra_config_field_warning(name: Seq<char>, field_name: Seq<char>, error: Seq<char>) -> Seq<char> {
    "plugin '"@ + name + "' had an error with the extra config field '"@ + field_name + "': "@ + error
}

/// A warning about the extra config fields of a plugin that is not disabled.
pub open spec fn is_extra_field_message(m: Seq<char>, disabled: Seq<Seq<char>>) -> bool {
    exists|name: Seq<char>, field_name: Seq<char>, error: Seq<char>|
        #[trigger] extra_config_field_warning(name, field_name, error) == m && !disabled.contains(name)
}

/// Position of the entry with the given name.
fn find_entry<P>(v: &Vec<(String, P)>, name: &String) -> (r: Option<usize>)
    ensures
        match r {
            Some(k) => k < v@.len() && v@[k as int].0@ == name@,
            None => !entry_names(v@).contains(name@),
        },
{
    let n = v.len();
    for k in 0..n
        invariant
            n == v@.len(),
            forall|j: int| 0 <= j < k ==> v@[j].0@ != name@,
    {
        if v[k].0 == *name {
            return Some(k);
        }
    }
    proof {
        if entry_names(v@).contains(name@) {
            let j = choose|j: int| 0 <= j < entry_names(v@).len() && entry_names(v@)[j] == name@;
            assert(v@[j].0@ == name@);
        }
    }
    None
}

/// The views of a list of names.
pub open spec fn name_views(s: Seq<String>) -> Seq<Seq<char>> {
    s.map_values(|x: String| x@)
}

/// Whether `name` is among the disabled plugin names.
pub fn is_plugin_disabled(name: &str, disabled_plugin_names: &Vec<String>) -> (r: bool)
    ensures
        r == name_views(disabled_plugin_names@).contains(name@),
{
    let owned_name = str_to_string(name);
    let n = disabled_plugin_names.len();
    for k in 0..n
        invariant
            n == disabled_plugin_names@.len(),
            owned_name@ == name@,
            forall|j: int| 0 <= j < k ==> disabled_plugin_names@[j]@ != name@,
    {
        if disabled_plugin_names[k] == owned_name {
            proof {
                assert(name_views(disabled_plugin_names@)[k as int] == name@);
            }
            return true;
        }
    }
    proof {
        let views = name_views(disabled_plugin_names@);
        if views.contains(name@) {
            let j = choose|j: int| 0 <= j < views.len() && views[j] == name@;
            assert(disabled_plugin_names@[j]@ == name@);
        }
    }
    false
}

impl<P> Plugins<P> {
    /// Takes in what loading plugin `name` gave: a loaded plugin is kept (in
    /// place of one loaded before under the same name), an unsuitable one is
    /// ignored, and for a plugin whose extra config fields are wrong the text
    /// of the warning is returned.
    pub fn add_load_result(&mut self, name: String, result: LoadPluginResult<P>) -> (warning: Option<String>)
        ensures
            match result {
                LoadPluginResult::Loaded(plugin) => {
                    &&& warning is None
                    &&& if entry_names(old(self)@).contains(name@) {
                        exists|k: int| 0 <= k < old(self)@.len() && old(self)@[k].0@ == name@
                            && final(self)@.len() == old(self)@.len()
                            && final(self)@[k].0@ == name@ && final(self)@[k].1 == plugin
                            && (forall|j: int| 0 <= j < old(self)@.len() && j != k ==> #[trigger] final(self)@[j] == old(self)@[j])
                    } else {
                        &&& final(self)@.len() == old(self)@.len() + 1
                        &&& final(self)@.last().0@ == name@
                        &&& final(self)@.last().1 == plugin
                        &&& final(self)@.drop_last() == old(self)@
                    }
                },
                LoadPluginResult::NotSuitable => warning is None && final(self)@ == old(self)@,
                LoadPluginResult::ExtraConfigFieldsError { field_name, error } => {
                    &&& final(self)@ == old(self)@
                    &&& warning matches Some(w) && w@ == extra_config_field_warning(name@, field_name@, error@)
                },
            },
    {
        proof {
            use_type_invariant(&*self);
        }
        match result {
            LoadPluginResult::Loaded(plugin) => {
                let mut plugins: Vec<(String, P)> = Vec::new();
                std::mem::swap(&mut plugins, &mut self.plugins);
                match find_entry(&plugins, &name) {
                    Some(k) => {
                        proof {
                            assert(entry_names(plugins@)[k as int] == name@);
                        }
                        let ghost before = plugins@;
                        let ghost nm = name@;
                        let ghost pl = plugin;
                        plugins.set(k, (name, plugin));
                        proof {
                            assert(entry_names(plugins@) =~= entry_names(before));
                        }
                        self.plugins = plugins;
                        proof {
                            assert(0 <= k < before.len() && before[k as int].0@ == nm
                                && self@.len() == before.len()
                                && self@[k as int].0@ == nm && self@[k as int].1 == pl
                                && (forall|j: int| 0 <= j < before.len() && j != k ==> #[trigger] self@[j] == before[j]));
                        }
                    },
                    None => {
                        let ghost before = plugins@;
                        let ghost nm = name@;
                        plugins.push((name, plugin));
                        proof {
                            assert(entry_names(plugins@) =~= entry_names(before).push(nm));
                            assert(plugins@.drop_last() =~= before);
                        }
                        self.plugins = plugins;
                    },
                }
                None
            },
            LoadPluginResult::NotSuitable => None,
            LoadPluginResult::ExtraConfigFieldsError { field_name, error } => {
                let w = str_to_string("plugin '");
                let w = concat_str(w, name.as_str());
                let w = concat_str(w, "' had an error with the extra config field '");
                let w = concat_str(w, field_name.as_str());
                let w = concat_str(w, "': ");
                let w = concat_str(w, error.as_str());
                Some(w)
            },
        }
    }
}


/// The loaded plugins by the views of their names.
pub open spec fn entries_view<P>(s: Seq<(String, P)>) -> Seq<(Seq<char>, P)> {
    s.map_values(|e: (String, P)| (e.0@, e.1))
}

/// The extra fields handed to a plugin named `name`: those of its first
/// configuration, or none when it has no configuration.
pub open spec fn extra_fields_given(plugin_configs: Seq<(String, PluginConfig)>, name: Seq<char>, fields: Vec<(String, toml::Value)>) -> bool {
    match first_key_index(plugin_configs, name) {
        Some(i) => fields == plugin_configs[i].1.extra_fields,
        None => fields@.len() == 0,
    }
}

/// What the providers answered, one after the other: the name each gave, and
/// for each that is not disabled an answer it can give when asked with the
/// project directory and the extra fields of its configuration; `None` for a
/// disabled one, which is not asked.
pub open spec fn provider_answers<P, Q: PluginProvider<Plugin = P>>(
    providers: Seq<Q>,
    project_dir: PathBuf,
    plugin_configs: Seq<(String, PluginConfig)>,
    disabled: Seq<Seq<char>>,
    names: Seq<&'static str>,
    answers: Seq<Option<LoadPluginResult<P>>>,
) -> bool {
    &&& names.len() == providers.len()
    &&& answers.len() == providers.len()
    &&& forall|k: int| #![trigger providers[k]] 0 <= k < providers.len()
        ==> provider_answer::<P, Q>(providers[k], project_dir, plugin_configs, disabled, names[k], answers[k])
}

/// What one provider answered: the name it gave and, when that name is not
/// disabled, an answer it can give when asked with the project directory and
/// the extra fields of its configuration; `None` when it is disabled.
pub open spec fn provider_answer<P, Q: PluginProvider<Plugin = P>>(
    provider: Q,
    project_dir: PathBuf,
    plugin_configs: Seq<(String, PluginConfig)>,
    disabled: Seq<Seq<char>>,
    name: &'static str,
    answer: Option<LoadPluginResult<P>>,
) -> bool {
    &&& call_ensures(Q::get_plugin_name, (&provider,), name)
    &&& (answer is None <==> disabled.contains(name@))
    &&& (answer matches Some(a) ==> exists|args: (&Q, &PathBuf, &Vec<(String, toml::Value)>, &mut Vec<String>)|
        #![trigger call_ensures(Q::try_load_plugin, args, a)]
        call_ensures(Q::try_load_plugin, args, a) && *args.0 == provider && *args.1 == project_dir
            && extra_fields_given(plugin_configs, name@, *args.2))
}

/// The plugins kept from the answers, by name: a loaded plugin takes the place
/// of one loaded before under the same name, or is added after the others.
pub open spec fn loaded_entries<P>(names: Seq<&'static str>, answers: Seq<Option<LoadPluginResult<P>>>) -> Seq<(Seq<char>, P)>
    decreases answers.len(),
{
    if answers.len() == 0 || names.len() == 0 {
        Seq::empty()
    } else {
        let kept = loaded_entries(names.drop_last(), answers.drop_last());
        match answers.last() {
            Some(LoadPluginResult::Loaded(plugin)) => view_insert(kept, names.last()@, plugin),
            _ => kept,
        }
    }
}

/// The warnings about extra fields the answers give, in order.
pub open spec fn load_messages<P>(names: Seq<&'static str>, answers: Seq<Option<LoadPluginResult<P>>>) -> Seq<Seq<char>>
    decreases answers.len(),
{
    if answers.len() == 0 || names.len() == 0 {
        Seq::empty()
    } else {
        let earlier = load_messages(names.drop_last(), answers.drop_last());
        match answers.last() {
            Some(LoadPluginResult::ExtraConfigFieldsError { field_name, error }) =>
                earlier.push(extra_config_field_warning(names.last()@, field_name@, error@)),
            _ => earlier,
        }
    }
}

impl<P> Plugins<P> {
    /// Loads the plugins that fit the project, leaving out the disabled ones:
    /// each provider that is not disabled is asked with the extra fields of
    /// its configuration (none without one). What it answers is taken in as
    /// `add_load_result` says; the text of each warning about extra fields is
    /// added to `messages`.
    #[verifier::spinoff_prover]
    #[verifier::rlimit(30)]
    pub fn load_suitable<Q: PluginProvider<Plugin = P>>(
        project_dir: &PathBuf,
        plugin_configs: &Vec<(String, PluginConfig)>,
        plugin_providers: &Vec<Q>,
        disabled_plugin_names: &Vec<String>,
        warnings: &mut Vec<String>,
        messages: &mut Vec<String>,
    ) -> (r: Self)
        ensures
            forall|k: int| 0 <= k < r@.len()
                ==> !name_views(disabled_plugin_names@).contains(#[trigger] r@[k].0@),
            r@.len() <= plugin_providers@.len(),
            entry_names(r@).no_duplicates(),
            final(messages)@.len() <= old(messages)@.len() + plugin_providers@.len(),
            final(messages)@.take(old(messages)@.len() as int) == old(messages)@,
            forall|k: int| old(messages)@.len() <= k < final(messages)@.len() ==> is_extra_field_message(
                #[trigger] final(messages)@[k]@, name_views(disabled_plugin_names@)),
            // provider by provider: the names they gave and what those not disabled answered
            exists|names: Seq<&'static str>, answers: Seq<Option<LoadPluginResult<P>>>| {
                &&& #[trigger] provider_answers(plugin_providers@, *project_dir, plugin_configs@,
                    name_views(disabled_plugin_names@), names, answers)
                &&& entries_view(r@) == loaded_entries(names, answers)
                &&& name_views(final(messages)@) == name_views(old(messages)@) + load_messages(names, answers)
            },
    {
        let mut suitable: Plugins<P> = Plugins::new();
        let default_plugin_config = PluginConfig::default();
        let ghost disabled = name_views(disabled_plugin_names@);
        let ghost m0 = messages@;
        let ghost mut names_g: Seq<&'static str> = Seq::empty();
        let ghost mut answers_g: Seq<Option<LoadPluginResult<P>>> = Seq::empty();
        proof {
            assert(entries_view(suitable@) =~= loaded_entries(names_g, answers_g));
            assert(name_views(messages@) =~= name_views(m0) + load_messages(names_g, answers_g));
            assert(provider_answers(plugin_providers@.take(0), *project_dir, plugin_configs@, disabled, names_g, answers_g));
        }
        let n = plugin_providers.len();
        for k in 0..n
            invariant
                n == plugin_providers@.len(),
                disabled == name_views(disabled_plugin_names@),
                forall|i: int| 0 <= i < suitable@.len() ==> !disabled.contains(#[trigger] suitable@[i].0@),
                suitable@.len() <= k,
                m0.len() <= messages@.len() <= m0.len() + k,
                messages@.take(m0.len() as int) == m0,
                m0 == old(messages)@,
                default_plugin_config.extra_fields@.len() == 0,
                forall|x: int| m0.len() <= x < messages@.len() ==> is_extra_field_message(#[trigger] messages@[x]@, disabled),
                provider_answers(plugin_providers@.take(k as int), *project_dir, plugin_configs@, disabled, names_g, answers_g),
                entries_view(suitable@) == loaded_entries(names_g, answers_g),
                name_views(messages@) == name_views(m0) + load_messages(names_g, answers_g),
        {
            let ghost names_k = names_g;
            let ghost answers_k = answers_g;
            let ghost suitable_k = suitable@;
            let ghost messages_k = messages@;
            let provider = &plugin_providers[k];
            let name = provider.get_plugin_name();
            if !is_plugin_disabled(name, disabled_plugin_names) {
                let found = find_plugin_config(plugin_configs, name);
                let plugin_config = match found {
                    Some(c) => c,
                    None => &default_plugin_config,
                };
                proof {
                    lemma_extra_fields_given(plugin_configs@, name@);
                    match found {
                        Some(c) => {
                            let kk = choose|kk: int| 0 <= kk < plugin_configs@.len() && plugin_configs@[kk].0@ == name@
                                && *c == plugin_configs@[kk].1
                                && (forall|j: int| 0 <= j < kk ==> #[trigger] plugin_configs@[j].0@ != name@);
                            assert(first_key_index(plugin_configs@, name@) == Some(kk));
                        },
                        None => {
                            assert(default_plugin_config.extra_fields@.len() == 0);
                        },
                    }
                    assert(extra_fields_given(plugin_configs@, name@, plugin_config.extra_fields));
                }
                let result = provider.try_load_plugin(project_dir, &plugin_config.extra_fields, warnings);
                let ghost res = result;
                proof {
                    names_g = names_k.push(name);
                    answers_g = answers_k.push(Some(res));
                }
                let ghost before = suitable@;
                let name_string = str_to_string(name);
                proof {
                    use_type_invariant(&suitable);
                }
                match suitable.add_load_result(name_string, result) {
                    Some(message) => {
                        let ghost mb = messages@;
                        messages.push(message);
                        proof {
                            assert(messages@.take(m0.len() as int) =~= mb.take(m0.len() as int));
                            let fname = res->ExtraConfigFieldsError_field_name@;
                            let ferr = res->ExtraConfigFieldsError_error@;
                            assert(message@ == extra_config_field_warning(name@, fname, ferr));
                            assert(!disabled.contains(name@));
                            assert forall|x: int| m0.len() <= x < messages@.len() implies is_extra_field_message(#[trigger] messages@[x]@, disabled) by {
                                if x < mb.len() {
                                    assert(messages@[x] == mb[x]);
                                }
                            }
                        }
                    },
                    None => {},
                }
                proof {
                    assert forall|i: int| 0 <= i < suitable@.len() implies !disabled.contains(#[trigger] suitable@[i].0@) by {
                        match res {
                            LoadPluginResult::Loaded(_) => {
                                if entry_names(before).contains(name@) {
                                    let kk = choose|kk: int| 0 <= kk < before.len() && before[kk].0@ == name@
                                        && suitable@.len() == before.len()
                                        && suitable@[kk].0@ == name@ && suitable@[kk].1 == res->Loaded_0
                                        && (forall|j: int| 0 <= j < before.len() && j != kk ==> #[trigger] suitable@[j] == before[j]);
                                    if i != kk {
                                        assert(suitable@[i] == before[i]);
                                    }
                                } else if i < before.len() {
                                    assert(suitable@.drop_last()[i] == before[i]);
                                }
                            },
                            _ => {},
                        }
                    }
                    lemma_entries_step(suitable_k, suitable@, name@, res);
                    assert(names_g.drop_last() =~= names_k);
                    assert(answers_g.drop_last() =~= answers_k);
                    assert(entries_view(suitable@) == loaded_entries(names_g, answers_g));
                    match res {
                        LoadPluginResult::ExtraConfigFieldsError { .. } => {
                            assert(name_views(messages@) =~= name_views(messages_k).push(messages@.last()@));
                        },
                        _ => {
                            assert(messages@ == messages_k);
                        },
                    }
                    assert(name_views(messages@) =~= name_views(m0) + load_messages(names_g, answers_g));
                }
            } else {
                proof {
                    names_g = names_k.push(name);
                    answers_g = answers_k.push(None);
                    assert(names_g.drop_last() =~= names_k);
                    assert(answers_g.drop_last() =~= answers_k);
                    assert(entries_view(suitable@) == loaded_entries(names_g, answers_g));
                    assert(name_views(messages@) =~= name_views(m0) + load_messages(names_g, answers_g));
                }
            }
            proof {
                let ps = plugin_providers@.take(k + 1);
                assert(ps.drop_last() =~= plugin_providers@.take(k as int));
                assert(provider_answer::<P, Q>(*provider, *project_dir, plugin_configs@, disabled, name, answers_g[k as int]));
                assert forall|j: int| #![trigger ps[j]] 0 <= j < ps.len()
                    implies provider_answer::<P, Q>(ps[j], *project_dir, plugin_configs@, disabled, names_g[j], answers_g[j]) by {
                    if j < k {
                        assert(ps[j] == plugin_providers@.take(k as int)[j]);
                        assert(names_g[j] == names_k[j] && answers_g[j] == answers_k[j]);
                    } else {
                        assert(ps[j] == *provider);
                    }
                }
                assert(names_g.len() == ps.len());
                assert(answers_g.len() == ps.len());
                assert(provider_answers(ps, *project_dir, plugin_configs@, disabled, names_g, answers_g));
            }
        }
        proof {
            use_type_invariant(&suitable);
            assert(plugin_providers@.take(n as int) =~= plugin_providers@);
        }
        suitable
    }
}


proof fn lemma_view_first_index_at<X>(s: Seq<(Seq<char>, X)>, key: Seq<char>, k: int)
    requires
        0 <= k < s.len(),
        s[k].0 == key,
        forall|j: int| 0 <= j < s.len() && j != k ==> (#[trigger] s[j]).0 != key,
    ensures
        view_first_index(s, key) == Some(k),
    decreases s.len(),
{
    if k < s.len() - 1 {
        lemma_view_first_index_at(s.drop_last(), key, k);
    } else {
        lemma_view_first_index_absent(s.drop_last(), key);
    }
}

proof fn lemma_view_first_index_absent<X>(s: Seq<(Seq<char>, X)>, key: Seq<char>)
    requires
        forall|j: int| 0 <= j < s.len() ==> (#[trigger] s[j]).0 != key,
    ensures
        view_first_index(s, key) is None,
    decreases s.len(),
{
    if s.len() > 0 {
        lemma_view_first_index_absent(s.drop_last(), key);
    }
}

/// A plugin that a provider loaded, and that was not disabled, is kept under
/// the provider's name; every plugin kept is one that a provider loaded, and
/// its name is that provider's name.
pub proof fn lemma_loaded_plugins_are_kept<P>(names: Seq<&'static str>, answers: Seq<Option<LoadPluginResult<P>>>, k: int)
    requires
        names.len() == answers.len(),
        0 <= k < answers.len(),
    ensures
        answers[k] matches Some(LoadPluginResult::Loaded(_)) ==> exists|i: int|
            0 <= i < loaded_entries(names, answers).len() && (#[trigger] loaded_entries(names, answers)[i]).0 == names[k]@,
        forall|i: int| 0 <= i < loaded_entries(names, answers).len() ==> exists|j: int|
            0 <= j < answers.len() && answers[j] == Some(LoadPluginResult::Loaded((#[trigger] loaded_entries(names, answers)[i]).1))
                && names[j]@ == loaded_entries(names, answers)[i].0,
    decreases answers.len(),
{
    let n2 = names.drop_last();
    let a2 = answers.drop_last();
    let kept = loaded_entries(n2, a2);
    let all = loaded_entries(names, answers);
    let last = answers.len() - 1;
    if k < last {
        lemma_loaded_plugins_are_kept(n2, a2, k);
    } else if last > 0 {
        lemma_loaded_plugins_are_kept(n2, a2, 0);
    }
    lemma_view_first_index_bounds_local(kept, names[last]@);
    // the entries of `all`: those of `kept`, or the new one
    match answers[last] {
        Some(LoadPluginResult::Loaded(plugin)) => {
            assert(all == view_insert(kept, names[last]@, plugin));
            match view_first_index(kept, names[last]@) {
                Some(x) => {
                    assert(all[x] == (names[last]@, plugin));
                    if k < last && answers[k] matches Some(LoadPluginResult::Loaded(_)) {
                        let i = choose|i: int| 0 <= i < kept.len() && (#[trigger] kept[i]).0 == names[k]@;
                        if i == x {
                            assert(all[x].0 == names[k]@);
                        } else {
                            assert(all[i] == kept[i]);
                        }
                    }
                    assert forall|i: int| 0 <= i < all.len() implies exists|j: int|
                        0 <= j < answers.len() && answers[j] == Some(LoadPluginResult::Loaded((#[trigger] all[i]).1))
                            && names[j]@ == all[i].0 by {
                        if i == x {
                            assert(answers[last] == Some(LoadPluginResult::Loaded(all[i].1)));
                        } else {
                            assert(all[i] == kept[i]);
                            let j = choose|j: int| 0 <= j < a2.len() && a2[j] == Some(LoadPluginResult::Loaded((#[trigger] kept[i]).1))
                                && n2[j]@ == kept[i].0;
                            assert(answers[j] == a2[j] && names[j] == n2[j]);
                        }
                    }
                },
                None => {
                    assert(all == kept.push((names[last]@, plugin)));
                    if k == last {
                        assert(all[kept.len() as int].0 == names[k]@);
                    } else if answers[k] matches Some(LoadPluginResult::Loaded(_)) {
                        let i = choose|i: int| 0 <= i < kept.len() && (#[trigger] kept[i]).0 == names[k]@;
                        assert(all[i] == kept[i]);
                    }
                    assert forall|i: int| 0 <= i < all.len() implies exists|j: int|
                        0 <= j < answers.len() && answers[j] == Some(LoadPluginResult::Loaded((#[trigger] all[i]).1))
                            && names[j]@ == all[i].0 by {
                        if i == kept.len() {
                            assert(answers[last] == Some(LoadPluginResult::Loaded(all[i].1)));
                        } else {
                            assert(all[i] == kept[i]);
                            let j = choose|j: int| 0 <= j < a2.len() && a2[j] == Some(LoadPluginResult::Loaded((#[trigger] kept[i]).1))
                                && n2[j]@ == kept[i].0;
                            assert(answers[j] == a2[j] && names[j] == n2[j]);
                        }
                    }
                },
            }
        },
        _ => {
            assert(all == kept);
            if k < last && answers[k] matches Some(LoadPluginResult::Loaded(_)) {
                let i = choose|i: int| 0 <= i < kept.len() && (#[trigger] kept[i]).0 == names[k]@;
                assert(all[i] == kept[i]);
            }
            assert forall|i: int| 0 <= i < all.len() implies exists|j: int|
                0 <= j < answers.len() && answers[j] == Some(LoadPluginResult::Loaded((#[trigger] all[i]).1))
                    && names[j]@ == all[i].0 by {
                let j = choose|j: int| 0 <= j < a2.len() && a2[j] == Some(LoadPluginResult::Loaded((#[trigger] kept[i]).1))
                    && n2[j]@ == kept[i].0;
                assert(answers[j] == a2[j] && names[j] == n2[j]);
            }
        },
    }
}

proof fn lemma_view_first_index_bounds_local<X>(s: Seq<(Seq<char>, X)>, key: Seq<char>)
    ensures
        view_first_index(s, key) matches Some(i) ==> 0 <= i < s.len() && s[i].0 == key,
    decreases s.len(),
{
    if s.len() > 0 {
        lemma_view_first_index_bounds_local(s.drop_last(), key);
    }
}


proof fn lemma_extra_fields_given(plugin_configs: Seq<(String, PluginConfig)>, name: Seq<char>)
    ensures
        forall|k: int| 0 <= k < plugin_configs.len() && plugin_configs[k].0@ == name
            && (forall|j: int| 0 <= j < k ==> #[trigger] plugin_configs[j].0@ != name)
            ==> first_key_index(plugin_configs, name) == Some(k),
        !crate::config::keys(plugin_configs).contains(name) ==> first_key_index(plugin_configs, name) is None,
        forall|fields: Vec<(String, toml::Value)>| !crate::config::keys(plugin_configs).contains(name) && fields@.len() == 0
            ==> #[trigger] extra_fields_given(plugin_configs, name, fields),
    decreases plugin_configs.len(),
{
    crate::cargo::lemma_first_key_index_bounds(plugin_configs, name);
    if first_key_index(plugin_configs, name) is Some {
        let i = first_key_index(plugin_configs, name)->0;
        assert(crate::config::keys(plugin_configs)[i] == name);
    }
    if plugin_configs.len() > 0 {
        let p = plugin_configs.drop_last();
        lemma_extra_fields_given(p, name);
        assert forall|k: int| 0 <= k < plugin_configs.len() && plugin_configs[k].0@ == name
            && (forall|j: int| 0 <= j < k ==> #[trigger] plugin_configs[j].0@ != name)
            implies first_key_index(plugin_configs, name) == Some(k) by {
            if k < plugin_configs.len() - 1 {
                assert(p[k] == plugin_configs[k]);
                assert forall|j: int| 0 <= j < k implies #[trigger] p[j].0@ != name by {
                    assert(p[j] == plugin_configs[j]);
                }
            } else {
                assert forall|j: int| 0 <= j < p.len() implies #[trigger] crate::config::keys(p)[j] != name by {
                    assert(crate::config::keys(p)[j] == plugin_configs[j].0@);
                }
                assert(!crate::config::keys(p).contains(name));
            }
        }
    }
}

/// What `add_load_result` does to the loaded plugins, by the views of their names.
proof fn lemma_entries_step<P>(before: Seq<(String, P)>, after: Seq<(String, P)>, name: Seq<char>, res: LoadPluginResult<P>)
    requires
        entry_names(before).no_duplicates(),
        match res {
            LoadPluginResult::Loaded(plugin) => {
                if entry_names(before).contains(name) {
                    exists|k: int| 0 <= k < before.len() && before[k].0@ == name
                        && after.len() == before.len()
                        && after[k].0@ == name && after[k].1 == plugin
                        && (forall|j: int| 0 <= j < before.len() && j != k ==> #[trigger] after[j] == before[j])
                } else {
                    &&& after.len() == before.len() + 1
                    &&& after.last().0@ == name
                    &&& after.last().1 == plugin
                    &&& after.drop_last() == before
                }
            },
            _ => after == before,
        },
    ensures
        entries_view(after) == (match res {
            LoadPluginResult::Loaded(plugin) => view_insert(entries_view(before), name, plugin),
            _ => entries_view(before),
        }),
{
    let bv = entries_view(before);
    match res {
        LoadPluginResult::Loaded(plugin) => {
            if entry_names(before).contains(name) {
                let k = choose|k: int| 0 <= k < before.len() && before[k].0@ == name
                    && after.len() == before.len()
                    && after[k].0@ == name && after[k].1 == plugin
                    && (forall|j: int| 0 <= j < before.len() && j != k ==> #[trigger] after[j] == before[j]);
                assert forall|j: int| 0 <= j < bv.len() && j != k implies (#[trigger] bv[j]).0 != name by {
                    assert(entry_names(before)[j] == bv[j].0 && entry_names(before)[k] == bv[k].0);
                }
                lemma_view_first_index_at(bv, name, k);
                assert(entries_view(after) =~= bv.update(k, (name, plugin)));
            } else {
                assert forall|j: int| 0 <= j < bv.len() implies (#[trigger] bv[j]).0 != name by {
                    assert(entry_names(before)[j] == bv[j].0);
                }
                lemma_view_first_index_absent(bv, name);
                assert(after =~= before.push(after.last()));
                assert(entries_view(after) =~= bv.push((name, plugin)));
            }
        },
        _ => {},
    }
}

}
