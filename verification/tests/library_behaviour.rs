use deptrace::analysis::{join_names, missing_libraries_warning};
use deptrace::config::{config_file_step, project_config_filenames, ConfigFileStep};
use deptrace::{
    classify_libraries, default_enabled, is_plugin_disabled, lib_info_line, resolve_project_config,
    Dependency, DependencyConfig, DependencyCycle, DependencyKind, DependencyNameOrDependencyConfig,
    LoadPluginResult, MergeProjectConfigError, NamedDependencyConfig, NeededLibrary,
    NormalOrPluginName, OneOrMany, PluginConfig, Plugins, ProjectConfig, ProjectConfigFile,
    ResolveProjectError, Target, TargetConfig, WarningSink, CliWarningSink,
};
use indexmap::IndexSet;
use std::path::PathBuf;
use std::sync::Arc;

fn name_ref(n: &str) -> DependencyNameOrDependencyConfig {
    DependencyNameOrDependencyConfig::Name(n.to_string())
}

fn dep(provides: &[&str], subdependencies: Vec<DependencyNameOrDependencyConfig>) -> DependencyConfig {
    DependencyConfig {
        kinds: vec![DependencyKind::Build],
        provides: provides.iter().map(|s| s.to_string()).collect(),
        subdependencies,
    }
}

fn inline_dep(n: &str, c: DependencyConfig) -> DependencyNameOrDependencyConfig {
    DependencyNameOrDependencyConfig::Config(NamedDependencyConfig::new(n.to_string(), c))
}

fn target_config(deps: Vec<DependencyNameOrDependencyConfig>) -> TargetConfig {
    TargetConfig { filepath: PathBuf::from("bin/app"), dependencies: deps }
}

fn empty_config() -> ProjectConfig {
    ProjectConfig::default()
}

fn index_set(names: &[&str]) -> IndexSet<String> {
    names.iter().map(|s| s.to_string()).collect()
}

// ---------------------------------------------------------------------------
// names

#[test]
fn name_without_colon_is_normal() {
    let n = NormalOrPluginName::from("libc".to_string());
    assert_eq!(n, NormalOrPluginName::Normal("libc".to_string()));
    assert_eq!(n.to_display_string(), "libc");
    assert_eq!(n.pretty_fmt(), "libc");
}

#[test]
fn name_is_split_at_first_colon() {
    let n = NormalOrPluginName::from("cargo:foo:bar".to_string());
    assert_eq!(
        n,
        NormalOrPluginName::Plugin { plugin_name: "cargo".to_string(), name: "foo:bar".to_string() }
    );
    assert_eq!(n.to_display_string(), "cargo:foo:bar");
}

#[test]
fn name_display_then_parse_roundtrip() {
    for text in ["", ":", "a:", ":b", "x:y:z", "plain"] {
        let n = NormalOrPluginName::from(text.to_string());
        assert_eq!(n.to_display_string(), text);
    }
    let n = NormalOrPluginName::Plugin { plugin_name: "p".to_string(), name: "q:r".to_string() };
    assert_eq!(NormalOrPluginName::from(n.to_display_string()), n);
}

#[test]
fn pretty_name_keeps_name_after_plugin() {
    let n = NormalOrPluginName::Plugin { plugin_name: "cargo".to_string(), name: "app".to_string() };
    let shown = n.pretty_fmt();
    assert!(shown.ends_with(":app"));
    assert!(shown.contains("cargo"));
    let plain = shown.replace("\u{1b}[90m", "").replace("\u{1b}[0m", "");
    assert_eq!(plain, "cargo:app");
}

// ---------------------------------------------------------------------------
// configuration

#[test]
fn one_or_many_becomes_a_list() {
    assert_eq!(OneOrMany::One(3).make_vec(), vec![3]);
    assert_eq!(OneOrMany::Many(vec![1, 2]).make_vec(), vec![1, 2]);
    assert_eq!(OneOrMany::<u8>::Many(vec![]).make_vec(), Vec::<u8>::new());
}

#[test]
fn count_declarations_ignores_references() {
    let pc = ProjectConfig {
        name: None,
        dependencies: vec![
            ("a".to_string(), dep(&[], vec![])),
            ("b".to_string(), dep(&[], vec![name_ref("a")])),
        ],
        targets: vec![
            ("t1".to_string(), target_config(vec![name_ref("a"), inline_dep("c", dep(&[], vec![inline_dep("d", dep(&[], vec![]))]))])),
            ("t2".to_string(), target_config(vec![name_ref("b"), name_ref("c")])),
        ],
    };
    assert_eq!(pc.count_dependency_declarations(), 4);
    let mut more_refs = pc.clone();
    more_refs.targets[1].1.dependencies.insert(0, name_ref("d"));
    assert_eq!(more_refs.count_dependency_declarations(), 4);
}

#[test]
fn count_declarations_of_nested_top_level_subdependencies_not_counted() {
    let pc = ProjectConfig {
        name: None,
        dependencies: vec![("a".to_string(), dep(&[], vec![inline_dep("x", dep(&[], vec![]))]))],
        targets: vec![],
    };
    assert_eq!(pc.count_dependency_declarations(), 1);
}

#[test]
fn merge_different_names_fails() {
    let mut a = empty_config();
    a.name = Some("one".to_string());
    let mut b = empty_config();
    b.name = Some("two".to_string());
    assert_eq!(a.merge(b).unwrap_err(), MergeProjectConfigError::MultipleDifferentProjectNames);
}

#[test]
fn merge_duplicate_dependency_fails() {
    let mut a = empty_config();
    a.dependencies.push(("x".to_string(), dep(&[], vec![])));
    a.targets.push(("t".to_string(), target_config(vec![])));
    let mut b = empty_config();
    b.dependencies.push(("x".to_string(), dep(&["other.so"], vec![])));
    b.targets.push(("t".to_string(), target_config(vec![])));
    assert_eq!(a.merge(b).unwrap_err(), MergeProjectConfigError::DublicateDependency);
}

#[test]
fn merge_duplicate_target_fails() {
    let mut a = empty_config();
    a.targets.push(("t".to_string(), target_config(vec![])));
    let mut b = empty_config();
    b.dependencies.push(("x".to_string(), dep(&[], vec![])));
    b.targets.push(("t".to_string(), target_config(vec![])));
    assert_eq!(a.merge(b).unwrap_err(), MergeProjectConfigError::DublicateTarget);
}

#[test]
fn merge_joins_entries() {
    let mut a = empty_config();
    a.name = Some("p".to_string());
    a.dependencies.push(("x".to_string(), dep(&[], vec![])));
    let mut b = empty_config();
    b.name = Some("p".to_string());
    b.dependencies.push(("y".to_string(), dep(&[], vec![])));
    b.targets.push(("t".to_string(), target_config(vec![name_ref("x")])));
    let m = a.merge(b).unwrap();
    assert_eq!(m.name, Some("p".to_string()));
    let names: Vec<&str> = m.dependencies.iter().map(|(n, _)| n.as_str()).collect();
    assert_eq!(names, vec!["x", "y"]);
    assert_eq!(m.targets.len(), 1);
}

#[test]
fn merge_takes_the_only_name() {
    let a = empty_config();
    let mut b = empty_config();
    b.name = Some("q".to_string());
    assert_eq!(a.merge(b).unwrap().name, Some("q".to_string()));
}

#[test]
fn merge_with_empty_gives_config_back() {
    let make = || {
        let mut a = empty_config();
        a.name = Some("p".to_string());
        a.dependencies.push(("x".to_string(), dep(&["x.so"], vec![])));
        a.targets.push(("t".to_string(), target_config(vec![name_ref("x")])));
        a
    };
    assert_eq!(make().merge(empty_config()).unwrap(), make());
    assert_eq!(empty_config().merge(make()).unwrap(), make());
}

#[test]
fn merge_commutes_on_outcome() {
    let make_a = || {
        let mut a = empty_config();
        a.dependencies.push(("x".to_string(), dep(&[], vec![])));
        a
    };
    let make_b = || {
        let mut b = empty_config();
        b.name = Some("n".to_string());
        b.dependencies.push(("y".to_string(), dep(&[], vec![])));
        b
    };
    let ab = make_a().merge(make_b()).unwrap();
    let ba = make_b().merge(make_a()).unwrap();
    assert_eq!(ab.name, ba.name);
    let mut n1: Vec<String> = ab.dependencies.iter().map(|(n, _)| n.clone()).collect();
    let mut n2: Vec<String> = ba.dependencies.iter().map(|(n, _)| n.clone()).collect();
    n1.sort();
    n2.sort();
    assert_eq!(n1, n2);
    let mut c = empty_config();
    c.dependencies.push(("x".to_string(), dep(&[], vec![])));
    assert_eq!(make_a().merge(c).unwrap_err(), MergeProjectConfigError::DublicateDependency);
    let mut c = empty_config();
    c.dependencies.push(("x".to_string(), dep(&[], vec![])));
    assert_eq!(c.merge(make_a()).unwrap_err(), MergeProjectConfigError::DublicateDependency);
}

#[test]
fn plugin_config_defaults() {
    assert!(default_enabled());
    let c = PluginConfig::default();
    assert!(c.enabled);
    assert!(c.extra_fields.is_empty());
}

#[test]
fn plugin_config_lookup_and_disabled_plugins() {
    let file = ProjectConfigFile {
        config: empty_config(),
        warnings_as_errors: false,
        plugins: vec![
            ("cargo".to_string(), PluginConfig { enabled: false, extra_fields: vec![] }),
            ("cmake".to_string(), PluginConfig::default()),
            ("meson".to_string(), PluginConfig { enabled: false, extra_fields: vec![] }),
        ],
    };
    assert!(!file.plugin_config("cargo").unwrap().enabled);
    assert!(file.plugin_config("cmake").unwrap().enabled);
    assert!(file.plugin_config("bazel").is_none());
    assert_eq!(file.disabled_plugins(), vec!["cargo".to_string(), "meson".to_string()]);
}

#[test]
fn config_file_candidates_and_steps() {
    assert_eq!(project_config_filenames(), vec!["deptrace.toml".to_string(), ".deptrace.toml".to_string()]);
    assert_eq!(config_file_step(false, true), ConfigFileStep::Read);
    assert_eq!(config_file_step(true, false), ConfigFileStep::Read);
    assert_eq!(config_file_step(true, true), ConfigFileStep::MultipleFiles);
}

// ---------------------------------------------------------------------------
// plugins

#[test]
fn plugins_keep_loaded_ones_by_name() {
    let mut plugins: Plugins<u32> = Plugins::new();
    assert!(plugins.is_empty());
    assert_eq!(plugins.len(), 0);
    assert_eq!(plugins.add_load_result("cargo".to_string(), LoadPluginResult::Loaded(1)), None);
    assert_eq!(plugins.add_load_result("cmake".to_string(), LoadPluginResult::NotSuitable), None);
    assert_eq!(plugins.add_load_result("meson".to_string(), LoadPluginResult::Loaded(2)), None);
    assert_eq!(plugins.add_load_result("cargo".to_string(), LoadPluginResult::Loaded(3)), None);
    assert_eq!(plugins.len(), 2);
    assert!(!plugins.is_empty());
    let entries: Vec<(String, u32)> = plugins.iter().cloned().collect();
    assert_eq!(entries, vec![("cargo".to_string(), 3), ("meson".to_string(), 2)]);
    assert_eq!(plugins.into_vec().len(), 2);
}

#[test]
fn plugin_extra_field_error_gives_warning() {
    let mut plugins: Plugins<u32> = Plugins::new();
    let w = plugins.add_load_result(
        "cargo".to_string(),
        LoadPluginResult::ExtraConfigFieldsError { field_name: "extra_cargo_args".to_string(), error: "bad".to_string() },
    );
    assert_eq!(
        w,
        Some("plugin 'cargo' had an error with the extra config field 'extra_cargo_args': bad".to_string())
    );
    assert!(plugins.is_empty());
}

#[test]
fn disabled_plugins_are_recognised() {
    let disabled = vec!["cargo".to_string(), "cmake".to_string()];
    assert!(is_plugin_disabled("cmake", &disabled));
    assert!(!is_plugin_disabled("meson", &disabled));
    assert!(!is_plugin_disabled("cargo", &vec![]));
}

// ---------------------------------------------------------------------------
// dependencies and cycles

#[test]
fn provides_library_through_subdependencies() {
    let leaf = Arc::new(Dependency { kinds: vec![], provides_libraries: vec!["libleaf.so".to_string()], subdependencies: vec![] });
    let mid = Arc::new(Dependency {
        kinds: vec![DependencyKind::Runtime],
        provides_libraries: vec![],
        subdependencies: vec![("leaf".to_string(), leaf.clone())],
    });
    let top = Dependency {
        kinds: vec![],
        provides_libraries: vec!["libtop.so".to_string()],
        subdependencies: vec![("mid".to_string(), mid)],
    };
    assert!(top.provides_library("libtop.so"));
    assert!(top.provides_library("libleaf.so"));
    assert!(!top.provides_library("libother.so"));
    assert!(!leaf.provides_library("libtop.so"));
}

#[test]
fn cycle_from_visited_starts_at_first_visit() {
    let c = DependencyCycle::from_visited_dependencies(index_set(&["a", "b", "c", "d"]), "b".to_string());
    assert_eq!(c.0.iter().cloned().collect::<Vec<_>>(), vec!["b", "c", "d"]);
    assert_eq!(c.to_display_string(), "b --> c --> d --> b");
}

#[test]
fn cycle_from_visited_without_start_is_empty() {
    let c = DependencyCycle::from_visited_dependencies(index_set(&["a", "b"]), "z".to_string());
    assert!(c.0.is_empty());
    assert_eq!(c.to_display_string(), "invalid dependency cicle: empty vec!");
}

#[test]
fn single_entry_cycle_display() {
    assert_eq!(DependencyCycle(index_set(&["x"])).to_display_string(), "x --> x");
}

#[test]
fn resolve_empty_config() {
    let project = resolve_project_config(empty_config()).unwrap();
    assert_eq!(project.name, None);
    assert!(project.dependencies.is_empty());
    assert!(project.targets.is_empty());
}

#[test]
fn resolve_cycle_through_inline_declaration() {
    let pc = ProjectConfig {
        name: None,
        dependencies: vec![("a".to_string(), dep(&[], vec![inline_dep("b", dep(&[], vec![name_ref("a")]))]))],
        targets: vec![],
    };
    match resolve_project_config(pc).unwrap_err() {
        ResolveProjectError::CyclicDependency { dependency_cicle } => {
            assert_eq!(dependency_cicle.0.len(), 2);
            assert!(dependency_cicle.0.contains("a") && dependency_cicle.0.contains("b"));
        }
        other => panic!("unexpected {other:?}"),
    }
}

#[test]
fn resolved_dependencies_match_declarations() {
    let pc = ProjectConfig {
        name: None,
        dependencies: vec![("a".to_string(), dep(&["a.so"], vec![inline_dep("b", dep(&["b.so"], vec![]))]))],
        targets: vec![("t".to_string(), target_config(vec![inline_dep("c", dep(&[], vec![name_ref("b")])), name_ref("a")]))],
    };
    let project = resolve_project_config(pc).unwrap();
    let names: Vec<&str> = project.dependencies.iter().map(|(n, _)| n.as_str()).collect();
    assert_eq!(names, vec!["a", "b", "c"]);
    assert_eq!(project.dependencies[0].1.kinds, vec![DependencyKind::Build]);
    assert_eq!(project.dependencies[0].1.provides_libraries, vec!["a.so".to_string()]);
    let t = &project.targets[0].1;
    assert_eq!(t.filepath, PathBuf::from("bin/app"));
    assert!(t.dependencies[0].1.provides_library("b.so"));
    assert!(!t.dependencies[0].1.provides_library("a.so"));
}

// ---------------------------------------------------------------------------
// analysis

fn needed(name: &str, found: bool) -> NeededLibrary {
    NeededLibrary { name: name.to_string(), found }
}

#[test]
fn classify_needed_libraries() {
    let ssl = Arc::new(Dependency { kinds: vec![], provides_libraries: vec!["libssl.so".to_string()], subdependencies: vec![] });
    let z = Arc::new(Dependency { kinds: vec![], provides_libraries: vec!["libz.so".to_string(), "libssl.so".to_string()], subdependencies: vec![] });
    let target = Target::new(
        PathBuf::from("bin/app"),
        vec![(NormalOrPluginName::from("ssl".to_string()), ssl), (NormalOrPluginName::from("z".to_string()), z)],
    );
    let libs = vec![needed("libz.so", true), needed("libc.so.6", true), needed("libssl.so", false), needed("libm.so", false)];
    let report = classify_libraries(&target, &libs);
    assert_eq!(report.documented, vec![(1, 0), (0, 2)]);
    assert_eq!(report.undocumented, vec![1, 3]);
    assert_eq!(report.not_installed, vec![2, 3]);
}

#[test]
fn lib_info_lines() {
    assert_eq!(lib_info_line("libz.so", Some("z"), Some("/usr/lib/libz.so")), "  z (libz.so) => /usr/lib/libz.so");
    assert_eq!(lib_info_line("libz.so", None, Some("/lib/libz.so")), "  libz.so => /lib/libz.so");
    assert_eq!(lib_info_line("libq.so", Some("q"), None), "  q (libq.so)");
    assert_eq!(lib_info_line("libq.so", None, None), "  libq.so");
}

#[test]
fn join_and_missing_warning() {
    assert_eq!(join_names(&vec![], ", "), "");
    assert_eq!(join_names(&vec!["a".to_string()], ", "), "a");
    assert_eq!(join_names(&vec!["a".to_string(), "b".to_string(), "c".to_string()], ", "), "a, b, c");
    assert_eq!(missing_libraries_warning(&vec![needed("x", true)]), None);
    assert_eq!(
        missing_libraries_warning(&vec![needed("x", false), needed("y", true), needed("z", false)]),
        Some("Some dependencies are missing on your system:\n  x, z".to_string())
    );
}

// ---------------------------------------------------------------------------
// loading plugins

struct FixedProvider {
    name: &'static str,
    answer: u8,
}

impl deptrace::plugin::PluginProvider for FixedProvider {
    type Plugin = String;

    fn get_plugin_name(&self) -> &'static str {
        self.name
    }

    fn try_load_plugin(
        &self,
        _project_dir: &PathBuf,
        extra_config_fields: &Vec<(String, toml::Value)>,
        warnings: &mut Vec<String>,
    ) -> LoadPluginResult<String> {
        for (field, _) in extra_config_fields {
            warnings.push(format!("{} saw {field}", self.name));
        }
        match self.answer {
            0 => LoadPluginResult::Loaded(format!("plugin {}", self.name)),
            1 => LoadPluginResult::NotSuitable,
            _ => LoadPluginResult::ExtraConfigFieldsError { field_name: "f".to_string(), error: "e".to_string() },
        }
    }
}

#[test]
fn load_suitable_skips_disabled_plugins() {
    let providers = vec![
        FixedProvider { name: "cargo", answer: 0 },
        FixedProvider { name: "cmake", answer: 0 },
        FixedProvider { name: "meson", answer: 1 },
        FixedProvider { name: "bazel", answer: 2 },
    ];
    let configs = vec![(
        "cargo".to_string(),
        PluginConfig { enabled: true, extra_fields: vec![("extra_cargo_args".to_string(), toml::Value::Boolean(true))] },
    )];
    let disabled = vec!["cmake".to_string()];
    let mut warnings = vec![];
    let mut messages = vec![];
    let plugins = Plugins::load_suitable(&PathBuf::from("."), &configs, &providers, &disabled, &mut warnings, &mut messages);
    let loaded: Vec<(String, String)> = plugins.into_vec();
    assert_eq!(loaded, vec![("cargo".to_string(), "plugin cargo".to_string())]);
    assert_eq!(warnings, vec!["cargo saw extra_cargo_args".to_string()]);
    assert_eq!(messages, vec!["plugin 'bazel' had an error with the extra config field 'f': e".to_string()]);
}

#[test]
fn warning_sink_reports_any_warnings() {
    let seen = std::cell::RefCell::new(Vec::new());
    let mut sink = CliWarningSink::new(|msg: &str| seen.borrow_mut().push(msg.to_string()));
    assert!(!sink.encountered_any_warnings());
    assert_eq!(sink.warnings_count(), 0);
    sink.emit_warning("w");
    assert!(sink.encountered_any_warnings());
    sink.add_to_warning_count(2);
    assert_eq!(sink.warnings_count(), 3);
    drop(sink);
    assert_eq!(seen.into_inner(), vec!["w".to_string()]);
}

#[test]
fn unique_keys_are_recognised() {
    let mut a = empty_config();
    assert!(a.has_unique_keys());
    a.dependencies.push(("x".to_string(), dep(&[], vec![])));
    a.targets.push(("x".to_string(), target_config(vec![])));
    assert!(a.has_unique_keys());
    a.dependencies.push(("x".to_string(), dep(&["other.so"], vec![])));
    assert!(!a.has_unique_keys());
    let mut b = empty_config();
    b.targets.push(("t".to_string(), target_config(vec![])));
    b.targets.push(("t".to_string(), target_config(vec![])));
    assert!(!b.has_unique_keys());
}

#[test]
fn configurations_and_projects_clone() {
    let pc = ProjectConfig {
        name: Some("p".to_string()),
        dependencies: vec![("a".to_string(), dep(&["a.so"], vec![inline_dep("b", dep(&["b.so"], vec![name_ref("c")]))]))],
        targets: vec![("t".to_string(), target_config(vec![name_ref("a"), inline_dep("c", dep(&[], vec![]))]))],
    };
    let copy = pc.clone();
    assert_eq!(copy, pc);
    let project = resolve_project_config(pc).unwrap();
    assert_eq!(project.clone(), project);
    let (_, target) = &project.targets[0];
    assert_eq!(target.clone(), *target);
}
