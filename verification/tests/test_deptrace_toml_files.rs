use deptrace::{
    DependencyConfig, DependencyCycle, DependencyKind, DependencyNameOrDependencyConfig,
    NamedDependencyConfig, ProjectConfig, ResolveProjectError, TargetConfig, resolve_project_config,
};
use indexmap::IndexSet;
use std::path::PathBuf;

fn name(n: &str) -> DependencyNameOrDependencyConfig {
    DependencyNameOrDependencyConfig::Name(n.to_string())
}

fn config(provides: &[&str], subdependencies: Vec<DependencyNameOrDependencyConfig>) -> DependencyConfig {
    DependencyConfig {
        kinds: vec![DependencyKind::Runtime],
        provides: provides.iter().map(|s| s.to_string()).collect(),
        subdependencies,
    }
}

fn inline(n: &str, c: DependencyConfig) -> DependencyNameOrDependencyConfig {
    DependencyNameOrDependencyConfig::Config(NamedDependencyConfig::new(n.to_string(), c))
}

fn target(deps: Vec<DependencyNameOrDependencyConfig>) -> TargetConfig {
    TargetConfig { filepath: PathBuf::from("target/debug/app"), dependencies: deps }
}

/// Many dependencies, declared at the top level and inline, sharing
/// subdependencies: everything resolves.
#[test]
fn stresstest() {
    let mut dependencies = Vec::new();
    for i in 0..60 {
        let subs = if i == 0 { vec![] } else { vec![name(&format!("dep{}", i - 1)), name("dep0")] };
        dependencies.push((format!("dep{i}"), config(&[&format!("libdep{i}.so")], subs)));
    }
    let mut targets = Vec::new();
    for t in 0..20 {
        targets.push((
            format!("target{t}"),
            target(vec![
                name(&format!("dep{}", 59 - t)),
                inline(&format!("inline{t}"), config(&["libinline.so"], vec![name("dep3")])),
            ]),
        ));
    }
    let project_config = ProjectConfig { name: Some("stress".to_string()), dependencies, targets };
    let project = resolve_project_config(project_config).unwrap();
    assert_eq!(project.dependencies.len(), 80);
    assert_eq!(project.targets.len(), 20);
    let (_, dep59) = project.dependencies.iter().find(|(n, _)| n == "dep59").unwrap();
    assert!(dep59.provides_library("libdep0.so"));
    assert!(!dep59.provides_library("libinline.so"));
}

/// The resolver detects cyclic dependencies and reports them instead of
/// running forever.
#[test]
fn cyclic_dependencies() {
    let project_config = ProjectConfig {
        name: None,
        dependencies: vec![
            ("foo1".to_string(), config(&[], vec![name("foo2")])),
            ("foo2".to_string(), config(&[], vec![name("foo3"), name("foo4")])),
            ("foo3".to_string(), config(&[], vec![])),
            ("foo4".to_string(), config(&[], vec![name("foo5")])),
            ("foo5".to_string(), config(&[], vec![name("foo6")])),
            ("foo6".to_string(), config(&[], vec![name("foo7")])),
            ("foo7".to_string(), config(&[], vec![name("foo5")])),
        ],
        targets: vec![("main".to_string(), target(vec![name("foo1")]))],
    };

    let resolve_error = resolve_project_config(project_config).unwrap_err();
    assert_eq!(
        resolve_error,
        ResolveProjectError::CyclicDependency {
            dependency_cicle: DependencyCycle(["foo5", "foo6", "foo7"].map(str::to_string).into())
        }
    );
}

#[test]
fn cycle_is_reported_in_visiting_order() {
    let project_config = ProjectConfig {
        name: None,
        dependencies: vec![
            ("a".to_string(), config(&[], vec![name("b")])),
            ("b".to_string(), config(&[], vec![name("c")])),
            ("c".to_string(), config(&[], vec![name("b")])),
        ],
        targets: vec![],
    };
    match resolve_project_config(project_config).unwrap_err() {
        ResolveProjectError::CyclicDependency { dependency_cicle } => {
            let entries: Vec<&String> = dependency_cicle.0.iter().collect();
            assert_eq!(entries, vec!["b", "c"]);
            assert_eq!(dependency_cicle.to_display_string(), "b --> c --> b");
        }
        other => panic!("unexpected {other:?}"),
    }
}

#[test]
fn self_dependency_is_a_cycle() {
    let project_config = ProjectConfig {
        name: None,
        dependencies: vec![("a".to_string(), config(&[], vec![name("a")]))],
        targets: vec![],
    };
    assert_eq!(
        resolve_project_config(project_config).unwrap_err(),
        ResolveProjectError::CyclicDependency { dependency_cicle: DependencyCycle(["a"].map(str::to_string).into()) }
    );
}

#[test]
fn duplicate_inline_declaration() {
    let project_config = ProjectConfig {
        name: None,
        dependencies: vec![("a".to_string(), config(&[], vec![inline("b", config(&[], vec![]))]))],
        targets: vec![("t".to_string(), target(vec![inline("b", config(&[], vec![]))]))],
    };
    assert_eq!(
        resolve_project_config(project_config).unwrap_err(),
        ResolveProjectError::DublicateDependencyDefinition { dep_name: "b".to_string() }
    );
}

#[test]
fn inline_declaration_shadowing_top_level_is_a_duplicate() {
    let project_config = ProjectConfig {
        name: None,
        dependencies: vec![("a".to_string(), config(&[], vec![])), ("b".to_string(), config(&[], vec![inline("a", config(&[], vec![]))]))],
        targets: vec![],
    };
    assert_eq!(
        resolve_project_config(project_config).unwrap_err(),
        ResolveProjectError::DublicateDependencyDefinition { dep_name: "a".to_string() }
    );
}

#[test]
fn unresolved_subdependency() {
    let project_config = ProjectConfig {
        name: None,
        dependencies: vec![("a".to_string(), config(&[], vec![name("missing")]))],
        targets: vec![],
    };
    assert_eq!(
        resolve_project_config(project_config).unwrap_err(),
        ResolveProjectError::UnresolvedDependency { dep_name: "missing".to_string() }
    );
}

#[test]
fn unresolved_target_dependency() {
    let project_config = ProjectConfig {
        name: None,
        dependencies: vec![("a".to_string(), config(&[], vec![]))],
        targets: vec![("t".to_string(), target(vec![name("a"), name("nowhere")]))],
    };
    assert_eq!(
        resolve_project_config(project_config).unwrap_err(),
        ResolveProjectError::UnresolvedDependency { dep_name: "nowhere".to_string() }
    );
}

#[test]
fn unresolved_subdependency_is_reported_before_a_cycle() {
    let project_config = ProjectConfig {
        name: None,
        dependencies: vec![
            ("a".to_string(), config(&[], vec![name("a")])),
            ("b".to_string(), config(&[], vec![name("ghost")])),
        ],
        targets: vec![],
    };
    assert_eq!(
        resolve_project_config(project_config).unwrap_err(),
        ResolveProjectError::UnresolvedDependency { dep_name: "ghost".to_string() }
    );
}

#[test]
fn resolved_project_shares_dependencies() {
    let project_config = ProjectConfig {
        name: Some("p".to_string()),
        dependencies: vec![
            ("libc".to_string(), config(&["libc.so.6"], vec![])),
            ("ssl".to_string(), config(&["libssl.so"], vec![name("libc"), name("libc")])),
        ],
        targets: vec![(
            "cargo:app".to_string(),
            target(vec![name("ssl"), inline("cargo:z", config(&["libz.so"], vec![name("libc")])), name("ssl")]),
        )],
    };
    let project = resolve_project_config(project_config).unwrap();
    assert_eq!(project.name, Some("p".to_string()));
    let names: Vec<&str> = project.dependencies.iter().map(|(n, _)| n.as_str()).collect();
    assert_eq!(names, vec!["libc", "ssl", "cargo:z"]);
    let ssl = &project.dependencies[1].1;
    assert_eq!(ssl.subdependencies.len(), 1);
    assert_eq!(ssl.subdependencies[0].0, "libc");
    assert_eq!(*ssl.subdependencies[0].1, *project.dependencies[0].1);
    let (target_name, target) = &project.targets[0];
    assert_eq!(target_name, "cargo:app");
    assert_eq!(target.dependencies.len(), 2);
    assert_eq!(target.dependencies[0].0.to_display_string(), "ssl");
    assert_eq!(
        target.dependencies[1].0,
        deptrace::NormalOrPluginName::Plugin { plugin_name: "cargo".to_string(), name: "z".to_string() }
    );
    assert!(target.dependencies[1].1.provides_library("libc.so.6"));
    assert!(target.dependencies[0].1.provides_library("libc.so.6"));
    assert!(!target.dependencies[0].1.provides_library("libz.so"));
}
