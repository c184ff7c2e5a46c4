use deptrace::cargo::{
    CargoLoadStep,
    cargo_build_args, running_cargo_build_message, ArtifactFile, CargoBuildAction, CargoBuildOutputs,
    CargoMessage, CargoPackageInfo, CargoPluginExtraConfigFields, CargoPluginGenerateError,
    CargoPluginProvider, CargoTargetInfo, CompilerMessageLevel,
};
use deptrace::{DependencyKind, DependencyNameOrDependencyConfig, LoadPluginResult, NormalOrPluginName};
use std::path::PathBuf;

fn strip_colors(s: &str) -> String {
    s.replace("\u{1b}[32m", "").replace("\u{1b}[0m", "")
}

fn file(path: &str) -> ArtifactFile {
    let p = PathBuf::from(path);
    let file_name = p.file_name().and_then(|n| n.to_str()).map(str::to_string);
    ArtifactFile { path: p, file_name }
}

fn cargo_target(name: &str, is_cdylib: bool, is_bin: bool) -> CargoTargetInfo {
    CargoTargetInfo { name: name.to_string(), is_cdylib, is_bin }
}

fn artifact(name: &str, fresh: bool, files: Vec<ArtifactFile>) -> CargoMessage {
    CargoMessage::CompilerArtifact { fresh, target_name: name.to_string(), filenames: files }
}

#[test]
fn cargo_plugin_name_and_prefix() {
    assert_eq!(CargoPluginProvider::plugin_name(), "cargo");
    assert_eq!(
        CargoPluginProvider::prefix_name("app".to_string()),
        NormalOrPluginName::Plugin { plugin_name: "cargo".to_string(), name: "app".to_string() }
    );
}

#[test]
fn extra_fields_read_cargo_args_and_warn_on_others() {
    let fields = vec![
        ("colour".to_string(), toml::Value::Boolean(true)),
        (
            "extra_cargo_args".to_string(),
            toml::Value::Array(vec![toml::Value::String("--release".to_string()), toml::Value::String("--locked".to_string())]),
        ),
    ];
    let mut warnings = vec!["earlier".to_string()];
    let parsed = CargoPluginExtraConfigFields::from_extra_config_fields(&fields, &mut warnings).unwrap();
    assert_eq!(parsed.extra_cargo_args, vec!["--release".to_string(), "--locked".to_string()]);
    assert_eq!(warnings, vec!["earlier".to_string(), "unknown field named 'colour'".to_string()]);
}

#[test]
fn extra_fields_default_is_empty() {
    let mut warnings = vec![];
    let parsed = CargoPluginExtraConfigFields::from_extra_config_fields(&vec![], &mut warnings).unwrap();
    assert_eq!(parsed, CargoPluginExtraConfigFields::default());
    assert!(parsed.extra_cargo_args.is_empty());
    assert!(warnings.is_empty());
}

#[test]
fn extra_fields_wrong_type_is_an_error() {
    let fields = vec![("extra_cargo_args".to_string(), toml::Value::Integer(3))];
    let mut warnings = vec![];
    let (field, reason) = CargoPluginExtraConfigFields::from_extra_config_fields(&fields, &mut warnings).unwrap_err();
    assert_eq!(field, "extra_cargo_args");
    assert!(!reason.is_empty());
}

#[test]
fn build_arguments_and_message() {
    let extra = vec!["--release".to_string(), "-p".to_string(), "x".to_string()];
    assert_eq!(
        cargo_build_args(&extra),
        vec!["build", "--message-format=json", "--release", "-p", "x"].iter().map(|s| s.to_string()).collect::<Vec<_>>()
    );
    assert_eq!(cargo_build_args(&vec![]), vec!["build".to_string(), "--message-format=json".to_string()]);
    let m = running_cargo_build_message(&extra);
    assert!(m.ends_with(" cargo build --release -p x..."));
    assert_eq!(strip_colors(&m), "Running cargo build --release -p x...");
    assert_eq!(strip_colors(&running_cargo_build_message(&vec![])), "Running cargo build...");
}

#[test]
fn handle_compiler_artifacts() {
    let mut outputs = CargoBuildOutputs::new(vec![]);
    match outputs.handle_message(artifact("app", false, vec![file("/t/app")])) {
        CargoBuildAction::Println(m) => assert_eq!(strip_colors(&m), "Compiling app..."),
        other => panic!("unexpected {other:?}"),
    }
    assert!(matches!(outputs.handle_message(artifact("lib", true, vec![file("/t/liblib.so")])), CargoBuildAction::Nothing));
    assert!(matches!(outputs.handle_message(artifact("app", true, vec![file("/t/app2")])), CargoBuildAction::Nothing));
    let names: Vec<&str> = outputs.artifact_output_filepaths.iter().map(|(n, _)| n.as_str()).collect();
    assert_eq!(names, vec!["app", "lib"]);
    assert_eq!(outputs.artifact_output_filepaths[0].1[0].path, PathBuf::from("/t/app2"));
}

#[test]
fn handle_compiler_messages() {
    let mut outputs = CargoBuildOutputs::new(vec![]);
    let warn = CargoMessage::CompilerMessage {
        level: CompilerMessageLevel::Warning,
        rendered: Some("rendered text".to_string()),
        message: "plain".to_string(),
    };
    match outputs.handle_message(warn) {
        CargoBuildAction::Warn(w) => assert_eq!(w, "cargo build reported warning:\nrendered text"),
        other => panic!("unexpected {other:?}"),
    }
    let err = CargoMessage::CompilerMessage { level: CompilerMessageLevel::Error, rendered: None, message: "boom".to_string() };
    match outputs.handle_message(err) {
        CargoBuildAction::Fail(CargoPluginGenerateError::CargoBuildReportedError { error }) => assert_eq!(error, "boom"),
        other => panic!("unexpected {other:?}"),
    }
    let note = CargoMessage::CompilerMessage { level: CompilerMessageLevel::Other, rendered: None, message: "note".to_string() };
    match outputs.handle_message(note) {
        CargoBuildAction::Println(m) => assert_eq!(m, "note"),
        other => panic!("unexpected {other:?}"),
    }
}

#[test]
fn handle_other_messages() {
    let mut outputs = CargoBuildOutputs::new(vec![]);
    match outputs.handle_message(CargoMessage::TextLine("hello".to_string())) {
        CargoBuildAction::Println(m) => assert_eq!(m, "hello"),
        other => panic!("unexpected {other:?}"),
    }
    assert!(matches!(outputs.handle_message(CargoMessage::BuildFinished { success: true }), CargoBuildAction::Nothing));
    assert!(matches!(
        outputs.handle_message(CargoMessage::BuildFinished { success: false }),
        CargoBuildAction::Fail(CargoPluginGenerateError::UnsuccessfullCargoBuild)
    ));
    assert!(matches!(outputs.handle_message(CargoMessage::Other), CargoBuildAction::Nothing));
    match outputs.handle_message(CargoMessage::Unreadable { error: "eof".to_string() }) {
        CargoBuildAction::Println(m) => assert_eq!(m, "failed to parse cargo metadata message: eof"),
        other => panic!("unexpected {other:?}"),
    }
}

#[test]
fn handle_build_script_output() {
    let mut outputs = CargoBuildOutputs::new(vec![("pkg-id-1".to_string(), "app".to_string())]);
    let msg = CargoMessage::BuildScriptExecuted {
        package_id: "pkg-id-1".to_string(),
        linked_libs: vec!["dylib=ssl".to_string(), "static=z".to_string(), "crypto".to_string(), "dylib=m".to_string()],
        linked_paths: vec!["native=/opt/lib".to_string(), "all=/x".to_string()],
    };
    assert!(matches!(outputs.handle_message(msg), CargoBuildAction::Nothing));
    assert_eq!(outputs.artifact_linked_libs.len(), 1);
    let (pkg, info) = &outputs.artifact_linked_libs[0];
    assert_eq!(pkg, "app");
    assert_eq!(info.linked_lib_names, vec!["ssl".to_string(), "m".to_string()]);
    assert_eq!(info.linked_lib_search_paths, vec!["/opt/lib".to_string()]);
    let unknown = CargoMessage::BuildScriptExecuted { package_id: "other".to_string(), linked_libs: vec!["dylib=q".to_string()], linked_paths: vec![] };
    outputs.handle_message(unknown);
    assert_eq!(outputs.artifact_linked_libs.len(), 1);
}

#[test]
fn generate_configuration_from_build_outputs() {
    let mut outputs = CargoBuildOutputs::new(vec![("id".to_string(), "app".to_string())]);
    outputs.handle_message(artifact("app", false, vec![file("/t/debug/app")]));
    outputs.handle_message(artifact("plug", false, vec![file("/t/debug/libplug.so"), file("/t/debug/libplug.d")]));
    outputs.handle_message(artifact("tool", false, vec![file("/t/debug/tool")]));
    outputs.handle_message(artifact("multi", false, vec![file("/t/a"), file("/t/b")]));
    outputs.handle_message(artifact("none", false, vec![]));
    outputs.handle_message(CargoMessage::BuildScriptExecuted {
        package_id: "id".to_string(),
        linked_libs: vec!["dylib=ssl".to_string()],
        linked_paths: vec![],
    });
    let packages = vec![
        CargoPackageInfo {
            is_inside_project_dir: true,
            targets: vec![
                cargo_target("app", false, true),
                cargo_target("plug", true, false),
                cargo_target("rlib_only", false, false),
                cargo_target("multi", false, true),
                cargo_target("none", false, true),
            ],
        },
        CargoPackageInfo { is_inside_project_dir: false, targets: vec![cargo_target("tool", false, true)] },
    ];
    let mut warnings = vec![];
    let config = outputs.generate_project_config(&packages, &mut warnings).unwrap();
    assert_eq!(config.name, None);
    assert_eq!(config.dependencies.len(), 1);
    let (dep_name, dep) = &config.dependencies[0];
    assert_eq!(dep_name, "cargo:plug");
    assert_eq!(dep.kinds, vec![DependencyKind::Runtime]);
    assert_eq!(dep.provides, vec!["libplug.so".to_string(), "libplug.d".to_string()]);
    assert!(dep.subdependencies.is_empty());
    assert_eq!(config.targets.len(), 1);
    let (target_name, target) = &config.targets[0];
    assert_eq!(target_name, "cargo:app");
    assert_eq!(target.filepath, PathBuf::from("/t/debug/app"));
    assert_eq!(target.dependencies, vec![DependencyNameOrDependencyConfig::Name("cargo:ssl".to_string())]);
    assert_eq!(
        warnings,
        vec![
            "there are more than just one output file associated with the target named 'multi', not supported (yet?), target will be ignored!".to_string(),
            "could not find any output file associated with the target named 'none', target will be ignored!".to_string(),
        ]
    );
}

#[test]
fn generate_fails_on_target_that_was_not_built() {
    let mut outputs = CargoBuildOutputs::new(vec![]);
    outputs.handle_message(artifact("app", false, vec![file("/t/app")]));
    let packages = vec![CargoPackageInfo {
        is_inside_project_dir: true,
        targets: vec![cargo_target("app", false, true), cargo_target("missing", true, false), cargo_target("later", false, true)],
    }];
    let mut warnings = vec![];
    match outputs.generate_project_config(&packages, &mut warnings) {
        Err(CargoPluginGenerateError::DidNotFindArtifactOutputFilepath { artifact_name }) => assert_eq!(artifact_name, "missing"),
        other => panic!("unexpected {other:?}"),
    }
    assert!(warnings.is_empty());
}

#[test]
fn load_step_decides_before_running_cargo_metadata() {
    let fields = vec![("extra_cargo_args".to_string(), toml::Value::Array(vec![toml::Value::String("-q".to_string())]))];
    let mut warnings = vec![];
    match CargoPluginProvider::load_step::<u8>(&fields, true, &mut warnings) {
        CargoLoadStep::RunCargoMetadata(parsed) => assert_eq!(parsed.extra_cargo_args, vec!["-q".to_string()]),
        _ => panic!("expected to run cargo metadata"),
    }
    assert!(matches!(
        CargoPluginProvider::load_step::<u8>(&fields, false, &mut warnings),
        CargoLoadStep::Answer(LoadPluginResult::NotSuitable)
    ));
    let bad = vec![("extra_cargo_args".to_string(), toml::Value::Boolean(false))];
    match CargoPluginProvider::load_step::<u8>(&bad, true, &mut warnings) {
        CargoLoadStep::Answer(LoadPluginResult::ExtraConfigFieldsError { field_name, error }) => {
            assert_eq!(field_name, "extra_cargo_args");
            assert!(!error.is_empty());
        }
        _ => panic!("expected an extra field error"),
    }
    assert!(warnings.is_empty());
}

#[test]
fn load_with_metadata_outcomes() {
    let mut warnings = vec![];
    match CargoPluginProvider::load_with_metadata(CargoPluginExtraConfigFields::default(), Ok::<u8, (bool, String)>(7), &mut warnings) {
        LoadPluginResult::Loaded((m, fields)) => {
            assert_eq!(m, 7);
            assert!(fields.extra_cargo_args.is_empty());
        }
        _ => panic!("expected the plugin to load"),
    }
    assert!(matches!(
        CargoPluginProvider::load_with_metadata(CargoPluginExtraConfigFields::default(), Err::<u8, _>((true, "missing".to_string())), &mut warnings),
        LoadPluginResult::NotSuitable
    ));
    assert!(warnings.is_empty());
    assert!(matches!(
        CargoPluginProvider::load_with_metadata(CargoPluginExtraConfigFields::default(), Err::<u8, _>((false, "broken".to_string())), &mut warnings),
        LoadPluginResult::NotSuitable
    ));
    assert_eq!(
        warnings,
        vec!["Could not load cargo plugin, found Cargo.toml file but cargo metadata process failed:\nbroken\nCargo plugin will be disabled!".to_string()]
    );
}
