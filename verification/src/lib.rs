//! Tracks and documents the dependencies of the targets of a project: reads
//! dependency declarations, resolves them into a graph, and relates the shared
//! libraries an executable needs to the dependencies that provide them.

pub mod seqs;
pub mod colors;
pub mod names;
pub mod config;
pub mod index_set;
pub mod dependency;
pub mod target;
pub mod project;
pub mod plugin;
pub mod warning_sink;
pub mod analysis;
pub mod cargo;
pub mod cli;

pub use names::NormalOrPluginName;
pub use config::{
    DependencyConfig, DependencyKind, DependencyNameOrDependencyConfig, MergeProjectConfigError,
    NamedDependencyConfig, OneOrMany, PluginConfig, ProjectConfig, ProjectConfigFile, TargetConfig,
    TomlDeErrorMsg, default_enabled,
};
pub use dependency::Dependency;
pub use target::Target;
pub use project::{DependencyCycle, Project, ResolveProjectError, resolve_project_config};
pub use plugin::{LoadPluginResult, Plugin, PluginProvider, Plugins, PluginsGenerateConfigError, is_plugin_disabled};
pub use warning_sink::{CliWarningSink, WarningSink};
pub use analysis::{LibraryReport, NeededLibrary, classify_libraries, lib_info_line};
