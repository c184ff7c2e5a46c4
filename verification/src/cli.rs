use vstd::prelude::*;
use std::path::PathBuf;
use crate::config::{disabled_plugin_entries, ProjectConfigFile};

verus! {

/// The command line options.
#[derive(Debug)]
pub struct Cli {
    /// (optional) the name of the target to analyze; every target by default
    pub target: Option<String>,
    /// (optional) override the project directory; the current working
    /// directory by default
    pub override_project_dir: Option<PathBuf>,
    /// (optional) override which project configuration file is loaded; by
    /// default `./deptrace.toml` and `./.deptrace.toml` are looked for
    pub override_project_config_file: Option<PathBuf>,
    /// (optional) plugins that should not be loaded, in addition to those the
    /// project configuration file disables
    pub disabled_plugins: Vec<String>,
    /// (optional) treat every warning as an error
    pub warnings_as_errors: bool,
}

impl Cli {
    /// The plugins not to load: those the configuration file disables, then
    /// those given on the command line.
    pub fn disabled_plugin_names(&self, project_config_file: &ProjectConfigFile) -> (r: Vec<String>)
        ensures
            r@ == disabled_plugin_entries(project_config_file.plugins@) + self.disabled_plugins@,
    {
        let mut names = project_config_file.disabled_plugins();
        let n = self.disabled_plugins.len();
        for k in 0..n
            invariant
                n == self.disabled_plugins@.len(),
                names@ == disabled_plugin_entries(project_config_file.plugins@) + self.disabled_plugins@.take(k as int),
        {
            names.push(self.disabled_plugins[k].clone());
            proof {
                assert(self.disabled_plugins@.take(k + 1) =~= self.disabled_plugins@.take(k as int).push(self.disabled_plugins@[k as int]));
            }
        }
        proof {
            assert(self.disabled_plugins@.take(n as int) =~= self.disabled_plugins@);
        }
        names
    }

    /// Warnings count as errors when the command line or the configuration
    /// file says so.
    pub fn treats_warnings_as_errors(&self, project_config_file: &ProjectConfigFile) -> (r: bool)
        ensures
            r == (self.warnings_as_errors || project_config_file.warnings_as_errors),
    {
        self.warnings_as_errors || project_config_file.warnings_as_errors
    }
}

/// The run fails at the end when warnings count as errors and there were any.
pub fn fails_on_warnings(warnings_as_errors: bool, warnings_count: usize) -> (r: bool)
    ensures
        r == (warnings_as_errors && warnings_count != 0),
{
    warnings_as_errors && warnings_count != 0
}

}
