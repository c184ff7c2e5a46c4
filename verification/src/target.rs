use vstd::prelude::*;
use std::path::PathBuf;
use std::sync::Arc;
use crate::dependency::Dependency;
use crate::names::NormalOrPluginName;

verus! {

/// A resolved target (target <=> executable); its name is the key it is stored under.
/// Named entries are held as lists of (name, value) pairs; `==` compares
/// those lists entry by entry, in order.
#[derive(Debug, Clone, PartialEq, Eq)]
pub struct Target {
    pub filepath: PathBuf,
    /// the dependencies of the target, by name
    pub dependencies: Vec<(NormalOrPluginName, Arc<Dependency>)>,
}

impl Target {
    pub fn new(filepath: PathBuf, dependencies: Vec<(NormalOrPluginName, Arc<Dependency>)>) -> (r: Self)
        ensures
            r.filepath == filepath,
            r.dependencies == dependencies,
    {
        Self { filepath, dependencies }
    }
}

}
