use vstd::prelude::*;
use std::sync::Arc;
use crate::dependency::{Dependency, provides_library_spec};
use crate::names::{NormalOrPluginName, concat_str, str_to_string};
use crate::target::Target;

verus! {

/// A shared library an executable needs, as the analysis of the executable
/// reports it: its file name and whether it was found on this system.
#[derive(Debug, Clone, PartialEq, Eq)]
pub struct NeededLibrary {
    pub name: String,
    pub found: bool,
}

/// How the libraries an executable needs relate to the dependencies of its target.
#[derive(Debug, Clone, PartialEq, Eq)]
pub struct LibraryReport {
    /// (position of the first dependency of the target that provides the
    /// library, position of the library), for each library some dependency provides
    pub documented: Vec<(usize, usize)>,
    /// positions of the libraries no dependency of the target provides
    pub undocumented: Vec<usize>,
    /// positions of the libraries not found on this system
    pub not_installed: Vec<usize>,
}

/// Position of the first dependency that provides `library`.
pub open spec fn first_provider(deps: Seq<(NormalOrPluginName, Arc<Dependency>)>, library: Seq<char>) -> Option<int>
    decreases deps.len(),
{
    if deps.len() == 0 {
        None
    } else {
        match first_provider(deps.drop_last(), library) {
            Some(j) => Some(j),
            None => if provides_library_spec(*deps.last().1, library) {
                Some(deps.len() - 1)
            } else {
                None
            },
        }
    }
}

pub open spec fn documented_libraries(deps: Seq<(NormalOrPluginName, Arc<Dependency>)>, libs: Seq<NeededLibrary>) -> Seq<(usize, usize)>
    decreases libs.len(),
{
    if libs.len() == 0 {
        Seq::empty()
    } else {
        match first_provider(deps, libs.last().name@) {
            Some(j) => documented_libraries(deps, libs.drop_last()).push((j as usize, (libs.len() - 1) as usize)),
            None => documented_libraries(deps, libs.drop_last()),
        }
    }
}

pub open spec fn undocumented_libraries(deps: Seq<(NormalOrPluginName, Arc<Dependency>)>, libs: Seq<NeededLibrary>) -> Seq<usize>
    decreases libs.len(),
{
    if libs.len() == 0 {
        Seq::empty()
    } else {
        match first_provider(deps, libs.last().name@) {
            Some(_) => undocumented_libraries(deps, libs.drop_last()),
            None => undocumented_libraries(deps, libs.drop_last()).push((libs.len() - 1) as usize),
        }
    }
}

pub open spec fn missing_libraries(libs: Seq<NeededLibrary>) -> Seq<usize>
    decreases libs.len(),
{
    if libs.len() == 0 {
        Seq::empty()
    } else if libs.last().found {
        missing_libraries(libs.drop_last())
    } else {
        missing_libraries(libs.drop_last()).push((libs.len() - 1) as usize)
    }
}

/// Position of the first dependency that provides `library`.
fn find_provider(deps: &Vec<(NormalOrPluginName, Arc<Dependency>)>, library: &str) -> (r: Option<usize>)
    ensures
        match r {
            Some(j) => first_provider(deps@, library@) == Some(j as int),
            None => first_provider(deps@, library@) is None,
        },
{
    let n = deps.len();
    for j in 0..n
        invariant
            n == deps@.len(),
            first_provider(deps@.take(j as int), library@) is None,
    {
        proof {
            assert(deps@.take(j + 1).drop_last() =~= deps@.take(j as int));
        }
        if deps[j].1.provides_library(library) {
            proof {
                lemma_first_provider_prefix(deps@, library@, j + 1);
            }
            return Some(j);
        }
    }
    proof {
        assert(deps@.take(n as int) =~= deps@);
    }
    None
}

proof fn lemma_first_provider_prefix(deps: Seq<(NormalOrPluginName, Arc<Dependency>)>, library: Seq<char>, m: int)
    requires
        0 <= m <= deps.len(),
        first_provider(deps.take(m), library) is Some,
    ensures
        first_provider(deps, library) == first_provider(deps.take(m), library),
    decreases deps.len() - m,
{
    if m < deps.len() {
        assert(deps.take(m + 1).drop_last() =~= deps.take(m));
        lemma_first_provider_prefix(deps, library, m + 1);
    } else {
        assert(deps.take(m) =~= deps);
    }
}

/// Sorts the libraries an executable needs into those a dependency of its
/// target documents and those none does, and lists those not installed.
pub fn classify_libraries(target: &Target, libraries: &Vec<NeededLibrary>) -> (r: LibraryReport)
    ensures
        r.documented@ == documented_libraries(target.dependencies@, libraries@),
        r.undocumented@ == undocumented_libraries(target.dependencies@, libraries@),
        r.not_installed@ == missing_libraries(libraries@),
{
    let mut documented: Vec<(usize, usize)> = Vec::new();
    let mut undocumented: Vec<usize> = Vec::new();
    let mut not_installed: Vec<usize> = Vec::new();
    let n = libraries.len();
    for k in 0..n
        invariant
            n == libraries@.len(),
            documented@ == documented_libraries(target.dependencies@, libraries@.take(k as int)),
            undocumented@ == undocumented_libraries(target.dependencies@, libraries@.take(k as int)),
            not_installed@ == missing_libraries(libraries@.take(k as int)),
    {
        proof {
            assert(libraries@.take(k + 1).drop_last() =~= libraries@.take(k as int));
            assert(libraries@.take(k + 1).last() == libraries@[k as int]);
        }
        match find_provider(&target.dependencies, libraries[k].name.as_str()) {
            Some(j) => documented.push((j, k)),
            None => undocumented.push(k),
        }
        if !libraries[k].found {
            not_installed.push(k);
        }
    }
    proof {
        assert(libraries@.take(n as int) =~= libraries@);
    }
    LibraryReport { documented, undocumented, not_installed }
}

/// `  <name> => <path>` for a found library, `  <name>` for one not found,
/// where the name is the library's file name, after the name of the
/// dependency that provides it when there is one: `<dependency> (<file name>)`.
pub open spec fn lib_info(filename: Seq<char>, dependency_name: Option<Seq<char>>, found_path: Option<Seq<char>>) -> Seq<char> {
    let lib_name = match dependency_name {
        Some(d) => d + seq![' ', '('] + filename + seq![')'],
        None => filename,
    };
    match found_path {
        Some(p) => seq![' ', ' '] + lib_name + seq![' ', '=', '>', ' '] + p,
        None => seq![' ', ' '] + lib_name,
    }
}

/// The line that reports one library; `dependency_name` is the name of the
/// dependency that provides it, as it is shown to the user.
pub fn lib_info_line(filename: &str, dependency_name: Option<&str>, found_path: Option<&str>) -> (r: String)
    ensures
        r@ == lib_info(filename@, match dependency_name {
            Some(d) => Some(d@),
            None => None,
        }, match found_path {
            Some(p) => Some(p@),
            None => None,
        }),
{
    proof {
        reveal_strlit("  ");
        reveal_strlit(" (");
        reveal_strlit(")");
        reveal_strlit(" => ");
        assert("  "@ =~= seq![' ', ' ']);
        assert(" ("@ =~= seq![' ', '(']);
        assert(")"@ =~= seq![')']);
        assert(" => "@ =~= seq![' ', '=', '>', ' ']);
    }
    let lib_name = match dependency_name {
        Some(d) => {
            let s = concat_str(str_to_string(d), " (");
            let s = concat_str(s, filename);
            concat_str(s, ")")
        },
        None => str_to_string(filename),
    };
    let line = concat_str(str_to_string("  "), lib_name.as_str());
    match found_path {
        Some(p) => {
            let line = concat_str(line, " => ");
            concat_str(line, p)
        },
        None => line,
    }
}


/// Classifying the libraries partitions them: each library is either
/// documented, by the first dependency that provides it, or undocumented,
/// and never both; the documented and the undocumented ones together are as
/// many as the libraries.
pub proof fn lemma_classification_partitions(deps: Seq<(NormalOrPluginName, Arc<Dependency>)>, libs: Seq<NeededLibrary>, k: int)
    requires
        0 <= k < libs.len(),
        libs.len() <= usize::MAX,
    ensures
        documented_libraries(deps, libs).len() + undocumented_libraries(deps, libs).len() == libs.len(),
        match first_provider(deps, libs[k].name@) {
            Some(j) => documented_libraries(deps, libs).contains((j as usize, k as usize))
                && !undocumented_libraries(deps, libs).contains(k as usize),
            None => undocumented_libraries(deps, libs).contains(k as usize)
                && forall|e: (usize, usize)| documented_libraries(deps, libs).contains(e) ==> e.1 != k,
        },
    decreases libs.len(),
{
    lemma_documented_positions(deps, libs);
    let last = libs.len() - 1;
    if k < last {
        lemma_classification_partitions(deps, libs.drop_last(), k);
        assert(libs.drop_last()[k] == libs[k]);
        let d0 = documented_libraries(deps, libs.drop_last());
        let u0 = undocumented_libraries(deps, libs.drop_last());
        match first_provider(deps, libs.last().name@) {
            Some(j2) => {
                let e2 = (j2 as usize, last as usize);
                assert(documented_libraries(deps, libs) == d0.push(e2));
                crate::seqs::lemma_push_contains(d0, e2, (j2 as usize, k as usize));
                match first_provider(deps, libs[k].name@) {
                    Some(j) => {
                        crate::seqs::lemma_push_contains(d0, e2, (j as usize, k as usize));
                    },
                    None => {
                        assert forall|e: (usize, usize)| documented_libraries(deps, libs).contains(e) implies e.1 != k by {
                            crate::seqs::lemma_push_contains(d0, e2, e);
                        }
                    },
                }
            },
            None => {
                assert(undocumented_libraries(deps, libs) == u0.push(last as usize));
                crate::seqs::lemma_push_contains(u0, last as usize, k as usize);
            },
        }
    } else {
        if libs.len() > 1 {
            lemma_classification_partitions(deps, libs.drop_last(), 0);
        }
        lemma_documented_positions(deps, libs.drop_last());
        let d0 = documented_libraries(deps, libs.drop_last());
        let u0 = undocumented_libraries(deps, libs.drop_last());
        match first_provider(deps, libs[k].name@) {
            Some(j) => {
                assert(documented_libraries(deps, libs) == d0.push((j as usize, k as usize)));
                assert(documented_libraries(deps, libs)[d0.len() as int] == (j as usize, k as usize));
                assert(undocumented_libraries(deps, libs) == u0);
                if u0.contains(k as usize) {
                    let i = choose|i: int| 0 <= i < u0.len() && u0[i] == k as usize;
                    assert(u0[i] < libs.drop_last().len());
                }
            },
            None => {
                assert(undocumented_libraries(deps, libs) == u0.push(k as usize));
                assert(undocumented_libraries(deps, libs)[u0.len() as int] == k as usize);
                assert(documented_libraries(deps, libs) == d0);
                assert forall|e: (usize, usize)| documented_libraries(deps, libs).contains(e) implies e.1 != k by {
                    let i = choose|i: int| 0 <= i < d0.len() && d0[i] == e;
                    assert(d0[i].1 < libs.drop_last().len());
                }
            },
        }
    }
}

/// Every position listed by the classification is that of a library.
proof fn lemma_documented_positions(deps: Seq<(NormalOrPluginName, Arc<Dependency>)>, libs: Seq<NeededLibrary>)
    requires
        libs.len() <= usize::MAX,
    ensures
        forall|i: int| 0 <= i < documented_libraries(deps, libs).len() ==> #[trigger] documented_libraries(deps, libs)[i].1 < libs.len(),
        forall|i: int| 0 <= i < undocumented_libraries(deps, libs).len() ==> #[trigger] undocumented_libraries(deps, libs)[i] < libs.len(),
    decreases libs.len(),
{
    if libs.len() > 0 {
        let p = libs.drop_last();
        lemma_documented_positions(deps, p);
        let d = documented_libraries(deps, libs);
        let d0 = documented_libraries(deps, p);
        let u = undocumented_libraries(deps, libs);
        let u0 = undocumented_libraries(deps, p);
        assert forall|i: int| 0 <= i < d.len() implies #[trigger] d[i].1 < libs.len() by {
            if i < d0.len() {
                assert(d[i] == d0[i]);
            }
        }
        assert forall|i: int| 0 <= i < u.len() implies #[trigger] u[i] < libs.len() by {
            if i < u0.len() {
                assert(u[i] == u0[i]);
            }
        }
    }
}

/// The names, with `sep` between each two.
pub open spec fn joined(names: Seq<Seq<char>>, sep: Seq<char>) -> Seq<char>
    decreases names.len(),
{
    if names.len() == 0 {
        Seq::empty()
    } else if names.len() == 1 {
        names[0]
    } else {
        joined(names.drop_last(), sep) + sep + names.last()
    }
}

/// The strings, with `sep` between each two.
pub fn join_names(names: &Vec<String>, sep: &str) -> (r: String)
    ensures
        r@ == joined(names@.map_values(|s: String| s@), sep@),
{
    let mut r = String::new();
    let n = names.len();
    for k in 0..n
        invariant
            n == names@.len(),
            r@ == joined(names@.take(k as int).map_values(|s: String| s@), sep@),
    {
        proof {
            assert(names@.take(k + 1).map_values(|s: String| s@).drop_last()
                =~= names@.take(k as int).map_values(|s: String| s@));
        }
        if k > 0 {
            r.append(sep);
        }
        r.append(names[k].as_str());
        proof {
            if k == 0 {
                assert(r@ =~= names@.take(1).map_values(|s: String| s@)[0]);
            }
        }
    }
    proof {
        assert(names@.take(n as int) =~= names@);
    }
    r
}

/// The file names of the libraries not found on this system, in order.
pub open spec fn missing_library_names(libs: Seq<NeededLibrary>) -> Seq<Seq<char>>
    decreases libs.len(),
{
    if libs.len() == 0 {
        Seq::empty()
    } else if libs.last().found {
        missing_library_names(libs.drop_last())
    } else {
        missing_library_names(libs.drop_last()).push(libs.last().name@)
    }
}

/// The warning about the libraries that are not installed, listed by file
/// name; none when every library was found.
pub fn missing_libraries_warning(libraries: &Vec<NeededLibrary>) -> (r: Option<String>)
    ensures
        match r {
            Some(w) => {
                &&& missing_library_names(libraries@).len() > 0
                &&& w@ == "Some dependencies are missing on your system:\n  "@ + joined(missing_library_names(libraries@), ", "@)
            },
            None => missing_library_names(libraries@).len() == 0,
        },
{
    let mut names: Vec<String> = Vec::new();
    let n = libraries.len();
    for k in 0..n
        invariant
            n == libraries@.len(),
            names@.map_values(|s: String| s@) == missing_library_names(libraries@.take(k as int)),
    {
        proof {
            assert(libraries@.take(k + 1).drop_last() =~= libraries@.take(k as int));
        }
        if !libraries[k].found {
            let ghost before = names@;
            names.push(libraries[k].name.clone());
            proof {
                assert(names@.map_values(|s: String| s@) =~= before.map_values(|s: String| s@).push(libraries@[k as int].name@));
            }
        }
    }
    proof {
        assert(libraries@.take(n as int) =~= libraries@);
    }
    if names.len() == 0 {
        None
    } else {
        let list = join_names(&names, ", ");
        Some(concat_str(str_to_string("Some dependencies are missing on your system:\n  "), list.as_str()))
    }
}


/// The provider found for a library is the first dependency that provides it,
/// itself or through its subdependencies; there is none only when no
/// dependency provides it.
pub proof fn lemma_first_provider_is_first_that_provides(deps: Seq<(NormalOrPluginName, Arc<Dependency>)>, library: Seq<char>)
    ensures
        match first_provider(deps, library) {
            Some(j) => {
                &&& 0 <= j < deps.len()
                &&& provides_library_spec(*deps[j].1, library)
                &&& forall|k: int| 0 <= k < j ==> !provides_library_spec(*(#[trigger] deps[k]).1, library)
            },
            None => forall|k: int| 0 <= k < deps.len() ==> !provides_library_spec(*(#[trigger] deps[k]).1, library),
        },
    decreases deps.len(),
{
    if deps.len() > 0 {
        let p = deps.drop_last();
        lemma_first_provider_is_first_that_provides(p, library);
        assert forall|k: int| 0 <= k < p.len() implies #[trigger] deps[k] == p[k] by {}
    }
}

/// Dependency `j` of the list provides `library`.
pub open spec fn dependency_provides(deps: Seq<(NormalOrPluginName, Arc<Dependency>)>, j: int, library: Seq<char>) -> bool {
    provides_library_spec(*deps[j].1, library)
}

/// A needed library that some dependency of the target provides, itself or
/// through its subdependencies, is documented by the first such dependency;
/// one that no dependency provides is undocumented.
pub proof fn lemma_library_documented_by_first_provider(
    deps: Seq<(NormalOrPluginName, Arc<Dependency>)>,
    libs: Seq<NeededLibrary>,
    k: int,
    j: int,
)
    requires
        0 <= k < libs.len(),
        libs.len() <= usize::MAX,
        0 <= j < deps.len() <= usize::MAX,
    ensures
        provides_library_spec(*deps[j].1, libs[k].name@)
            && (forall|x: int| 0 <= x < j ==> !provides_library_spec(*(#[trigger] deps[x]).1, libs[k].name@))
            ==> documented_libraries(deps, libs).contains((j as usize, k as usize)),
        (forall|x: int| 0 <= x < deps.len() ==> !provides_library_spec(*(#[trigger] deps[x]).1, libs[k].name@))
            ==> undocumented_libraries(deps, libs).contains(k as usize),
{
    lemma_first_provider_is_first_that_provides(deps, libs[k].name@);
    lemma_classification_partitions(deps, libs, k);
    let lib = libs[k].name@;
    match first_provider(deps, lib) {
        Some(f) => {
            assert(dependency_provides(deps, f, lib));
            assert(dependency_provides(deps, j, lib)
                && (forall|x: int| 0 <= x < j ==> !provides_library_spec(*(#[trigger] deps[x]).1, lib)) ==> f == j) by {
                if dependency_provides(deps, j, lib) && f < j {
                    assert(!provides_library_spec(*deps[f].1, lib) || !(forall|x: int| 0 <= x < j ==> !provides_library_spec(*(#[trigger] deps[x]).1, lib)));
                }
                if dependency_provides(deps, j, lib) && f > j {
                    assert(!dependency_provides(deps, j, lib));
                }
            }
        },
        None => {},
    }
}

}
