use vstd::prelude::*;
use std::sync::Arc;
use crate::config::DependencyKind;

verus! {

/// A resolved dependency; its name is the key it is stored under.
/// Named entries are held as lists of (name, value) pairs; `==` compares
/// those lists entry by entry, in order.
#[derive(Debug, Clone, PartialEq, Eq)]
pub struct Dependency {
    pub kinds: Vec<DependencyKind>,
    /// list of filenames of the dynamic libraries this dependency provides
    pub provides_libraries: Vec<String>,
    /// the dependencies that this dependency relies on, by name
    pub subdependencies: Vec<(String, Arc<Dependency>)>,
}

/// The views of a list of strings.
pub open spec fn string_views(s: Seq<String>) -> Seq<Seq<char>> {
    s.map_values(|x: String| x@)
}

/// Whether `d`, or a dependency it relies on, directly or not, lists `library`.
pub open spec fn provides_library_spec(d: Dependency, library: Seq<char>) -> bool
    decreases d, 1int,
{
    string_views(d.provides_libraries@).contains(library)
        || any_provides_library(d.subdependencies@, library)
}

/// Whether one of the listed dependencies provides `library`.
pub open spec fn any_provides_library(subs: Seq<(String, Arc<Dependency>)>, library: Seq<char>) -> bool
    decreases subs, 0int,
{
    if subs.len() == 0 {
        false
    } else {
        any_provides_library(subs.drop_last(), library)
            || provides_library_spec(*subs.last().1, library)
    }
}

pub proof fn lemma_any_provides_library_step(subs: Seq<(String, Arc<Dependency>)>, library: Seq<char>, k: int)
    requires
        0 <= k < subs.len(),
    ensures
        any_provides_library(subs.take(k + 1), library) == (any_provides_library(subs.take(k), library)
            || provides_library_spec(*subs[k].1, library)),
{
    assert(subs.take(k + 1).drop_last() =~= subs.take(k));
}

impl Dependency {
    /// Whether this dependency, or one it relies on, provides the library with
    /// the given filename.
    pub fn provides_library(&self, library: &str) -> (r: bool)
        ensures
            r == provides_library_spec(*self, library@),
        decreases *self,
    {
        let lib_name = library.to_string();
        proof {
            vstd::string::to_string_from_display_ensures_for_str(library, lib_name);
        }
        let n = self.provides_libraries.len();
        let mut found = false;
        for i in 0..n
            invariant
                n == self.provides_libraries@.len(),
                lib_name@ == library@,
                found == string_views(self.provides_libraries@.take(i as int)).contains(library@),
        {
            proof {
                assert(string_views(self.provides_libraries@.take(i + 1)) =~= string_views(
                    self.provides_libraries@.take(i as int)).push(self.provides_libraries@[i as int]@));
            }
            proof {
                crate::seqs::lemma_push_contains(string_views(self.provides_libraries@.take(i as int)), self.provides_libraries@[i as int]@, library@);
            }
            if self.provides_libraries[i] == lib_name {
                found = true;
            }
        }
        proof {
            assert(self.provides_libraries@.take(n as int) =~= self.provides_libraries@);
        }
        if found {
            return true;
        }
        let m = self.subdependencies.len();
        for k in 0..m
            invariant
                m == self.subdependencies@.len(),
                lib_name@ == library@,
                !any_provides_library(self.subdependencies@.take(k as int), library@),
        {
            proof {
                lemma_any_provides_library_step(self.subdependencies@, library@, k as int);
                assert(decreases_to!(*self => *self.subdependencies@[k as int].1));
            }
            if self.subdependencies[k].1.provides_library(lib_name.as_str()) {
                proof {
                    lemma_any_provides_library_prefix(self.subdependencies@, library@, k + 1);
                }
                return true;
            }
        }
        proof {
            assert(self.subdependencies@.take(m as int) =~= self.subdependencies@);
        }
        false
    }
}

pub proof fn lemma_any_provides_library_prefix(subs: Seq<(String, Arc<Dependency>)>, library: Seq<char>, m: int)
    requires
        0 <= m <= subs.len(),
        any_provides_library(subs.take(m), library),
    ensures
        any_provides_library(subs, library),
    decreases subs.len() - m,
{
    if m < subs.len() {
        lemma_any_provides_library_step(subs, library, m);
        lemma_any_provides_library_prefix(subs, library, m + 1);
    } else {
        assert(subs.take(m) =~= subs);
    }
}


/// A dependency provides every library that one of its subdependencies
/// provides: libraries are inherited along the subdependency relation.
pub proof fn lemma_provides_through_subdependency(d: Dependency, k: int, library: Seq<char>)
    requires
        0 <= k < d.subdependencies@.len(),
        provides_library_spec(*d.subdependencies@[k].1, library),
    ensures
        provides_library_spec(d, library),
{
    lemma_any_provides_library_step(d.subdependencies@, library, k);
    lemma_any_provides_library_prefix(d.subdependencies@, library, k + 1);
}

/// A dependency provides the libraries it lists itself.
pub proof fn lemma_provides_listed_library(d: Dependency, k: int)
    requires
        0 <= k < d.provides_libraries@.len(),
    ensures
        provides_library_spec(d, d.provides_libraries@[k]@),
{
    assert(string_views(d.provides_libraries@)[k] == d.provides_libraries@[k]@);
}


proof fn lemma_any_provides_library_witness(subs: Seq<(String, Arc<Dependency>)>, library: Seq<char>)
    requires
        any_provides_library(subs, library),
    ensures
        exists|k: int| 0 <= k < subs.len() && provides_library_spec(*(#[trigger] subs[k]).1, library),
    decreases subs.len(),
{
    if any_provides_library(subs.drop_last(), library) {
        lemma_any_provides_library_witness(subs.drop_last(), library);
        let k = choose|k: int| 0 <= k < subs.drop_last().len() && provides_library_spec(*(#[trigger] subs.drop_last()[k]).1, library);
        assert(subs[k] == subs.drop_last()[k]);
    } else {
        assert(provides_library_spec(*subs[subs.len() - 1].1, library));
    }
}

/// A dependency provides a library only when it lists that library itself or
/// one of its subdependencies provides it; in particular a dependency that
/// lists no library and has no subdependency provides none.
pub proof fn lemma_provides_only_listed_or_inherited(d: Dependency, library: Seq<char>)
    ensures
        provides_library_spec(d, library) ==> {
            ||| exists|i: int| 0 <= i < d.provides_libraries@.len() && (#[trigger] d.provides_libraries@[i])@ == library
            ||| exists|k: int| 0 <= k < d.subdependencies@.len()
                && provides_library_spec(*(#[trigger] d.subdependencies@[k]).1, library)
        },
        d.provides_libraries@.len() == 0 && d.subdependencies@.len() == 0 ==> !provides_library_spec(d, library),
{
    if provides_library_spec(d, library) {
        if string_views(d.provides_libraries@).contains(library) {
            let i = choose|i: int| 0 <= i < string_views(d.provides_libraries@).len() && string_views(d.provides_libraries@)[i] == library;
            assert(d.provides_libraries@[i]@ == library);
        } else {
            lemma_any_provides_library_witness(d.subdependencies@, library);
        }
    }
}

}
