use vstd::prelude::*;
use crate::config::{
    DependencyConfig, DependencyNameOrDependencyConfig, ProjectConfig, TargetConfig, decl_names,
    inline_decls, item_decls, lemma_inline_decls_step, lemma_nested_in_dependencies_step,
    lemma_nested_in_targets_step, nested_in_dependencies, nested_in_targets, project_decls,
    top_decls,
};
use crate::config::{DependencyKind, copy_kinds, clone_strings, ref_name, ref_names};
use crate::seqs::{
    dedup, first_missing, first_repeat, lemma_dedup_contains, lemma_dedup_no_duplicates,
    lemma_dedup_step, lemma_first_missing_prefix, lemma_first_repeat_prefix,
    lemma_no_dup_subseq_len, lemma_push_contains,
};
use crate::dependency::Dependency;
use crate::names::{NameView, NormalOrPluginName, parse_name};
use crate::target::Target;
use crate::names::str_to_string;
use crate::index_set::{
    index_set_clone, index_set_contains, index_set_entries, index_set_get_index,
    index_set_insert, index_set_len, index_set_new, index_set_with_capacity,
};
use indexmap::IndexSet;
use std::sync::Arc;

verus! {

/// A project with every dependency resolved.
/// Named entries are held as lists of (name, value) pairs; `==` compares
/// those lists entry by entry, in order.
#[derive(Debug, Clone, PartialEq, Eq)]
pub struct Project {
    pub name: Option<String>,
    /// the targets of the project, by name
    pub targets: Vec<(String, Target)>,
    /// every dependency the project declares, resolved, by name
    pub dependencies: Vec<(String, Arc<Dependency>)>,
}

impl Project {
    pub fn new(
        name: Option<String>,
        targets: Vec<(String, Target)>,
        dependencies: Vec<(String, Arc<Dependency>)>,
    ) -> (r: Self)
        ensures
            r.name == name,
            r.targets == targets,
            r.dependencies == dependencies,
    {
        Self { name, targets, dependencies }
    }

    /// The target with the given name, if there is one (the first one).
    pub fn target(&self, name: &str) -> (r: Option<&Target>)
        ensures
            match r {
                Some(t) => exists|k: int| 0 <= k < self.targets@.len() && self.targets@[k].0@ == name@
                    && *t == self.targets@[k].1
                    && (forall|j: int| 0 <= j < k ==> #[trigger] self.targets@[j].0@ != name@),
                None => forall|k: int| 0 <= k < self.targets@.len() ==> #[trigger] self.targets@[k].0@ != name@,
            },
    {
        let name_string = crate::names::str_to_string(name);
        let n = self.targets.len();
        for k in 0..n
            invariant
                n == self.targets@.len(),
                name_string@ == name@,
                forall|j: int| 0 <= j < k ==> #[trigger] self.targets@[j].0@ != name@,
        {
            if self.targets[k].0 == name_string {
                return Some(&self.targets[k].1);
            }
        }
        None
    }
}

#[derive(Debug, PartialEq, Eq)]
pub enum ResolveProjectError {
    UnresolvedDependency { dep_name: String },
    DublicateDependencyDefinition { dep_name: String },
    CyclicDependency { dependency_cicle: DependencyCycle },
}

/// The chain of a dependency cycle: with n entries, each entry depends on the
/// next one and the last one on the first: 0 -> 1 -> ... -> n - 1 -> 0.
#[derive(Debug, PartialEq, Eq)]
pub struct DependencyCycle(pub IndexSet<String>);

impl DependencyCycle {
    /// The part of a chain of visited dependencies that starts where the given
    /// dependency was first visited; empty when it was never visited.
    pub fn from_visited_dependencies(visited_dependencies: IndexSet<String>, cycle_start_dep_name: String) -> (r: Self)
        ensures
            (forall|k: int| 0 <= k < index_set_entries(visited_dependencies).len()
                ==> index_set_entries(visited_dependencies)[k] != cycle_start_dep_name@)
                ==> index_set_entries(r.0) == Seq::<Seq<char>>::empty(),
            forall|k: int| #![trigger index_set_entries(visited_dependencies)[k]]
                0 <= k < index_set_entries(visited_dependencies).len()
                && index_set_entries(visited_dependencies)[k] == cycle_start_dep_name@
                && (forall|j: int| 0 <= j < k ==> index_set_entries(visited_dependencies)[j] != cycle_start_dep_name@)
                ==> index_set_entries(r.0) == dedup(index_set_entries(visited_dependencies).skip(k)),
    {
        let ghost vs = index_set_entries(visited_dependencies);
        let n = index_set_len(&visited_dependencies);
        let mut found_cycle_start = false;
        let mut dependency_cycle = index_set_with_capacity(n);
        let ghost mut start: int = 0;
        for k in 0..n
            invariant
                n == vs.len(),
                vs == index_set_entries(visited_dependencies),
                !found_cycle_start ==> forall|j: int| 0 <= j < k ==> vs[j] != cycle_start_dep_name@,
                !found_cycle_start ==> index_set_entries(dependency_cycle) == Seq::<Seq<char>>::empty(),
                found_cycle_start ==> 0 <= start < k,
                found_cycle_start ==> vs[start] == cycle_start_dep_name@,
                found_cycle_start ==> (forall|j: int| 0 <= j < start ==> vs[j] != cycle_start_dep_name@),
                found_cycle_start ==> index_set_entries(dependency_cycle) == dedup(vs.subrange(start, k as int)),
        {
            let dep_name = index_set_get_index(&visited_dependencies, k).unwrap();
            if !found_cycle_start && *dep_name == cycle_start_dep_name {
                found_cycle_start = true;
                proof {
                    start = k as int;
                    assert(vs.subrange(start, k as int) =~= Seq::<Seq<char>>::empty());
                }
            }
            if found_cycle_start {
                proof {
                    assert(vs.subrange(start, k + 1).drop_last() =~= vs.subrange(start, k as int));
                    assert(vs.subrange(start, k + 1).last() == vs[k as int]);
                }
                let ghost before = index_set_entries(dependency_cycle);
                let ghost s2 = vs.subrange(start, k + 1);
                let owned_name = dep_name.clone();
                proof {
                    assert(owned_name@ == vs[k as int]);
                    assert(before == dedup(s2.drop_last()));
                    assert(s2.len() > 0);
                    assert(dedup(s2) == (if before.contains(owned_name@) { before } else { before.push(owned_name@) }));
                }
                index_set_insert(&mut dependency_cycle, owned_name);
            }
        }
        proof {
            if found_cycle_start {
                assert(vs.subrange(start, n as int) =~= vs.skip(start));
                assert forall|k: int| #![trigger vs[k]]
                    0 <= k < vs.len() && vs[k] == cycle_start_dep_name@
                    && (forall|j: int| 0 <= j < k ==> vs[j] != cycle_start_dep_name@)
                    implies index_set_entries(dependency_cycle) == dedup(vs.skip(k)) by {
                    if k < start {
                    } else if k > start {
                        assert(vs[start] == cycle_start_dep_name@);
                    }
                }
            }
        }
        DependencyCycle(dependency_cycle)
    }

    /// Writes the cycle out as `a --> b --> ... --> a`.
    pub fn to_display_string(&self) -> (r: String)
        ensures
            r@ == cycle_display(index_set_entries(self.0)),
    {
        let ghost c = index_set_entries(self.0);
        let n = index_set_len(&self.0);
        match index_set_get_index(&self.0, 0) {
            None => {
                let r = str_to_string("invalid dependency cicle: empty vec!");
                proof {
                    reveal_strlit("invalid dependency cicle: empty vec!");
                }
                r
            },
            Some(recurred_dep_name) => {
                proof {
                    reveal_strlit(" --> ");
                    assert(" --> "@ =~= seq![' ', '-', '-', '>', ' ']);
                }
                let mut r = String::new();
                for k in 0..n
                    invariant
                        n == c.len(),
                        c == index_set_entries(self.0),
                        r@ == arrow_chain(c.take(k as int)),
                {
                    let dep_name = index_set_get_index(&self.0, k).unwrap();
                    r.append(dep_name.as_str());
                    r.append(" --> ");
                    proof {
                        assert(c.take(k + 1).drop_last() =~= c.take(k as int));
                        assert(c.take(k + 1).last() == c[k as int]);
                        reveal_strlit(" --> ");
                        assert(" --> "@ =~= seq![' ', '-', '-', '>', ' ']);
                    }
                }
                proof {
                    assert(c.take(n as int) =~= c);
                }
                r.append(recurred_dep_name.as_str());
                r
            },
        }
    }
}

/// `x --> ` for each entry of `c`, in order.
pub open spec fn arrow_chain(c: Seq<Seq<char>>) -> Seq<char>
    decreases c.len(),
{
    if c.len() == 0 {
        Seq::empty()
    } else {
        arrow_chain(c.drop_last()) + c.last() + seq![' ', '-', '-', '>', ' ']
    }
}

/// How a dependency cycle is written: each entry followed by ` --> `, then the
/// first entry again; an empty cycle is reported as invalid.
pub open spec fn cycle_display(c: Seq<Seq<char>>) -> Seq<char> {
    if c.len() == 0 {
        "invalid dependency cicle: empty vec!"@
    } else {
        arrow_chain(c) + c[0]
    }
}

/// The declarations a list of references describes.
pub open spec fn decl_view<'a>(v: Seq<(&'a String, &'a DependencyConfig)>) -> Seq<(Seq<char>, DependencyConfig)> {
    v.map_values(|p: (&'a String, &'a DependencyConfig)| (p.0@, *p.1))
}

proof fn lemma_decl_names_add(a: Seq<(Seq<char>, DependencyConfig)>, b: Seq<(Seq<char>, DependencyConfig)>)
    ensures
        decl_names(a + b) == decl_names(a) + decl_names(b),
{
    assert(decl_names(a + b) =~= decl_names(a) + decl_names(b));
}

/// Whether one of the collected declarations has the given name.
fn is_declared<'a>(decls: &Vec<(&'a String, &'a DependencyConfig)>, name: &String) -> (r: bool)
    ensures
        r == decl_names(decl_view(decls@)).contains(name@),
{
    let n = decls.len();
    for i in 0..n
        invariant
            n == decls@.len(),
            forall|j: int| 0 <= j < i ==> decls@[j].0@ != name@,
    {
        if *decls[i].0 == *name {
            proof {
                assert(decl_names(decl_view(decls@))[i as int] == name@);
            }
            return true;
        }
    }
    proof {
        if decl_names(decl_view(decls@)).contains(name@) {
            let k = choose|k: int| 0 <= k < decl_names(decl_view(decls@)).len() && decl_names(decl_view(decls@))[k] == name@;
            assert(decls@[k].0@ == name@);
        }
    }
    false
}

/// Collects the declarations made inline in `subdeps`, recursively, after those
/// in `out`; stops at the first name declared twice.
fn collect_unresolved_dependency_declarations<'a>(
    subdeps: &'a Vec<DependencyNameOrDependencyConfig>,
    out: &mut Vec<(&'a String, &'a DependencyConfig)>,
) -> (r: Result<(), ResolveProjectError>)
    requires
        first_repeat(decl_names(decl_view(old(out)@))) is None,
    ensures
        match r {
            Ok(()) => {
                &&& decl_view(final(out)@) == decl_view(old(out)@) + inline_decls(subdeps@)
                &&& first_repeat(decl_names(decl_view(final(out)@))) is None
            },
            Err(ResolveProjectError::DublicateDependencyDefinition { dep_name }) => first_repeat(
                decl_names(decl_view(old(out)@) + inline_decls(subdeps@)),
            ) == Some(dep_name@),
            Err(_) => false,
        },
        // on every outcome the entries collected before stay, unchanged and first
        old(out)@.len() <= final(out)@.len(),
        final(out)@.take(old(out)@.len() as int) == old(out)@,
    decreases subdeps@,
{
    let ghost start = decl_view(out@);
    let ghost out0 = out@;
    let n = subdeps.len();
    for i in 0..n
        invariant
            n == subdeps@.len(),
            start == decl_view(old(out)@),
            out0 == old(out)@,
            out0.len() <= out@.len(),
            out@.take(out0.len() as int) == out0,
            decl_view(out@) == start + inline_decls(subdeps@.take(i as int)),
            first_repeat(decl_names(decl_view(out@))) is None,
    {
        proof {
            lemma_inline_decls_step(subdeps@, i as int);
        }
        match &subdeps[i] {
            DependencyNameOrDependencyConfig::Name(_) => {
                proof {
                    assert(decl_view(out@) == start + inline_decls(subdeps@.take(i + 1)));
                }
            },
            DependencyNameOrDependencyConfig::Config(named) => {
                let ghost before = decl_view(out@);
                let ghost entry = seq![(named.name@, named.config)];
                if is_declared(out, &named.name) {
                    proof {
                        let names = decl_names(before + entry);
                        assert(names.drop_last() =~= decl_names(before));
                        assert(first_repeat(names) == Some(named.name@));
                        lemma_full_repeat(start, subdeps@, i as int, names, entry, named.config.subdependencies@);
                    }
                    return Err(
                        ResolveProjectError::DublicateDependencyDefinition { dep_name: named.name.clone() },
                    );
                }
                let ghost out_before = out@;
                out.push((&named.name, &named.config));
                proof {
                    assert(out@.take(out0.len() as int) =~= out_before.take(out0.len() as int));
                    assert(decl_view(out@) =~= before + entry);
                    let names = decl_names(before + entry);
                    assert(names.drop_last() =~= decl_names(before));
                    assert(decreases_to!(subdeps@ => subdeps@[i as int]));
                }
                let ghost out_mid = out@;
                let inner = collect_unresolved_dependency_declarations(&named.config.subdependencies, out);
                proof {
                    assert(out@.take(out0.len() as int) =~= out@.take(out_mid.len() as int).take(out0.len() as int));
                }
                match inner {
                    Ok(()) => {
                        proof {
                            assert(decl_view(out@) =~= start + inline_decls(subdeps@.take(i + 1)));
                        }
                    },
                    Err(e) => {
                        proof {
                            let names = decl_names(before + entry + inline_decls(named.config.subdependencies@));
                            lemma_full_repeat(start, subdeps@, i as int, names, entry, named.config.subdependencies@);
                        }
                        return Err(e);
                    },
                }
            },
        }
    }
    proof {
        assert(subdeps@.take(n as int) =~= subdeps@);
    }
    Ok(())
}

/// A repeat found while collecting the `i`-th entry of a list is the first
/// repeat of everything the list declares.
proof fn lemma_full_repeat(
    start: Seq<(Seq<char>, DependencyConfig)>,
    l: Seq<DependencyNameOrDependencyConfig>,
    i: int,
    names: Seq<Seq<char>>,
    entry: Seq<(Seq<char>, DependencyConfig)>,
    sub: Seq<DependencyNameOrDependencyConfig>,
)
    requires
        0 <= i < l.len(),
        l[i] matches DependencyNameOrDependencyConfig::Config(nc) && entry == seq![(nc.name@, nc.config)]
            && sub == nc.config.subdependencies@,
        first_repeat(names) is Some,
        names == decl_names(start + inline_decls(l.take(i)) + entry)
            || names == decl_names(start + inline_decls(l.take(i)) + entry + inline_decls(sub)),
    ensures
        first_repeat(decl_names(start + inline_decls(l))) == first_repeat(names),
{
    let whole = decl_names(start + inline_decls(l.take(i + 1)));
    lemma_inline_decls_step(l, i);
    assert(item_decls(l[i]) == entry + inline_decls(sub));
    assert(start + inline_decls(l.take(i + 1)) =~= start + inline_decls(l.take(i)) + entry + inline_decls(sub));
    assert(names =~= whole.take(names.len() as int));
    lemma_first_repeat_prefix(whole, names.len() as int);
    lemma_inline_prefix_names(start, l, i + 1);
    let all = decl_names(start + inline_decls(l));
    assert(whole =~= all.take(whole.len() as int));
    lemma_first_repeat_prefix(all, whole.len() as int);
}

/// What a prefix of a list declares is a prefix of what the whole list declares.
proof fn lemma_inline_prefix_names(
    start: Seq<(Seq<char>, DependencyConfig)>,
    l: Seq<DependencyNameOrDependencyConfig>,
    m: int,
)
    requires
        0 <= m <= l.len(),
    ensures
        decl_names(start + inline_decls(l.take(m))) =~= decl_names(start + inline_decls(l)).take(
            decl_names(start + inline_decls(l.take(m))).len() as int,
        ),
        decl_names(start + inline_decls(l.take(m))).len() <= decl_names(start + inline_decls(l)).len(),
    decreases l.len() - m,
{
    if m < l.len() {
        lemma_inline_decls_step(l, m);
        lemma_inline_prefix_names(start, l, m + 1);
        assert(start + inline_decls(l.take(m + 1)) =~= (start + inline_decls(l.take(m))) + item_decls(l[m]));
    } else {
        assert(l.take(m) =~= l);
    }
}


proof fn lemma_prefix_repeat(a: Seq<(Seq<char>, DependencyConfig)>, b: Seq<(Seq<char>, DependencyConfig)>)
    requires
        first_repeat(decl_names(a)) is Some,
    ensures
        first_repeat(decl_names(a + b)) == first_repeat(decl_names(a)),
{
    lemma_decl_names_add(a, b);
    assert(decl_names(a + b).take(decl_names(a).len() as int) =~= decl_names(a));
    lemma_first_repeat_prefix(decl_names(a + b), decl_names(a).len() as int);
}

proof fn lemma_nested_in_dependencies_prefix(ds: Seq<(String, DependencyConfig)>, m: int)
    requires
        0 <= m <= ds.len(),
    ensures
        exists|rest: Seq<(Seq<char>, DependencyConfig)>| nested_in_dependencies(ds) == #[trigger] (nested_in_dependencies(ds.take(m)) + rest),
    decreases ds.len() - m,
{
    if m < ds.len() {
        lemma_nested_in_dependencies_step(ds, m);
        lemma_nested_in_dependencies_prefix(ds, m + 1);
        let rest = choose|rest: Seq<(Seq<char>, DependencyConfig)>| nested_in_dependencies(ds) == #[trigger] (nested_in_dependencies(ds.take(m + 1)) + rest);
        assert(nested_in_dependencies(ds) =~= nested_in_dependencies(ds.take(m)) + (inline_decls(ds[m].1.subdependencies@) + rest));
    } else {
        assert(ds.take(m) =~= ds);
        assert(nested_in_dependencies(ds) =~= nested_in_dependencies(ds.take(m)) + Seq::empty());
    }
}

proof fn lemma_nested_in_targets_prefix(ts: Seq<(String, TargetConfig)>, m: int)
    requires
        0 <= m <= ts.len(),
    ensures
        exists|rest: Seq<(Seq<char>, DependencyConfig)>| nested_in_targets(ts) == #[trigger] (nested_in_targets(ts.take(m)) + rest),
    decreases ts.len() - m,
{
    if m < ts.len() {
        lemma_nested_in_targets_step(ts, m);
        lemma_nested_in_targets_prefix(ts, m + 1);
        let rest = choose|rest: Seq<(Seq<char>, DependencyConfig)>| nested_in_targets(ts) == #[trigger] (nested_in_targets(ts.take(m + 1)) + rest);
        assert(nested_in_targets(ts) =~= nested_in_targets(ts.take(m)) + (inline_decls(ts[m].1.dependencies@) + rest));
    } else {
        assert(ts.take(m) =~= ts);
        assert(nested_in_targets(ts) =~= nested_in_targets(ts.take(m)) + Seq::empty());
    }
}

/// Phase 1: collects every dependency declaration of the project, failing on
/// the first name that is declared twice.
fn collect_unresolved_project_dependency_declarations<'a>(
    project_config: &'a ProjectConfig,
) -> (r: Result<Vec<(&'a String, &'a DependencyConfig)>, ResolveProjectError>)
    ensures
        match r {
            Ok(decls) => {
                &&& decl_view(decls@) == project_decls(*project_config)
                &&& first_repeat(decl_names(project_decls(*project_config))) is None
            },
            Err(ResolveProjectError::DublicateDependencyDefinition { dep_name }) => first_repeat(
                decl_names(project_decls(*project_config)),
            ) == Some(dep_name@),
            Err(_) => false,
        },
{
    let ghost ds = project_config.dependencies@;
    let ghost ts = project_config.targets@;
    let ghost whole = project_decls(*project_config);
    let mut decls: Vec<(&'a String, &'a DependencyConfig)> = Vec::new();
    let n = project_config.dependencies.len();
    for i in 0..n
        invariant
            n == ds.len(),
            ds == project_config.dependencies@,
            ts == project_config.targets@,
            whole == project_decls(*project_config),
            decl_view(decls@) == top_decls(ds.take(i as int)),
            first_repeat(decl_names(decl_view(decls@))) is None,
    {
        let entry = &project_config.dependencies[i];
        let ghost before = decl_view(decls@);
        proof {
            assert(top_decls(ds.take(i + 1)) =~= before.push((entry.0@, entry.1)));
        }
        if is_declared(&decls, &entry.0) {
            proof {
                let names = decl_names(before.push((entry.0@, entry.1)));
                assert(names.drop_last() =~= decl_names(before));
                assert(top_decls(ds) =~= top_decls(ds.take(i + 1)) + top_decls(ds.skip(i + 1)));
                assert(whole =~= top_decls(ds.take(i + 1)) + (top_decls(ds.skip(i + 1)) + nested_in_dependencies(ds) + nested_in_targets(ts)));
                lemma_prefix_repeat(top_decls(ds.take(i + 1)), top_decls(ds.skip(i + 1)) + nested_in_dependencies(ds) + nested_in_targets(ts));
            }
            return Err(ResolveProjectError::DublicateDependencyDefinition { dep_name: entry.0.clone() });
        }
        decls.push((&entry.0, &entry.1));
        proof {
            assert(decl_view(decls@) =~= before.push((entry.0@, entry.1)));
            let names = decl_names(before.push((entry.0@, entry.1)));
            assert(names.drop_last() =~= decl_names(before));
        }
    }
    proof {
        assert(ds.take(n as int) =~= ds);
    }
    let ghost tops = decl_view(decls@);
    for i in 0..n
        invariant
            n == ds.len(),
            ds == project_config.dependencies@,
            ts == project_config.targets@,
            whole == project_decls(*project_config),
            tops == top_decls(ds),
            decl_view(decls@) == tops + nested_in_dependencies(ds.take(i as int)),
            first_repeat(decl_names(decl_view(decls@))) is None,
    {
        proof {
            lemma_nested_in_dependencies_step(ds, i as int);
        }
        let ghost before = decl_view(decls@);
        match collect_unresolved_dependency_declarations(&project_config.dependencies[i].1.subdependencies, &mut decls) {
            Ok(()) => {
                proof {
                    assert(decl_view(decls@) =~= tops + nested_in_dependencies(ds.take(i + 1)));
                }
            },
            Err(e) => {
                proof {
                    lemma_nested_in_dependencies_prefix(ds, i + 1);
                    let rest = choose|rest: Seq<(Seq<char>, DependencyConfig)>| nested_in_dependencies(ds) == #[trigger] (nested_in_dependencies(ds.take(i + 1)) + rest);
                    let a = before + inline_decls(ds[i as int].1.subdependencies@);
                    assert(whole =~= a + (rest + nested_in_targets(ts)));
                    lemma_prefix_repeat(a, rest + nested_in_targets(ts));
                }
                return Err(e);
            },
        }
    }
    proof {
        assert(ds.take(n as int) =~= ds);
    }
    let m = project_config.targets.len();
    for i in 0..m
        invariant
            m == ts.len(),
            ts == project_config.targets@,
            whole == project_decls(*project_config),
            whole == tops + nested_in_dependencies(ds) + nested_in_targets(ts),
            decl_view(decls@) == tops + nested_in_dependencies(ds) + nested_in_targets(ts.take(i as int)),
            first_repeat(decl_names(decl_view(decls@))) is None,
    {
        proof {
            lemma_nested_in_targets_step(ts, i as int);
        }
        let ghost before = decl_view(decls@);
        match collect_unresolved_dependency_declarations(&project_config.targets[i].1.dependencies, &mut decls) {
            Ok(()) => {
                proof {
                    assert(decl_view(decls@) =~= tops + nested_in_dependencies(ds) + nested_in_targets(ts.take(i + 1)));
                }
            },
            Err(e) => {
                proof {
                    lemma_nested_in_targets_prefix(ts, i + 1);
                    let rest = choose|rest: Seq<(Seq<char>, DependencyConfig)>| nested_in_targets(ts) == #[trigger] (nested_in_targets(ts.take(i + 1)) + rest);
                    let a = before + inline_decls(ts[i as int].1.dependencies@);
                    assert(whole =~= a + rest);
                    lemma_prefix_repeat(a, rest);
                }
                return Err(e);
            },
        }
    }
    proof {
        assert(ts.take(m as int) =~= ts);
    }
    Ok(decls)
}


/// The names the subdependencies of the declarations refer to, in order.
pub open spec fn all_dependency_refs(d: Seq<(Seq<char>, DependencyConfig)>) -> Seq<Seq<char>>
    decreases d.len(),
{
    if d.len() == 0 {
        Seq::empty()
    } else {
        all_dependency_refs(d.drop_last()) + ref_names(d.last().1.subdependencies@)
    }
}

proof fn lemma_all_dependency_refs_step(d: Seq<(Seq<char>, DependencyConfig)>, i: int)
    requires
        0 <= i < d.len(),
    ensures
        all_dependency_refs(d.take(i + 1)) == all_dependency_refs(d.take(i)) + ref_names(d[i].1.subdependencies@),
{
    assert(d.take(i + 1).drop_last() =~= d.take(i));
}

proof fn lemma_all_dependency_refs_prefix(d: Seq<(Seq<char>, DependencyConfig)>, m: int)
    requires
        0 <= m <= d.len(),
    ensures
        all_dependency_refs(d.take(m)) =~= all_dependency_refs(d).take(all_dependency_refs(d.take(m)).len() as int),
        all_dependency_refs(d.take(m)).len() <= all_dependency_refs(d).len(),
    decreases d.len() - m,
{
    if m < d.len() {
        lemma_all_dependency_refs_step(d, m);
        lemma_all_dependency_refs_prefix(d, m + 1);
    } else {
        assert(d.take(m) =~= d);
    }
}

/// A dependency whose subdependencies are referenced by name only.
struct UnresolvedDependencyRefSubdependencyOnly {
    name: String,
    kinds: Vec<DependencyKind>,
    provides: Vec<String>,
    subdependencies: Vec<String>,
}

/// A dependency whose subdependencies are referenced by their position among
/// all declarations.
struct PartiallyUnresolvedDependency {
    name: String,
    kinds: Vec<DependencyKind>,
    provides: Vec<String>,
    subdependencies: Vec<usize>,
}

impl UnresolvedDependencyRefSubdependencyOnly {
    /// Replaces the subdependencies of a declaration by the names they refer to.
    fn from_declaration(name: &String, config: &DependencyConfig) -> (r: Self)
        ensures
            r.name@ == name@,
            r.kinds@ == config.kinds@,
            r.provides@ == config.provides@,
            r.subdependencies@.len() == config.subdependencies@.len(),
            forall|q: int| 0 <= q < r.subdependencies@.len() ==> #[trigger] r.subdependencies@[q]@ == ref_name(config.subdependencies@[q]),
    {
        let mut subdependencies: Vec<String> = Vec::new();
        let n = config.subdependencies.len();
        for i in 0..n
            invariant
                n == config.subdependencies@.len(),
                subdependencies@.len() == i,
                forall|q: int| 0 <= q < i ==> #[trigger] subdependencies@[q]@ == ref_name(config.subdependencies@[q]),
        {
            let subdep_name = match &config.subdependencies[i] {
                DependencyNameOrDependencyConfig::Name(subdep_name) => subdep_name.clone(),
                DependencyNameOrDependencyConfig::Config(subdep_config) => subdep_config.name.clone(),
            };
            proof {
                assert(subdep_name@ == ref_name(config.subdependencies@[i as int]));
            }
            subdependencies.push(subdep_name);
        }
        UnresolvedDependencyRefSubdependencyOnly {
            name: name.clone(),
            kinds: copy_kinds(&config.kinds),
            provides: clone_strings(&config.provides),
            subdependencies,
        }
    }
}

/// The declarations with their subdependencies linked by position.
spec fn linked(d: Seq<(Seq<char>, DependencyConfig)>, p: Seq<PartiallyUnresolvedDependency>) -> bool {
    &&& p.len() == d.len()
    &&& linked_upto(d, p)
}

/// The first `p.len()` declarations with their subdependencies linked by position.
spec fn linked_upto(d: Seq<(Seq<char>, DependencyConfig)>, p: Seq<PartiallyUnresolvedDependency>) -> bool {
    &&& p.len() <= d.len()
    &&& forall|i: int| #![trigger p[i]] 0 <= i < p.len() ==> {
        &&& p[i].name@ == d[i].0
        &&& p[i].kinds@ == d[i].1.kinds@
        &&& p[i].provides@ == d[i].1.provides@
        &&& p[i].subdependencies@.len() == d[i].1.subdependencies@.len()
        &&& forall|k: int| #![trigger p[i].subdependencies@[k]] 0 <= k < p[i].subdependencies@.len() ==> {
            &&& p[i].subdependencies@[k] < d.len()
            &&& d[p[i].subdependencies@[k] as int].0 == ref_name(d[i].1.subdependencies@[k])
        }
    }
}

/// Position of the declaration with the given name.
fn find_declaration(decls: &Vec<UnresolvedDependencyRefSubdependencyOnly>, name: &String) -> (r: Option<usize>)
    ensures
        match r {
            Some(j) => j < decls@.len() && decls@[j as int].name@ == name@,
            None => forall|j: int| 0 <= j < decls@.len() ==> decls@[j].name@ != name@,
        },
{
    let n = decls.len();
    for j in 0..n
        invariant
            n == decls@.len(),
            forall|k: int| 0 <= k < j ==> decls@[k].name@ != name@,
    {
        if decls[j].name == *name {
            return Some(j);
        }
    }
    None
}

/// Phase 2: links every subdependency name to the declaration it names, failing
/// on the first name that nothing declares.
fn link_declarations(
    decls: &Vec<(&String, &DependencyConfig)>,
) -> (r: Result<Vec<PartiallyUnresolvedDependency>, ResolveProjectError>)
    ensures
        match r {
            Ok(p) => {
                &&& first_missing(all_dependency_refs(decl_view(decls@)), decl_names(decl_view(decls@))) is None
                &&& linked(decl_view(decls@), p@)
            },
            Err(ResolveProjectError::UnresolvedDependency { dep_name }) => first_missing(
                all_dependency_refs(decl_view(decls@)),
                decl_names(decl_view(decls@)),
            ) == Some(dep_name@),
            Err(_) => false,
        },
{
    let ghost d = decl_view(decls@);
    let ghost names = decl_names(d);
    let n = decls.len();
    let mut unresolved: Vec<UnresolvedDependencyRefSubdependencyOnly> = Vec::new();
    for i in 0..n
        invariant
            n == decls@.len(),
            d == decl_view(decls@),
            unresolved@.len() == i,
            forall|j: int| #![trigger unresolved@[j]] 0 <= j < i ==> {
                &&& unresolved@[j].name@ == d[j].0
                &&& unresolved@[j].kinds@ == d[j].1.kinds@
                &&& unresolved@[j].provides@ == d[j].1.provides@
                &&& unresolved@[j].subdependencies@.len() == d[j].1.subdependencies@.len()
                &&& forall|q: int| 0 <= q < unresolved@[j].subdependencies@.len() ==> #[trigger] unresolved@[j].subdependencies@[q]@ == ref_name(d[j].1.subdependencies@[q])
            },
    {
        let u = UnresolvedDependencyRefSubdependencyOnly::from_declaration(decls[i].0, decls[i].1);
        unresolved.push(u);
    }
    let mut linked_decls: Vec<PartiallyUnresolvedDependency> = Vec::new();
    for i in 0..n
        invariant
            n == decls@.len(),
            d == decl_view(decls@),
            names == decl_names(d),
            unresolved@.len() == n,
            forall|j: int| #![trigger unresolved@[j]] 0 <= j < n ==> {
                &&& unresolved@[j].name@ == d[j].0
                &&& unresolved@[j].kinds@ == d[j].1.kinds@
                &&& unresolved@[j].provides@ == d[j].1.provides@
                &&& unresolved@[j].subdependencies@.len() == d[j].1.subdependencies@.len()
                &&& forall|q: int| 0 <= q < unresolved@[j].subdependencies@.len() ==> #[trigger] unresolved@[j].subdependencies@[q]@ == ref_name(d[j].1.subdependencies@[q])
            },
            linked_decls@.len() == i,
            linked_upto(d, linked_decls@),
            first_missing(all_dependency_refs(d.take(i as int)), names) is None,
    {
        let ghost refs = ref_names(d[i as int].1.subdependencies@);
        let ghost prefix = all_dependency_refs(d.take(i as int));
        proof {
            lemma_all_dependency_refs_step(d, i as int);
            assert(unresolved@[i as int].subdependencies@.map_values(|s: String| s@) =~= refs);
        }
        let m = unresolved[i].subdependencies.len();
        let mut subdependencies: Vec<usize> = Vec::new();
        for k in 0..m
            invariant
                n == decls@.len(),
                d == decl_view(decls@),
                names == decl_names(d),
                i < n,
                unresolved@.len() == n,
                forall|j: int| #![trigger unresolved@[j]] 0 <= j < n ==> unresolved@[j].name@ == d[j].0,
                m == unresolved@[i as int].subdependencies@.len(),
                unresolved@[i as int].subdependencies@.map_values(|s: String| s@) == refs,
                refs == ref_names(d[i as int].1.subdependencies@),
                prefix == all_dependency_refs(d.take(i as int)),
                all_dependency_refs(d.take(i + 1)) == prefix + refs,
                subdependencies@.len() == k,
                forall|q: int| #![trigger subdependencies@[q]] 0 <= q < k ==> {
                    &&& subdependencies@[q] < n
                    &&& d[subdependencies@[q] as int].0 == refs[q]
                },
                first_missing(prefix + refs.take(k as int), names) is None,
        {
            let subdep_name = &unresolved[i].subdependencies[k];
            proof {
                assert(subdep_name@ == refs[k as int]);
                assert((prefix + refs.take(k + 1)).drop_last() =~= prefix + refs.take(k as int));
            }
            match find_declaration(&unresolved, subdep_name) {
                Some(j) => {
                    proof {
                        assert(names[j as int] == subdep_name@);
                        assert(names.contains(subdep_name@));
                    }
                    subdependencies.push(j);
                },
                None => {
                    proof {
                        if names.contains(subdep_name@) {
                            let q = choose|q: int| 0 <= q < names.len() && names[q] == subdep_name@;
                            assert(unresolved@[q].name@ == subdep_name@);
                        }
                        let all = all_dependency_refs(d);
                        let here = prefix + refs.take(k + 1);
                        assert(first_missing(here, names) == Some(subdep_name@));
                        lemma_all_dependency_refs_prefix(d, i + 1);
                        assert(here =~= all_dependency_refs(d.take(i + 1)).take(here.len() as int));
                        assert(here =~= all.take(here.len() as int));
                        lemma_first_missing_prefix(all, names, here.len() as int);
                    }
                    return Err(ResolveProjectError::UnresolvedDependency { dep_name: subdep_name.clone() });
                },
            }
        }
        proof {
            assert(refs.take(m as int) =~= refs);
        }
        linked_decls.push(PartiallyUnresolvedDependency {
            name: unresolved[i].name.clone(),
            kinds: copy_kinds(&unresolved[i].kinds),
            provides: clone_strings(&unresolved[i].provides),
            subdependencies,
        });
        proof {
            let dd = d;
            assert forall|j: int| #![trigger linked_decls@[j]] 0 <= j < linked_decls@.len() implies {
                &&& linked_decls@[j].name@ == dd[j].0
                &&& linked_decls@[j].kinds@ == dd[j].1.kinds@
                &&& linked_decls@[j].provides@ == dd[j].1.provides@
                &&& linked_decls@[j].subdependencies@.len() == dd[j].1.subdependencies@.len()
                &&& forall|k: int| #![trigger linked_decls@[j].subdependencies@[k]] 0 <= k < linked_decls@[j].subdependencies@.len() ==> {
                    &&& linked_decls@[j].subdependencies@[k] < dd.len()
                    &&& dd[linked_decls@[j].subdependencies@[k] as int].0 == ref_name(dd[j].1.subdependencies@[k])
                }
            } by {
                if j < i {
                } else {
                    assert forall|k: int| #![trigger linked_decls@[j].subdependencies@[k]] 0 <= k < linked_decls@[j].subdependencies@.len() implies {
                        &&& linked_decls@[j].subdependencies@[k] < dd.len()
                        &&& dd[linked_decls@[j].subdependencies@[k] as int].0 == ref_name(dd[j].1.subdependencies@[k])
                    } by {
                        assert(refs[k] == ref_name(d[i as int].1.subdependencies@[k]));
                    }
                }
            }
        }
    }
    proof {
        assert(d.take(n as int) =~= d);
    }
    Ok(linked_decls)
}


// ---------------------------------------------------------------------------
// Phase 3: resolution, depth first, with cycle detection.

/// `a` lists `b` among its subdependencies.
pub open spec fn depends_on(d: Seq<(Seq<char>, DependencyConfig)>, a: Seq<char>, b: Seq<char>) -> bool {
    exists|i: int| #![trigger d[i]] 0 <= i < d.len() && d[i].0 == a && ref_names(d[i].1.subdependencies@).contains(b)
}

/// `c` is a cycle of the dependency graph: no entry twice, each depending on
/// the next one and the last one on the first.
pub open spec fn is_dependency_cycle(d: Seq<(Seq<char>, DependencyConfig)>, c: Seq<Seq<char>>) -> bool {
    &&& c.len() > 0
    &&& c.no_duplicates()
    &&& forall|k: int| #![trigger c[k]] 0 <= k < c.len() - 1 ==> depends_on(d, c[k], c[k + 1])
    &&& depends_on(d, c.last(), c[0])
}

pub open spec fn has_dependency_cycle(d: Seq<(Seq<char>, DependencyConfig)>) -> bool {
    exists|c: Seq<Seq<char>>| #[trigger] is_dependency_cycle(d, c)
}

/// The chain of dependencies visited on the way to `current`.
spec fn path_ok(d: Seq<(Seq<char>, DependencyConfig)>, vs: Seq<Seq<char>>, current: Seq<char>) -> bool {
    &&& vs.no_duplicates()
    &&& forall|k: int| #![trigger vs[k]] 0 <= k < vs.len() ==> decl_names(d).contains(vs[k])
    &&& forall|k: int| #![trigger vs[k]] 0 <= k < vs.len() - 1 ==> depends_on(d, vs[k], vs[k + 1])
    &&& vs.len() > 0 ==> depends_on(d, vs.last(), current)
}

/// The names of a list of resolved dependencies.
pub open spec fn dependency_keys(s: Seq<(String, Arc<Dependency>)>) -> Seq<Seq<char>> {
    s.map_values(|p: (String, Arc<Dependency>)| p.0@)
}

/// The resolved form of declaration `i`, as it is stored in `res`.
spec fn node_ok(d: Seq<(Seq<char>, DependencyConfig)>, res: Seq<Option<Arc<Dependency>>>, i: int) -> bool {
    let dep = res[i]->0;
    let order = dedup(ref_names(d[i].1.subdependencies@));
    &&& dep.kinds@ == d[i].1.kinds@
    &&& dep.provides_libraries@ == d[i].1.provides@
    &&& dependency_keys(dep.subdependencies@) == order
    &&& forall|q: int, j: int| #![trigger dep.subdependencies@[q], d[j]]
        0 <= q < order.len() && 0 <= j < d.len() && d[j].0 == order[q]
            ==> res[j] == Some(dep.subdependencies@[q].1)
}

struct Resolver {
    resolved: Vec<Option<Arc<Dependency>>>,
    rank: Ghost<Seq<int>>,
    next_rank: Ghost<int>,
}

spec fn resolver_ok(d: Seq<(Seq<char>, DependencyConfig)>, p: Seq<PartiallyUnresolvedDependency>, r: Resolver) -> bool {
    &&& r.resolved@.len() == p.len()
    &&& r.rank@.len() == p.len()
    &&& forall|i: int| #![trigger r.resolved@[i]] 0 <= i < p.len() && r.resolved@[i] is Some ==> {
        &&& node_ok(d, r.resolved@, i)
        &&& r.rank@[i] < r.next_rank@
        &&& forall|k: int| #![trigger p[i].subdependencies@[k]] 0 <= k < p[i].subdependencies@.len() ==> {
            &&& r.resolved@[p[i].subdependencies@[k] as int] is Some
            &&& r.rank@[p[i].subdependencies@[k] as int] < r.rank@[i]
        }
    }
}

/// `r2` keeps what `r1` resolved, with the same ranks.
spec fn resolver_grows(r1: Resolver, r2: Resolver) -> bool {
    &&& r1.resolved@.len() == r2.resolved@.len()
    &&& r1.next_rank@ <= r2.next_rank@
    &&& forall|j: int| #![trigger r2.resolved@[j]] 0 <= j < r1.resolved@.len() && r1.resolved@[j] is Some ==> {
        &&& r2.resolved@[j] == r1.resolved@[j]
        &&& r2.rank@[j] == r1.rank@[j]
    }
}

spec fn names_unique(d: Seq<(Seq<char>, DependencyConfig)>) -> bool {
    forall|a: int, b: int| #![trigger d[a], d[b]] 0 <= a < d.len() && 0 <= b < d.len() && a != b ==> d[a].0 != d[b].0
}

/// Calls `Arc::clone`: the new pointer points to the same value.
#[verifier::external_body]
fn share(a: &Arc<Dependency>) -> (r: Arc<Dependency>)
    ensures
        r == *a,
{
    a.clone()
}

/// Whether a resolved subdependency with the given name is already listed.
fn has_key(v: &Vec<(String, Arc<Dependency>)>, name: &String) -> (r: bool)
    ensures
        r == dependency_keys(v@).contains(name@),
{
    let n = v.len();
    for i in 0..n
        invariant
            n == v@.len(),
            forall|j: int| 0 <= j < i ==> v@[j].0@ != name@,
    {
        if v[i].0 == *name {
            proof {
                assert(dependency_keys(v@)[i as int] == name@);
            }
            return true;
        }
    }
    proof {
        if dependency_keys(v@).contains(name@) {
            let k = choose|k: int| 0 <= k < dependency_keys(v@).len() && dependency_keys(v@)[k] == name@;
            assert(v@[k].0@ == name@);
        }
    }
    false
}

proof fn lemma_dedup_no_dup_identity<A>(s: Seq<A>)
    requires
        s.no_duplicates(),
    ensures
        dedup(s) == s,
    decreases s.len(),
{
    if s.len() > 0 {
        let p = s.drop_last();
        assert(p.no_duplicates()) by {
            assert forall|i: int, j: int| 0 <= i < p.len() && 0 <= j < p.len() && i != j implies p[i] != p[j] by {
                assert(s[i] == p[i] && s[j] == p[j]);
            }
        }
        lemma_dedup_no_dup_identity(p);
        if p.contains(s.last()) {
            let k = choose|k: int| 0 <= k < p.len() && p[k] == s.last();
            assert(s[k] == s[s.len() - 1]);
        }
        assert(p.push(s.last()) =~= s);
    }
}

/// Resolves declaration `i` and, first, everything it depends on; `visited` is
/// the chain of dependencies on the way to it.
fn try_to_resolve_impl(
    Ghost(d): Ghost<Seq<(Seq<char>, DependencyConfig)>>,
    p: &Vec<PartiallyUnresolvedDependency>,
    i: usize,
    r: &mut Resolver,
    visited: &mut IndexSet<String>,
) -> (result: Result<Arc<Dependency>, DependencyCycle>)
    requires
        linked(d, p@),
        names_unique(d),
        i < p@.len(),
        resolver_ok(d, p@, *old(r)),
        path_ok(d, index_set_entries(*old(visited)), d[i as int].0),
    ensures
        resolver_ok(d, p@, *final(r)),
        resolver_grows(*old(r), *final(r)),
        forall|j: int| #![trigger final(r).resolved@[j]] 0 <= j < p@.len()
            && index_set_entries(*old(visited)).contains(d[j].0)
            ==> final(r).resolved@[j] == old(r).resolved@[j],
        match result {
            Ok(dep) => final(r).resolved@[i as int] == Some(dep),
            Err(cycle) => is_dependency_cycle(d, index_set_entries(cycle.0)),
        },
        // already resolved: that dependency, nothing else changes
        old(r).resolved@[i as int] is Some ==> {
            &&& result == Ok::<Arc<Dependency>, DependencyCycle>(old(r).resolved@[i as int]->0)
            &&& *final(r) == *old(r)
            &&& *final(visited) == *old(visited)
        },
        // being visited, not resolved: the visited names from this one onward
        old(r).resolved@[i as int] is None && index_set_entries(*old(visited)).contains(d[i as int].0) ==> {
            &&& result matches Err(cycle) && exists|s: int| #![trigger index_set_entries(*old(visited))[s]]
                0 <= s < index_set_entries(*old(visited)).len()
                && index_set_entries(*old(visited))[s] == d[i as int].0
                && index_set_entries(cycle.0) == index_set_entries(*old(visited)).skip(s)
            &&& *final(r) == *old(r)
            &&& *final(visited) == *old(visited)
        },
        // otherwise this name is added to the visited ones
        old(r).resolved@[i as int] is None && !index_set_entries(*old(visited)).contains(d[i as int].0)
            ==> index_set_entries(*final(visited)) == index_set_entries(*old(visited)).push(d[i as int].0),
    decreases p@.len() - index_set_entries(*old(visited)).len(),
{
    let ghost vs = index_set_entries(*visited);
    let ghost r0 = *r;
    match &r.resolved[i] {
        Some(dep) => {
            return Ok(share(dep));
        },
        None => {},
    }
    let ghost name = d[i as int].0;
    if index_set_contains(visited, &p[i].name) {
        let cycle = DependencyCycle::from_visited_dependencies(index_set_clone(visited), p[i].name.clone());
        proof {
            let s = choose|s: int| 0 <= s < vs.len() && vs[s] == name;
            assert forall|j: int| 0 <= j < s implies vs[j] != name by {
                assert(vs[s] == name);
            }
            assert(vs[s] == name);
            lemma_dedup_no_dup_identity_skip(vs, s);
            let c = vs.skip(s);
            assert(index_set_entries(cycle.0) == c);
            assert(vs[s] == name && index_set_entries(cycle.0) == vs.skip(s));
            assert forall|k: int| #![trigger c[k]] 0 <= k < c.len() - 1 implies depends_on(d, c[k], c[k + 1]) by {
                assert(c[k] == vs[s + k] && c[k + 1] == vs[s + k + 1]);
                assert(vs[s + k] == vs[s + k]);
            }
            assert(c.last() == vs.last());
            assert(c[0] == name);
            assert(c.no_duplicates()) by {
                assert forall|x: int, y: int| 0 <= x < c.len() && 0 <= y < c.len() && x != y implies c[x] != c[y] by {
                    assert(c[x] == vs[s + x] && c[y] == vs[s + y]);
                }
            }
        }
        return Err(cycle);
    }
    index_set_insert(visited, p[i].name.clone());
    let ghost vs1 = index_set_entries(*visited);
    proof {
        assert(vs1 == vs.push(name));
        assert forall|k: int| #![trigger vs1[k]] 0 <= k < vs1.len() implies decl_names(d).contains(vs1[k]) by {
            if k == vs.len() {
                assert(decl_names(d)[i as int] == name);
            } else {
                assert(vs1[k] == vs[k]);
            }
        }
        lemma_names_unique_no_dup(d);
        lemma_no_dup_subseq_len(vs1, decl_names(d));
    }
    let subs = &p[i].subdependencies;
    let m = subs.len();
    let ghost refs = ref_names(d[i as int].1.subdependencies@);
    let mut subdependencies: Vec<(String, Arc<Dependency>)> = Vec::new();
    for k in 0..m
        invariant
            linked(d, p@),
            names_unique(d),
            i < p@.len(),
            name == d[i as int].0,
            subs == p@[i as int].subdependencies,
            m == subs@.len(),
            refs == ref_names(d[i as int].1.subdependencies@),
            refs.len() == m,
            vs1 == vs.push(name),
            vs1 == index_set_entries(*visited),
            path_ok(d, vs, name),
            !vs.contains(name),
            vs1.len() <= p@.len(),
            forall|x: int| #![trigger vs1[x]] 0 <= x < vs1.len() ==> decl_names(d).contains(vs1[x]),
            resolver_ok(d, p@, *r),
            resolver_grows(r0, *r),
            r0 == *old(r),
            vs == index_set_entries(*old(visited)),
            forall|j: int| #![trigger r.resolved@[j]] 0 <= j < p@.len() && vs1.contains(d[j].0)
                ==> r.resolved@[j] == r0.resolved@[j],
            r0.resolved@[i as int] is None,
            dependency_keys(subdependencies@) == dedup(refs.take(k as int)),
            forall|q: int, j: int| #![trigger subdependencies@[q], d[j]]
                0 <= q < subdependencies@.len() && 0 <= j < d.len() && d[j].0 == subdependencies@[q].0@
                    ==> r.resolved@[j] == Some(subdependencies@[q].1),
            forall|q: int| #![trigger subs@[q]] 0 <= q < k ==> {
                &&& r.resolved@[subs@[q] as int] is Some
                &&& r.rank@[subs@[q] as int] < r.next_rank@
            },
    {
        let j = subs[k];
        let ghost sub_name = d[j as int].0;
        proof {
            assert(j < d.len());
            assert(sub_name == ref_name(d[i as int].1.subdependencies@[k as int]));
            assert(refs[k as int] == sub_name);
            assert(depends_on(d, name, sub_name)) by {
                assert(refs.contains(sub_name));
                assert(d[i as int].0 == name);
            }
            assert(path_ok(d, vs1, sub_name)) by {
                assert forall|x: int, y: int| 0 <= x < vs1.len() && 0 <= y < vs1.len() && x != y implies vs1[x] != vs1[y] by {
                    if x < vs.len() && y < vs.len() {
                        assert(vs1[x] == vs[x] && vs1[y] == vs[y]);
                    } else if x < vs.len() {
                        assert(vs1[x] == vs[x]);
                        assert(vs.contains(vs[x]));
                    } else {
                        assert(vs1[y] == vs[y]);
                        assert(vs.contains(vs[y]));
                    }
                }
                assert forall|x: int| #![trigger vs1[x]] 0 <= x < vs1.len() - 1 implies depends_on(d, vs1[x], vs1[x + 1]) by {
                    if x < vs.len() - 1 {
                        assert(vs1[x] == vs[x] && vs1[x + 1] == vs[x + 1]);
                    } else {
                        assert(vs1[x] == vs.last());
                        assert(vs1[x + 1] == name);
                    }
                }
            }
        }
        let mut sub_visited = index_set_clone(visited);
        let ghost r1 = *r;
        let subdep = match try_to_resolve_impl(Ghost(d), p, j, r, &mut sub_visited) {
            Ok(subdep) => subdep,
            Err(cycle) => {
                proof {
                    lemma_grows_trans(r0, r1, *r);
                    assert forall|x: int| #![trigger r.resolved@[x]] 0 <= x < p@.len() && vs.contains(d[x].0)
                        implies r.resolved@[x] == r0.resolved@[x] by {
                        lemma_push_contains(vs, name, d[x].0);
                    }
                }
                return Err(cycle);
            },
        };
        proof {
            lemma_grows_trans(r0, r1, *r);
            assert forall|x: int| #![trigger r.resolved@[x]] 0 <= x < p@.len() && vs1.contains(d[x].0)
                implies r.resolved@[x] == r0.resolved@[x] by {
            }
        }
        proof {
            lemma_dedup_step(refs, k as int);
            lemma_dedup_contains(refs.take(k as int), sub_name);
        }
        if !has_key(&subdependencies, &p[j].name) {
            subdependencies.push((p[j].name.clone(), subdep));
            proof {
                assert(dependency_keys(subdependencies@) =~= dependency_keys(subdependencies@.drop_last()).push(sub_name));
                assert(subdependencies@.drop_last() =~= subdependencies@.drop_last());
            }
        }
        proof {
            // what was resolved before stays resolved, with the same values
            assert forall|q: int| #![trigger subs@[q]] 0 <= q < k + 1 implies {
                &&& r.resolved@[subs@[q] as int] is Some
                &&& r.rank@[subs@[q] as int] < r.next_rank@
            } by {
                if q < k {
                    assert(r1.resolved@[subs@[q] as int] is Some);
                } else {
                    assert(r.resolved@[j as int] == Some(subdep));
                }
            }
            assert(dependency_keys(subdependencies@) == dedup(refs.take(k + 1)));
        }
    }
    proof {
        assert(refs.take(m as int) =~= refs);
    }
    let dependency = Arc::new(Dependency {
        kinds: copy_kinds(&p[i].kinds),
        provides_libraries: clone_strings(&p[i].provides),
        subdependencies,
    });
    let ghost r2 = *r;
    r.resolved.set(i, Some(share(&dependency)));
    proof {
        r.rank@ = r.rank@.update(i as int, r.next_rank@);
        r.next_rank@ = r.next_rank@ + 1;
    }
    proof {
        lemma_push_contains(vs, name, name);
        assert(r2.resolved@[i as int] is None);
        assert forall|x: int| #![trigger r.resolved@[x]] 0 <= x < p@.len() && vs.contains(d[x].0)
            implies r.resolved@[x] == r0.resolved@[x] by {
            lemma_push_contains(vs, name, d[x].0);
            if x == i {
            }
        }
        assert forall|x: int| #![trigger r.resolved@[x]] 0 <= x < r0.resolved@.len() && r0.resolved@[x] is Some implies {
            &&& r.resolved@[x] == r0.resolved@[x]
            &&& r.rank@[x] == r0.rank@[x]
        } by {
            assert(r2.resolved@[x] == r0.resolved@[x]);
        }
        assert forall|x: int| #![trigger r.resolved@[x]] 0 <= x < p@.len() && r.resolved@[x] is Some implies {
            &&& node_ok(d, r.resolved@, x)
            &&& r.rank@[x] < r.next_rank@
            &&& forall|k: int| #![trigger p@[x].subdependencies@[k]] 0 <= k < p@[x].subdependencies@.len() ==> {
                &&& r.resolved@[p@[x].subdependencies@[k] as int] is Some
                &&& r.rank@[p@[x].subdependencies@[k] as int] < r.rank@[x]
            }
        } by {
            if x == i {
                assert forall|k: int| #![trigger p@[x].subdependencies@[k]] 0 <= k < p@[x].subdependencies@.len() implies {
                    &&& r.resolved@[p@[x].subdependencies@[k] as int] is Some
                    &&& r.rank@[p@[x].subdependencies@[k] as int] < r.rank@[x]
                } by {
                    assert(subs@[k] == p@[x].subdependencies@[k]);
                    assert(r2.resolved@[subs@[k] as int] is Some);
                }
                lemma_node_ok_new(d, r2.resolved@, r.resolved@, x, dependency);
            } else {
                assert(r2.resolved@[x] is Some);
                lemma_node_ok_frame(d, p@, r2.resolved@, r.resolved@, x, i as int);
                assert forall|k: int| #![trigger p@[x].subdependencies@[k]] 0 <= k < p@[x].subdependencies@.len() implies {
                    &&& r.resolved@[p@[x].subdependencies@[k] as int] is Some
                    &&& r.rank@[p@[x].subdependencies@[k] as int] < r.rank@[x]
                } by {
                    assert(r2.resolved@[p@[x].subdependencies@[k] as int] is Some);
                }
            }
        }
    }
    Ok(dependency)
}

/// The resolved form of a declaration stays correct when another declaration
/// that nothing resolved depends on gets resolved.
proof fn lemma_node_ok_frame(
    d: Seq<(Seq<char>, DependencyConfig)>,
    p: Seq<PartiallyUnresolvedDependency>,
    res1: Seq<Option<Arc<Dependency>>>,
    res2: Seq<Option<Arc<Dependency>>>,
    x: int,
    i: int,
)
    requires
        linked(d, p),
        names_unique(d),
        res1.len() == p.len(),
        res2 == res1.update(i, res2[i]),
        0 <= i < p.len(),
        0 <= x < p.len(),
        x != i,
        res1[i] is None,
        res1[x] is Some,
        node_ok(d, res1, x),
        forall|k: int| #![trigger p[x].subdependencies@[k]] 0 <= k < p[x].subdependencies@.len() ==> res1[p[x].subdependencies@[k] as int] is Some,
    ensures
        node_ok(d, res2, x),
{
    let dep = res1[x]->0;
    let order = dedup(ref_names(d[x].1.subdependencies@));
    assert(res2[x] == res1[x]);
    assert forall|q: int, j: int| #![trigger dep.subdependencies@[q], d[j]]
        0 <= q < order.len() && 0 <= j < d.len() && d[j].0 == order[q]
            implies res2[j] == Some(dep.subdependencies@[q].1) by {
        assert(res1[j] == Some(dep.subdependencies@[q].1));
        assert(j != i);
    }
}

/// A newly resolved declaration is stored in its resolved form.
proof fn lemma_node_ok_new(
    d: Seq<(Seq<char>, DependencyConfig)>,
    res1: Seq<Option<Arc<Dependency>>>,
    res2: Seq<Option<Arc<Dependency>>>,
    x: int,
    dep: Arc<Dependency>,
)
    requires
        res2 == res1.update(x, Some(dep)),
        res1.len() == d.len(),
        0 <= x < res1.len(),
        res1[x] is None,
        dep.kinds@ == d[x].1.kinds@,
        dep.provides_libraries@ == d[x].1.provides@,
        dependency_keys(dep.subdependencies@) == dedup(ref_names(d[x].1.subdependencies@)),
        forall|q: int, j: int| #![trigger dep.subdependencies@[q], d[j]]
            0 <= q < dep.subdependencies@.len() && 0 <= j < d.len() && d[j].0 == dep.subdependencies@[q].0@
                ==> res1[j] == Some(dep.subdependencies@[q].1),
    ensures
        node_ok(d, res2, x),
{
    let order = dedup(ref_names(d[x].1.subdependencies@));
    assert(dependency_keys(dep.subdependencies@).len() == dep.subdependencies@.len());
    assert forall|q: int, j: int| #![trigger dep.subdependencies@[q], d[j]]
        0 <= q < order.len() && 0 <= j < d.len() && d[j].0 == order[q]
            implies res2[j] == Some(dep.subdependencies@[q].1) by {
        assert(dependency_keys(dep.subdependencies@)[q] == order[q]);
        assert(dependency_keys(dep.subdependencies@)[q] == dep.subdependencies@[q].0@);
        assert(res1[j] == Some(dep.subdependencies@[q].1));
        assert(j != x);
    }
}


proof fn lemma_dedup_no_dup_identity_skip(vs: Seq<Seq<char>>, s: int)
    requires
        vs.no_duplicates(),
        0 <= s <= vs.len(),
    ensures
        dedup(vs.skip(s)) == vs.skip(s),
{
    let c = vs.skip(s);
    assert(c.no_duplicates()) by {
        assert forall|x: int, y: int| 0 <= x < c.len() && 0 <= y < c.len() && x != y implies c[x] != c[y] by {
            assert(c[x] == vs[s + x] && c[y] == vs[s + y]);
        }
    }
    lemma_dedup_no_dup_identity(c);
}

proof fn lemma_names_unique_no_dup(d: Seq<(Seq<char>, DependencyConfig)>)
    requires
        names_unique(d),
    ensures
        decl_names(d).no_duplicates(),
{
    assert forall|a: int, b: int| 0 <= a < decl_names(d).len() && 0 <= b < decl_names(d).len() && a != b implies decl_names(d)[a] != decl_names(d)[b] by {
        assert(d[a].0 != d[b].0);
    }
}


proof fn lemma_grows_trans(a: Resolver, b: Resolver, c: Resolver)
    requires
        resolver_grows(a, b),
        resolver_grows(b, c),
    ensures
        resolver_grows(a, c),
{
    assert forall|j: int| #![trigger c.resolved@[j]] 0 <= j < a.resolved@.len() && a.resolved@[j] is Some implies {
        &&& c.resolved@[j] == a.resolved@[j]
        &&& c.rank@[j] == a.rank@[j]
    } by {
        assert(b.resolved@[j] == a.resolved@[j]);
        assert(c.resolved@[j] == b.resolved@[j]);
        assert(b.rank@[j] == a.rank@[j]);
        assert(c.rank@[j] == b.rank@[j]);
    }
}


/// Position of the declaration with the given name.
spec fn decl_index(d: Seq<(Seq<char>, DependencyConfig)>, x: Seq<char>) -> int {
    choose|i: int| 0 <= i < d.len() && d[i].0 == x
}

/// Along an edge of the dependency graph the rank drops.
proof fn lemma_rank_edge(
    d: Seq<(Seq<char>, DependencyConfig)>,
    p: Seq<PartiallyUnresolvedDependency>,
    rank: Seq<int>,
    a: Seq<char>,
    b: Seq<char>,
)
    requires
        linked(d, p),
        names_unique(d),
        rank.len() == p.len(),
        forall|i: int, k: int| #![trigger p[i].subdependencies@[k]]
            0 <= i < p.len() && 0 <= k < p[i].subdependencies@.len()
                ==> rank[p[i].subdependencies@[k] as int] < rank[i],
        depends_on(d, a, b),
    ensures
        0 <= decl_index(d, a) < d.len(),
        d[decl_index(d, a)].0 == a,
        0 <= decl_index(d, b) < d.len(),
        d[decl_index(d, b)].0 == b,
        rank[decl_index(d, b)] < rank[decl_index(d, a)],
{
    let i = choose|i: int| #![trigger d[i]] 0 <= i < d.len() && d[i].0 == a && ref_names(d[i].1.subdependencies@).contains(b);
    let refs = ref_names(d[i].1.subdependencies@);
    let k = choose|k: int| 0 <= k < refs.len() && refs[k] == b;
    assert(p[i].subdependencies@.len() == d[i].1.subdependencies@.len());
    let j = p[i].subdependencies@[k] as int;
    assert(d[j].0 == ref_name(d[i].1.subdependencies@[k]));
    assert(refs[k] == ref_name(d[i].1.subdependencies@[k]));
    assert(rank[j] < rank[i]);
    let ia = decl_index(d, a);
    let ib = decl_index(d, b);
    if ia != i {
        assert(d[ia].0 != d[i].0);
    }
    if ib != j {
        assert(d[ib].0 != d[j].0);
    }
}

proof fn lemma_rank_along_cycle(
    d: Seq<(Seq<char>, DependencyConfig)>,
    p: Seq<PartiallyUnresolvedDependency>,
    rank: Seq<int>,
    c: Seq<Seq<char>>,
    m: int,
)
    requires
        linked(d, p),
        names_unique(d),
        rank.len() == p.len(),
        forall|i: int, k: int| #![trigger p[i].subdependencies@[k]]
            0 <= i < p.len() && 0 <= k < p[i].subdependencies@.len()
                ==> rank[p[i].subdependencies@[k] as int] < rank[i],
        is_dependency_cycle(d, c),
        0 <= m < c.len(),
    ensures
        rank[decl_index(d, c[m])] <= rank[decl_index(d, c[0])] - m,
    decreases m,
{
    if m > 0 {
        lemma_rank_along_cycle(d, p, rank, c, m - 1);
        assert(depends_on(d, c[m - 1], c[m]));
        lemma_rank_edge(d, p, rank, c[m - 1], c[m]);
    }
}

/// A ranking under which every dependency ranks below what depends on it
/// rules out cycles.
proof fn lemma_ranked_no_cycle(
    d: Seq<(Seq<char>, DependencyConfig)>,
    p: Seq<PartiallyUnresolvedDependency>,
    rank: Seq<int>,
)
    requires
        linked(d, p),
        names_unique(d),
        rank.len() == p.len(),
        forall|i: int, k: int| #![trigger p[i].subdependencies@[k]]
            0 <= i < p.len() && 0 <= k < p[i].subdependencies@.len()
                ==> rank[p[i].subdependencies@[k] as int] < rank[i],
    ensures
        !has_dependency_cycle(d),
{
    if has_dependency_cycle(d) {
        let c = choose|c: Seq<Seq<char>>| #[trigger] is_dependency_cycle(d, c);
        lemma_rank_along_cycle(d, p, rank, c, c.len() - 1);
        lemma_rank_edge(d, p, rank, c.last(), c[0]);
    }
}

/// Phase 3: resolves every declaration, failing on the first cycle found.
fn resolve_dependencies(
    Ghost(d): Ghost<Seq<(Seq<char>, DependencyConfig)>>,
    p: &Vec<PartiallyUnresolvedDependency>,
) -> (result: Result<Vec<Arc<Dependency>>, DependencyCycle>)
    requires
        linked(d, p@),
        names_unique(d),
    ensures
        match result {
            Ok(res) => {
                &&& !has_dependency_cycle(d)
                &&& res@.len() == d.len()
                &&& forall|i: int| #![trigger res@[i]] 0 <= i < d.len() ==> node_ok(d, res@.map_values(|a: Arc<Dependency>| Some(a)), i)
            },
            Err(cycle) => is_dependency_cycle(d, index_set_entries(cycle.0)),
        },
{
    let n = p.len();
    let mut resolved: Vec<Option<Arc<Dependency>>> = Vec::new();
    for i in 0..n
        invariant
            n == p@.len(),
            resolved@.len() == i,
            forall|j: int| 0 <= j < i ==> resolved@[j] is None,
    {
        resolved.push(None);
    }
    let mut r = Resolver { resolved, rank: Ghost(Seq::new(n as nat, |j: int| 0int)), next_rank: Ghost(0int) };
    for i in 0..n
        invariant
            n == p@.len(),
            linked(d, p@),
            names_unique(d),
            resolver_ok(d, p@, r),
            forall|j: int| 0 <= j < i ==> r.resolved@[j] is Some,
    {
        let mut visited = index_set_new();
        let ghost r1 = r;
        match try_to_resolve_impl(Ghost(d), p, i, &mut r, &mut visited) {
            Ok(_) => {},
            Err(cycle) => {
                return Err(cycle);
            },
        }
        proof {
            assert forall|j: int| 0 <= j < i + 1 implies r.resolved@[j] is Some by {
                if j < i {
                    assert(r1.resolved@[j] is Some);
                    assert(r.resolved@[j] == r1.resolved@[j]);
                }
            }
        }
    }
    let mut res: Vec<Arc<Dependency>> = Vec::new();
    for i in 0..n
        invariant
            n == p@.len(),
            resolver_ok(d, p@, r),
            forall|j: int| 0 <= j < n ==> r.resolved@[j] is Some,
            res@.len() == i,
            forall|j: int| 0 <= j < i ==> Some(#[trigger] res@[j]) == r.resolved@[j],
    {
        proof {
            assert(r.resolved@[i as int] is Some);
        }
        let a = share(r.resolved[i].as_ref().unwrap());
        res.push(a);
    }
    proof {
        let opts = res@.map_values(|a: Arc<Dependency>| Some(a));
        assert(opts =~= r.resolved@);
        assert forall|i: int, k: int| #![trigger p@[i].subdependencies@[k]]
            0 <= i < p@.len() && 0 <= k < p@[i].subdependencies@.len()
                implies r.rank@[p@[i].subdependencies@[k] as int] < r.rank@[i] by {
            assert(r.resolved@[i] is Some);
        }
        lemma_ranked_no_cycle(d, p@, r.rank@);
        assert forall|i: int| #![trigger res@[i]] 0 <= i < d.len() implies node_ok(d, res@.map_values(|a: Arc<Dependency>| Some(a)), i) by {
            assert(r.resolved@[i] is Some);
        }
    }
    Ok(res)
}


// ---------------------------------------------------------------------------
// Phase 4 and the whole resolution.

/// The names the dependency lists of the targets refer to, in order.
pub open spec fn all_target_refs(ts: Seq<(String, TargetConfig)>) -> Seq<Seq<char>>
    decreases ts.len(),
{
    if ts.len() == 0 {
        Seq::empty()
    } else {
        all_target_refs(ts.drop_last()) + ref_names(ts.last().1.dependencies@)
    }
}

proof fn lemma_all_target_refs_step(ts: Seq<(String, TargetConfig)>, i: int)
    requires
        0 <= i < ts.len(),
    ensures
        all_target_refs(ts.take(i + 1)) == all_target_refs(ts.take(i)) + ref_names(ts[i].1.dependencies@),
{
    assert(ts.take(i + 1).drop_last() =~= ts.take(i));
}

proof fn lemma_all_target_refs_prefix(ts: Seq<(String, TargetConfig)>, m: int)
    requires
        0 <= m <= ts.len(),
    ensures
        all_target_refs(ts.take(m)) =~= all_target_refs(ts).take(all_target_refs(ts.take(m)).len() as int),
        all_target_refs(ts.take(m)).len() <= all_target_refs(ts).len(),
    decreases ts.len() - m,
{
    if m < ts.len() {
        lemma_all_target_refs_step(ts, m);
        lemma_all_target_refs_prefix(ts, m + 1);
    } else {
        assert(ts.take(m) =~= ts);
    }
}

/// Entry `i` of `deps` is declaration `i` of `d`, resolved: its kinds and
/// libraries are those declared, and its subdependencies are the declared
/// ones, each once, in order, each being the resolved entry of that name.
pub open spec fn dependency_resolved(
    d: Seq<(Seq<char>, DependencyConfig)>,
    deps: Seq<(String, Arc<Dependency>)>,
    i: int,
) -> bool {
    let dep = deps[i].1;
    let order = dedup(ref_names(d[i].1.subdependencies@));
    &&& deps[i].0@ == d[i].0
    &&& dep.kinds@ == d[i].1.kinds@
    &&& dep.provides_libraries@ == d[i].1.provides@
    &&& dependency_keys(dep.subdependencies@) == order
    &&& forall|q: int, j: int| #![trigger dep.subdependencies@[q], deps[j]]
        0 <= q < order.len() && 0 <= j < deps.len() && deps[j].0@ == order[q]
            ==> dep.subdependencies@[q].1 == deps[j].1
}

/// `deps` is every declaration of `d`, resolved, in declaration order.
pub open spec fn dependencies_resolved(d: Seq<(Seq<char>, DependencyConfig)>, deps: Seq<(String, Arc<Dependency>)>) -> bool {
    &&& deps.len() == d.len()
    &&& forall|i: int| #![trigger deps[i]] 0 <= i < deps.len() ==> dependency_resolved(d, deps, i)
}

/// The names of the dependencies of a resolved target, as they were written.
pub open spec fn target_dependency_names(s: Seq<(NormalOrPluginName, Arc<Dependency>)>) -> Seq<NameView> {
    s.map_values(|p: (NormalOrPluginName, Arc<Dependency>)| p.0@)
}

/// `t` is target configuration `tc` with its dependencies looked up in `deps`:
/// each referenced name once, in order, read as a name, with the resolved
/// dependency of that name.
pub open spec fn target_resolved(deps: Seq<(String, Arc<Dependency>)>, tc: TargetConfig, t: Target) -> bool {
    let order = dedup(ref_names(tc.dependencies@));
    &&& t.filepath == tc.filepath
    &&& t.dependencies@.len() == order.len()
    &&& forall|q: int| #![trigger t.dependencies@[q]] 0 <= q < order.len() ==> t.dependencies@[q].0@ == parse_name(order[q])
    &&& forall|q: int, j: int| #![trigger t.dependencies@[q], deps[j]]
        0 <= q < order.len() && 0 <= j < deps.len() && deps[j].0@ == order[q]
            ==> t.dependencies@[q].1 == deps[j].1
}

/// `project` is `pc` resolved.
pub open spec fn project_resolved(pc: ProjectConfig, project: Project) -> bool {
    &&& project.name == pc.name
    &&& dependencies_resolved(project_decls(pc), project.dependencies@)
    &&& project.targets@.len() == pc.targets@.len()
    &&& forall|t: int| #![trigger project.targets@[t]] 0 <= t < project.targets@.len() ==> {
        &&& project.targets@[t].0 == pc.targets@[t].0
        &&& target_resolved(project.dependencies@, pc.targets@[t].1, project.targets@[t].1)
    }
}

/// No name is declared twice.
pub open spec fn declarations_unique(pc: ProjectConfig) -> bool {
    first_repeat(decl_names(project_decls(pc))) is None
}

/// Every subdependency of a declaration names a declared dependency.
pub open spec fn dependency_references_declared(pc: ProjectConfig) -> bool {
    first_missing(all_dependency_refs(project_decls(pc)), decl_names(project_decls(pc))) is None
}

/// Every dependency of a target names a declared dependency.
pub open spec fn target_references_declared(pc: ProjectConfig) -> bool {
    first_missing(all_target_refs(pc.targets@), decl_names(project_decls(pc))) is None
}

/// What `resolve_project_config` returns on `pc`, by the checks in the order they are made.
pub open spec fn resolve_outcome(pc: ProjectConfig, r: Result<Project, ResolveProjectError>) -> bool {
    let d = project_decls(pc);
    let names = decl_names(d);
    match r {
        Err(ResolveProjectError::DublicateDependencyDefinition { dep_name }) => first_repeat(names) == Some(dep_name@),
        Err(ResolveProjectError::UnresolvedDependency { dep_name }) => {
            &&& declarations_unique(pc)
            &&& (first_missing(all_dependency_refs(d), names) == Some(dep_name@) || {
                &&& dependency_references_declared(pc)
                &&& !has_dependency_cycle(d)
                &&& first_missing(all_target_refs(pc.targets@), names) == Some(dep_name@)
            })
        },
        Err(ResolveProjectError::CyclicDependency { dependency_cicle }) => {
            &&& declarations_unique(pc)
            &&& dependency_references_declared(pc)
            &&& is_dependency_cycle(d, index_set_entries(dependency_cicle.0))
        },
        Ok(project) => {
            &&& declarations_unique(pc)
            &&& dependency_references_declared(pc)
            &&& !has_dependency_cycle(d)
            &&& target_references_declared(pc)
            &&& project_resolved(pc, project)
        },
    }
}

/// Resolves a project configuration: collects every dependency declaration
/// (failing on a name declared twice), links every subdependency to its
/// declaration (failing on an undeclared name), resolves every dependency
/// (failing on a cycle) and finally looks up the dependencies of each target
/// (failing on an undeclared name).
pub fn resolve_project_config(project_config: ProjectConfig) -> (r: Result<Project, ResolveProjectError>)
    ensures
        resolve_outcome(project_config, r),
        (r matches Err(ResolveProjectError::CyclicDependency { .. })) <==> {
            &&& declarations_unique(project_config)
            &&& dependency_references_declared(project_config)
            &&& has_dependency_cycle(project_decls(project_config))
        },
{
    let ghost pc = project_config;
    let ghost d = project_decls(pc);
    let ghost names = decl_names(d);
    let p = {
        let decls = match collect_unresolved_project_dependency_declarations(&project_config) {
            Ok(decls) => decls,
            Err(e) => {
                return Err(e);
            },
        };
        match link_declarations(&decls) {
            Ok(p) => p,
            Err(e) => {
                return Err(e);
            },
        }
    };
    proof {
        crate::seqs::lemma_first_repeat_none(names);
        assert(names_unique(d)) by {
            assert forall|a: int, b: int| #![trigger d[a], d[b]] 0 <= a < d.len() && 0 <= b < d.len() && a != b implies d[a].0 != d[b].0 by {
                assert(names[a] == d[a].0 && names[b] == d[b].0);
            }
        }
    }
    let resolved = match resolve_dependencies(Ghost(d), &p) {
        Ok(resolved) => resolved,
        Err(cycle) => {
            return Err(ResolveProjectError::CyclicDependency { dependency_cicle: cycle });
        },
    };
    let n = p.len();
    let mut dependencies: Vec<(String, Arc<Dependency>)> = Vec::new();
    for i in 0..n
        invariant
            n == p@.len(),
            linked(d, p@),
            resolved@.len() == n,
            dependencies@.len() == i,
            forall|j: int| #![trigger dependencies@[j]] 0 <= j < i ==> {
                &&& dependencies@[j].0@ == d[j].0
                &&& dependencies@[j].1 == resolved@[j]
            },
    {
        dependencies.push((p[i].name.clone(), share(&resolved[i])));
    }
    proof {
        lemma_dependencies_resolved(d, resolved@, dependencies@);
    }
    let ProjectConfig { name, dependencies: _, targets } = project_config;
    let resolved_targets = match resolve_targets(Ghost(d), targets, &dependencies) {
        Ok(resolved_targets) => resolved_targets,
        Err(e) => {
            return Err(e);
        },
    };
    Ok(Project::new(name, resolved_targets, dependencies))
}

proof fn lemma_dependencies_resolved(
    d: Seq<(Seq<char>, DependencyConfig)>,
    resolved: Seq<Arc<Dependency>>,
    deps: Seq<(String, Arc<Dependency>)>,
)
    requires
        names_unique(d),
        resolved.len() == d.len(),
        deps.len() == d.len(),
        forall|i: int| #![trigger resolved[i]] 0 <= i < d.len() ==> node_ok(d, resolved.map_values(|a: Arc<Dependency>| Some(a)), i),
        forall|j: int| #![trigger deps[j]] 0 <= j < deps.len() ==> {
            &&& deps[j].0@ == d[j].0
            &&& deps[j].1 == resolved[j]
        },
    ensures
        dependencies_resolved(d, deps),
{
    let opts = resolved.map_values(|a: Arc<Dependency>| Some(a));
    assert forall|i: int| #![trigger deps[i]] 0 <= i < deps.len() implies dependency_resolved(d, deps, i) by {
        assert(node_ok(d, opts, i));
        let dep = deps[i].1;
        let order = dedup(ref_names(d[i].1.subdependencies@));
        assert(opts[i] == Some(resolved[i]));
        assert forall|q: int, j: int| #![trigger dep.subdependencies@[q], deps[j]]
            0 <= q < order.len() && 0 <= j < deps.len() && deps[j].0@ == order[q]
                implies dep.subdependencies@[q].1 == deps[j].1 by {
            assert(d[j].0 == order[q]);
            assert(opts[j] == Some(dep.subdependencies@[q].1));
        }
    }
}


/// Position of the resolved dependency with the given name.
fn find_resolved(deps: &Vec<(String, Arc<Dependency>)>, name: &String) -> (r: Option<usize>)
    ensures
        match r {
            Some(j) => j < deps@.len() && deps@[j as int].0@ == name@,
            None => forall|j: int| 0 <= j < deps@.len() ==> deps@[j].0@ != name@,
        },
{
    let n = deps.len();
    for j in 0..n
        invariant
            n == deps@.len(),
            forall|k: int| 0 <= k < j ==> deps@[k].0@ != name@,
    {
        if deps[j].0 == *name {
            return Some(j);
        }
    }
    None
}

/// Whether the list holds a string equal to `name`.
fn contains_string(v: &Vec<String>, name: &String) -> (r: bool)
    ensures
        r == v@.map_values(|x: String| x@).contains(name@),
{
    let n = v.len();
    for i in 0..n
        invariant
            n == v@.len(),
            forall|j: int| 0 <= j < i ==> v@[j]@ != name@,
    {
        if v[i] == *name {
            proof {
                assert(v@.map_values(|x: String| x@)[i as int] == name@);
            }
            return true;
        }
    }
    proof {
        let views = v@.map_values(|x: String| x@);
        if views.contains(name@) {
            let k = choose|k: int| 0 <= k < views.len() && views[k] == name@;
            assert(v@[k]@ == name@);
        }
    }
    false
}


/// Phase 4: looks up the dependencies of each target among the resolved ones,
/// failing on the first name that is not there.
fn resolve_targets(
    Ghost(d): Ghost<Seq<(Seq<char>, DependencyConfig)>>,
    targets: Vec<(String, TargetConfig)>,
    dependencies: &Vec<(String, Arc<Dependency>)>,
) -> (r: Result<Vec<(String, Target)>, ResolveProjectError>)
    requires
        names_unique(d),
        dependencies_resolved(d, dependencies@),
    ensures
        match r {
            Ok(resolved_targets) => {
                &&& first_missing(all_target_refs(targets@), decl_names(d)) is None
                &&& resolved_targets@.len() == targets@.len()
                &&& forall|t: int| #![trigger resolved_targets@[t]] 0 <= t < resolved_targets@.len() ==> {
                    &&& resolved_targets@[t].0 == targets@[t].0
                    &&& target_resolved(dependencies@, targets@[t].1, resolved_targets@[t].1)
                }
            },
            Err(ResolveProjectError::UnresolvedDependency { dep_name }) => first_missing(
                all_target_refs(targets@),
                decl_names(d),
            ) == Some(dep_name@),
            Err(_) => false,
        },
{
    let ghost names = decl_names(d);
    let ghost ts = targets@;
    let mut resolved_targets: Vec<(String, Target)> = Vec::new();
    for entry in it: targets.into_iter()
        invariant
            it.seq() == ts,
            ts == targets@,
            names == decl_names(d),
            names_unique(d),
            dependencies_resolved(d, dependencies@),
            resolved_targets@.len() == it.index(),
            first_missing(all_target_refs(ts.take(it.index() as int)), names) is None,
            forall|t: int| #![trigger resolved_targets@[t]] 0 <= t < resolved_targets@.len() ==> {
                &&& resolved_targets@[t].0 == ts[t].0
                &&& target_resolved(dependencies@, ts[t].1, resolved_targets@[t].1)
            },
    {
        let (target_name, target_config) = entry;
        let ghost t = it.index() as int;
        let ghost refs = ref_names(target_config.dependencies@);
        let ghost prefix = all_target_refs(ts.take(t));
        proof {
            assert(ts[t] == (target_name, target_config));
            lemma_all_target_refs_step(ts, t);
            assert(prefix + refs.take(0) =~= prefix);
        }
        let mut resolved_target_dependencies: Vec<(NormalOrPluginName, Arc<Dependency>)> = Vec::new();
        let mut seen: Vec<String> = Vec::new();
        let m = target_config.dependencies.len();
        for k in 0..m
            invariant
                m == target_config.dependencies@.len(),
                refs == ref_names(target_config.dependencies@),
                names == decl_names(d),
                names_unique(d),
                dependencies_resolved(d, dependencies@),
                0 <= t < ts.len(),
                ts == targets@,
                prefix == all_target_refs(ts.take(t)),
                all_target_refs(ts.take(t + 1)) == prefix + refs,
                first_missing(prefix + refs.take(k as int), names) is None,
                seen@.map_values(|x: String| x@) == dedup(refs.take(k as int)),
                resolved_target_dependencies@.len() == seen@.len(),
                forall|q: int| #![trigger resolved_target_dependencies@[q]] 0 <= q < seen@.len() ==> {
                    &&& resolved_target_dependencies@[q].0@ == parse_name(seen@[q]@)
                    &&& forall|j: int| #![trigger dependencies@[j]] 0 <= j < dependencies@.len() && dependencies@[j].0@ == seen@[q]@
                        ==> resolved_target_dependencies@[q].1 == dependencies@[j].1
                },
        {
            let dep_name = match &target_config.dependencies[k] {
                DependencyNameOrDependencyConfig::Name(dep_name) => dep_name.clone(),
                DependencyNameOrDependencyConfig::Config(dep_config) => dep_config.name.clone(),
            };
            proof {
                assert(dep_name@ == refs[k as int]);
                assert((prefix + refs.take(k + 1)).drop_last() =~= prefix + refs.take(k as int));
                lemma_dedup_step(refs, k as int);
            }
            match find_resolved(&dependencies, &dep_name) {
                Some(j) => {
                    proof {
                        assert(names[j as int] == dep_name@);
                    }
                    if !contains_string(&seen, &dep_name) {
                        seen.push(dep_name.clone());
                        resolved_target_dependencies.push((NormalOrPluginName::from(dep_name), share(&dependencies[j].1)));
                        proof {
                            assert(seen@.map_values(|x: String| x@) =~= dedup(refs.take(k + 1)));
                            assert forall|q: int| #![trigger resolved_target_dependencies@[q]] 0 <= q < seen@.len() implies {
                                &&& resolved_target_dependencies@[q].0@ == parse_name(seen@[q]@)
                                &&& forall|j2: int| #![trigger dependencies@[j2]] 0 <= j2 < dependencies@.len() && dependencies@[j2].0@ == seen@[q]@
                                    ==> resolved_target_dependencies@[q].1 == dependencies@[j2].1
                            } by {
                                if q == seen@.len() - 1 {
                                    assert forall|j2: int| #![trigger dependencies@[j2]] 0 <= j2 < dependencies@.len() && dependencies@[j2].0@ == seen@[q]@
                                        implies resolved_target_dependencies@[q].1 == dependencies@[j2].1 by {
                                        if j2 != j {
                                            assert(d[j2].0 != d[j as int].0);
                                        }
                                    }
                                }
                            }
                        }
                    }
                },
                None => {
                    proof {
                        if names.contains(dep_name@) {
                            let q = choose|q: int| 0 <= q < names.len() && names[q] == dep_name@;
                            assert(dependencies@[q].0@ == d[q].0);
                        }
                        let all = all_target_refs(ts);
                        let here = prefix + refs.take(k + 1);
                        assert(first_missing(here, names) == Some(dep_name@));
                        lemma_all_target_refs_prefix(ts, t + 1);
                        assert(here =~= all.take(here.len() as int));
                        lemma_first_missing_prefix(all, names, here.len() as int);
                    }
                    return Err(ResolveProjectError::UnresolvedDependency { dep_name });
                },
            }
        }
        proof {
            assert(refs.take(m as int) =~= refs);
            assert(prefix + refs =~= all_target_refs(ts.take(t + 1)));
        }
        let ghost resolved_deps = resolved_target_dependencies;
        resolved_targets.push((target_name, Target::new(target_config.filepath, resolved_target_dependencies)));
        proof {
            let tr = resolved_targets@[t].1;
            let order = dedup(refs);
            assert(seen@.map_values(|x: String| x@) == order);
            assert forall|q: int| #![trigger tr.dependencies@[q]] 0 <= q < order.len() implies tr.dependencies@[q].0@ == parse_name(order[q]) by {
                assert(seen@.map_values(|x: String| x@)[q] == seen@[q]@);
            }
            assert forall|q: int, j: int| #![trigger tr.dependencies@[q], dependencies@[j]]
                0 <= q < order.len() && 0 <= j < dependencies@.len() && dependencies@[j].0@ == order[q]
                    implies tr.dependencies@[q].1 == dependencies@[j].1 by {
                assert(seen@.map_values(|x: String| x@)[q] == seen@[q]@);
                assert(resolved_deps@[q] == tr.dependencies@[q]);
            }
        }

    }
    proof {
        assert(ts.take(ts.len() as int) =~= ts);
    }
    Ok(resolved_targets)
}


/// A resolved project is a map, as the declarations were: no two resolved
/// dependencies share a name, no resolved dependency lists a subdependency
/// twice, and the targets keep the unique names they were configured with.
pub proof fn lemma_resolved_project_is_a_map(pc: ProjectConfig, project: Project)
    requires
        declarations_unique(pc),
        project_resolved(pc, project),
    ensures
        dependency_keys(project.dependencies@).no_duplicates(),
        forall|i: int| 0 <= i < project.dependencies@.len()
            ==> dependency_keys((#[trigger] project.dependencies@[i]).1.subdependencies@).no_duplicates(),
        crate::config::keys(pc.targets@).no_duplicates()
            ==> crate::config::keys(project.targets@).no_duplicates(),
{
    let d = project_decls(pc);
    let deps = project.dependencies@;
    crate::seqs::lemma_first_repeat_none(decl_names(d));
    assert forall|i: int| 0 <= i < deps.len() implies #[trigger] dependency_keys(deps)[i] == decl_names(d)[i] by {
        assert(dependency_resolved(d, deps, i));
    }
    assert(dependency_keys(deps) =~= decl_names(d));
    assert forall|i: int| 0 <= i < deps.len()
        implies dependency_keys((#[trigger] deps[i]).1.subdependencies@).no_duplicates() by {
        assert(dependency_resolved(d, deps, i));
        lemma_dedup_no_duplicates(ref_names(d[i].1.subdependencies@));
    }
    assert forall|t: int| 0 <= t < project.targets@.len()
        implies #[trigger] crate::config::keys(project.targets@)[t] == crate::config::keys(pc.targets@)[t] by {
        assert(project.targets@[t].0 == pc.targets@[t].0);
    }
    assert(crate::config::keys(project.targets@) =~= crate::config::keys(pc.targets@));
}

}
