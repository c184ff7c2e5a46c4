use vstd::prelude::*;
use indexmap::IndexSet;
use std::hash::RandomState;

verus! {

#[verifier::external_type_specification]
#[verifier::external_body]
#[verifier::reject_recursive_types(T)]
#[verifier::reject_recursive_types(S)]
pub struct ExIndexSet<T, S>(IndexSet<T, S>);

/// The entries of an `IndexSet` of strings, in insertion order, each taken by its view.
pub uninterp spec fn index_set_entries(s: IndexSet<String, RandomState>) -> Seq<Seq<char>>;

/// Calls `IndexSet::new`: the new set is empty.
#[verifier::external_body]
pub(crate) fn index_set_new() -> (r: IndexSet<String, RandomState>)
    ensures
        index_set_entries(r) == Seq::<Seq<char>>::empty(),
{
    IndexSet::new()
}

/// Calls `IndexSet::with_capacity`: the new set is empty; the capacity is not
/// part of the contents.
#[verifier::external_body]
pub(crate) fn index_set_with_capacity(n: usize) -> (r: IndexSet<String, RandomState>)
    ensures
        index_set_entries(r) == Seq::<Seq<char>>::empty(),
{
    IndexSet::with_capacity(n)
}

/// Calls `IndexSet::insert`: a value not yet present is appended and `true` is
/// returned; otherwise the set is left as it was and `false` is returned.
/// Either way the set holds no two equal entries afterwards.
#[verifier::external_body]
pub(crate) fn index_set_insert(s: &mut IndexSet<String, RandomState>, value: String) -> (r: bool)
    ensures
        index_set_entries(*final(s)).no_duplicates(),
        r == !index_set_entries(*old(s)).contains(value@),
        index_set_entries(*final(s)) == (if r {
            index_set_entries(*old(s)).push(value@)
        } else {
            index_set_entries(*old(s))
        }),
{
    s.insert(value)
}

/// Calls `IndexSet::contains`: whether an equal string is an entry.
#[verifier::external_body]
pub(crate) fn index_set_contains(s: &IndexSet<String, RandomState>, value: &String) -> (r: bool)
    ensures
        r == index_set_entries(*s).contains(value@),
{
    s.contains(value)
}

/// Calls `IndexSet::len`: the number of entries.
#[verifier::external_body]
pub(crate) fn index_set_len(s: &IndexSet<String, RandomState>) -> (r: usize)
    ensures
        r == index_set_entries(*s).len(),
{
    s.len()
}

/// Calls `IndexSet::get_index`: the entry at the given position, if there is one.
#[verifier::external_body]
pub(crate) fn index_set_get_index(s: &IndexSet<String, RandomState>, index: usize) -> (r: Option<&String>)
    ensures
        match r {
            Some(v) => index < index_set_entries(*s).len() && v@ == index_set_entries(*s)[index as int],
            None => index >= index_set_entries(*s).len(),
        },
{
    s.get_index(index)
}

/// Calls `IndexSet::clone`: the clone has the same entries in the same order.
#[verifier::external_body]
pub(crate) fn index_set_clone(s: &IndexSet<String, RandomState>) -> (r: IndexSet<String, RandomState>)
    ensures
        index_set_entries(r) == index_set_entries(*s),
{
    s.clone()
}

}
