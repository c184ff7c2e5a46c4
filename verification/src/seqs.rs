use vstd::prelude::*;

verus! {

/// The first element of `s` that equals an element before it.
pub open spec fn first_repeat(s: Seq<Seq<char>>) -> Option<Seq<char>>
    decreases s.len(),
{
    if s.len() == 0 {
        None
    } else {
        match first_repeat(s.drop_last()) {
            Some(x) => Some(x),
            None => if s.drop_last().contains(s.last()) {
                Some(s.last())
            } else {
                None
            },
        }
    }
}

/// The first element of `refs` that `names` does not contain.
pub open spec fn first_missing(refs: Seq<Seq<char>>, names: Seq<Seq<char>>) -> Option<Seq<char>>
    decreases refs.len(),
{
    if refs.len() == 0 {
        None
    } else {
        match first_missing(refs.drop_last(), names) {
            Some(x) => Some(x),
            None => if names.contains(refs.last()) {
                None
            } else {
                Some(refs.last())
            },
        }
    }
}

/// `s` with every element after its first occurrence removed.
pub open spec fn dedup<A>(s: Seq<A>) -> Seq<A>
    decreases s.len(),
{
    if s.len() == 0 {
        Seq::empty()
    } else {
        let p = dedup(s.drop_last());
        if p.contains(s.last()) {
            p
        } else {
            p.push(s.last())
        }
    }
}

pub proof fn lemma_first_repeat_none(s: Seq<Seq<char>>)
    ensures
        first_repeat(s) is None <==> s.no_duplicates(),
    decreases s.len(),
{
    if s.len() > 0 {
        lemma_first_repeat_none(s.drop_last());
        let p = s.drop_last();
        if first_repeat(s) is None {
            assert forall|i: int, j: int| 0 <= i < s.len() && 0 <= j < s.len() && i != j implies s[i] != s[j] by {
                if i < s.len() - 1 && j < s.len() - 1 {
                    assert(p[i] == s[i] && p[j] == s[j]);
                } else if i == s.len() - 1 {
                    assert(p[j] == s[j]);
                    assert(!p.contains(s.last()));
                } else {
                    assert(p[i] == s[i]);
                    assert(!p.contains(s.last()));
                }
            }
        }
        if s.no_duplicates() {
            assert(p.no_duplicates()) by {
                assert forall|i: int, j: int| 0 <= i < p.len() && 0 <= j < p.len() && i != j implies p[i] != p[j] by {
                    assert(p[i] == s[i] && p[j] == s[j]);
                }
            }
            if p.contains(s.last()) {
                let k = choose|k: int| 0 <= k < p.len() && p[k] == s.last();
                assert(s[k] == s[s.len() - 1]);
            }
        }
    }
}

/// A repeat found in a prefix is the first repeat of the whole sequence.
pub proof fn lemma_first_repeat_prefix(s: Seq<Seq<char>>, m: int)
    requires
        0 <= m <= s.len(),
        first_repeat(s.take(m)) is Some,
    ensures
        first_repeat(s) == first_repeat(s.take(m)),
    decreases s.len() - m,
{
    if m < s.len() {
        assert(s.take(m + 1).drop_last() =~= s.take(m));
        lemma_first_repeat_prefix(s, m + 1);
    } else {
        assert(s.take(m) =~= s);
    }
}

/// A missing element found in a prefix is the first missing element of the whole sequence.
pub proof fn lemma_first_missing_prefix(s: Seq<Seq<char>>, names: Seq<Seq<char>>, m: int)
    requires
        0 <= m <= s.len(),
        first_missing(s.take(m), names) is Some,
    ensures
        first_missing(s, names) == first_missing(s.take(m), names),
    decreases s.len() - m,
{
    if m < s.len() {
        assert(s.take(m + 1).drop_last() =~= s.take(m));
        lemma_first_missing_prefix(s, names, m + 1);
    } else {
        assert(s.take(m) =~= s);
    }
}

pub proof fn lemma_first_missing_none(s: Seq<Seq<char>>, names: Seq<Seq<char>>)
    ensures
        first_missing(s, names) is None <==> (forall|k: int| 0 <= k < s.len() ==> names.contains(#[trigger] s[k])),
    decreases s.len(),
{
    if s.len() > 0 {
        lemma_first_missing_none(s.drop_last(), names);
        let p = s.drop_last();
        if first_missing(s, names) is None {
            assert forall|k: int| 0 <= k < s.len() implies names.contains(#[trigger] s[k]) by {
                if k < s.len() - 1 {
                    assert(p[k] == s[k]);
                }
            }
        }
        if forall|k: int| 0 <= k < s.len() ==> names.contains(#[trigger] s[k]) {
            assert forall|k: int| 0 <= k < p.len() implies names.contains(#[trigger] p[k]) by {
                assert(p[k] == s[k]);
            }
            assert(names.contains(s[s.len() - 1]));
        }
    }
}

pub proof fn lemma_dedup_contains<A>(s: Seq<A>, x: A)
    ensures
        dedup(s).contains(x) <==> s.contains(x),
    decreases s.len(),
{
    if s.len() > 0 {
        let p = s.drop_last();
        lemma_dedup_contains(p, x);
        lemma_dedup_contains(p, s.last());
        if s.contains(x) {
            let k = choose|k: int| 0 <= k < s.len() && s[k] == x;
            if k < s.len() - 1 {
                assert(p[k] == x);
                assert(p.contains(x));
                assert(dedup(p).contains(x));
                let j = choose|j: int| 0 <= j < dedup(p).len() && dedup(p)[j] == x;
                if !dedup(p).contains(s.last()) {
                    assert(dedup(s)[j] == x);
                }
            } else {
                assert(dedup(s).contains(s.last())) by {
                    if !dedup(p).contains(s.last()) {
                        assert(dedup(s)[dedup(p).len() as int] == s.last());
                    }
                }
            }
        }
        if dedup(s).contains(x) {
            if dedup(p).contains(x) {
                let k = choose|k: int| 0 <= k < p.len() && p[k] == x;
                assert(s[k] == x);
            } else {
                assert(x == s.last());
                assert(s[s.len() - 1] == x);
            }
        }
    }
}

pub proof fn lemma_dedup_step<A>(s: Seq<A>, k: int)
    requires
        0 <= k < s.len(),
    ensures
        dedup(s.take(k + 1)) == (if dedup(s.take(k)).contains(s[k]) {
            dedup(s.take(k))
        } else {
            dedup(s.take(k)).push(s[k])
        }),
{
    assert(s.take(k + 1).drop_last() =~= s.take(k));
}

pub proof fn lemma_dedup_no_duplicates<A>(s: Seq<A>)
    ensures
        dedup(s).no_duplicates(),
    decreases s.len(),
{
    if s.len() > 0 {
        lemma_dedup_no_duplicates(s.drop_last());
    }
}

/// A sequence without repeats, all of whose elements lie in another such
/// sequence, is no longer than it.
pub proof fn lemma_no_dup_subseq_len<A>(s: Seq<A>, t: Seq<A>)
    requires
        s.no_duplicates(),
        t.no_duplicates(),
        forall|k: int| 0 <= k < s.len() ==> t.contains(#[trigger] s[k]),
    ensures
        s.len() <= t.len(),
{
    s.unique_seq_to_set();
    t.unique_seq_to_set();
    vstd::seq_lib::seq_to_set_is_finite(t);
    assert(s.to_set().subset_of(t.to_set())) by {
        assert forall|x: A| s.to_set().contains(x) implies t.to_set().contains(x) by {
            let k = choose|k: int| 0 <= k < s.len() && s[k] == x;
            assert(t.contains(s[k]));
        }
    }
    vstd::set_lib::lemma_len_subset(s.to_set(), t.to_set());
}


pub proof fn lemma_push_contains<A>(s: Seq<A>, x: A, y: A)
    ensures
        s.push(x).contains(y) <==> (s.contains(y) || x == y),
{
    if s.contains(y) {
        let k = choose|k: int| 0 <= k < s.len() && s[k] == y;
        assert(s.push(x)[k] == y);
    }
    if x == y {
        assert(s.push(x)[s.len() as int] == y);
    }
    if s.push(x).contains(y) {
        let k = choose|k: int| 0 <= k < s.len() + 1 && s.push(x)[k] == y;
        if k < s.len() {
            assert(s[k] == y);
        }
    }
}


/// Index of the first occurrence of `c` in `s`, if any.
pub open spec fn first_index_of(s: Seq<char>, c: char) -> Option<int>
    decreases s.len(),
{
    if s.len() == 0 {
        None
    } else {
        match first_index_of(s.drop_last(), c) {
            Some(i) => Some(i),
            None => if s.last() == c {
                Some(s.len() - 1)
            } else {
                None
            },
        }
    }
}

pub proof fn lemma_first_index_of(s: Seq<char>, c: char)
    ensures
        match first_index_of(s, c) {
            Some(i) => 0 <= i < s.len() && s[i] == c && forall|j: int| 0 <= j < i ==> s[j] != c,
            None => forall|j: int| 0 <= j < s.len() ==> s[j] != c,
        },
    decreases s.len(),
{
    if s.len() > 0 {
        lemma_first_index_of(s.drop_last(), c);
        assert forall|j: int| 0 <= j < s.len() - 1 implies s.drop_last()[j] == s[j] by {}
    }
}

pub proof fn lemma_first_index_of_at(s: Seq<char>, c: char, i: int)
    requires
        0 <= i < s.len(),
        s[i] == c,
        forall|j: int| 0 <= j < i ==> s[j] != c,
    ensures
        first_index_of(s, c) == Some(i),
{
    lemma_first_index_of(s, c);
    match first_index_of(s, c) {
        Some(k) => {
            if k < i {
            } else if k > i {
            }
        },
        None => {},
    }
}

}
