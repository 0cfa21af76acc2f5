//! Looking names up in lists of names.

use vstd::prelude::*;

verus! {

/// The names of a list as sequences of characters.
pub open spec fn views(names: &Vec<String>) -> Seq<Seq<char>> {
    Seq::new(names@.len(), |i: int| names@[i]@)
}

/// The first place at which `name` stands in `names`, if it stands there.
pub open spec fn spec_find<A>(names: Seq<A>, name: A) -> Option<int>
    decreases names.len(),
{
    if names.len() == 0 {
        None
    } else {
        match spec_find(names.drop_last(), name) {
            Some(i) => Some(i),
            None => if names.last() == name {
                Some(names.len() - 1)
            } else {
                None
            },
        }
    }
}

/// [`spec_find`] gives the least index that holds the name, and `None` exactly
/// when no index holds it.
pub proof fn lemma_find<A>(names: Seq<A>, name: A)
    ensures
        match spec_find(names, name) {
            Some(i) => 0 <= i < names.len() && names[i] == name && forall|j: int|
                0 <= j < i ==> names[j] != name,
            None => forall|j: int| 0 <= j < names.len() ==> names[j] != name,
        },
    decreases names.len(),
{
    if names.len() > 0 {
        lemma_find(names.drop_last(), name);
        let front = names.drop_last();
        assert forall|j: int| 0 <= j < front.len() implies front[j] == names[j] by {}
        match spec_find(front, name) {
            Some(i) => {
                assert(front[i] == names[i]);
                assert forall|j: int| 0 <= j < i implies names[j] != name by {
                    assert(front[j] == names[j]);
                }
            },
            None => {
                assert forall|j: int| 0 <= j < names.len() - 1 implies names[j] != name by {
                    assert(front[j] == names[j]);
                }
            },
        }
    }
}

/// No two of the names are the same.
pub open spec fn distinct<A>(names: Seq<A>) -> bool {
    forall|i: int, j: int| 0 <= i < j < names.len() ==> #[trigger] names[i] != #[trigger] names[j]
}

/// A name that is found in a list is found at the same place when a name is
/// added behind, and a name that is not found and is added is found last.
pub proof fn lemma_find_push<A>(names: Seq<A>, more: A, name: A)
    ensures
        spec_find(names, name).is_some() ==> spec_find(names.push(more), name) == spec_find(
            names,
            name,
        ),
        spec_find(names, name).is_none() && more == name ==> spec_find(names.push(more), name)
            == Some(names.len() as int),
        spec_find(names, name).is_none() && more != name ==> spec_find(
            names.push(more),
            name,
        ).is_none(),
{
    assert(names.push(more).drop_last() =~= names);
}

/// The first place at which `name` stands in `names`.
pub fn find(names: &Vec<String>, name: &String) -> (r: Option<usize>)
    ensures
        match r {
            Some(i) => spec_find(views(names), name@) == Some(i as int) && i < names@.len(),
            None => spec_find(views(names), name@).is_none(),
        },
{
    let mut i: usize = 0;
    let n = names.len();
    while i < n
        invariant
            n == names@.len(),
            i <= n,
            forall|j: int| 0 <= j < i ==> names@[j]@ != name@,
        decreases n - i,
    {
        if names[i] == *name {
            proof {
                lemma_find(views(names), name@);
                assert(views(names)[i as int] == name@);
                assert forall|j: int| 0 <= j < i implies views(names)[j] != name@ by {}
            }
            return Some(i);
        }
        i += 1;
    }
    proof {
        lemma_find(views(names), name@);
        assert forall|j: int| 0 <= j < n implies views(names)[j] != name@ by {}
    }
    None
}

/// A copy of a list of names.
pub fn copy_names(names: &Vec<String>) -> (r: Vec<String>)
    ensures
        views(&r) == views(names),
        r@.len() == names@.len(),
{
    let n = names.len();
    let mut r: Vec<String> = Vec::new();
    let mut i: usize = 0;
    while i < n
        invariant
            n == names@.len(),
            i <= n,
            r@.len() == i,
            forall|j: int| 0 <= j < i ==> #[trigger] r@[j]@ == names@[j]@,
        decreases n - i,
    {
        r.push(names[i].clone());
        i += 1;
    }
    assert(views(&r) =~= views(names));
    r
}

} // verus!
