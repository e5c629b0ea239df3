//! Finding a name in a list of names.

use vstd::prelude::*;

verus! {

/// The index of the first name of `names` that is `name`, if there is one.
pub open spec fn position(names: Seq<Seq<char>>, name: Seq<char>) -> Option<int>
    decreases names.len(),
{
    if names.len() == 0 {
        None
    } else {
        match position(names.drop_last(), name) {
            Some(k) => Some(k),
            None => if names.last() == name {
                Some(names.len() - 1)
            } else {
                None
            },
        }
    }
}

/// What `position` finds: an index with the name that no earlier index has,
/// or that no index has it.
pub proof fn lemma_position(names: Seq<Seq<char>>, name: Seq<char>)
    ensures
        match position(names, name) {
            Some(k) => 0 <= k < names.len() && names[k] == name && forall|j: int|
                0 <= j < k ==> #[trigger] names[j] != name,
            None => forall|j: int| 0 <= j < names.len() ==> #[trigger] names[j] != name,
        },
    decreases names.len(),
{
    if names.len() > 0 {
        let init = names.drop_last();
        lemma_position(init, name);
        match position(init, name) {
            Some(k) => {
                assert(init[k] == names[k]);
                assert forall|j: int| 0 <= j < k implies #[trigger] names[j] != name by {
                    assert(init[j] == names[j]);
                }
            },
            None => {
                assert forall|j: int| 0 <= j < names.len() - 1 implies #[trigger] names[j]
                    != name by {
                    assert(init[j] == names[j]);
                }
            },
        }
    }
}

/// An index with the name, before which no index has it, is the one
/// `position` finds.
pub proof fn lemma_position_is(names: Seq<Seq<char>>, name: Seq<char>, k: int)
    requires
        0 <= k < names.len(),
        names[k] == name,
        forall|j: int| 0 <= j < k ==> #[trigger] names[j] != name,
    ensures
        position(names, name) == Some(k),
{
    lemma_position(names, name);
}

/// No index with the name means `position` finds none.
pub proof fn lemma_position_none(names: Seq<Seq<char>>, name: Seq<char>)
    requires
        forall|j: int| 0 <= j < names.len() ==> #[trigger] names[j] != name,
    ensures
        position(names, name) is None,
{
    lemma_position(names, name);
}

/// Adding a name that a list does not hold puts it at the end and keeps
/// what was found before.
pub proof fn lemma_push_name(names: Seq<Seq<char>>, name: Seq<char>)
    requires
        position(names, name) is None,
    ensures
        position(names.push(name), name) == Some(names.len() as int),
        forall|other: Seq<char>|
            position(names, other) is Some ==> #[trigger] position(names.push(name), other)
                == position(names, other),
{
    assert(names.push(name).drop_last() =~= names);
}

} // verus!
