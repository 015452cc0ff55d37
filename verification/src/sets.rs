//! Sets that keep the order in which their members came, as `indexmap::IndexSet` does.

use indexmap::IndexSet;
use vstd::prelude::*;

verus! {

/// `indexmap::IndexSet`, kept opaque.
#[verifier::external_type_specification]
#[verifier::external_body]
#[verifier::reject_recursive_types(T)]
#[verifier::reject_recursive_types(S)]
pub struct ExIndexSet<T, S>(IndexSet<T, S>);

/// The members of a set in the order in which they came.
pub uninterp spec fn members(set: IndexSet<(u64, u64)>) -> Seq<(u64, u64)>;

/// `list` with `value` at its end, unless that is there already.
pub open spec fn with_member(list: Seq<(u64, u64)>, value: (u64, u64)) -> Seq<(u64, u64)> {
    if list.contains(value) {
        list
    } else {
        list.push(value)
    }
}

/// `indexmap::IndexSet::new`: a set without members.
#[verifier::external_body]
pub(crate) fn new_index_set() -> (r: IndexSet<(u64, u64)>)
    ensures
        members(r).len() == 0,
{
    IndexSet::new()
}

/// `indexmap::IndexSet::insert`: a value that is not there yet becomes the last member. One that is
/// there stays where it is.
#[verifier::external_body]
pub(crate) fn insert_member(set: &mut IndexSet<(u64, u64)>, value: (u64, u64))
    ensures
        members(*final(set)) == with_member(members(*old(set)), value),
{
    set.insert(value);
}

/// `indexmap::IndexSet::iter`: the members in the order in which they came.
#[verifier::external_body]
pub(crate) fn list_members(set: &IndexSet<(u64, u64)>) -> (r: Vec<(u64, u64)>)
    ensures
        r@ == members(*set),
{
    set.iter().copied().collect()
}

/// A member is added at the end, once.
pub proof fn law_members_are_added_once(list: Seq<(u64, u64)>, value: (u64, u64))
    ensures
        forall|x: (u64, u64)|
            with_member(list, value).contains(x) <==> #[trigger] list.contains(x) || x == value,
        with_member(list, value).take(list.len() as int) == list,
        with_member(with_member(list, value), value) == with_member(list, value),
        list.no_duplicates() ==> with_member(list, value).no_duplicates(),
{
    let after = with_member(list, value);
    assert(after.take(list.len() as int) =~= list);
    assert(list.push(value)[list.len() as int] == value);
    assert forall|x: (u64, u64)| after.contains(x) <==> #[trigger] list.contains(x) || x == value by {
        if list.contains(x) {
            let k = list.index_of(x);
            assert(after[k] == x);
        }
        if after.contains(x) && x != value {
            let k = after.index_of(x);
            assert(list[k] == x);
        }
    }
}

} // verus!
