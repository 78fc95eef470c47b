//! Removal from a keyed collection by value.

use vstd::prelude::*;

verus! {

/// The pairs of `s` whose value is not `value`, in their order.
pub open spec fn without_value<K, V>(s: Seq<(K, V)>, value: V) -> Seq<(K, V)>
    decreases s.len(),
{
    if s.len() == 0 {
        s
    } else if s.last().1 == value {
        without_value(s.drop_last(), value)
    } else {
        without_value(s.drop_last(), value).push(s.last())
    }
}

/// Whether some pair of `s` has the value `value`.
pub open spec fn has_value<K, V>(s: Seq<(K, V)>, value: V) -> bool {
    exists|i: int| 0 <= i < s.len() && (#[trigger] s[i]).1 == value
}

/// A keyed collection from which entries can be removed by their value.
pub trait RemoveValue<K, V> {
    /// The pairs that the collection holds.
    spec fn pairs(&self) -> Seq<(K, V)>;

    /// Removes every entry whose value is `value`. Returns the key of one
    /// of them, or `None` if there was none.
    fn remove_value(&mut self, value: V) -> (key: Option<K>)
        ensures
            final(self).pairs() == without_value(old(self).pairs(), value),
            key matches Some(k) ==> old(self).pairs().contains((k, value)),
            key is None <==> !has_value(old(self).pairs(), value),
    ;
}

} // verus!
