//! Testing that the elements of a slice are all equal to each other.

use vstd::prelude::*;
use vstd::std_specs::cmp::PartialEqSpec;

verus! {

/// Whether every two elements of `items` are the same value.
pub open spec fn all_equal<T>(items: Seq<T>) -> bool {
    forall|i: int, j: int| 0 <= i < items.len() && 0 <= j < items.len() ==> items[i] == items[j]
}

/// Whether the element at `i` compares equal to the one after it.
pub open spec fn equal_to_next<T: PartialEq>(items: Seq<T>, i: int) -> bool {
    items[i].eq_spec(&items[i + 1])
}

/// Whether each element of `items` compares equal to the one after it.
pub open spec fn neighbours_equal<T: PartialEq>(items: Seq<T>) -> bool {
    forall|i: int| 0 <= i < items.len() - 1 ==> #[trigger] equal_to_next(items, i)
}

pub trait AreAllEqual: Sized {
    /// Whether the comparison of the elements is one that `all_equal_spec`
    /// can speak of.
    spec fn obeys_all_equal_spec() -> bool;

    /// What `are_all_equal` reports.
    spec fn all_equal_spec(self) -> bool;

    /// Reports whether all elements are equal to each other, by comparing
    /// each with its neighbour; true of an empty collection.
    fn are_all_equal(self) -> (equal: bool)
        ensures
            Self::obeys_all_equal_spec() ==> equal == self.all_equal_spec(),
    ;
}

impl<T: Eq> AreAllEqual for &[T] {
    open spec fn obeys_all_equal_spec() -> bool {
        T::obeys_eq_spec()
    }

    open spec fn all_equal_spec(self) -> bool {
        neighbours_equal(self@)
    }

    fn are_all_equal(self) -> (equal: bool) {
        let mut i: usize = 1;
        while i < self.len()
            invariant
                1 <= i,
                i <= self@.len() || self@.len() == 0,
                T::obeys_eq_spec() && i <= self@.len() ==> neighbours_equal(self@.take(i as int)),
            decreases self.len() - i,
        {
            if !(self[i - 1] == self[i]) {
                assert(T::obeys_eq_spec() ==> !equal_to_next(self@, i - 1));
                return false;
            }
            proof {
                if T::obeys_eq_spec() {
                    let before = self@.take(i as int);
                    let after = self@.take(i + 1);
                    assert forall|k: int| 0 <= k < after.len() - 1 implies #[trigger] equal_to_next(
                        after,
                        k,
                    ) by {
                        if k < i - 1 {
                            assert(equal_to_next(before, k));
                        }
                    }
                }
            }
            i += 1;
        }
        proof {
            if i <= self@.len() {
                assert(self@.take(i as int) == self@);
            }
        }
        true
    }
}

/// Where comparing equal means being the same value, neighbours that compare
/// equal make all elements the same.
pub proof fn lemma_neighbours_equal_is_all_equal<T: PartialEq>(items: Seq<T>)
    requires
        forall|a: T, b: T| #[trigger] a.eq_spec(&b) == (a == b),
    ensures
        neighbours_equal(items) == all_equal(items),
{
    if neighbours_equal(items) {
        assert forall|i: int, j: int|
            0 <= i < items.len() && 0 <= j < items.len() implies items[i] == items[j] by {
            lemma_equal_to_first(items, i);
            lemma_equal_to_first(items, j);
        }
    }
    if all_equal(items) {
        assert forall|i: int| 0 <= i < items.len() - 1 implies #[trigger] equal_to_next(
            items,
            i,
        ) by {
            assert(items[i] == items[i + 1]);
        }
    }
}

proof fn lemma_equal_to_first<T: PartialEq>(items: Seq<T>, i: int)
    requires
        forall|a: T, b: T| #[trigger] a.eq_spec(&b) == (a == b),
        neighbours_equal(items),
        0 <= i < items.len(),
    ensures
        items[i] == items[0],
    decreases i,
{
    if i > 0 {
        lemma_equal_to_first(items, i - 1);
        assert(equal_to_next(items, i - 1));
    }
}

} // verus!
