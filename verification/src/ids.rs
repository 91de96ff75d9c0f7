//! Allocation of client identifiers: always the smallest positive integer
//! that is not in use.

use vstd::prelude::*;
use vstd::set_lib::*;

verus! {

/// `id` is the smallest positive integer outside `used`.
pub open spec fn is_smallest_free(used: Set<int>, id: int) -> bool {
    &&& id >= 1
    &&& !used.contains(id)
    &&& forall|k: int| 1 <= k < id ==> used.contains(k)
}

/// The smallest positive integer outside `used`. It exists whenever `used`
/// is finite.
pub open spec fn smallest_free(used: Set<int>) -> int {
    choose|id: int| is_smallest_free(used, id)
}

/// The integers of a sequence of identifiers.
pub open spec fn as_ints(ids: Seq<i32>) -> Seq<int> {
    ids.map_values(|x: i32| x as int)
}

/// At most one integer is the smallest free one.
pub proof fn lemma_smallest_free_unique(used: Set<int>, a: int, b: int)
    requires
        is_smallest_free(used, a),
        is_smallest_free(used, b),
    ensures
        a == b,
{
    if a < b {
        assert(used.contains(a));
    } else if b < a {
        assert(used.contains(b));
    }
}

/// An identifier that was found to be the smallest free one is the one that
/// `smallest_free` names.
pub proof fn lemma_smallest_free_is(used: Set<int>, id: int)
    requires
        is_smallest_free(used, id),
    ensures
        smallest_free(used) == id,
{
    lemma_smallest_free_unique(used, id, smallest_free(used));
}

/// A set that holds every integer from 1 to `m` has at least `m` elements.
pub proof fn lemma_prefix_bounded(used: Set<int>, m: int)
    requires
        used.finite(),
        m >= 0,
        forall|k: int| 1 <= k <= m ==> used.contains(k),
    ensures
        m <= used.len(),
{
    lemma_int_range(1, m + 1);
    assert(set_int_range(1, m + 1).subset_of(used));
    lemma_len_subset(set_int_range(1, m + 1), used);
}

/// Where every integer from 1 up to `k` is in use, the smallest free one
/// lies between `k` and one more than the size of the set.
proof fn lemma_smallest_free_from(used: Set<int>, k: int)
    requires
        used.finite(),
        1 <= k <= used.len() + 1,
        forall|j: int| 1 <= j < k ==> used.contains(j),
    ensures
        is_smallest_free(used, smallest_free(used)),
        k <= smallest_free(used) <= used.len() + 1,
    decreases used.len() + 1 - k,
{
    if used.contains(k) {
        lemma_prefix_bounded(used, k);
        lemma_smallest_free_from(used, k + 1);
    } else {
        assert(is_smallest_free(used, k));
        lemma_smallest_free_is(used, k);
    }
}

/// A finite set leaves some positive integer free, and the smallest such
/// integer is at most one more than the size of the set.
pub proof fn lemma_smallest_free_exists(used: Set<int>)
    requires
        used.finite(),
    ensures
        is_smallest_free(used, smallest_free(used)),
        1 <= smallest_free(used) <= used.len() + 1,
{
    lemma_smallest_free_from(used, 1);
}

/// After `k` is released, the smallest free identifier is `k` itself where
/// `k` lies below the one that was free before, and that one otherwise.
pub proof fn lemma_release_then_assign(used: Set<int>, k: int, free: int)
    requires
        k >= 1,
        is_smallest_free(used, free),
    ensures
        is_smallest_free(used.remove(k), if k < free { k } else { free }),
{
}

/// An identifier that was just handed out and is released again is the
/// next one to be handed out.
pub proof fn lemma_assign_release_assign(used: Set<int>, id: int)
    requires
        is_smallest_free(used, id),
    ensures
        is_smallest_free(used.insert(id).remove(id), id),
{
}

/// Handing out the smallest free identifier never repeats one in use, and
/// the next one handed out is larger.
pub proof fn lemma_assign_is_fresh(used: Set<int>, first: int, second: int)
    requires
        is_smallest_free(used, first),
        is_smallest_free(used.insert(first), second),
    ensures
        !used.contains(first),
        second > first,
{
    if second < first {
        assert(used.contains(second));
    }
}

/// The identifiers currently handed out.
#[derive(Debug)]
pub struct IdAllocator {
    ids: Vec<i32>,
}

impl View for IdAllocator {
    type V = Set<int>;

    closed spec fn view(&self) -> Set<int> {
        as_ints(self.ids@).to_set()
    }
}

impl IdAllocator {
    /// Every stored identifier is positive and stored once.
    pub closed spec fn wf(&self) -> bool {
        &&& forall|i: int| 0 <= i < self.ids@.len() ==> self.ids@[i] >= 1
        &&& forall|i: int, j: int|
            0 <= i < j < self.ids@.len() ==> self.ids@[i] != self.ids@[j]
    }

    /// A valid store holds no identifier twice: as many are stored as are
    /// in use, and each of them is positive.
    pub proof fn lemma_wf_view(&self)
        requires
            self.wf(),
        ensures
            self@.finite(),
            self@.len() == self.count(),
            forall|id: int| self@.contains(id) ==> 1 <= id <= i32::MAX,
    {
        let ints = as_ints(self.ids@);
        vstd::seq_lib::seq_to_set_is_finite(ints);
        assert(ints.no_duplicates());
        ints.unique_seq_to_set();
        assert forall|id: int| self@.contains(id) implies 1 <= id <= i32::MAX by {
            let i = choose|i: int| 0 <= i < ints.len() && ints[i] == id;
            assert(ints[i] == self.ids@[i] as int);
        }
    }

    /// Number of identifiers in use.
    pub closed spec fn count(&self) -> nat {
        self.ids@.len()
    }

    /// An allocator with no identifier in use.
    pub fn new() -> (r: IdAllocator)
        ensures
            r.wf(),
            r@ == Set::<int>::empty(),
    {
        let r = IdAllocator { ids: Vec::new() };
        assert(r@ =~= Set::<int>::empty());
        r
    }

    /// Number of identifiers in use.
    pub fn len(&self) -> (n: usize)
        ensures
            n == self.count(),
    {
        self.ids.len()
    }

    /// Whether `id` is in use.
    pub fn is_allocated(&self, id: i32) -> (b: bool)
        ensures
            b == self@.contains(id as int),
    {
        let ghost ints = as_ints(self.ids@);
        let mut i: usize = 0;
        while i < self.ids.len()
            invariant
                i <= self.ids@.len(),
                ints == as_ints(self.ids@),
                forall|j: int| 0 <= j < i ==> self.ids@[j] != id,
            decreases self.ids@.len() - i,
        {
            if self.ids[i] == id {
                assert(ints[i as int] == id as int);
                return true;
            }
            i += 1;
        }
        assert(!ints.contains(id as int)) by {
            if ints.contains(id as int) {
                let j = choose|j: int| 0 <= j < ints.len() && ints[j] == id as int;
                assert(self.ids@[j] == id);
            }
        }
        false
    }

    /// Hands out the smallest positive identifier that is not in use.
    pub fn assign_id(&mut self) -> (id: i32)
        requires
            old(self).wf(),
            old(self)@.len() < i32::MAX,
        ensures
            final(self).wf(),
            is_smallest_free(old(self)@, id as int),
            final(self)@ == old(self)@.insert(id as int),
    {
        proof {
            self.lemma_wf_view();
        }
        let mut lowest: i32 = 1;
        while self.is_allocated(lowest)
            invariant
                self == old(self),
                self.wf(),
                self@.finite(),
                self@.len() < i32::MAX,
                1 <= lowest <= self@.len() + 1,
                forall|k: int| 1 <= k < lowest ==> self@.contains(k),
            decreases self@.len() + 1 - lowest,
        {
            proof {
                lemma_prefix_bounded(self@, lowest as int);
            }
            lowest += 1;
        }
        let ghost before = as_ints(self.ids@);
        self.ids.push(lowest);
        proof {
            let after = as_ints(self.ids@);
            assert(after =~= before.push(lowest as int));
            assert(after.to_set() =~= before.to_set().insert(lowest as int)) by {
                assert forall|x: int| after.to_set().contains(x) implies before.to_set().insert(
                    lowest as int,
                ).contains(x) by {
                    let j = choose|j: int| 0 <= j < after.len() && after[j] == x;
                    if j < before.len() {
                        assert(before[j] == x);
                    }
                }
                assert forall|x: int| before.to_set().insert(lowest as int).contains(
                    x,
                ) implies after.to_set().contains(x) by {
                    if x == lowest as int {
                        assert(after[before.len() as int] == x);
                    } else {
                        let j = choose|j: int| 0 <= j < before.len() && before[j] == x;
                        assert(after[j] == x);
                    }
                }
            }
            assert forall|i: int, j: int| 0 <= i < j < self.ids@.len() implies self.ids@[i]
                != self.ids@[j] by {
                if j == self.ids@.len() - 1 && self.ids@[i] == self.ids@[j] {
                    assert(before[i] == lowest as int);
                    assert(before.contains(lowest as int));
                }
            }
        }
        lowest
    }

    /// Gives `id` back, so that it can be handed out again.
    pub fn release_id(&mut self, id: i32)
        requires
            old(self).wf(),
        ensures
            final(self).wf(),
            final(self)@ == old(self)@.remove(id as int),
    {
        let ghost before = as_ints(self.ids@);
        let mut i: usize = 0;
        while i < self.ids.len()
            invariant
                self == old(self),
                self.wf(),
                before == as_ints(self.ids@),
                i <= self.ids@.len(),
                forall|j: int| 0 <= j < i ==> self.ids@[j] != id,
            decreases self.ids@.len() - i,
        {
            if self.ids[i] == id {
                let _ = self.ids.remove(i);
                proof {
                    let after = as_ints(self.ids@);
                    assert(after =~= before.remove(i as int));
                    assert(after.to_set() =~= before.to_set().remove(id as int)) by {
                        assert forall|x: int| after.to_set().contains(x) implies before.to_set().remove(
                            id as int,
                        ).contains(x) by {
                            let j = choose|j: int| 0 <= j < after.len() && after[j] == x;
                            if j < i {
                                assert(before[j] == x);
                            } else {
                                assert(before[j + 1] == x);
                                assert(old(self).ids@[j + 1] != old(self).ids@[i as int]);
                            }
                        }
                        assert forall|x: int| before.to_set().remove(id as int).contains(
                            x,
                        ) implies after.to_set().contains(x) by {
                            let j = choose|j: int| 0 <= j < before.len() && before[j] == x;
                            if j < i {
                                assert(after[j] == x);
                            } else {
                                assert(j != i);
                                assert(after[j - 1] == x);
                            }
                        }
                    }
                }
                return ;
            }
            i += 1;
        }
        proof {
            assert(!before.contains(id as int)) by {
                if before.contains(id as int) {
                    let j = choose|j: int| 0 <= j < before.len() && before[j] == id as int;
                    assert(self.ids@[j] == id);
                }
            }
            assert(before.to_set() =~= before.to_set().remove(id as int));
        }
    }
}

} // verus!
