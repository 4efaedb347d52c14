//! Copper list manager: a fixed-capacity store of the most recent
//! per-iteration message bundles.
//!
//! The resident entries form a sequence in push order; pushing beyond the
//! capacity evicts exactly the oldest entry. The slots are allocated up
//! front, so the steady-state path allocates nothing.

use vstd::prelude::*;

use crate::{CuError, CuResult};

verus! {

/// What one push does to the resident sequence: appends while below the
/// capacity, else drops the oldest entry and appends.
pub open spec fn spec_push<T>(resident: Seq<T>, capacity: nat, x: T) -> Seq<T> {
    if resident.len() < capacity {
        resident.push(x)
    } else {
        resident.subrange(1, resident.len() as int).push(x)
    }
}

/// The resident sequence after pushing `xs` in order into an initially
/// given resident sequence.
pub open spec fn spec_push_all<T>(resident: Seq<T>, capacity: nat, xs: Seq<T>) -> Seq<T>
    decreases xs.len(),
{
    if xs.len() == 0 {
        resident
    } else {
        spec_push_all(spec_push(resident, capacity, xs[0]), capacity, xs.drop_first())
    }
}

/// A bounded history of the most recent entries, in push order.
pub struct CuListsManager<T> {
    pub data: Vec<T>,
    pub capacity: usize,
}

impl<T> View for CuListsManager<T> {
    type V = Seq<T>;

    open spec fn view(&self) -> Seq<T> {
        self.data@
    }
}

impl<T> CuListsManager<T> {
    /// The fixed capacity the manager was created with.
    pub open spec fn spec_capacity(&self) -> nat {
        self.capacity as nat
    }

    /// The capacity is positive and the resident count never exceeds it.
    pub open spec fn wf(&self) -> bool {
        self.spec_capacity() > 0 && self@.len() <= self.spec_capacity()
    }

    /// A new manager with the given capacity; the capacity must be positive.
    pub fn new(capacity: usize) -> (r: CuResult<Self>)
        ensures
            match r {
                Ok(m) => capacity > 0 && m@ == Seq::<T>::empty() && m.spec_capacity() == capacity
                    && m.wf(),
                Err(e) => capacity == 0 && (e matches CuError::Message(s) && s@
                    == "capacity must be positive"@),
            },
    {
        if capacity == 0 {
            return Err(CuError::Message("capacity must be positive".to_owned()));
        }
        let mut data = Vec::new();
        data.reserve(capacity);
        Ok(CuListsManager { data, capacity })
    }

    /// The number of resident entries.
    pub fn len(&self) -> (r: usize)
        ensures
            r == self@.len(),
    {
        self.data.len()
    }

    /// Inserts `x` as the newest entry. When the manager already holds as
    /// many entries as its capacity, the oldest entry is evicted and
    /// returned.
    pub fn push(&mut self, x: T) -> (evicted: Option<T>)
        requires
            old(self).wf(),
        ensures
            final(self).wf(),
            final(self).spec_capacity() == old(self).spec_capacity(),
            final(self)@ == spec_push(old(self)@, old(self).spec_capacity(), x),
            match evicted {
                Some(e) => old(self)@.len() == old(self).spec_capacity() && e == old(self)@[0],
                None => old(self)@.len() < old(self).spec_capacity(),
            },
    {
        if self.data.len() < self.capacity {
            self.data.push(x);
            None
        } else {
            let evicted = self.data.remove(0);
            self.data.push(x);
            Some(evicted)
        }
    }

    /// The `i`-th most recent entry: `most_recent(0)` is the newest.
    pub fn most_recent(&self, i: usize) -> (r: Option<&T>)
        ensures
            match r {
                Some(v) => i < self@.len() && *v == self@[self@.len() - 1 - i],
                None => i >= self@.len(),
            },
    {
        if i < self.data.len() {
            Some(&self.data[self.data.len() - 1 - i])
        } else {
            None
        }
    }

    /// The `k` most recent entries, most recent first. When `k` exceeds the
    /// resident count, only the resident entries are yielded.
    pub fn recent(&self, k: usize) -> (r: Vec<&T>)
        ensures
            r@.len() == vstd::math::min(k as int, self@.len() as int),
            forall|i: int| 0 <= i < r@.len() ==> *(#[trigger] r@[i]) == self@[self@.len() - 1 - i],
    {
        let mut r: Vec<&T> = Vec::new();
        let count = if k < self.data.len() {
            k
        } else {
            self.data.len()
        };
        let mut i: usize = 0;
        while i < count
            invariant
                count <= self.data.len(),
                i <= count,
                r@.len() == i,
                forall|j: int| 0 <= j < i ==> *(#[trigger] r@[j]) == self@[self@.len() - 1 - j],
            decreases count - i,
        {
            r.push(&self.data[self.data.len() - 1 - i]);
            i = i + 1;
        }
        r
    }
}

/// Bound and exactness of the history: after any sequence of pushes into an
/// initially empty manager, at most `capacity` entries are resident; with at
/// least `capacity` pushes, the resident entries are exactly the last
/// `capacity` pushed, in push order; with fewer, they are exactly all of
/// them.
pub proof fn lemma_manager_bound<T>(capacity: nat, xs: Seq<T>)
    requires
        capacity > 0,
    ensures
        spec_push_all(Seq::<T>::empty(), capacity, xs).len() <= capacity,
        xs.len() >= capacity ==> spec_push_all(Seq::<T>::empty(), capacity, xs) == xs.subrange(
            xs.len() - capacity,
            xs.len() as int,
        ),
        xs.len() < capacity ==> spec_push_all(Seq::<T>::empty(), capacity, xs) == xs,
{
    lemma_push_all_suffix(Seq::<T>::empty(), capacity, xs);
    if xs.len() >= capacity {
        assert((Seq::<T>::empty() + xs).subrange(
            Seq::<T>::empty().len() + xs.len() - capacity,
            (Seq::<T>::empty() + xs).len() as int,
        ) =~= xs.subrange(xs.len() - capacity, xs.len() as int));
    } else {
        assert(Seq::<T>::empty() + xs =~= xs);
    }
}

/// The resident sequence after pushes is the tail of the concatenation of
/// the initial contents and everything pushed.
proof fn lemma_push_all_suffix<T>(resident: Seq<T>, capacity: nat, xs: Seq<T>)
    requires
        capacity > 0,
        resident.len() <= capacity,
    ensures
        spec_push_all(resident, capacity, xs).len() <= capacity,
        resident.len() + xs.len() >= capacity ==> spec_push_all(resident, capacity, xs) == (
        resident + xs).subrange(
            resident.len() + xs.len() - capacity,
            (resident + xs).len() as int,
        ),
        resident.len() + xs.len() < capacity ==> spec_push_all(resident, capacity, xs) == resident
            + xs,
    decreases xs.len(),
{
    if xs.len() == 0 {
        if resident.len() + xs.len() >= capacity {
            assert((resident + xs).subrange(
                resident.len() + xs.len() - capacity,
                (resident + xs).len() as int,
            ) =~= resident);
        } else {
            assert(resident + xs =~= resident);
        }
    } else {
        let r1 = spec_push(resident, capacity, xs[0]);
        lemma_push_all_suffix(r1, capacity, xs.drop_first());
        if resident.len() < capacity {
            assert(r1 + xs.drop_first() =~= resident + xs);
        } else {
            assert(r1 + xs.drop_first() =~= (resident + xs).subrange(
                1,
                (resident + xs).len() as int,
            ));
            if r1.len() + xs.drop_first().len() >= capacity {
                assert((r1 + xs.drop_first()).subrange(
                    r1.len() + xs.drop_first().len() - capacity,
                    (r1 + xs.drop_first()).len() as int,
                ) =~= (resident + xs).subrange(
                    resident.len() + xs.len() - capacity,
                    (resident + xs).len() as int,
                ));
            }
        }
    }
}

} // verus!
