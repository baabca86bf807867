use crate::path::StorePathSegment;
use crate::store_field::{iter_track_events, StoreField};
use crate::trigger::get_or_insert_post;
use crate::value::{node_at, ValueModel};
use crate::Store;
use vstd::prelude::*;

verus! {

/// Provides access to the data at some index in another collection.
#[derive(Clone, Copy, Debug)]
pub struct AtIndex<Inner> {
    pub inner: Inner,
    pub index: usize,
}

impl<Inner: StoreField> AtIndex<Inner> {
    /// Creates a new accessor for the inner collection at the given index.
    pub fn new(inner: Inner, index: usize) -> (r: AtIndex<Inner>)
        ensures
            r.inner == inner,
            r.index == index,
    {
        AtIndex { inner, index }
    }
}

impl<Inner: StoreField> StoreField for AtIndex<Inner> {
    open spec fn path_spec(&self) -> Seq<StorePathSegment> {
        self.inner.path_spec().push(StorePathSegment(self.index))
    }

    fn path(&self) -> (r: crate::path::StorePath) {
        let mut r = self.inner.path();
        r.push(StorePathSegment(self.index));
        r
    }
}

/// The length of the collection at `p` in the tree `v`, as iteration snapshots
/// it: zero where the path leads to no collection.
pub open spec fn collection_len(v: ValueModel, p: Seq<StorePathSegment>) -> nat {
    match node_at(v, p) {
        Some(ValueModel::List(items)) => items.len(),
        _ => 0,
    }
}

/// Provides unkeyed reactive access to the fields of some collection.
pub trait StoreFieldIterator: StoreField + Copy {
    /// Reactive access to the value at some index.
    fn at_unkeyed(self, index: usize) -> (r: AtIndex<Self>)
        ensures
            r.inner == self,
            r.index == index,
    ;

    /// An iterator over the values in the collection: subscribes to the
    /// collection's own pair of triggers — so any push, pop or replacement of
    /// the collection invalidates the subscriber, while elements of other
    /// collections stay silent — and snapshots the current length once,
    /// untracked. On a disposed store the snapshot is empty.
    fn iter_unkeyed(self, store: &mut Store) -> (r: StoreFieldIter<Self>)
        requires
            old(store).wf(),
        ensures
            final(store).wf(),
            final(store).live() == old(store).live(),
            r.inner == self,
            r.idx == 0,
            !old(store).live() ==> *final(store) == *old(store) && r.len == 0,
            old(store).live() ==> {
                &&& r.len == collection_len(old(store).model(), self.path_spec())
                &&& final(store).model() == old(store).model()
                &&& final(store).notify_log() == old(store).notify_log()
                &&& final(store).track_log() == old(store).track_log() + iter_track_events(
                    self.path_spec(),
                )
                &&& get_or_insert_post(
                    old(store).triggers(),
                    final(store).triggers(),
                    self.path_spec(),
                    final(store).triggers()[self.path_spec()],
                )
            },
    ;
}

impl<A: StoreField + Copy> StoreFieldIterator for A {
    fn at_unkeyed(self, index: usize) -> (r: AtIndex<A>) {
        AtIndex::new(self, index)
    }

    fn iter_unkeyed(self, store: &mut Store) -> (r: StoreFieldIter<A>) {
        let path = self.path();
        let len = store.snapshot_collection_len(&path);
        StoreFieldIter { inner: self, idx: 0, len }
    }
}

/// An iterator over the values in a collection, as reactive fields: a live
/// lower cursor `idx` and upper cursor `len` over the snapshotted length.
/// Forward and backward consumption may mix; the iterator ends when the two
/// cursors meet, after yielding each position exactly once.
pub struct StoreFieldIter<Inner> {
    pub inner: Inner,
    pub idx: usize,
    pub len: usize,
}

impl<Inner: StoreField + Copy> StoreFieldIter<Inner> {
    /// The next accessor from the front, ascending from index zero.
    pub fn next(&mut self) -> (r: Option<AtIndex<Inner>>)
        ensures
            final(self).inner == old(self).inner,
            final(self).len == old(self).len,
            if old(self).idx < old(self).len {
                &&& r == Some(AtIndex { inner: old(self).inner, index: old(self).idx })
                &&& final(self).idx == old(self).idx + 1
            } else {
                &&& r is None
                &&& final(self).idx == old(self).idx
            },
    {
        if self.idx < self.len {
            let field = AtIndex::new(self.inner, self.idx);
            self.idx += 1;
            Some(field)
        } else {
            None
        }
    }

    /// The next accessor from the back, descending toward the front cursor.
    pub fn next_back(&mut self) -> (r: Option<AtIndex<Inner>>)
        ensures
            final(self).inner == old(self).inner,
            final(self).idx == old(self).idx,
            if old(self).len > old(self).idx {
                &&& r == Some(
                    AtIndex { inner: old(self).inner, index: (old(self).len - 1) as usize },
                )
                &&& final(self).len == old(self).len - 1
            } else {
                &&& r is None
                &&& final(self).len == old(self).len
            },
    {
        if self.len > self.idx {
            self.len -= 1;
            let field = AtIndex::new(self.inner, self.len);
            Some(field)
        } else {
            None
        }
    }
}

/// The indices that a fresh iterator over cursors `idx..len` yields for a
/// given interleaving of calls: `true` stands for a call of `next`, `false`
/// for one of `next_back`.
pub open spec fn iter_yields(idx: int, len: int, calls: Seq<bool>) -> Seq<int>
    decreases calls.len(),
{
    if calls.len() == 0 {
        Seq::empty()
    } else if calls[0] {
        if idx < len {
            seq![idx] + iter_yields(idx + 1, len, calls.skip(1))
        } else {
            iter_yields(idx, len, calls.skip(1))
        }
    } else {
        if idx < len {
            seq![len - 1] + iter_yields(idx, len - 1, calls.skip(1))
        } else {
            iter_yields(idx, len, calls.skip(1))
        }
    }
}

/// Double-ended iteration is exact: however calls of `next` and `next_back`
/// interleave, the yielded indices are distinct members of `idx..len`, and
/// once the calls number at least `len - idx`, every index in that range has
/// been yielded exactly once and the iterator is exhausted.
pub proof fn lemma_iter_yields_each_index_once(idx: int, len: int, calls: Seq<bool>)
    requires
        0 <= idx <= len,
    ensures
        iter_yields(idx, len, calls).no_duplicates(),
        forall|j: int|
            0 <= j < iter_yields(idx, len, calls).len() ==> idx <= #[trigger] iter_yields(
                idx,
                len,
                calls,
            )[j] < len,
        calls.len() >= len - idx ==> iter_yields(idx, len, calls).to_set() == Set::new(
            |i: int| idx <= i < len,
        ) && iter_yields(idx, len, calls).len() == len - idx,
    decreases calls.len(),
{
    let yields = iter_yields(idx, len, calls);
    if calls.len() == 0 {
        if calls.len() >= len - idx {
            assert(yields.to_set() =~= Set::new(|i: int| idx <= i < len));
        }
    } else if calls[0] {
        if idx < len {
            lemma_iter_yields_each_index_once(idx + 1, len, calls.skip(1));
            let rest = iter_yields(idx + 1, len, calls.skip(1));
            assert(yields == seq![idx] + rest);
            assert forall|j: int| 0 <= j < yields.len() implies idx <= #[trigger] yields[j]
                < len by {
                if j > 0 {
                    assert(yields[j] == rest[j - 1]);
                }
            }
            assert(yields.no_duplicates()) by {
                assert forall|j: int, l: int|
                    0 <= j < l < yields.len() implies yields[j] != yields[l] by {
                    if j == 0 {
                        assert(yields[l] == rest[l - 1]);
                        assert(idx + 1 <= rest[l - 1]);
                    } else {
                        assert(yields[j] == rest[j - 1]);
                        assert(yields[l] == rest[l - 1]);
                    }
                }
            }
            if calls.len() >= len - idx {
                assert(rest.to_set() == Set::new(|i: int| idx + 1 <= i < len));
                assert(yields.to_set() =~= Set::new(|i: int| idx <= i < len)) by {
                    assert forall|i: int| idx <= i < len implies yields.to_set().contains(i) by {
                        if i == idx {
                            assert(yields[0] == i);
                        } else {
                            assert(rest.to_set().contains(i));
                            let j = choose|j: int| 0 <= j < rest.len() && rest[j] == i;
                            assert(yields[j + 1] == i);
                        }
                    }
                    assert forall|i: int| yields.to_set().contains(i) implies idx <= i < len by {}
                }
            }
        } else {
            lemma_iter_yields_each_index_once(idx, len, calls.skip(1));
        }
    } else {
        if idx < len {
            lemma_iter_yields_each_index_once(idx, len - 1, calls.skip(1));
            let rest = iter_yields(idx, len - 1, calls.skip(1));
            assert(yields == seq![len - 1] + rest);
            assert forall|j: int| 0 <= j < yields.len() implies idx <= #[trigger] yields[j]
                < len by {
                if j > 0 {
                    assert(yields[j] == rest[j - 1]);
                }
            }
            assert(yields.no_duplicates()) by {
                assert forall|j: int, l: int|
                    0 <= j < l < yields.len() implies yields[j] != yields[l] by {
                    if j == 0 {
                        assert(yields[l] == rest[l - 1]);
                        assert(rest[l - 1] < len - 1);
                    } else {
                        assert(yields[j] == rest[j - 1]);
                        assert(yields[l] == rest[l - 1]);
                    }
                }
            }
            if calls.len() >= len - idx {
                assert(rest.to_set() == Set::new(|i: int| idx <= i < len - 1));
                assert(yields.to_set() =~= Set::new(|i: int| idx <= i < len)) by {
                    assert forall|i: int| idx <= i < len implies yields.to_set().contains(i) by {
                        if i == len - 1 {
                            assert(yields[0] == i);
                        } else {
                            assert(rest.to_set().contains(i));
                            let j = choose|j: int| 0 <= j < rest.len() && rest[j] == i;
                            assert(yields[j + 1] == i);
                        }
                    }
                    assert forall|i: int| yields.to_set().contains(i) implies idx <= i < len by {}
                }
            }
        } else {
            lemma_iter_yields_each_index_once(idx, len, calls.skip(1));
        }
    }
}

} // verus!
