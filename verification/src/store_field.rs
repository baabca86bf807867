use crate::path::{is_prefix_of, is_strict_prefix_of, paths_disjoint, StorePath, StorePathSegment};
use vstd::prelude::*;

verus! {

/// Which of a path's two triggers an operation touches.
#[derive(Clone, Copy, PartialEq, Eq, Structural, Debug)]
pub enum TriggerKind {
    This,
    Children,
}

/// The central accessor contract: every accessor — the whole store, a struct
/// field, a collection index — denotes a location in the value tree by a path
/// that extends its inner accessor's path by at most one segment. Accessors
/// are cheap, stack-sized values; none owns any of the data.
pub trait StoreField: Sized {
    /// The path from the root to the location this accessor denotes.
    spec fn path_spec(&self) -> Seq<StorePathSegment>;

    /// Computes the accessor's path, root first.
    fn path(&self) -> (r: StorePath)
        ensures
            r@ == self.path_spec(),
    ;
}

/// The accessor of the whole store: the empty path.
#[derive(Clone, Copy, PartialEq, Eq, Structural, Debug)]
pub struct Root;

impl StoreField for Root {
    open spec fn path_spec(&self) -> Seq<StorePathSegment> {
        Seq::empty()
    }

    fn path(&self) -> (r: StorePath) {
        StorePath::root()
    }
}

/// Projects one record field, by field position, out of an inner accessor.
#[derive(Clone, Copy, Debug)]
pub struct Subfield<Inner> {
    pub inner: Inner,
    pub field: StorePathSegment,
}

impl<Inner: StoreField> Subfield<Inner> {
    /// An accessor for the given field of the location `inner` denotes.
    pub fn new(inner: Inner, field: StorePathSegment) -> (r: Subfield<Inner>)
        ensures
            r.path_spec() == inner.path_spec().push(field),
    {
        Subfield { inner, field }
    }
}

impl<Inner: StoreField> StoreField for Subfield<Inner> {
    open spec fn path_spec(&self) -> Seq<StorePathSegment> {
        self.inner.path_spec().push(self.field)
    }

    fn path(&self) -> (r: StorePath) {
        let mut r = self.inner.path();
        r.push(self.field);
        r
    }
}

/// The triggers that releasing a write guard for `p` notifies: the node's own
/// trigger, and the "children changed" trigger of the node and of every
/// ancestor up to the root — so ancestors learn a descendant changed, while
/// unrelated siblings hear nothing.
pub open spec fn write_notifies(p: Seq<StorePathSegment>) -> Set<
    (Seq<StorePathSegment>, TriggerKind),
> {
    Set::new(
        |t: (Seq<StorePathSegment>, TriggerKind)|
            (t.1 == TriggerKind::This && t.0 == p) || (t.1 == TriggerKind::Children
                && is_prefix_of(t.0, p)),
    )
}

/// The triggers a tracked read of `p` subscribes to: the node's own pair, and
/// the `this` trigger of every strict ancestor, so replacing an ancestor
/// re-runs the reader.
pub open spec fn read_tracks(p: Seq<StorePathSegment>) -> Set<
    (Seq<StorePathSegment>, TriggerKind),
> {
    Set::new(
        |t: (Seq<StorePathSegment>, TriggerKind)|
            (t.0 == p) || (t.1 == TriggerKind::This && is_strict_prefix_of(t.0, p)),
    )
}

/// The triggers an unkeyed iteration of the collection at `p` subscribes to:
/// the collection's own pair — `this` for replacement of the collection,
/// `children` for any mutation rooted under it.
pub open spec fn iter_tracks(p: Seq<StorePathSegment>) -> Set<
    (Seq<StorePathSegment>, TriggerKind),
> {
    Set::new(|t: (Seq<StorePathSegment>, TriggerKind)| t.0 == p)
}

/// The notifications of one write at `p`, in the order they are delivered:
/// the node itself first, then the subtree triggers from the root down to `p`.
pub open spec fn write_notify_events(p: Seq<StorePathSegment>) -> Seq<
    (Seq<StorePathSegment>, TriggerKind),
> {
    seq![(p, TriggerKind::This)] + Seq::new(
        p.len() + 1,
        |n: int| (p.subrange(0, n), TriggerKind::Children),
    )
}

/// The subscriptions of one tracked read of `p`, in order: the node's own
/// pair, then the strict ancestors from the root down.
pub open spec fn read_track_events(p: Seq<StorePathSegment>) -> Seq<
    (Seq<StorePathSegment>, TriggerKind),
> {
    seq![(p, TriggerKind::This), (p, TriggerKind::Children)] + Seq::new(
        p.len(),
        |n: int| (p.subrange(0, n), TriggerKind::This),
    )
}

/// The subscriptions of one unkeyed iteration of the collection at `p`.
pub open spec fn iter_track_events(p: Seq<StorePathSegment>) -> Seq<
    (Seq<StorePathSegment>, TriggerKind),
> {
    seq![(p, TriggerKind::This), (p, TriggerKind::Children)]
}

/// A write's ordered notifications deliver exactly the set `write_notifies`.
pub proof fn lemma_write_events_exact(p: Seq<StorePathSegment>)
    ensures
        write_notify_events(p).to_set() == write_notifies(p),
{
    let events = write_notify_events(p);
    assert forall|t: (Seq<StorePathSegment>, TriggerKind)|
        events.to_set().contains(t) implies write_notifies(p).contains(t) by {
        let i = choose|i: int| 0 <= i < events.len() && events[i] == t;
        if i > 0 {
            assert(t.0 == p.subrange(0, i - 1));
            assert(is_prefix_of(t.0, p)) by {
                assert(t.0.len() == i - 1);
                assert(p.subrange(0, t.0.len() as int) == t.0);
            }
        }
    }
    assert forall|t: (Seq<StorePathSegment>, TriggerKind)|
        write_notifies(p).contains(t) implies events.to_set().contains(t) by {
        if t.1 == TriggerKind::This && t.0 == p {
            assert(events[0] == t);
        } else {
            assert(t.0 == p.subrange(0, t.0.len() as int));
            assert(events[t.0.len() as int + 1] == t);
        }
    }
    assert(events.to_set() =~= write_notifies(p));
}

/// A tracked read's ordered subscriptions cover exactly the set `read_tracks`.
pub proof fn lemma_read_events_exact(p: Seq<StorePathSegment>)
    ensures
        read_track_events(p).to_set() == read_tracks(p),
{
    let events = read_track_events(p);
    assert forall|t: (Seq<StorePathSegment>, TriggerKind)|
        events.to_set().contains(t) implies read_tracks(p).contains(t) by {
        let i = choose|i: int| 0 <= i < events.len() && events[i] == t;
        if i > 1 {
            assert(t.0 == p.subrange(0, i - 2));
            assert(p.subrange(0, t.0.len() as int) == t.0);
            assert(is_strict_prefix_of(t.0, p));
        }
    }
    assert forall|t: (Seq<StorePathSegment>, TriggerKind)|
        read_tracks(p).contains(t) implies events.to_set().contains(t) by {
        if t.0 == p {
            if t.1 == TriggerKind::This {
                assert(events[0] == t);
            } else {
                assert(events[1] == t);
            }
        } else {
            assert(t.0 == p.subrange(0, t.0.len() as int));
            assert(events[t.0.len() as int + 2] == t);
        }
    }
    assert(events.to_set() =~= read_tracks(p));
}

/// Isolation: a subscriber that reads path `a` holds no trigger that a write
/// to a disjoint path `b` notifies, so it is never re-invoked by that write.
pub proof fn lemma_isolation(a: Seq<StorePathSegment>, b: Seq<StorePathSegment>)
    requires
        paths_disjoint(a, b),
    ensures
        read_tracks(a).disjoint(write_notifies(b)),
{
    assert forall|t: (Seq<StorePathSegment>, TriggerKind)|
        read_tracks(a).contains(t) implies !write_notifies(b).contains(t) by {
        if write_notifies(b).contains(t) {
            if t.0 == a {
                if t.1 == TriggerKind::This {
                    assert(a == b);
                    assert(b.subrange(0, b.len() as int) =~= b);
                    assert(is_prefix_of(a, b));
                } else {
                    assert(is_prefix_of(a, b));
                }
            } else {
                assert(is_strict_prefix_of(t.0, a));
                assert(t.1 == TriggerKind::This);
                assert(t.0 == b);
                assert(is_prefix_of(b, a));
            }
        }
    }
}

/// Propagation: a write to exactly the path a reader subscribed to notifies
/// the reader's own trigger, so each distinct mutation re-runs the reader.
pub proof fn lemma_propagation(p: Seq<StorePathSegment>)
    ensures
        read_tracks(p).contains((p, TriggerKind::This)),
        write_notifies(p).contains((p, TriggerKind::This)),
{
}

/// A write anywhere under a path notifies that path's subtree trigger, which
/// every reader of the path subscribed to: ancestors see descendant changes.
pub proof fn lemma_descendant_write_reaches_ancestor(
    a: Seq<StorePathSegment>,
    b: Seq<StorePathSegment>,
)
    requires
        is_prefix_of(a, b),
    ensures
        read_tracks(a).contains((a, TriggerKind::Children)),
        write_notifies(b).contains((a, TriggerKind::Children)),
{
}

/// Iteration tracks the collection, not its elements: replacing or growing the
/// collection at `c` notifies a trigger the iteration subscribed to, while a
/// write at any path disjoint from `c` notifies none of them.
pub proof fn lemma_iteration_tracking(c: Seq<StorePathSegment>, q: Seq<StorePathSegment>)
    ensures
        iter_tracks(c).contains((c, TriggerKind::This)),
        write_notifies(c).contains((c, TriggerKind::This)),
        paths_disjoint(c, q) ==> iter_tracks(c).disjoint(write_notifies(q)),
{
    if paths_disjoint(c, q) {
        assert forall|t: (Seq<StorePathSegment>, TriggerKind)|
            iter_tracks(c).contains(t) implies !write_notifies(q).contains(t) by {
            if write_notifies(q).contains(t) {
                assert(t.0 == c);
                if t.1 == TriggerKind::This {
                    assert(c == q);
                    assert(q.subrange(0, q.len() as int) =~= q);
                    assert(is_prefix_of(c, q));
                } else {
                    assert(is_prefix_of(c, q));
                }
            }
        }
    }
}

/// One write touches each trigger at most once: its notification plan holds no
/// pair twice.
pub proof fn lemma_write_events_distinct(p: Seq<StorePathSegment>)
    ensures
        write_notify_events(p).no_duplicates(),
{
    let events = write_notify_events(p);
    assert forall|i: int, j: int| 0 <= i < j < events.len() implies events[i] != events[j] by {
        if i == 0 {
            assert(events[j].1 == TriggerKind::Children);
        } else {
            assert(events[i].0.len() == i - 1);
            assert(events[j].0.len() == j - 1);
        }
    }
}

/// One tracked read subscribes to each trigger at most once: its subscription
/// plan holds no pair twice.
pub proof fn lemma_read_events_distinct(p: Seq<StorePathSegment>)
    ensures
        read_track_events(p).no_duplicates(),
{
    let events = read_track_events(p);
    assert forall|i: int, j: int| 0 <= i < j < events.len() implies events[i] != events[j] by {
        if i == 0 && j == 1 {
        } else if j >= 2 {
            assert(events[j].0.len() == j - 2);
            assert(events[j].0.len() < p.len());
            if i >= 2 {
                assert(events[i].0.len() == i - 2);
            } else if i == 1 {
                assert(events[i].1 == TriggerKind::Children);
            } else {
                assert(events[i].0.len() == p.len());
            }
        }
    }
}

/// Isolation, seen through a store's notification log: not one of the
/// notifications a write at `b` delivers is a trigger that a tracked read of a
/// disjoint path `a` subscribed to.
pub proof fn lemma_write_log_isolated(a: Seq<StorePathSegment>, b: Seq<StorePathSegment>)
    requires
        paths_disjoint(a, b),
    ensures
        forall|j: int|
            0 <= j < write_notify_events(b).len() ==> !read_tracks(a).contains(
                #[trigger] write_notify_events(b)[j],
            ),
{
    lemma_isolation(a, b);
    lemma_write_events_exact(b);
    assert forall|j: int|
        0 <= j < write_notify_events(b).len() implies !read_tracks(a).contains(
        write_notify_events(b)[j],
    ) by {
        assert(write_notify_events(b).to_set().contains(write_notify_events(b)[j]));
    }
}

/// Computes a write's notification plan: the pairs of path and trigger kind
/// that the write at `path` notifies, in delivery order.
pub fn write_notification_plan(path: &StorePath) -> (r: Vec<(StorePath, TriggerKind)>)
    ensures
        r@.len() == write_notify_events(path@).len(),
        forall|i: int|
            0 <= i < r@.len() ==> (r@[i].0@, r@[i].1) == write_notify_events(path@)[i],
{
    let mut r: Vec<(StorePath, TriggerKind)> = Vec::new();
    r.push((path.duplicate(), TriggerKind::This));
    let mut n: usize = 0;
    while n < path.len()
        invariant
            n <= path@.len(),
            r@.len() == n + 1,
            (r@[0].0@, r@[0].1) == write_notify_events(path@)[0],
            forall|i: int|
                1 <= i < r@.len() ==> (r@[i].0@, r@[i].1) == write_notify_events(path@)[i],
        decreases path@.len() - n,
    {
        r.push((path.prefix(n), TriggerKind::Children));
        n += 1;
    }
    proof {
        assert(path@.subrange(0, path@.len() as int) =~= path@);
    }
    r.push((path.duplicate(), TriggerKind::Children));
    r
}

/// Computes a tracked read's subscription plan: the pairs of path and trigger
/// kind that reading `path` subscribes to, in order.
pub fn read_tracking_plan(path: &StorePath) -> (r: Vec<(StorePath, TriggerKind)>)
    ensures
        r@.len() == read_track_events(path@).len(),
        forall|i: int|
            0 <= i < r@.len() ==> (r@[i].0@, r@[i].1) == read_track_events(path@)[i],
{
    let mut r: Vec<(StorePath, TriggerKind)> = Vec::new();
    r.push((path.duplicate(), TriggerKind::This));
    r.push((path.duplicate(), TriggerKind::Children));
    let mut n: usize = 0;
    while n < path.len()
        invariant
            n <= path@.len(),
            r@.len() == n + 2,
            (r@[0].0@, r@[0].1) == read_track_events(path@)[0],
            (r@[1].0@, r@[1].1) == read_track_events(path@)[1],
            forall|i: int|
                2 <= i < r@.len() ==> (r@[i].0@, r@[i].1) == read_track_events(path@)[i],
        decreases path@.len() - n,
    {
        r.push((path.prefix(n), TriggerKind::This));
        n += 1;
    }
    r
}

} // verus!
