pub mod iter;
pub mod patch;
pub mod path;
pub mod store_field;
pub mod trigger;
pub mod value;

use crate::path::{is_prefix_of, StorePath, StorePathSegment};
use crate::store_field::{
    read_track_events, read_tracking_plan, write_notification_plan, write_notify_events,
    StoreField, TriggerKind,
};
use crate::patch::{diff_into, diff_paths, patch_events};
use crate::trigger::{get_or_insert_post, StoreFieldTrigger, TriggerMap};
use crate::value::{node_at, path_valid, with_node, with_node_at, node_ref, StoreValue, ValueModel};
use vstd::prelude::*;

verus! {

/// One notification or subscription, as recorded in a store's ghost logs: the
/// path whose trigger was touched, and which of its two triggers.
pub type TriggerEvent = (Seq<StorePathSegment>, TriggerKind);

/// The trigger map after an operation holds exactly the old entries, each
/// unchanged, plus an entry for every prefix of `p` (the path itself
/// included).
pub open spec fn triggers_extended_by_prefixes(
    pre: Map<Seq<StorePathSegment>, StoreFieldTrigger>,
    post: Map<Seq<StorePathSegment>, StoreFieldTrigger>,
    p: Seq<StorePathSegment>,
) -> bool {
    &&& forall|k: Seq<StorePathSegment>| #[trigger]
        pre.contains_key(k) ==> post.contains_key(k) && post[k] == pre[k]
    &&& forall|k: Seq<StorePathSegment>| #[trigger]
        post.contains_key(k) ==> pre.contains_key(k) || is_prefix_of(k, p)
    &&& forall|q: Seq<StorePathSegment>| is_prefix_of(q, p) ==> #[trigger] post.contains_key(q)
}

/// The reactive root: owns the value tree and the trigger map, and records in
/// two ghost logs every trigger it notifies and every trigger it subscribes
/// to, in order. The logs are the contract's account of the store's visible
/// reactive behaviour.
pub struct ArcStore {
    value: StoreValue,
    signals: TriggerMap,
    notified: Ghost<Seq<TriggerEvent>>,
    subscribed: Ghost<Seq<TriggerEvent>>,
}

impl ArcStore {
    /// The value tree the store holds, as the owned value.
    pub closed spec fn value_tree(&self) -> StoreValue {
        self.value
    }

    /// The value tree the store holds, as its mathematical shape.
    pub open spec fn model(&self) -> ValueModel {
        self.value_tree()@
    }

    /// The path-to-trigger mapping allocated so far.
    pub closed spec fn triggers(&self) -> Map<Seq<StorePathSegment>, StoreFieldTrigger> {
        self.signals@
    }

    /// Every notification delivered so far, oldest first.
    pub closed spec fn notify_log(&self) -> Seq<TriggerEvent> {
        self.notified@
    }

    /// Every subscription registered so far, oldest first.
    pub closed spec fn track_log(&self) -> Seq<TriggerEvent> {
        self.subscribed@
    }

    pub closed spec fn wf(&self) -> bool {
        self.signals.wf()
    }

    /// A store owning `value`, with an empty trigger map.
    pub fn new(value: StoreValue) -> (r: ArcStore)
        ensures
            r.wf(),
            r.model() == value@,
            r.triggers() == Map::<Seq<StorePathSegment>, StoreFieldTrigger>::empty(),
            r.notify_log() == Seq::<TriggerEvent>::empty(),
            r.track_log() == Seq::<TriggerEvent>::empty(),
    {
        ArcStore {
            value,
            signals: TriggerMap::new(),
            notified: Ghost(Seq::empty()),
            subscribed: Ghost(Seq::empty()),
        }
    }

    /// A reactive root is never disposed on its own; it lives as long as any
    /// handle to it.
    pub fn is_disposed(&self) -> (r: bool)
        ensures
            !r,
    {
        false
    }

    /// Reads the whole value without registering any dependency: the explicit
    /// untracked escape hatch. In this single-owner store it cannot fail.
    pub fn try_read_untracked(&self) -> (r: Option<&StoreValue>)
        ensures
            match r {
                Some(v) => v@ == self.model(),
                None => false,
            },
    {
        Some(&self.value)
    }

    /// Resolves (creating if absent) the trigger pair for an exact path.
    pub fn get_trigger(&mut self, path: &StorePath) -> (r: StoreFieldTrigger)
        requires
            old(self).wf(),
        ensures
            final(self).wf(),
            get_or_insert_post(old(self).triggers(), final(self).triggers(), path@, r),
            final(self).model() == old(self).model(),
            final(self).notify_log() == old(self).notify_log(),
            final(self).track_log() == old(self).track_log(),
    {
        self.signals.get_or_insert(path)
    }

    /// Registers a dependency on the path's trigger pair and on every
    /// ancestor's own trigger, as a tracked read of the path does.
    pub fn track_path(&mut self, path: &StorePath)
        requires
            old(self).wf(),
        ensures
            final(self).wf(),
            final(self).model() == old(self).model(),
            final(self).notify_log() == old(self).notify_log(),
            final(self).track_log() == old(self).track_log() + read_track_events(path@),
            triggers_extended_by_prefixes(old(self).triggers(), final(self).triggers(), path@),
    {
        let plan = read_tracking_plan(path);
        let ghost pre = *self;
        let mut i: usize = 0;
        while i < plan.len()
            invariant
                self.wf(),
                i <= plan@.len(),
                plan@.len() == read_track_events(path@).len(),
                forall|j: int|
                    0 <= j < plan@.len() ==> (plan@[j].0@, plan@[j].1) == read_track_events(
                        path@,
                    )[j],
                self.value == pre.value,
                self.notified == pre.notified,
                self.subscribed@ == pre.subscribed@ + read_track_events(path@).subrange(
                    0,
                    i as int,
                ),
                forall|k: Seq<StorePathSegment>| #[trigger]
                    pre.signals@.contains_key(k) ==> self.signals@.contains_key(k)
                        && self.signals@[k] == pre.signals@[k],
                forall|k: Seq<StorePathSegment>| #[trigger]
                    self.signals@.contains_key(k) ==> pre.signals@.contains_key(k)
                        || is_prefix_of(k, path@),
                forall|j: int| 0 <= j < i ==> #[trigger] self.signals@.contains_key(plan@[j].0@),
            decreases plan@.len() - i,
        {
            let t = self.signals.get_or_insert(&plan[i].0);
            proof {
                assert(is_prefix_of(plan@[i as int].0@, path@)) by {
                    let e = read_track_events(path@)[i as int];
                    if i >= 2 {
                        assert(e.0 == path@.subrange(0, i - 2));
                        assert(path@.subrange(0, e.0.len() as int) == e.0);
                    } else {
                        assert(e.0 == path@);
                        assert(path@.subrange(0, path@.len() as int) =~= path@);
                    }
                }
            }
            match plan[i].1 {
                TriggerKind::This => t.track_this(),
                TriggerKind::Children => t.track_children(),
            }
            self.subscribed = Ghost(self.subscribed@.push((plan@[i as int].0@, plan@[i as int].1)));
            proof {
                assert(self.subscribed@ =~= pre.subscribed@ + read_track_events(path@).subrange(
                    0,
                    i as int + 1,
                ));
            }
            i += 1;
        }
        proof {
            assert(read_track_events(path@).subrange(
                0,
                read_track_events(path@).len() as int,
            ) =~= read_track_events(path@));
            assert forall|q: Seq<StorePathSegment>| is_prefix_of(q, path@) implies #[trigger]
                self.signals@.contains_key(q) by {
                if q.len() == path@.len() {
                    assert(path@.subrange(0, path@.len() as int) =~= path@);
                    assert(q == path@);
                    assert(read_track_events(path@)[0] == (path@, TriggerKind::This));
                    assert(plan@[0].0@ == q);
                } else {
                    assert(read_track_events(path@)[q.len() as int + 2].0 == path@.subrange(
                        0,
                        q.len() as int,
                    ));
                    assert(plan@[q.len() as int + 2].0@ == q);
                }
            }
        }
    }

    /// Fires the path's own trigger without writing, as `notify` on an
    /// accessor of that path does.
    pub fn notify_path(&mut self, path: &StorePath)
        requires
            old(self).wf(),
        ensures
            final(self).wf(),
            final(self).model() == old(self).model(),
            final(self).track_log() == old(self).track_log(),
            final(self).notify_log() == old(self).notify_log().push(
                (path@, TriggerKind::This),
            ),
            get_or_insert_post(
                old(self).triggers(),
                final(self).triggers(),
                path@,
                final(self).triggers()[path@],
            ),
    {
        let t = self.signals.get_or_insert(path);
        t.notify_this();
        self.notified = Ghost(self.notified@.push((path@, TriggerKind::This)));
    }

    /// Registers a dependency on the root path's trigger without reading.
    pub fn track(&mut self)
        requires
            old(self).wf(),
        ensures
            final(self).wf(),
            final(self).model() == old(self).model(),
            final(self).notify_log() == old(self).notify_log(),
            final(self).track_log() == old(self).track_log() + read_track_events(
                Seq::<StorePathSegment>::empty(),
            ),
            triggers_extended_by_prefixes(
                old(self).triggers(),
                final(self).triggers(),
                Seq::<StorePathSegment>::empty(),
            ),
    {
        let root = StorePath::root();
        self.track_path(&root);
    }

    /// Fires the root path's own trigger: the whole store was replaced from
    /// outside.
    pub fn notify(&mut self)
        requires
            old(self).wf(),
        ensures
            final(self).wf(),
            final(self).model() == old(self).model(),
            final(self).track_log() == old(self).track_log(),
            final(self).notify_log() == old(self).notify_log().push(
                (Seq::<StorePathSegment>::empty(), TriggerKind::This),
            ),
            get_or_insert_post(
                old(self).triggers(),
                final(self).triggers(),
                Seq::<StorePathSegment>::empty(),
                final(self).triggers()[Seq::<StorePathSegment>::empty()],
            ),
    {
        let root = StorePath::root();
        self.notify_path(&root);
    }

    /// Replaces the subtree at `path` and delivers the write's notifications:
    /// the node's own trigger, then the subtree trigger of every prefix from
    /// the root down. The mutation is visible before any notification fires,
    /// and the notifications are delivered on every exit.
    pub fn write_at(&mut self, path: &StorePath, new: StoreValue)
        requires
            old(self).wf(),
        ensures
            final(self).wf(),
            final(self).model() == with_node_at(old(self).model(), path@, new@),
            final(self).track_log() == old(self).track_log(),
            final(self).notify_log() == old(self).notify_log() + write_notify_events(path@),
            triggers_extended_by_prefixes(old(self).triggers(), final(self).triggers(), path@),
    {
        let mut v = StoreValue::Bool(false);
        core::mem::swap(&mut v, &mut self.value);
        proof {
            assert(path@.skip(0) =~= path@);
        }
        let v = with_node(v, path, 0, new);
        self.value = v;
        let plan = write_notification_plan(path);
        let ghost pre = *self;
        let mut i: usize = 0;
        while i < plan.len()
            invariant
                self.wf(),
                i <= plan@.len(),
                plan@.len() == write_notify_events(path@).len(),
                forall|j: int|
                    0 <= j < plan@.len() ==> (plan@[j].0@, plan@[j].1) == write_notify_events(
                        path@,
                    )[j],
                self.value == pre.value,
                self.subscribed == pre.subscribed,
                self.notified@ == pre.notified@ + write_notify_events(path@).subrange(
                    0,
                    i as int,
                ),
                forall|k: Seq<StorePathSegment>| #[trigger]
                    pre.signals@.contains_key(k) ==> self.signals@.contains_key(k)
                        && self.signals@[k] == pre.signals@[k],
                forall|k: Seq<StorePathSegment>| #[trigger]
                    self.signals@.contains_key(k) ==> pre.signals@.contains_key(k)
                        || is_prefix_of(k, path@),
                forall|j: int| 0 <= j < i ==> #[trigger] self.signals@.contains_key(plan@[j].0@),
            decreases plan@.len() - i,
        {
            let t = self.signals.get_or_insert(&plan[i].0);
            proof {
                assert(is_prefix_of(plan@[i as int].0@, path@)) by {
                    let e = write_notify_events(path@)[i as int];
                    if i >= 1 {
                        assert(e.0 == path@.subrange(0, i - 1));
                        assert(path@.subrange(0, e.0.len() as int) == e.0);
                    } else {
                        assert(e.0 == path@);
                        assert(path@.subrange(0, path@.len() as int) =~= path@);
                    }
                }
            }
            match plan[i].1 {
                TriggerKind::This => t.notify_this(),
                TriggerKind::Children => t.notify_children(),
            }
            self.notified = Ghost(self.notified@.push((plan@[i as int].0@, plan@[i as int].1)));
            proof {
                assert(self.notified@ =~= pre.notified@ + write_notify_events(path@).subrange(
                    0,
                    i as int + 1,
                ));
            }
            i += 1;
        }
        proof {
            assert(write_notify_events(path@).subrange(
                0,
                write_notify_events(path@).len() as int,
            ) =~= write_notify_events(path@));
            assert(old(self).triggers() == pre.signals@);
            assert forall|k: Seq<StorePathSegment>| #[trigger]
                old(self).triggers().contains_key(k) implies self.signals@.contains_key(k)
                && self.signals@[k] == old(self).triggers()[k] by {
                assert(pre.signals@.contains_key(k));
            }
            assert forall|q: Seq<StorePathSegment>| is_prefix_of(q, path@) implies #[trigger]
                self.signals@.contains_key(q) by {
                let events = write_notify_events(path@);
                let n = q.len() as int;
                assert(events[n + 1] == Seq::new(
                    path@.len() + 1,
                    |m: int| (path@.subrange(0, m), TriggerKind::Children),
                )[n]);
                assert(events[n + 1].0 == path@.subrange(0, n));
                assert(plan@[n + 1].0@ == q);
            }
        }
    }

    /// Applies a structural patch: replaces the whole value by `new` and then
    /// notifies the own trigger of exactly the paths whose subtree actually
    /// differed, in diff order — equal fields and elements notify nothing.
    pub fn patch_value(&mut self, new: StoreValue)
        requires
            old(self).wf(),
        ensures
            final(self).wf(),
            final(self).model() == new@,
            final(self).track_log() == old(self).track_log(),
            final(self).notify_log() == old(self).notify_log() + patch_events(
                old(self).value_tree(),
                new,
            ),
            forall|k: Seq<StorePathSegment>| #[trigger]
                old(self).triggers().contains_key(k) ==> final(self).triggers().contains_key(k)
                    && final(self).triggers()[k] == old(self).triggers()[k],
            forall|k: Seq<StorePathSegment>| #[trigger]
                final(self).triggers().contains_key(k) ==> old(self).triggers().contains_key(k)
                    || diff_paths(
                    old(self).value_tree(),
                    new,
                    Seq::<StorePathSegment>::empty(),
                ).contains(k),
            forall|j: int|
                0 <= j < diff_paths(
                    old(self).value_tree(),
                    new,
                    Seq::<StorePathSegment>::empty(),
                ).len() ==> #[trigger] final(self).triggers().contains_key(
                    diff_paths(old(self).value_tree(), new, Seq::<StorePathSegment>::empty())[j],
                ),
    {
        let root = StorePath::root();
        let mut paths: Vec<StorePath> = Vec::new();
        diff_into(&self.value, &new, &root, &mut paths);
        let ghost diff = diff_paths(
            old(self).value_tree(),
            new,
            Seq::<StorePathSegment>::empty(),
        );
        proof {
            assert(paths@.map_values(|p: StorePath| p@) =~= diff);
        }
        self.value = new;
        let ghost pre = *self;
        let mut i: usize = 0;
        while i < paths.len()
            invariant
                self.wf(),
                i <= paths@.len(),
                paths@.map_values(|p: StorePath| p@) == diff,
                self.value == pre.value,
                self.subscribed == pre.subscribed,
                self.notified@ == pre.notified@ + diff.subrange(0, i as int).map_values(
                    |q: Seq<StorePathSegment>| (q, TriggerKind::This),
                ),
                forall|k: Seq<StorePathSegment>| #[trigger]
                    pre.signals@.contains_key(k) ==> self.signals@.contains_key(k)
                        && self.signals@[k] == pre.signals@[k],
                forall|k: Seq<StorePathSegment>| #[trigger]
                    self.signals@.contains_key(k) ==> pre.signals@.contains_key(k)
                        || diff.contains(k),
                forall|j: int| 0 <= j < i ==> #[trigger] self.signals@.contains_key(diff[j]),
            decreases paths@.len() - i,
        {
            let t = self.signals.get_or_insert(&paths[i]);
            t.notify_this();
            self.notified = Ghost(self.notified@.push((paths@[i as int]@, TriggerKind::This)));
            proof {
                assert(paths@[i as int]@ == diff[i as int]);
                assert(diff.contains(diff[i as int]));
                assert(self.notified@ =~= pre.notified@ + diff.subrange(0, i as int + 1).map_values(
                    |q: Seq<StorePathSegment>| (q, TriggerKind::This),
                ));
            }
            i += 1;
        }
        proof {
            assert(diff.subrange(0, diff.len() as int) =~= diff);
            assert(old(self).triggers() == pre.signals@);
            assert forall|k: Seq<StorePathSegment>| #[trigger]
                old(self).triggers().contains_key(k) implies self.signals@.contains_key(k)
                && self.signals@[k] == old(self).triggers()[k] by {
                assert(pre.signals@.contains_key(k));
            }
        }
    }

    /// Replaces the subtree at `path` without notifying anything: the
    /// untracked write escape hatch.
    pub fn write_at_untracked(&mut self, path: &StorePath, new: StoreValue)
        requires
            old(self).wf(),
        ensures
            final(self).wf(),
            final(self).model() == with_node_at(old(self).model(), path@, new@),
            final(self).triggers() == old(self).triggers(),
            final(self).notify_log() == old(self).notify_log(),
            final(self).track_log() == old(self).track_log(),
    {
        let mut v = StoreValue::Bool(false);
        core::mem::swap(&mut v, &mut self.value);
        proof {
            assert(path@.skip(0) =~= path@);
        }
        let v = with_node(v, path, 0, new);
        self.value = v;
    }

    /// Registers a dependency on the path's own pair of triggers only, as
    /// unkeyed iteration of a collection does: the collection itself is
    /// tracked, its elements are not.
    pub fn track_pair(&mut self, path: &StorePath)
        requires
            old(self).wf(),
        ensures
            final(self).wf(),
            final(self).model() == old(self).model(),
            final(self).notify_log() == old(self).notify_log(),
            final(self).track_log() == old(self).track_log() + crate::store_field::iter_track_events(path@),
            get_or_insert_post(
                old(self).triggers(),
                final(self).triggers(),
                path@,
                final(self).triggers()[path@],
            ),
    {
        let t = self.signals.get_or_insert(path);
        t.track_this();
        t.track_children();
        self.subscribed = Ghost(
            self.subscribed@ + crate::store_field::iter_track_events(path@),
        );
        proof {
            assert(final(self).triggers()[path@] == t);
        }
    }
}

/// A copyable-by-design handle around the reactive root, holding it in a slot
/// with a disposal lifecycle: once the owning scope tears the slot down, every
/// operation on a derived accessor answers with an explicit absence instead of
/// reaching freed state.
pub struct Store {
    inner: Option<ArcStore>,
}

impl Store {
    /// The slot still holds the root.
    pub closed spec fn live(&self) -> bool {
        self.inner is Some
    }

    pub closed spec fn root(&self) -> ArcStore
        recommends
            self.live(),
    {
        self.inner->0
    }

    pub open spec fn model(&self) -> ValueModel
        recommends
            self.live(),
    {
        self.root().model()
    }

    pub open spec fn value_tree(&self) -> StoreValue
        recommends
            self.live(),
    {
        self.root().value_tree()
    }

    pub open spec fn triggers(&self) -> Map<Seq<StorePathSegment>, StoreFieldTrigger>
        recommends
            self.live(),
    {
        self.root().triggers()
    }

    pub open spec fn notify_log(&self) -> Seq<TriggerEvent>
        recommends
            self.live(),
    {
        self.root().notify_log()
    }

    pub open spec fn track_log(&self) -> Seq<TriggerEvent>
        recommends
            self.live(),
    {
        self.root().track_log()
    }

    pub open spec fn wf(&self) -> bool {
        self.live() ==> self.root().wf()
    }

    /// A live store holding `value`.
    pub fn new(value: StoreValue) -> (r: Store)
        ensures
            r.wf(),
            r.live(),
            r.model() == value@,
            r.triggers() == Map::<Seq<StorePathSegment>, StoreFieldTrigger>::empty(),
            r.notify_log() == Seq::<TriggerEvent>::empty(),
            r.track_log() == Seq::<TriggerEvent>::empty(),
    {
        Store { inner: Some(ArcStore::new(value)) }
    }

    /// A live store holding `value` in a thread-local slot. A single-owner
    /// store needs no distinction between thread-local and thread-safe slot
    /// storage, so the two constructors coincide.
    pub fn new_local(value: StoreValue) -> (r: Store)
        ensures
            r.wf(),
            r.live(),
            r.model() == value@,
            r.triggers() == Map::<Seq<StorePathSegment>, StoreFieldTrigger>::empty(),
            r.notify_log() == Seq::<TriggerEvent>::empty(),
            r.track_log() == Seq::<TriggerEvent>::empty(),
    {
        Store::new(value)
    }

    /// Tears the slot down, as the owning scope's cleanup does. Every later
    /// operation through this handle answers with absence.
    pub fn dispose(&mut self)
        ensures
            !final(self).live(),
            final(self).wf(),
    {
        self.inner = None;
    }

    pub fn is_disposed(&self) -> (r: bool)
        ensures
            r == !self.live(),
    {
        self.inner.is_none()
    }

    /// Reads the whole value without tracking, or answers absence once the
    /// slot was torn down.
    pub fn try_read_untracked(&self) -> (r: Option<&StoreValue>)
        ensures
            match r {
                Some(v) => self.live() && v@ == self.model(),
                None => !self.live(),
            },
    {
        match &self.inner {
            Some(st) => st.try_read_untracked(),
            None => None,
        }
    }

    /// Registers a dependency on the root path's trigger without reading.
    /// Does nothing once the slot was torn down.
    pub fn track(&mut self)
        requires
            old(self).wf(),
        ensures
            final(self).wf(),
            final(self).live() == old(self).live(),
            !old(self).live() ==> *final(self) == *old(self),
            old(self).live() ==> {
                &&& final(self).model() == old(self).model()
                &&& final(self).notify_log() == old(self).notify_log()
                &&& final(self).track_log() == old(self).track_log() + read_track_events(
                    Seq::<StorePathSegment>::empty(),
                )
                &&& triggers_extended_by_prefixes(
                    old(self).triggers(),
                    final(self).triggers(),
                    Seq::<StorePathSegment>::empty(),
                )
            },
    {
        match self.inner.take() {
            Some(mut st) => {
                st.track();
                self.inner = Some(st);
            },
            None => {},
        }
    }

    /// Fires the root path's own trigger: the whole store was replaced from
    /// outside. Does nothing once the slot was torn down.
    pub fn notify(&mut self)
        requires
            old(self).wf(),
        ensures
            final(self).wf(),
            final(self).live() == old(self).live(),
            !old(self).live() ==> *final(self) == *old(self),
            old(self).live() ==> {
                &&& final(self).model() == old(self).model()
                &&& final(self).track_log() == old(self).track_log()
                &&& final(self).notify_log() == old(self).notify_log().push(
                    (Seq::<StorePathSegment>::empty(), TriggerKind::This),
                )
            },
    {
        match self.inner.take() {
            Some(mut st) => {
                st.notify();
                self.inner = Some(st);
            },
            None => {},
        }
    }

    /// Resolves the trigger pair for the location `acc` denotes, or answers
    /// absence once the slot was torn down.
    pub fn get_trigger<A: StoreField>(&mut self, acc: &A) -> (r: Option<StoreFieldTrigger>)
        requires
            old(self).wf(),
        ensures
            final(self).wf(),
            final(self).live() == old(self).live(),
            !old(self).live() ==> r is None && *final(self) == *old(self),
            old(self).live() ==> match r {
                Some(t) => {
                    &&& get_or_insert_post(
                        old(self).triggers(),
                        final(self).triggers(),
                        acc.path_spec(),
                        t,
                    )
                    &&& final(self).model() == old(self).model()
                    &&& final(self).notify_log() == old(self).notify_log()
                    &&& final(self).track_log() == old(self).track_log()
                },
                None => false,
            },
    {
        match self.inner.take() {
            Some(mut st) => {
                let path = acc.path();
                let t = st.get_trigger(&path);
                self.inner = Some(st);
                Some(t)
            },
            None => None,
        }
    }

    /// Borrows the node the accessor denotes, without tracking, or answers
    /// absence once the slot was torn down.
    pub fn reader<A: StoreField>(&self, acc: &A) -> (r: Option<&StoreValue>)
        requires
            self.live() ==> path_valid(self.model(), acc.path_spec()),
        ensures
            match r {
                Some(n) => self.live() && Some(n@) == node_at(self.model(), acc.path_spec()),
                None => !self.live(),
            },
    {
        match &self.inner {
            Some(st) => {
                let path = acc.path();
                match st.try_read_untracked() {
                    Some(v) => node_ref(v, &path),
                    None => None,
                }
            },
            None => None,
        }
    }

    /// Replaces the subtree the accessor denotes and delivers the write's
    /// notifications — the node's own trigger and every ancestor's subtree
    /// trigger — or answers absence, with no mutation and no notification,
    /// once the slot was torn down.
    pub fn writer<A: StoreField>(&mut self, acc: &A, new: StoreValue) -> (r: Option<()>)
        requires
            old(self).wf(),
            old(self).live() ==> path_valid(old(self).model(), acc.path_spec()),
        ensures
            final(self).wf(),
            final(self).live() == old(self).live(),
            !old(self).live() ==> r is None && *final(self) == *old(self),
            old(self).live() ==> {
                &&& r is Some
                &&& final(self).model() == with_node_at(
                    old(self).model(),
                    acc.path_spec(),
                    new@,
                )
                &&& final(self).notify_log() == old(self).notify_log() + write_notify_events(
                    acc.path_spec(),
                )
                &&& final(self).track_log() == old(self).track_log()
                &&& triggers_extended_by_prefixes(
                    old(self).triggers(),
                    final(self).triggers(),
                    acc.path_spec(),
                )
            },
    {
        match self.inner.take() {
            Some(mut st) => {
                let path = acc.path();
                st.write_at(&path, new);
                self.inner = Some(st);
                Some(())
            },
            None => None,
        }
    }

    /// Replaces the subtree the accessor denotes without notifying anything:
    /// the untracked write escape hatch.
    pub fn write_untracked<A: StoreField>(&mut self, acc: &A, new: StoreValue) -> (r: Option<()>)
        requires
            old(self).wf(),
            old(self).live() ==> path_valid(old(self).model(), acc.path_spec()),
        ensures
            final(self).wf(),
            final(self).live() == old(self).live(),
            !old(self).live() ==> r is None && *final(self) == *old(self),
            old(self).live() ==> {
                &&& r is Some
                &&& final(self).model() == with_node_at(
                    old(self).model(),
                    acc.path_spec(),
                    new@,
                )
                &&& final(self).notify_log() == old(self).notify_log()
                &&& final(self).track_log() == old(self).track_log()
                &&& final(self).triggers() == old(self).triggers()
            },
    {
        match self.inner.take() {
            Some(mut st) => {
                let path = acc.path();
                st.write_at_untracked(&path, new);
                self.inner = Some(st);
                Some(())
            },
            None => None,
        }
    }

    /// Registers a dependency on the accessor's path — its own pair of
    /// triggers and every ancestor's own trigger — as reading it does. Does
    /// nothing once the slot was torn down.
    pub fn track_field<A: StoreField>(&mut self, acc: &A)
        requires
            old(self).wf(),
        ensures
            final(self).wf(),
            final(self).live() == old(self).live(),
            !old(self).live() ==> *final(self) == *old(self),
            old(self).live() ==> {
                &&& final(self).model() == old(self).model()
                &&& final(self).notify_log() == old(self).notify_log()
                &&& final(self).track_log() == old(self).track_log() + read_track_events(
                    acc.path_spec(),
                )
                &&& triggers_extended_by_prefixes(
                    old(self).triggers(),
                    final(self).triggers(),
                    acc.path_spec(),
                )
            },
    {
        match self.inner.take() {
            Some(mut st) => {
                let path = acc.path();
                st.track_path(&path);
                self.inner = Some(st);
            },
            None => {},
        }
    }

    /// Fires the own trigger of the accessor's path without writing. Does
    /// nothing once the slot was torn down.
    pub fn notify_field<A: StoreField>(&mut self, acc: &A)
        requires
            old(self).wf(),
        ensures
            final(self).wf(),
            final(self).live() == old(self).live(),
            !old(self).live() ==> *final(self) == *old(self),
            old(self).live() ==> {
                &&& final(self).model() == old(self).model()
                &&& final(self).track_log() == old(self).track_log()
                &&& final(self).notify_log() == old(self).notify_log().push(
                    (acc.path_spec(), TriggerKind::This),
                )
                &&& get_or_insert_post(
                    old(self).triggers(),
                    final(self).triggers(),
                    acc.path_spec(),
                    final(self).triggers()[acc.path_spec()],
                )
            },
    {
        match self.inner.take() {
            Some(mut st) => {
                let path = acc.path();
                st.notify_path(&path);
                self.inner = Some(st);
            },
            None => {},
        }
    }

    /// Subscribes to the collection's own pair of triggers and snapshots its
    /// current length with an untracked read: the two steps that set up an
    /// unkeyed iteration. A torn-down slot yields length zero and no
    /// subscription.
    pub fn snapshot_collection_len(&mut self, path: &StorePath) -> (r: usize)
        requires
            old(self).wf(),
        ensures
            final(self).wf(),
            final(self).live() == old(self).live(),
            !old(self).live() ==> *final(self) == *old(self) && r == 0,
            old(self).live() ==> {
                &&& r == crate::iter::collection_len(old(self).model(), path@)
                &&& final(self).model() == old(self).model()
                &&& final(self).notify_log() == old(self).notify_log()
                &&& final(self).track_log() == old(self).track_log()
                    + crate::store_field::iter_track_events(path@)
                &&& get_or_insert_post(
                    old(self).triggers(),
                    final(self).triggers(),
                    path@,
                    final(self).triggers()[path@],
                )
            },
    {
        match self.inner.take() {
            Some(mut st) => {
                st.track_pair(path);
                let len: usize = match st.try_read_untracked() {
                    Some(v) => {
                        match node_ref(v, path) {
                            Some(n) => {
                                match n {
                                    StoreValue::List(items) => items.len(),
                                    _ => 0,
                                }
                            },
                            None => 0,
                        }
                    },
                    None => 0,
                };
                self.inner = Some(st);
                len
            },
            None => 0,
        }
    }

    /// A tracked read: registers the read's dependencies, then borrows the
    /// node the accessor denotes; absence once the slot was torn down.
    pub fn read<A: StoreField>(&mut self, acc: &A) -> (r: Option<&StoreValue>)
        requires
            old(self).wf(),
            old(self).live() ==> path_valid(old(self).model(), acc.path_spec()),
        ensures
            final(self).wf(),
            final(self).live() == old(self).live(),
            !old(self).live() ==> r is None && *final(self) == *old(self),
            old(self).live() ==> {
                &&& match r {
                    Some(n) => Some(n@) == node_at(old(self).model(), acc.path_spec()),
                    None => false,
                }
                &&& final(self).model() == old(self).model()
                &&& final(self).notify_log() == old(self).notify_log()
                &&& final(self).track_log() == old(self).track_log() + read_track_events(
                    acc.path_spec(),
                )
                &&& triggers_extended_by_prefixes(
                    old(self).triggers(),
                    final(self).triggers(),
                    acc.path_spec(),
                )
            },
    {
        self.track_field(acc);
        self.reader(acc)
    }

    /// Applies a structural patch: replaces the held value by `new` and
    /// notifies the own trigger of exactly the paths whose subtree actually
    /// differed — a patch to an identical value notifies nothing. Answers
    /// absence, with no mutation and no notification, once the slot was torn
    /// down.
    pub fn patch(&mut self, new: StoreValue) -> (r: Option<()>)
        requires
            old(self).wf(),
        ensures
            final(self).wf(),
            final(self).live() == old(self).live(),
            !old(self).live() ==> r is None && *final(self) == *old(self),
            old(self).live() ==> {
                &&& r is Some
                &&& final(self).model() == new@
                &&& final(self).track_log() == old(self).track_log()
                &&& final(self).notify_log() == old(self).notify_log() + patch_events(
                    old(self).value_tree(),
                    new,
                )
                &&& forall|j: int|
                    0 <= j < diff_paths(
                        old(self).value_tree(),
                        new,
                        Seq::<StorePathSegment>::empty(),
                    ).len() ==> #[trigger] final(self).triggers().contains_key(
                        diff_paths(
                            old(self).value_tree(),
                            new,
                            Seq::<StorePathSegment>::empty(),
                        )[j],
                    )
            },
    {
        match self.inner.take() {
            Some(mut st) => {
                st.patch_value(new);
                self.inner = Some(st);
                Some(())
            },
            None => None,
        }
    }
}

} // verus!
