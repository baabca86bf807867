use crate::path::{StorePath, StorePathSegment};
use reactive_graph::signal::ArcTrigger;
use vstd::prelude::*;

verus! {

/// The notification primitive of the reactive runtime. A value of this type is
/// a shared handle: clones name the same underlying trigger, and the spec
/// value of a handle stands for that trigger, so handle equality in contracts
/// means "the same trigger".
#[verifier::external_type_specification]
#[verifier::external_body]
pub struct ExArcTrigger(ArcTrigger);

/// Relies on reactive_graph::signal::ArcTrigger::new: allocates a fresh
/// trigger with an empty subscriber set.
#[verifier::external_body]
fn arc_trigger_new() -> ArcTrigger {
    ArcTrigger::new()
}

/// Relies on <ArcTrigger as Clone>::clone: the clone shares the original's
/// subscriber set, so it is a handle to the same trigger.
#[verifier::external_body]
fn arc_trigger_clone(t: &ArcTrigger) -> (r: ArcTrigger)
    ensures
        r == *t,
{
    t.clone()
}

/// Relies on reactive_graph's Notify impl for ArcTrigger: marks the trigger's
/// subscribers dirty, scheduling them for re-evaluation.
#[verifier::external_body]
pub(crate) fn arc_trigger_notify(t: &ArcTrigger) {
    reactive_graph::traits::Notify::notify(t)
}

/// Relies on reactive_graph's Track impl for ArcTrigger: registers the trigger
/// as a dependency of the ambient reactive observer, if one is running.
#[verifier::external_body]
pub(crate) fn arc_trigger_track(t: &ArcTrigger) {
    reactive_graph::traits::Track::track(t)
}

/// The pair of triggers kept for one path: `this` fires on direct mutation or
/// replacement of the exact path, `children` fires when something rooted below
/// the path changes.
pub struct StoreFieldTrigger {
    pub this: ArcTrigger,
    pub children: ArcTrigger,
}

impl StoreFieldTrigger {
    /// A second handle to the same pair of triggers.
    pub fn duplicate(&self) -> (r: StoreFieldTrigger)
        ensures
            r == *self,
    {
        StoreFieldTrigger {
            this: arc_trigger_clone(&self.this),
            children: arc_trigger_clone(&self.children),
        }
    }

    /// Notifies the path's own trigger.
    pub fn notify_this(&self) {
        arc_trigger_notify(&self.this);
    }

    /// Notifies the path's subtree trigger.
    pub fn notify_children(&self) {
        arc_trigger_notify(&self.children);
    }

    /// Tracks the path's own trigger with the ambient observer.
    pub fn track_this(&self) {
        arc_trigger_track(&self.this);
    }

    /// Tracks the path's subtree trigger with the ambient observer.
    pub fn track_children(&self) {
        arc_trigger_track(&self.children);
    }
}

/// Lazily maps each path to the one pair of triggers allocated for it.
pub struct TriggerMap {
    entries: Vec<(StorePath, StoreFieldTrigger)>,
}

/// The mapping that a sequence of entries denotes; later entries shadow
/// earlier ones, though a well-formed map never holds a key twice.
pub open spec fn map_of(s: Seq<(StorePath, StoreFieldTrigger)>) -> Map<
    Seq<StorePathSegment>,
    StoreFieldTrigger,
>
    decreases s.len(),
{
    if s.len() == 0 {
        Map::empty()
    } else {
        map_of(s.drop_last()).insert(s.last().0@, s.last().1)
    }
}

impl View for TriggerMap {
    type V = Map<Seq<StorePathSegment>, StoreFieldTrigger>;

    closed spec fn view(&self) -> Map<Seq<StorePathSegment>, StoreFieldTrigger> {
        map_of(self.entries@)
    }
}

proof fn lemma_map_of_domain(s: Seq<(StorePath, StoreFieldTrigger)>)
    ensures
        forall|k: Seq<StorePathSegment>|
            map_of(s).contains_key(k) <==> exists|i: int| 0 <= i < s.len() && s[i].0@ == k,
    decreases s.len(),
{
    if s.len() > 0 {
        lemma_map_of_domain(s.drop_last());
        assert forall|k: Seq<StorePathSegment>|
            map_of(s).contains_key(k) implies exists|i: int|
            0 <= i < s.len() && s[i].0@ == k by {
            if k == s.last().0@ {
                assert(s[s.len() - 1].0@ == k);
            } else {
                assert(map_of(s.drop_last()).contains_key(k));
                let i = choose|i: int| 0 <= i < s.drop_last().len() && s.drop_last()[i].0@ == k;
                assert(s.drop_last()[i] == s[i]);
                assert(s[i].0@ == k);
            }
        }
        assert forall|k: Seq<StorePathSegment>|
            (exists|i: int| 0 <= i < s.len() && s[i].0@ == k) implies map_of(s).contains_key(
            k,
        ) by {
            let i = choose|i: int| 0 <= i < s.len() && s[i].0@ == k;
            if i < s.len() - 1 {
                assert(s.drop_last()[i] == s[i]);
                assert(s.drop_last()[i].0@ == k);
                assert(map_of(s.drop_last()).contains_key(k));
            }
        }
    }
}

proof fn lemma_map_of_index(s: Seq<(StorePath, StoreFieldTrigger)>, i: int)
    requires
        0 <= i < s.len(),
        forall|j: int, l: int| 0 <= j < l < s.len() ==> s[j].0@ != s[l].0@,
    ensures
        map_of(s).contains_key(s[i].0@),
        map_of(s)[s[i].0@] == s[i].1,
    decreases s.len(),
{
    if i == s.len() - 1 {
    } else {
        lemma_map_of_index(s.drop_last(), i);
        assert(s.drop_last()[i] == s[i]);
        assert(s[i].0@ != s.last().0@);
    }
}

impl TriggerMap {
    /// Every path holds at most one entry.
    pub closed spec fn wf(&self) -> bool {
        forall|j: int, l: int|
            0 <= j < l < self.entries@.len() ==> self.entries@[j].0@ != self.entries@[l].0@
    }

    /// An empty trigger map.
    pub fn new() -> (r: TriggerMap)
        ensures
            r.wf(),
            r@ == Map::<Seq<StorePathSegment>, StoreFieldTrigger>::empty(),
    {
        TriggerMap { entries: Vec::new() }
    }

    /// Resolves the trigger pair for an exact path: the first call for a path
    /// creates it, every later call for an equal path hands back the same
    /// pair. Insertion cannot fail; the operation is total.
    pub fn get_or_insert(&mut self, path: &StorePath) -> (r: StoreFieldTrigger)
        requires
            old(self).wf(),
        ensures
            final(self).wf(),
            final(self)@ == old(self)@.insert(path@, r),
            old(self)@.contains_key(path@) ==> r == old(self)@[path@] && final(self)@ == old(
                self,
            )@,
            final(self)@.dom() == old(self)@.dom().insert(path@),
    {
        let mut i: usize = 0;
        while i < self.entries.len()
            invariant
                self.wf(),
                i <= self.entries@.len(),
                forall|j: int| 0 <= j < i ==> self.entries@[j].0@ != path@,
            decreases self.entries@.len() - i,
        {
            if self.entries[i].0.eq_path(path) {
                let r = self.entries[i].1.duplicate();
                proof {
                    lemma_map_of_index(self.entries@, i as int);
                    assert(self@.insert(path@, r) =~= self@);
                    assert(self@.dom().insert(path@) =~= self@.dom());
                }
                return r;
            }
            i += 1;
        }
        proof {
            lemma_map_of_domain(self.entries@);
            assert(!self@.contains_key(path@));
        }
        let fresh = StoreFieldTrigger { this: arc_trigger_new(), children: arc_trigger_new() };
        let r = fresh.duplicate();
        let ghost pre = self.entries@;
        self.entries.push((path.duplicate(), fresh));
        proof {
            assert(self.entries@.drop_last() =~= pre);
            assert(map_of(self.entries@) == map_of(pre).insert(path@, r));
            assert(self@.dom() =~= map_of(pre).dom().insert(path@));
        }
        r
    }

    /// Drops the entry for a path, handing back its trigger pair. Present for
    /// completeness; the core flow never removes entries.
    pub fn remove(&mut self, path: &StorePath) -> (r: Option<StoreFieldTrigger>)
        requires
            old(self).wf(),
        ensures
            final(self).wf(),
            final(self)@ == old(self)@.remove(path@),
            match r {
                Some(t) => old(self)@.contains_key(path@) && t == old(self)@[path@],
                None => !old(self)@.contains_key(path@),
            },
    {
        let mut i: usize = 0;
        while i < self.entries.len()
            invariant
                *self == *old(self),
                self.wf(),
                i <= self.entries@.len(),
                forall|j: int| 0 <= j < i ==> self.entries@[j].0@ != path@,
            decreases self.entries@.len() - i,
        {
            if self.entries[i].0.eq_path(path) {
                proof {
                    lemma_map_of_index(self.entries@, i as int);
                    lemma_map_of_domain(self.entries@);
                }
                let ghost pre = self.entries@;
                let (_, t) = self.entries.remove(i);
                proof {
                    lemma_map_of_domain(self.entries@);
                    assert forall|k: int, l: int|
                        0 <= k < l < self.entries@.len() implies self.entries@[k].0@
                        != self.entries@[l].0@ by {
                        if l < i {
                            assert(pre[k].0@ != pre[l].0@);
                        } else if k < i {
                            assert(pre[k].0@ != pre[l + 1].0@);
                        } else {
                            assert(pre[k + 1].0@ != pre[l + 1].0@);
                        }
                    }
                    lemma_remove_entry(pre, self.entries@, i as int, path@);
                }
                return Some(t);
            }
            i += 1;
        }
        proof {
            lemma_map_of_domain(self.entries@);
            assert(self@.remove(path@) =~= self@);
        }
        None
    }
}

proof fn lemma_remove_entry(
    pre: Seq<(StorePath, StoreFieldTrigger)>,
    post: Seq<(StorePath, StoreFieldTrigger)>,
    i: int,
    key: Seq<StorePathSegment>,
)
    requires
        0 <= i < pre.len(),
        pre[i].0@ == key,
        post == pre.remove(i),
        forall|j: int, l: int| 0 <= j < l < pre.len() ==> pre[j].0@ != pre[l].0@,
        forall|j: int, l: int| 0 <= j < l < post.len() ==> post[j].0@ != post[l].0@,
    ensures
        map_of(post) == map_of(pre).remove(key),
{
    lemma_map_of_domain(pre);
    lemma_map_of_domain(post);
    assert forall|k: Seq<StorePathSegment>|
        map_of(post).contains_key(k) implies map_of(pre).remove(key).contains_key(k) by {
        let j = choose|j: int| 0 <= j < post.len() && post[j].0@ == k;
        if j < i {
            assert(pre[j].0@ == k);
        } else {
            assert(pre[j + 1].0@ == k);
        }
    }
    assert forall|k: Seq<StorePathSegment>|
        map_of(pre).remove(key).contains_key(k) implies map_of(post).contains_key(k) by {
        let j = choose|j: int| 0 <= j < pre.len() && pre[j].0@ == k;
        if j < i {
            assert(post[j].0@ == k);
        } else {
            assert(post[j - 1].0@ == k);
        }
    }
    assert forall|k: Seq<StorePathSegment>| #[trigger]
        map_of(post).contains_key(k) implies map_of(post)[k] == map_of(pre).remove(key)[k] by {
        let j = choose|j: int| 0 <= j < post.len() && post[j].0@ == k;
        lemma_map_of_index(post, j);
        if j < i {
            lemma_map_of_index(pre, j);
            assert(pre[j] == post[j]);
        } else {
            lemma_map_of_index(pre, j + 1);
            assert(pre[j + 1] == post[j]);
        }
    }
    assert(map_of(post) =~= map_of(pre).remove(key));
}

/// What one `get_or_insert` call promises: the map after, and the trigger pair
/// handed back.
pub open spec fn get_or_insert_post(
    pre: Map<Seq<StorePathSegment>, StoreFieldTrigger>,
    post: Map<Seq<StorePathSegment>, StoreFieldTrigger>,
    path: Seq<StorePathSegment>,
    r: StoreFieldTrigger,
) -> bool {
    post == pre.insert(path, r) && (pre.contains_key(path) ==> r == pre[path])
}

/// Path-trigger identity: two trigger resolutions against one map, for equal
/// paths, hand back the same trigger pair — notifying through one handle
/// notifies subscribers of the other.
pub proof fn lemma_path_trigger_identity(
    m0: Map<Seq<StorePathSegment>, StoreFieldTrigger>,
    m1: Map<Seq<StorePathSegment>, StoreFieldTrigger>,
    m2: Map<Seq<StorePathSegment>, StoreFieldTrigger>,
    a: Seq<StorePathSegment>,
    b: Seq<StorePathSegment>,
    r1: StoreFieldTrigger,
    r2: StoreFieldTrigger,
)
    requires
        get_or_insert_post(m0, m1, a, r1),
        get_or_insert_post(m1, m2, b, r2),
        a == b,
    ensures
        r1 == r2,
        m2 == m1,
{
    assert(m1.contains_key(b));
    assert(r2 == m1[b]);
    assert(m2 =~= m1);
}

} // verus!
