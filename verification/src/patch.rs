use crate::path::{is_prefix_of, StorePath, StorePathSegment};
use crate::store_field::TriggerKind;
use crate::value::{node_at, StoreValue};
use vstd::prelude::*;

verus! {

/// The notifications one patch delivers, in order: the own trigger of each
/// differing path.
pub open spec fn patch_events(a: StoreValue, b: StoreValue) -> Seq<
    (Seq<StorePathSegment>, TriggerKind),
> {
    diff_paths(a, b, Seq::<StorePathSegment>::empty()).map_values(
        |q: Seq<StorePathSegment>| (q, TriggerKind::This),
    )
}

/// The paths at which `a` and `b` differ, each extending `prefix`, in the
/// order a patch notifies them: inside a collection or record, element
/// differences in ascending index order; a collection whose length changed
/// contributes its own path after its elements; leaves and values of different
/// shapes contribute their own path. Equal subtrees contribute nothing.
pub open spec fn diff_paths(a: StoreValue, b: StoreValue, prefix: Seq<StorePathSegment>) -> Seq<
    Seq<StorePathSegment>,
>
    decreases a, 1nat,
{
    match a {
        StoreValue::Bool(x) => match b {
            StoreValue::Bool(y) => if x == y {
                Seq::empty()
            } else {
                seq![prefix]
            },
            _ => seq![prefix],
        },
        StoreValue::Text(x) => match b {
            StoreValue::Text(y) => if x@ == y@ {
                Seq::empty()
            } else {
                seq![prefix]
            },
            _ => seq![prefix],
        },
        StoreValue::List(xs) => match b {
            StoreValue::List(ys) => diff_children(xs@, ys@, prefix, 0) + if xs@.len()
                == ys@.len() {
                Seq::empty()
            } else {
                seq![prefix]
            },
            _ => seq![prefix],
        },
        StoreValue::Record(xs) => match b {
            StoreValue::Record(ys) => diff_children(xs@, ys@, prefix, 0) + if xs@.len()
                == ys@.len() {
                Seq::empty()
            } else {
                seq![prefix]
            },
            _ => seq![prefix],
        },
    }
}

/// The differing paths contributed by the elements shared between two
/// collections, from position `i` on.
pub open spec fn diff_children(
    xs: Seq<StoreValue>,
    ys: Seq<StoreValue>,
    prefix: Seq<StorePathSegment>,
    i: int,
) -> Seq<Seq<StorePathSegment>>
    decreases xs, (if 0 <= i <= xs.len() { xs.len() - i } else { 0 }),
{
    if 0 <= i < xs.len() && i < ys.len() {
        diff_paths(xs[i], ys[i], prefix.push(StorePathSegment(i as usize))) + diff_children(
            xs,
            ys,
            prefix,
            i + 1,
        )
    } else {
        Seq::empty()
    }
}

/// Collects into `out` the paths at which `a` and `b` differ, prefixed with
/// `prefix`, in notification order.
pub fn diff_into(a: &StoreValue, b: &StoreValue, prefix: &StorePath, out: &mut Vec<StorePath>)
    ensures
        final(out)@.map_values(|p: StorePath| p@) == old(out)@.map_values(|p: StorePath| p@)
            + diff_paths(*a, *b, prefix@),
    decreases a,
{
    let ghost base = out@.map_values(|p: StorePath| p@);
    match a {
        StoreValue::Bool(x) => {
            match b {
                StoreValue::Bool(y) => {
                    if *x != *y {
                        out.push(prefix.duplicate());
                        proof {
                            assert(out@.map_values(|p: StorePath| p@) =~= base + diff_paths(
                                *a,
                                *b,
                                prefix@,
                            ));
                        }
                    } else {
                        proof {
                            assert(base + diff_paths(*a, *b, prefix@) =~= base);
                        }
                    }
                },
                _ => {
                    out.push(prefix.duplicate());
                    proof {
                        assert(out@.map_values(|p: StorePath| p@) =~= base + diff_paths(
                            *a,
                            *b,
                            prefix@,
                        ));
                    }
                },
            }
        },
        StoreValue::Text(x) => {
            match b {
                StoreValue::Text(y) => {
                    if !(*x == *y) {
                        out.push(prefix.duplicate());
                        proof {
                            assert(out@.map_values(|p: StorePath| p@) =~= base + diff_paths(
                                *a,
                                *b,
                                prefix@,
                            ));
                        }
                    } else {
                        proof {
                            assert(base + diff_paths(*a, *b, prefix@) =~= base);
                        }
                    }
                },
                _ => {
                    out.push(prefix.duplicate());
                    proof {
                        assert(out@.map_values(|p: StorePath| p@) =~= base + diff_paths(
                            *a,
                            *b,
                            prefix@,
                        ));
                    }
                },
            }
        },
        StoreValue::List(xs) => {
            match b {
                StoreValue::List(ys) => {
                    diff_shared_elements(xs, ys, prefix, out);
                    let ghost mid = out@.map_values(|p: StorePath| p@);
                    proof {
                        assert(*a == StoreValue::List(*xs));
                        assert(*b == StoreValue::List(*ys));
                    }
                    if xs.len() != ys.len() {
                        out.push(prefix.duplicate());
                        proof {
                            assert(out@.map_values(|p: StorePath| p@) =~= mid.push(prefix@));
                            assert(mid.push(prefix@) =~= base + diff_paths(*a, *b, prefix@));
                        }
                    } else {
                        proof {
                            assert(mid =~= base + diff_paths(*a, *b, prefix@));
                        }
                    }
                },
                _ => {
                    out.push(prefix.duplicate());
                    proof {
                        assert(out@.map_values(|p: StorePath| p@) =~= base + diff_paths(
                            *a,
                            *b,
                            prefix@,
                        ));
                    }
                },
            }
        },
        StoreValue::Record(xs) => {
            match b {
                StoreValue::Record(ys) => {
                    diff_shared_elements(xs, ys, prefix, out);
                    let ghost mid = out@.map_values(|p: StorePath| p@);
                    proof {
                        assert(*a == StoreValue::Record(*xs));
                        assert(*b == StoreValue::Record(*ys));
                    }
                    if xs.len() != ys.len() {
                        out.push(prefix.duplicate());
                        proof {
                            assert(out@.map_values(|p: StorePath| p@) =~= mid.push(prefix@));
                            assert(mid.push(prefix@) =~= base + diff_paths(*a, *b, prefix@));
                        }
                    } else {
                        proof {
                            assert(mid =~= base + diff_paths(*a, *b, prefix@));
                        }
                    }
                },
                _ => {
                    out.push(prefix.duplicate());
                    proof {
                        assert(out@.map_values(|p: StorePath| p@) =~= base + diff_paths(
                            *a,
                            *b,
                            prefix@,
                        ));
                    }
                },
            }
        },
    }
}

/// Collects the differing paths of the elements two collections share.
fn diff_shared_elements(
    xs: &Vec<StoreValue>,
    ys: &Vec<StoreValue>,
    prefix: &StorePath,
    out: &mut Vec<StorePath>,
)
    ensures
        final(out)@.map_values(|p: StorePath| p@) == old(out)@.map_values(|p: StorePath| p@)
            + diff_children(xs@, ys@, prefix@, 0),
    decreases xs,
{
    let ghost base = out@.map_values(|p: StorePath| p@);
    let mut i: usize = 0;
    while i < xs.len() && i < ys.len()
        invariant
            i <= xs@.len(),
            i <= ys@.len(),
            base + diff_children(xs@, ys@, prefix@, 0) == out@.map_values(|p: StorePath| p@)
                + diff_children(xs@, ys@, prefix@, i as int),
        decreases xs@.len() - i,
    {
        let mut child = prefix.duplicate();
        child.push(StorePathSegment(i));
        proof {
            assert(decreases_to!(*xs => xs@));
            assert(decreases_to!(xs@ => xs@[i as int]));
        }
        diff_into(&xs[i], &ys[i], &child, out);
        proof {
            assert(base + diff_children(xs@, ys@, prefix@, 0) =~= out@.map_values(
                |p: StorePath| p@,
            ) + diff_children(xs@, ys@, prefix@, i as int + 1));
        }
        i += 1;
    }
    proof {
        assert(diff_children(xs@, ys@, prefix@, i as int) =~= Seq::<Seq<StorePathSegment>>::empty());
        assert(out@.map_values(|p: StorePath| p@) =~= base + diff_children(xs@, ys@, prefix@, 0));
    }
}

/// What patch minimality asserts of one notified path `p`: it extends the
/// patched prefix, and the old and new subtrees at it differ.
pub open spec fn diff_entry_sound(
    a: StoreValue,
    b: StoreValue,
    prefix: Seq<StorePathSegment>,
    p: Seq<StorePathSegment>,
) -> bool {
    &&& is_prefix_of(prefix, p)
    &&& node_at(a@, p.skip(prefix.len() as int)) != node_at(b@, p.skip(prefix.len() as int))
}

/// What the same assertion looks like for a path contributed by the shared
/// elements of two collections: some shared position `k` owns the path.
pub open spec fn child_entry_sound(
    xs: Seq<StoreValue>,
    ys: Seq<StoreValue>,
    prefix: Seq<StorePathSegment>,
    i: int,
    p: Seq<StorePathSegment>,
) -> bool {
    exists|k: int|
        i <= k < xs.len() && k < ys.len() && is_prefix_of(
            prefix.push(StorePathSegment(k as usize)),
            p,
        ) && node_at(xs[k]@, p.skip(prefix.len() as int + 1)) != node_at(
            ys[k]@,
            p.skip(prefix.len() as int + 1),
        )
}

/// Patch minimality: every path a patch notifies lies under the patched
/// prefix, and the subtree there actually differs between the old and the new
/// value — triggers of equal fields and elements are never notified.
pub proof fn lemma_diff_sound(a: StoreValue, b: StoreValue, prefix: Seq<StorePathSegment>)
    ensures
        forall|j: int|
            0 <= j < diff_paths(a, b, prefix).len() ==> diff_entry_sound(
                a,
                b,
                prefix,
                #[trigger] diff_paths(a, b, prefix)[j],
            ),
    decreases a, 1nat,
{
    let diff = diff_paths(a, b, prefix);
    assert(prefix.subrange(0, prefix.len() as int) =~= prefix);
    assert(prefix.skip(prefix.len() as int) =~= Seq::<StorePathSegment>::empty());
    match a {
        StoreValue::Bool(_) => {},
        StoreValue::Text(_) => {},
        StoreValue::List(xs) => {
            match b {
                StoreValue::List(ys) => {
                    assert(xs.len() == xs@.len());
                    lemma_diff_children_sound(xs@, ys@, prefix, 0);
                    let dc = diff_children(xs@, ys@, prefix, 0);
                    assert forall|j: int| 0 <= j < diff.len() implies diff_entry_sound(
                        a,
                        b,
                        prefix,
                        diff[j],
                    ) by {
                        if j < dc.len() {
                            let p = diff[j];
                            assert(p == dc[j]);
                            assert(child_entry_sound(xs@, ys@, prefix, 0, p));
                            let k = choose|k: int|
                                0 <= k < xs@.len() && k < ys@.len() && is_prefix_of(
                                    prefix.push(StorePathSegment(k as usize)),
                                    p,
                                ) && node_at(xs@[k]@, p.skip(prefix.len() as int + 1)) != node_at(
                                    ys@[k]@,
                                    p.skip(prefix.len() as int + 1),
                                );
                            lemma_lift_child_entry(a, b, xs@, ys@, prefix, p, k);
                        } else {
                            assert(diff[j] == prefix);
                            assert(a@->List_0.len() == xs@.len());
                            assert(b@->List_0.len() == ys@.len());
                        }
                    }
                },
                _ => {},
            }
        },
        StoreValue::Record(xs) => {
            match b {
                StoreValue::Record(ys) => {
                    assert(xs.len() == xs@.len());
                    lemma_diff_children_sound(xs@, ys@, prefix, 0);
                    let dc = diff_children(xs@, ys@, prefix, 0);
                    assert forall|j: int| 0 <= j < diff.len() implies diff_entry_sound(
                        a,
                        b,
                        prefix,
                        diff[j],
                    ) by {
                        if j < dc.len() {
                            let p = diff[j];
                            assert(p == dc[j]);
                            assert(child_entry_sound(xs@, ys@, prefix, 0, p));
                            let k = choose|k: int|
                                0 <= k < xs@.len() && k < ys@.len() && is_prefix_of(
                                    prefix.push(StorePathSegment(k as usize)),
                                    p,
                                ) && node_at(xs@[k]@, p.skip(prefix.len() as int + 1)) != node_at(
                                    ys@[k]@,
                                    p.skip(prefix.len() as int + 1),
                                );
                            lemma_lift_child_entry(a, b, xs@, ys@, prefix, p, k);
                        } else {
                            assert(diff[j] == prefix);
                            assert(a@->Record_0.len() == xs@.len());
                            assert(b@->Record_0.len() == ys@.len());
                        }
                    }
                },
                _ => {},
            }
        },
    }
}


/// Lifts a differing path of a shared element `k` to the enclosing collection
/// or record value.
proof fn lemma_lift_child_entry(
    a: StoreValue,
    b: StoreValue,
    xs: Seq<StoreValue>,
    ys: Seq<StoreValue>,
    prefix: Seq<StorePathSegment>,
    p: Seq<StorePathSegment>,
    k: int,
)
    requires
        a is List && a->List_0@ == xs && b is List && b->List_0@ == ys || a is Record
            && a->Record_0@ == xs && b is Record && b->Record_0@ == ys,
        0 <= k < xs.len(),
        k < ys.len(),
        xs.len() <= usize::MAX,
        is_prefix_of(prefix.push(StorePathSegment(k as usize)), p),
        node_at(xs[k]@, p.skip(prefix.len() as int + 1)) != node_at(
            ys[k]@,
            p.skip(prefix.len() as int + 1),
        ),
    ensures
        diff_entry_sound(a, b, prefix, p),
{
    let step = prefix.push(StorePathSegment(k as usize));
    let n = prefix.len() as int;
    assert(p.subrange(0, n + 1) == step);
    assert(is_prefix_of(prefix, p)) by {
        assert forall|m: int| 0 <= m < n implies p.subrange(0, n)[m] == prefix[m] by {
            assert(p.subrange(0, n + 1)[m] == step[m]);
        }
        assert(p.subrange(0, n) =~= prefix);
    }
    let rel = p.skip(n);
    assert(rel.len() >= 1);
    assert(rel[0] == p[n]);
    assert(p.subrange(0, n + 1)[n] == step[n]);
    assert(rel[0] == StorePathSegment(k as usize));
    assert(rel[0].0 as int == k);
    assert(rel.skip(1) =~= p.skip(n + 1));
    if a is List {
        assert(a@->List_0[k] == xs[k]@);
        assert(b@->List_0[k] == ys[k]@);
        assert(node_at(a@, rel) == node_at(xs[k]@, p.skip(n + 1)));
        assert(node_at(b@, rel) == node_at(ys[k]@, p.skip(n + 1)));
    } else {
        assert(a@->Record_0[k] == xs[k]@);
        assert(b@->Record_0[k] == ys[k]@);
        assert(node_at(a@, rel) == node_at(xs[k]@, p.skip(n + 1)));
        assert(node_at(b@, rel) == node_at(ys[k]@, p.skip(n + 1)));
    }
}

/// Patch minimality for the paths contributed by shared elements: each one is
/// owned by some shared position whose subtrees differ.
pub proof fn lemma_diff_children_sound(
    xs: Seq<StoreValue>,
    ys: Seq<StoreValue>,
    prefix: Seq<StorePathSegment>,
    i: int,
)
    requires
        xs.len() <= usize::MAX,
    ensures
        forall|j: int|
            0 <= j < diff_children(xs, ys, prefix, i).len() ==> child_entry_sound(
                xs,
                ys,
                prefix,
                i,
                #[trigger] diff_children(xs, ys, prefix, i)[j],
            ),
    decreases xs, (if 0 <= i <= xs.len() { xs.len() - i } else { 0 }),
{
    if 0 <= i < xs.len() && i < ys.len() {
        let step = prefix.push(StorePathSegment(i as usize));
        let head = diff_paths(xs[i], ys[i], step);
        let tail = diff_children(xs, ys, prefix, i + 1);
        lemma_diff_sound(xs[i], ys[i], step);
        lemma_diff_children_sound(xs, ys, prefix, i + 1);
        assert forall|j: int|
            0 <= j < diff_children(xs, ys, prefix, i).len() implies child_entry_sound(
            xs,
            ys,
            prefix,
            i,
            diff_children(xs, ys, prefix, i)[j],
        ) by {
            let p = diff_children(xs, ys, prefix, i)[j];
            if j < head.len() {
                assert(p == head[j]);
                assert(diff_entry_sound(xs[i], ys[i], step, p));
                assert(step.len() as int == prefix.len() as int + 1);
                assert(i <= i < xs.len() && i < ys.len() && is_prefix_of(
                    prefix.push(StorePathSegment(i as usize)),
                    p,
                ) && node_at(xs[i]@, p.skip(prefix.len() as int + 1)) != node_at(
                    ys[i]@,
                    p.skip(prefix.len() as int + 1),
                ));
            } else {
                assert(p == tail[j - head.len()]);
                assert(child_entry_sound(xs, ys, prefix, i + 1, p));
                let k = choose|k: int|
                    i + 1 <= k < xs.len() && k < ys.len() && is_prefix_of(
                        prefix.push(StorePathSegment(k as usize)),
                        p,
                    ) && node_at(xs[k]@, p.skip(prefix.len() as int + 1)) != node_at(
                        ys[k]@,
                        p.skip(prefix.len() as int + 1),
                    );
                assert(i <= k < xs.len() && k < ys.len() && is_prefix_of(
                    prefix.push(StorePathSegment(k as usize)),
                    p,
                ) && node_at(xs[k]@, p.skip(prefix.len() as int + 1)) != node_at(
                    ys[k]@,
                    p.skip(prefix.len() as int + 1),
                ));
            }
        }
    }
}

/// A patch notifies nothing exactly when the two values are identical: a patch
/// to an equal value is silent, and a silent diff means nothing changed.
pub proof fn lemma_diff_empty_iff_identical(
    a: StoreValue,
    b: StoreValue,
    prefix: Seq<StorePathSegment>,
)
    ensures
        diff_paths(a, b, prefix).len() == 0 <==> a@ == b@,
    decreases a, 1nat,
{
    match a {
        StoreValue::Bool(_) => {},
        StoreValue::Text(_) => {},
        StoreValue::List(xs) => {
            match b {
                StoreValue::List(ys) => {
                    lemma_diff_children_empty(xs@, ys@, prefix, 0);
                    assert(a@->List_0.len() == xs@.len());
                    assert(b@->List_0.len() == ys@.len());
                    if diff_paths(a, b, prefix).len() == 0 {
                        assert(xs@.len() == ys@.len());
                        assert forall|k: int| 0 <= k < xs@.len() implies a@->List_0[k]
                            == b@->List_0[k] by {
                            assert(xs@[k]@ == ys@[k]@);
                        }
                        assert(a@->List_0 =~= b@->List_0);
                        assert(a@ == b@);
                    }
                    if a@ == b@ {
                        assert forall|k: int|
                            0 <= k < xs@.len() && k < ys@.len() implies xs@[k]@ == ys@[k]@ by {
                            assert(a@->List_0[k] == xs@[k]@);
                            assert(b@->List_0[k] == ys@[k]@);
                        }
                        assert(diff_children(xs@, ys@, prefix, 0).len() == 0);
                    }
                },
                _ => {
                    assert(!(b@ is List));
                },
            }
        },
        StoreValue::Record(xs) => {
            match b {
                StoreValue::Record(ys) => {
                    lemma_diff_children_empty(xs@, ys@, prefix, 0);
                    assert(a@->Record_0.len() == xs@.len());
                    assert(b@->Record_0.len() == ys@.len());
                    if diff_paths(a, b, prefix).len() == 0 {
                        assert(xs@.len() == ys@.len());
                        assert forall|k: int| 0 <= k < xs@.len() implies a@->Record_0[k]
                            == b@->Record_0[k] by {
                            assert(xs@[k]@ == ys@[k]@);
                        }
                        assert(a@->Record_0 =~= b@->Record_0);
                        assert(a@ == b@);
                    }
                    if a@ == b@ {
                        assert forall|k: int|
                            0 <= k < xs@.len() && k < ys@.len() implies xs@[k]@ == ys@[k]@ by {
                            assert(a@->Record_0[k] == xs@[k]@);
                            assert(b@->Record_0[k] == ys@[k]@);
                        }
                        assert(diff_children(xs@, ys@, prefix, 0).len() == 0);
                    }
                },
                _ => {
                    assert(!(b@ is Record));
                },
            }
        },
    }
}

/// The shared elements of two collections contribute no differing path exactly
/// when every shared element pair is identical.
pub proof fn lemma_diff_children_empty(
    xs: Seq<StoreValue>,
    ys: Seq<StoreValue>,
    prefix: Seq<StorePathSegment>,
    i: int,
)
    requires
        0 <= i,
    ensures
        diff_children(xs, ys, prefix, i).len() == 0 <==> (forall|k: int|
            i <= k < xs.len() && k < ys.len() ==> #[trigger] xs[k]@ == ys[k]@),
    decreases xs, (if 0 <= i <= xs.len() { xs.len() - i } else { 0 }),
{
    if 0 <= i < xs.len() && i < ys.len() {
        let step = prefix.push(StorePathSegment(i as usize));
        let head = diff_paths(xs[i], ys[i], step);
        let tail = diff_children(xs, ys, prefix, i + 1);
        lemma_diff_empty_iff_identical(xs[i], ys[i], step);
        lemma_diff_children_empty(xs, ys, prefix, i + 1);
        if diff_children(xs, ys, prefix, i).len() == 0 {
            assert(head.len() == 0 && tail.len() == 0);
            assert forall|k: int|
                i <= k < xs.len() && k < ys.len() implies #[trigger] xs[k]@ == ys[k]@ by {
                if k > i {
                    assert(i + 1 <= k < xs.len() && k < ys.len());
                }
            }
        }
        if forall|k: int| i <= k < xs.len() && k < ys.len() ==> #[trigger] xs[k]@ == ys[k]@ {
            assert(xs[i]@ == ys[i]@);
            assert(head.len() == 0);
            assert forall|k: int|
                i + 1 <= k < xs.len() && k < ys.len() implies #[trigger] xs[k]@ == ys[k]@ by {
                assert(i <= k < xs.len() && k < ys.len());
            }
            assert(tail.len() == 0);
        }
    }
}

/// A patch notifies each differing path at most once: the diff holds no path
/// twice.
pub proof fn lemma_diff_distinct(a: StoreValue, b: StoreValue, prefix: Seq<StorePathSegment>)
    ensures
        diff_paths(a, b, prefix).no_duplicates(),
    decreases a, 1nat,
{
    let diff = diff_paths(a, b, prefix);
    match a {
        StoreValue::Bool(_) => {},
        StoreValue::Text(_) => {},
        StoreValue::List(xs) => {
            match b {
                StoreValue::List(ys) => {
                    assert(xs.len() == xs@.len());
                    lemma_diff_children_distinct(xs@, ys@, prefix, 0);
                    lemma_diff_children_sound(xs@, ys@, prefix, 0);
                    let dc = diff_children(xs@, ys@, prefix, 0);
                    assert forall|j1: int, j2: int|
                        0 <= j1 < j2 < diff.len() implies diff[j1] != diff[j2] by {
                        if j2 < dc.len() {
                            assert(diff[j1] == dc[j1]);
                            assert(diff[j2] == dc[j2]);
                        } else {
                            assert(diff[j2] == prefix);
                            assert(diff[j1] == dc[j1]);
                            assert(child_entry_sound(xs@, ys@, prefix, 0, dc[j1]));
                            assert(dc[j1].len() > prefix.len());
                        }
                    }
                },
                _ => {},
            }
        },
        StoreValue::Record(xs) => {
            match b {
                StoreValue::Record(ys) => {
                    assert(xs.len() == xs@.len());
                    lemma_diff_children_distinct(xs@, ys@, prefix, 0);
                    lemma_diff_children_sound(xs@, ys@, prefix, 0);
                    let dc = diff_children(xs@, ys@, prefix, 0);
                    assert forall|j1: int, j2: int|
                        0 <= j1 < j2 < diff.len() implies diff[j1] != diff[j2] by {
                        if j2 < dc.len() {
                            assert(diff[j1] == dc[j1]);
                            assert(diff[j2] == dc[j2]);
                        } else {
                            assert(diff[j2] == prefix);
                            assert(diff[j1] == dc[j1]);
                            assert(child_entry_sound(xs@, ys@, prefix, 0, dc[j1]));
                            assert(dc[j1].len() > prefix.len());
                        }
                    }
                },
                _ => {},
            }
        },
    }
}

/// The paths contributed by shared elements hold no duplicates: positions own
/// disjoint path families, and each position's family is itself distinct.
pub proof fn lemma_diff_children_distinct(
    xs: Seq<StoreValue>,
    ys: Seq<StoreValue>,
    prefix: Seq<StorePathSegment>,
    i: int,
)
    requires
        0 <= i,
        xs.len() <= usize::MAX,
    ensures
        diff_children(xs, ys, prefix, i).no_duplicates(),
    decreases xs, (if 0 <= i <= xs.len() { xs.len() - i } else { 0 }),
{
    if 0 <= i < xs.len() && i < ys.len() {
        let step = prefix.push(StorePathSegment(i as usize));
        let head = diff_paths(xs[i], ys[i], step);
        let tail = diff_children(xs, ys, prefix, i + 1);
        let whole = diff_children(xs, ys, prefix, i);
        lemma_diff_distinct(xs[i], ys[i], step);
        lemma_diff_children_distinct(xs, ys, prefix, i + 1);
        lemma_diff_sound(xs[i], ys[i], step);
        lemma_diff_children_sound(xs, ys, prefix, i + 1);
        let n = prefix.len() as int;
        assert forall|j1: int, j2: int|
            0 <= j1 < j2 < whole.len() implies whole[j1] != whole[j2] by {
            if j2 < head.len() {
                assert(whole[j1] == head[j1]);
                assert(whole[j2] == head[j2]);
            } else if j1 >= head.len() {
                assert(whole[j1] == tail[j1 - head.len()]);
                assert(whole[j2] == tail[j2 - head.len()]);
            } else {
                let p1 = whole[j1];
                let p2 = whole[j2];
                assert(p1 == head[j1]);
                assert(diff_entry_sound(xs[i], ys[i], step, p1));
                assert(p1.subrange(0, n + 1) == step);
                assert(p1.subrange(0, n + 1)[n] == p1[n]);
                assert(p1[n] == StorePathSegment(i as usize));
                assert(p2 == tail[j2 - head.len()]);
                assert(child_entry_sound(xs, ys, prefix, i + 1, p2));
                let k = choose|k: int|
                    i + 1 <= k < xs.len() && k < ys.len() && is_prefix_of(
                        prefix.push(StorePathSegment(k as usize)),
                        p2,
                    ) && node_at(xs[k]@, p2.skip(prefix.len() as int + 1)) != node_at(
                        ys[k]@,
                        p2.skip(prefix.len() as int + 1),
                    );
                assert(p2.subrange(0, n + 1) == prefix.push(StorePathSegment(k as usize)));
                assert(p2.subrange(0, n + 1)[n] == p2[n]);
                assert(p2[n] == StorePathSegment(k as usize));
                assert(i as usize != k as usize);
                assert(p1[n] != p2[n]);
            }
        }
    }
}

} // verus!
