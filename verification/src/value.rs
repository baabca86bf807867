use crate::path::{StorePath, StorePathSegment};
use vstd::prelude::*;

verus! {

/// The mathematical shape of a value tree: what contracts speak about.
#[verifier::ext_equal]
pub enum ValueModel {
    Bool(bool),
    Text(Seq<char>),
    List(Seq<ValueModel>),
    Record(Seq<ValueModel>),
}

/// A nested value held by a store: boolean and text leaves, growable
/// collections (`List`), and fixed-shape aggregates (`Record`) whose fields
/// are addressed by position.
#[derive(Debug)]
pub enum StoreValue {
    Bool(bool),
    Text(String),
    List(Vec<StoreValue>),
    Record(Vec<StoreValue>),
}

impl View for StoreValue {
    type V = ValueModel;

    // The index guards keep each recursive call below the bound that the
    // termination measure needs; out-of-range positions never arise.
    open spec fn view(&self) -> ValueModel
        decreases self,
    {
        match self {
            StoreValue::Bool(b) => ValueModel::Bool(*b),
            StoreValue::Text(s) => ValueModel::Text(s@),
            StoreValue::List(items) => ValueModel::List(
                Seq::new(
                    items@.len(),
                    |i: int|
                        if 0 <= i < items@.len() {
                            items@[i]@
                        } else {
                            ValueModel::Bool(false)
                        },
                ),
            ),
            StoreValue::Record(fields) => ValueModel::Record(
                Seq::new(
                    fields@.len(),
                    |i: int|
                        if 0 <= i < fields@.len() {
                            fields@[i]@
                        } else {
                            ValueModel::Bool(false)
                        },
                ),
            ),
        }
    }
}

/// The node that the path leads to inside `v`, or `None` where the path walks
/// out of the tree (an index out of bounds, or a step into a leaf).
pub open spec fn node_at(v: ValueModel, path: Seq<StorePathSegment>) -> Option<ValueModel>
    decreases path.len(),
{
    if path.len() == 0 {
        Some(v)
    } else {
        let k = path[0].0 as int;
        match v {
            ValueModel::List(items) => {
                if 0 <= k < items.len() {
                    node_at(items[k], path.skip(1))
                } else {
                    None
                }
            },
            ValueModel::Record(fields) => {
                if 0 <= k < fields.len() {
                    node_at(fields[k], path.skip(1))
                } else {
                    None
                }
            },
            _ => None,
        }
    }
}

/// The path denotes an existing node of `v`.
pub open spec fn path_valid(v: ValueModel, path: Seq<StorePathSegment>) -> bool {
    node_at(v, path) is Some
}

/// `v` with the subtree at the path replaced by `new`; `v` unchanged where the
/// path denotes no node.
pub open spec fn with_node_at(
    v: ValueModel,
    path: Seq<StorePathSegment>,
    new: ValueModel,
) -> ValueModel
    decreases path.len(),
{
    if path.len() == 0 {
        new
    } else {
        let k = path[0].0 as int;
        match v {
            ValueModel::List(items) => {
                if 0 <= k < items.len() {
                    ValueModel::List(items.update(k, with_node_at(items[k], path.skip(1), new)))
                } else {
                    v
                }
            },
            ValueModel::Record(fields) => {
                if 0 <= k < fields.len() {
                    ValueModel::Record(fields.update(k, with_node_at(fields[k], path.skip(1), new)))
                } else {
                    v
                }
            },
            _ => v,
        }
    }
}

/// Walks the path down from `v` and borrows the node it leads to, without
/// copying any part of the tree.
pub fn node_ref<'a>(v: &'a StoreValue, path: &StorePath) -> (r: Option<&'a StoreValue>)
    ensures
        match r {
            Some(n) => node_at(v@, path@) == Some(n@),
            None => node_at(v@, path@) is None,
        },
{
    let mut cur: &StoreValue = v;
    let mut i: usize = 0;
    proof {
        assert(path@.skip(0) =~= path@);
    }
    while i < path.segments.len()
        invariant
            i <= path.segments.len(),
            node_at(v@, path@) == node_at(cur@, path@.skip(i as int)),
        decreases path.segments.len() - i,
    {
        let k = path.segments[i].0;
        proof {
            assert(path@.skip(i as int)[0] == path@[i as int]);
            assert(path@.skip(i as int).skip(1) =~= path@.skip(i as int + 1));
        }
        match cur {
            StoreValue::List(items) => {
                if k < items.len() {
                    proof {
                        assert(cur@->List_0[k as int] == items@[k as int]@);
                    }
                    cur = &items[k];
                } else {
                    return None;
                }
            },
            StoreValue::Record(fields) => {
                if k < fields.len() {
                    proof {
                        assert(cur@->Record_0[k as int] == fields@[k as int]@);
                    }
                    cur = &fields[k];
                } else {
                    return None;
                }
            },
            _ => {
                return None;
            },
        }
        i += 1;
    }
    proof {
        assert(path@.skip(i as int) =~= Seq::<StorePathSegment>::empty());
    }
    Some(cur)
}

/// `v` with the subtree at the path's segments from `depth` on replaced by
/// `new`; `v` comes back unchanged where the path walks out of the tree.
pub fn with_node(v: StoreValue, path: &StorePath, depth: usize, new: StoreValue) -> (r: StoreValue)
    requires
        depth <= path@.len(),
    ensures
        r@ == with_node_at(v@, path@.skip(depth as int), new@),
    decreases path@.len() - depth,
{
    if depth == path.segments.len() {
        proof {
            assert(path@.skip(depth as int) =~= Seq::<StorePathSegment>::empty());
        }
        return new;
    }
    let k = path.segments[depth].0;
    proof {
        assert(path@.skip(depth as int)[0] == path@[depth as int]);
        assert(path@.skip(depth as int).skip(1) =~= path@.skip(depth as int + 1));
    }
    let ghost old_v = v;
    match v {
        StoreValue::List(mut items) => {
            let ghost old_items = items@;
            if k < items.len() {
                let elem = items.remove(k);
                let elem = with_node(elem, path, depth + 1, new);
                let ghost new_elem = elem;
                items.insert(k, elem);
                proof {
                    assert(items@ =~= old_items.update(k as int, new_elem));
                    let target = with_node_at(old_v@, path@.skip(depth as int), new@);
                    assert(old_v@->List_0[k as int] == old_items[k as int]@);
                    assert forall|i: int| 0 <= i < items@.len() implies items@[i]@
                        == target->List_0[i] by {
                        if i != k {
                            assert(old_v@->List_0[i] == old_items[i]@);
                        }
                    }
                    assert(StoreValue::List(items)@->List_0 =~= target->List_0);
                }
            }
            StoreValue::List(items)
        },
        StoreValue::Record(mut fields) => {
            let ghost old_fields = fields@;
            if k < fields.len() {
                let elem = fields.remove(k);
                let elem = with_node(elem, path, depth + 1, new);
                let ghost new_elem = elem;
                fields.insert(k, elem);
                proof {
                    assert(fields@ =~= old_fields.update(k as int, new_elem));
                    let target = with_node_at(old_v@, path@.skip(depth as int), new@);
                    assert(old_v@->Record_0[k as int] == old_fields[k as int]@);
                    assert forall|i: int| 0 <= i < fields@.len() implies fields@[i]@
                        == target->Record_0[i] by {
                        if i != k {
                            assert(old_v@->Record_0[i] == old_fields[i]@);
                        }
                    }
                    assert(StoreValue::Record(fields)@->Record_0 =~= target->Record_0);
                }
            }
            StoreValue::Record(fields)
        },
        other => other,
    }
}

/// Structural equality of two value trees: equal leaves in equal positions.
pub fn eq_value(a: &StoreValue, b: &StoreValue) -> (r: bool)
    ensures
        r <==> a@ == b@,
    decreases a,
{
    match a {
        StoreValue::Bool(x) => {
            match b {
                StoreValue::Bool(y) => *x == *y,
                _ => false,
            }
        },
        StoreValue::Text(x) => {
            match b {
                StoreValue::Text(y) => *x == *y,
                _ => false,
            }
        },
        StoreValue::List(xs) => {
            match b {
                StoreValue::List(ys) => {
                    if xs.len() != ys.len() {
                        proof {
                            assert(a@->List_0.len() == xs@.len());
                            assert(b@->List_0.len() == ys@.len());
                        }
                        return false;
                    }
                    let mut i: usize = 0;
                    while i < xs.len()
                        invariant
                            i <= xs.len(),
                            xs@.len() == ys@.len(),
                            *a == StoreValue::List(*xs),
                            *b == StoreValue::List(*ys),
                            forall|j: int| 0 <= j < i ==> xs@[j]@ == ys@[j]@,
                        decreases xs.len() - i,
                    {
                        proof {
                            assert(*xs == a->List_0);
                            assert(decreases_to!(*a => a->List_0));
                            assert(decreases_to!(a->List_0 => xs@));
                            assert(decreases_to!(xs@ => xs@[i as int]));
                        }
                        if !eq_value(&xs[i], &ys[i]) {
                            proof {
                                assert(a@->List_0[i as int] != b@->List_0[i as int]);
                            }
                            return false;
                        }
                        i += 1;
                    }
                    proof {
                        assert(a@->List_0 =~= b@->List_0);
                        assert(a@ == b@);
                    }
                    return true;
                },
                _ => {
                    proof {
                        assert(a@ != b@);
                    }
                    return false;
                },
            }
        },
        StoreValue::Record(xs) => {
            match b {
                StoreValue::Record(ys) => {
                    if xs.len() != ys.len() {
                        proof {
                            assert(a@->Record_0.len() == xs@.len());
                            assert(b@->Record_0.len() == ys@.len());
                        }
                        return false;
                    }
                    let mut i: usize = 0;
                    while i < xs.len()
                        invariant
                            i <= xs.len(),
                            xs@.len() == ys@.len(),
                            *a == StoreValue::Record(*xs),
                            *b == StoreValue::Record(*ys),
                            forall|j: int| 0 <= j < i ==> xs@[j]@ == ys@[j]@,
                        decreases xs.len() - i,
                    {
                        proof {
                            assert(*xs == a->Record_0);
                            assert(decreases_to!(*a => a->Record_0));
                            assert(decreases_to!(a->Record_0 => xs@));
                            assert(decreases_to!(xs@ => xs@[i as int]));
                        }
                        if !eq_value(&xs[i], &ys[i]) {
                            proof {
                                assert(a@->Record_0[i as int] != b@->Record_0[i as int]);
                            }
                            return false;
                        }
                        i += 1;
                    }
                    proof {
                        assert(a@->Record_0 =~= b@->Record_0);
                        assert(a@ == b@);
                    }
                    return true;
                },
                _ => {
                    proof {
                        assert(a@ != b@);
                    }
                    return false;
                },
            }
        },
    }
}

} // verus!
