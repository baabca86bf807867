use vstd::prelude::*;

verus! {

/// One step on the way from the root of a store's value tree to a nested
/// location: a struct-field position or a collection index, as an unsigned key.
#[derive(Clone, Copy, PartialEq, Eq, Structural, Debug)]
pub struct StorePathSegment(pub usize);

/// An ordered sequence of segments identifying a location in the nested value
/// tree. Sequence equality is the identity that trigger allocation keys on:
/// two accessors with equal paths must share exactly one trigger.
#[derive(Debug)]
pub struct StorePath {
    pub segments: Vec<StorePathSegment>,
}

impl View for StorePath {
    type V = Seq<StorePathSegment>;

    open spec fn view(&self) -> Seq<StorePathSegment> {
        self.segments@
    }
}

/// `a` names the same location as `b` or one strictly above it.
pub open spec fn is_prefix_of(a: Seq<StorePathSegment>, b: Seq<StorePathSegment>) -> bool {
    a.len() <= b.len() && a == b.subrange(0, a.len() as int)
}

/// `a` names a location strictly above `b`.
pub open spec fn is_strict_prefix_of(a: Seq<StorePathSegment>, b: Seq<StorePathSegment>) -> bool {
    is_prefix_of(a, b) && a.len() < b.len()
}

/// Neither location lies on the other's path: the subtrees are unrelated.
pub open spec fn paths_disjoint(a: Seq<StorePathSegment>, b: Seq<StorePathSegment>) -> bool {
    !is_prefix_of(a, b) && !is_prefix_of(b, a)
}

impl StorePath {
    /// The root path: no segments.
    pub fn root() -> (r: StorePath)
        ensures
            r@ == Seq::<StorePathSegment>::empty(),
    {
        StorePath { segments: Vec::new() }
    }

    /// A path made of the given segments, root first.
    pub fn from_segments(segments: Vec<StorePathSegment>) -> (r: StorePath)
        ensures
            r@ == segments@,
    {
        StorePath { segments }
    }

    pub fn len(&self) -> (r: usize)
        ensures
            r == self@.len(),
    {
        self.segments.len()
    }

    /// Extends the path by one segment, one level deeper into the tree.
    pub fn push(&mut self, segment: StorePathSegment)
        ensures
            final(self)@ == old(self)@.push(segment),
    {
        self.segments.push(segment);
    }

    /// An identical, independently owned path.
    pub fn duplicate(&self) -> (r: StorePath)
        ensures
            r@ == self@,
    {
        let mut segments: Vec<StorePathSegment> = Vec::new();
        let mut i: usize = 0;
        while i < self.segments.len()
            invariant
                i <= self.segments.len(),
                segments@ == self.segments@.subrange(0, i as int),
            decreases self.segments.len() - i,
        {
            segments.push(self.segments[i]);
            i += 1;
        }
        proof {
            assert(segments@ =~= self.segments@);
        }
        StorePath { segments }
    }

    /// Whether the two paths name the same location.
    pub fn eq_path(&self, other: &StorePath) -> (r: bool)
        ensures
            r <==> self@ == other@,
    {
        if self.segments.len() != other.segments.len() {
            proof {
                assert(self@ != other@);
            }
            return false;
        }
        let mut i: usize = 0;
        while i < self.segments.len()
            invariant
                i <= self.segments.len(),
                self.segments.len() == other.segments.len(),
                forall|j: int| 0 <= j < i ==> self.segments@[j] == other.segments@[j],
            decreases self.segments.len() - i,
        {
            if self.segments[i].0 != other.segments[i].0 {
                return false;
            }
            i += 1;
        }
        proof {
            assert(self@ =~= other@);
        }
        true
    }

    /// The path made of this path's first `n` segments.
    pub fn prefix(&self, n: usize) -> (r: StorePath)
        requires
            n <= self@.len(),
        ensures
            r@ == self@.subrange(0, n as int),
            is_prefix_of(r@, self@),
    {
        let mut segments: Vec<StorePathSegment> = Vec::new();
        let mut i: usize = 0;
        while i < n
            invariant
                i <= n,
                n <= self.segments@.len(),
                segments@ == self.segments@.subrange(0, i as int),
            decreases n - i,
        {
            segments.push(self.segments[i]);
            i += 1;
        }
        proof {
            assert(self@.subrange(0, n as int) == self@.subrange(0, n as int).subrange(
                0,
                n as int,
            ));
        }
        StorePath { segments }
    }
}

} // verus!
