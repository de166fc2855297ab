//! A run: draw calls of one texture, kept in ascending depth order.
use vstd::prelude::*;

use crate::depth::Depth;
use crate::resources::ImageKey;

verus! {

/// One draw call: the texture it uses, an opaque payload handed on verbatim
/// to the graphics backend, and its depth.
#[derive(Clone, Copy, Debug)]
pub struct DrawCall<P> {
    pub image_key: ImageKey,
    pub param: P,
    pub depth: Depth,
}

/// Where a depth lies relative to the bounds of a run.
#[derive(Clone, Copy, Debug, PartialEq, Eq, Structural)]
pub enum Placement {
    /// Below the least depth of the run.
    Before,
    /// Between the least and the greatest depth, both included.
    Within,
    /// Above the greatest depth of the run.
    After,
}

/// Depths never decrease along `s`.
pub open spec fn depth_sorted<P>(s: Seq<DrawCall<P>>) -> bool {
    forall|i: int, j: int| 0 <= i <= j < s.len() ==> #[trigger] s[i].depth.key <= #[trigger] s[j].depth.key
}

/// Where a call of depth `z` goes in `s`: after every call whose depth is
/// at most `z`. A new call is thus painted over earlier calls of equal depth.
pub open spec fn insertion_point<P>(s: Seq<DrawCall<P>>, z: u32) -> int
    decreases s.len(),
{
    if s.len() == 0 {
        0
    } else if s.last().depth.key <= z {
        s.len() as int
    } else {
        insertion_point(s.drop_last(), z)
    }
}

/// In a sorted sequence the insertion point splits the calls at depth `z` or
/// above it from those strictly after it.
pub proof fn lemma_insertion_point<P>(s: Seq<DrawCall<P>>, z: u32)
    requires
        depth_sorted(s),
    ensures
        0 <= insertion_point(s, z) <= s.len(),
        forall|i: int| 0 <= i < insertion_point(s, z) ==> #[trigger] s[i].depth.key <= z,
        forall|i: int| insertion_point(s, z) <= i < s.len() ==> #[trigger] s[i].depth.key > z,
    decreases s.len(),
{
    if s.len() > 0 {
        if s.last().depth.key > z {
            lemma_insertion_point(s.drop_last(), z);
            assert forall|i: int| 0 <= i < insertion_point(s, z) implies #[trigger] s[i].depth.key <= z by {
                assert(s.drop_last()[i] == s[i]);
            }
            assert forall|i: int| insertion_point(s, z) <= i < s.len() implies #[trigger] s[i].depth.key > z by {
                if i < s.len() - 1 {
                    assert(s.drop_last()[i] == s[i]);
                }
            }
        } else {
            assert forall|i: int| 0 <= i < insertion_point(s, z) implies #[trigger] s[i].depth.key <= z by {
                assert(s[i].depth.key <= s[s.len() - 1].depth.key);
            }
        }
    }
}

/// Inserting a call at its insertion point keeps a sequence sorted.
pub proof fn lemma_insert_sorted<P>(s: Seq<DrawCall<P>>, c: DrawCall<P>)
    requires
        depth_sorted(s),
    ensures
        depth_sorted(s.insert(insertion_point(s, c.depth.key), c)),
{
    lemma_insertion_point(s, c.depth.key);
}

/// A maximal group of draw calls sharing one texture, in depth order.
pub struct DrawUnit<P> {
    image_key: ImageKey,
    instances: Vec<DrawCall<P>>,
}

impl<P: Copy> DrawUnit<P> {
    /// The calls of the run, in order.
    pub closed spec fn items(&self) -> Seq<DrawCall<P>> {
        self.instances@
    }

    /// The texture of the run.
    pub closed spec fn texture(&self) -> ImageKey {
        self.image_key
    }

    /// Never empty, sorted by depth, and every call is of the run's texture.
    #[verifier::opaque]
    pub open spec fn wf(&self) -> bool {
        &&& self.items().len() > 0
        &&& depth_sorted(self.items())
        &&& forall|i: int| 0 <= i < self.items().len() ==> #[trigger] self.items()[i].image_key == self.texture()
    }

    /// Least depth of the run.
    pub open spec fn min_key(&self) -> u32 {
        self.items()[0].depth.key
    }

    /// Greatest depth of the run.
    pub open spec fn max_key(&self) -> u32 {
        self.items().last().depth.key
    }

    /// Where `z` lies relative to the run's bounds.
    pub open spec fn placement(&self, z: u32) -> Placement {
        if z < self.min_key() {
            Placement::Before
        } else if z > self.max_key() {
            Placement::After
        } else {
            Placement::Within
        }
    }

    /// A well-formed run is sorted, and its calls lie between its bounds.
    pub proof fn lemma_bounds(&self)
        requires
            self.wf(),
        ensures
            self.items().len() > 0,
            depth_sorted(self.items()),
            self.min_key() <= self.max_key(),
            forall|i: int| 0 <= i < self.items().len() ==>
                self.min_key() <= #[trigger] self.items()[i].depth.key <= self.max_key(),
    {
        reveal(DrawUnit::wf);
        assert(self.items()[0].depth.key <= self.items()[self.items().len() - 1].depth.key);
        assert forall|i: int| 0 <= i < self.items().len() implies self.min_key() <= #[trigger] self.items()[i].depth.key
            <= self.max_key() by {
            assert(self.items()[0].depth.key <= self.items()[i].depth.key);
            assert(self.items()[i].depth.key <= self.items()[self.items().len() - 1].depth.key);
        }
    }

    /// Every call of a well-formed run has the run's texture.
    pub proof fn lemma_textures(&self)
        requires
            self.wf(),
        ensures
            forall|i: int| 0 <= i < self.items().len() ==> #[trigger] self.items()[i].image_key == self.texture(),
    {
        reveal(DrawUnit::wf);
    }

    /// A run of the single call.
    pub fn new_singleton(image_key: ImageKey, param: P, depth: Depth) -> (r: Self)
        ensures
            r.wf(),
            r.texture() == image_key,
            r.items() == seq![DrawCall { image_key, param, depth }],
    {
        reveal(DrawUnit::wf);
        DrawUnit { image_key, instances: vec![DrawCall { image_key, param, depth }] }
    }

    /// The texture of the run.
    pub fn image_key(&self) -> (r: ImageKey)
        ensures
            r == self.texture(),
    {
        self.image_key
    }

    /// Number of calls in the run.
    pub fn len(&self) -> (r: usize)
        ensures
            r == self.items().len(),
    {
        self.instances.len()
    }

    /// The call at `i`.
    pub fn get(&self, i: usize) -> (r: DrawCall<P>)
        requires
            i < self.items().len(),
        ensures
            r == self.items()[i as int],
    {
        self.instances[i]
    }

    /// The payloads of the run, in order.
    pub fn params(&self) -> (r: Vec<P>)
        ensures
            r@ == self.items().map_values(|c: DrawCall<P>| c.param),
    {
        let mut r: Vec<P> = Vec::new();
        let mut i: usize = 0;
        while i < self.instances.len()
            invariant
                i <= self.instances@.len(),
                r@ == self.instances@.subrange(0, i as int).map_values(|c: DrawCall<P>| c.param),
            decreases self.instances@.len() - i,
        {
            r.push(self.instances[i].param);
            i = i + 1;
            assert(r@ =~= self.instances@.subrange(0, i as int).map_values(|c: DrawCall<P>| c.param));
        }
        assert(self.instances@.subrange(0, i as int) == self.instances@);
        r
    }

    /// Least and greatest depth of the run.
    pub fn bounds(&self) -> (r: (Depth, Depth))
        requires
            self.wf(),
        ensures
            r.0.key == self.min_key(),
            r.1.key == self.max_key(),
    {
        reveal(DrawUnit::wf);
        (self.instances[0].depth, self.instances[self.instances.len() - 1].depth)
    }

    /// Classifies `depth` against the run's bounds.
    pub fn order(&self, depth: Depth) -> (r: Placement)
        requires
            self.wf(),
        ensures
            r == self.placement(depth.key),
    {
        reveal(DrawUnit::wf);
        let (min, max) = self.bounds();
        if depth.key < min.key {
            Placement::Before
        } else if depth.key > max.key {
            Placement::After
        } else {
            Placement::Within
        }
    }

    /// Index of the first call whose depth is above `z`.
    fn upper_index(&self, z: u32) -> (r: usize)
        requires
            depth_sorted(self.items()),
        ensures
            r as int == insertion_point(self.items(), z),
    {
        proof {
            lemma_insertion_point(self.items(), z);
        }
        let mut lo: usize = 0;
        let mut hi: usize = self.instances.len();
        while lo < hi
            invariant
                0 <= lo <= hi <= self.instances@.len(),
                depth_sorted(self.instances@),
                0 <= insertion_point(self.instances@, z) <= self.instances@.len(),
                forall|i: int| 0 <= i < insertion_point(self.instances@, z) ==> #[trigger] self.instances@[i].depth.key <= z,
                forall|i: int| insertion_point(self.instances@, z) <= i < self.instances@.len() ==> #[trigger] self.instances@[i].depth.key > z,
                forall|i: int| 0 <= i < lo ==> #[trigger] self.instances@[i].depth.key <= z,
                forall|i: int| hi <= i < self.instances@.len() ==> #[trigger] self.instances@[i].depth.key > z,
            decreases hi - lo,
        {
            let mid = lo + (hi - lo) / 2;
            if self.instances[mid].depth.key <= z {
                proof {
                    assert forall|i: int| 0 <= i < mid + 1 implies #[trigger] self.instances@[i].depth.key <= z by {
                        assert(self.instances@[i].depth.key <= self.instances@[mid as int].depth.key);
                    }
                }
                lo = mid + 1;
            } else {
                proof {
                    assert forall|i: int| mid <= i < self.instances@.len() implies #[trigger] self.instances@[i].depth.key > z by {
                        assert(self.instances@[mid as int].depth.key <= self.instances@[i].depth.key);
                    }
                }
                hi = mid;
            }
        }
        proof {
            let p = insertion_point(self.instances@, z);
            if p < lo {
                assert(self.instances@[p].depth.key <= z);
            }
            if p > lo {
                assert(self.instances@[lo as int].depth.key > z);
            }
        }
        lo
    }

    /// Adds a call of this run's texture after every call whose depth is at
    /// most `depth`.
    pub fn insert(&mut self, depth: Depth, param: P)
        requires
            old(self).wf(),
        ensures
            final(self).wf(),
            final(self).texture() == old(self).texture(),
            final(self).items() == old(self).items().insert(
                insertion_point(old(self).items(), depth.key),
                DrawCall { image_key: old(self).texture(), param, depth },
            ),
    {
        reveal(DrawUnit::wf);
        let index = self.upper_index(depth.key);
        let call = DrawCall { image_key: self.image_key, param, depth };
        proof {
            lemma_insertion_point(self.items(), depth.key);
            lemma_insert_sorted(self.items(), call);
        }
        self.instances.insert(index, call);
    }

    /// Splits the run after its last call of depth at most `depth`: this run
    /// keeps those calls, and the calls above `depth` are returned as a run
    /// of the same texture. Both halves are non-empty, as `depth` lies
    /// between the bounds and below the greatest.
    pub fn split_off(&mut self, depth: Depth) -> (r: Self)
        requires
            old(self).wf(),
            old(self).min_key() <= depth.key < old(self).max_key(),
        ensures
            final(self).wf(),
            r.wf(),
            final(self).texture() == old(self).texture(),
            r.texture() == old(self).texture(),
            final(self).items() == old(self).items().subrange(0, insertion_point(old(self).items(), depth.key)),
            r.items() == old(self).items().subrange(
                insertion_point(old(self).items(), depth.key),
                old(self).items().len() as int,
            ),
    {
        reveal(DrawUnit::wf);
        proof {
            lemma_insertion_point(self.items(), depth.key);
        }
        let index = self.upper_index(depth.key);
        DrawUnit { image_key: self.image_key, instances: self.instances.split_off(index) }
    }
}

} // verus!
