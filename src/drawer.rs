//! The batch sequence: an ordered list of runs that together hold every draw
//! call submitted this frame, in depth order.
use vstd::prelude::*;

use crate::chain::{
    chained, depth_sort, flatten_runs, lemma_flatten_concat, lemma_flatten_single, lemma_replace_run, lemma_splice,
    linked,
};
use crate::depth::Depth;
use crate::resources::{DrawError, ImageKey, ResourceTable, FULL_HANDLE_DOMAIN};
use crate::run::{insertion_point, lemma_insertion_point, DrawCall, DrawUnit, Placement};

verus! {

/// One submission to the graphics backend.
#[derive(Debug)]
pub enum Submission<P> {
    /// A direct draw of one call, with no batch set up.
    Single { image_key: ImageKey, param: P },
    /// One texture bind for several calls, drawn in the given order.
    Batch { image_key: ImageKey, params: Vec<P> },
}

/// What rendering issues for run `r`: a single draw for a run of one call,
/// else one batch of all its payloads.
pub open spec fn submits<P: Copy>(s: Submission<P>, r: DrawUnit<P>) -> bool {
    match s {
        Submission::Single { image_key, param } => {
            &&& r.items().len() == 1
            &&& image_key == r.texture()
            &&& param == r.items()[0].param
        },
        Submission::Batch { image_key, params } => {
            &&& r.items().len() != 1
            &&& image_key == r.texture()
            &&& params@ == r.items().map_values(|c: DrawCall<P>| c.param)
        },
    }
}

/// A summary of one run.
#[derive(Clone, Copy, Debug, PartialEq, Eq, Structural)]
pub struct RunStat {
    pub image_key: ImageKey,
    pub min: Depth,
    pub max: Depth,
    pub len: usize,
}

/// Owns the texture table and the runs of the current frame.
pub struct Drawer<T, P> {
    data: Vec<DrawUnit<P>>,
    images: ResourceTable<T>,
    submitted: Ghost<Seq<DrawCall<P>>>,
}

impl<T, P: Copy> Drawer<T, P> {
    /// The runs, in paint order.
    pub closed spec fn runs(&self) -> Seq<DrawUnit<P>> {
        self.data@
    }

    /// Every call held, run after run.
    pub open spec fn instances(&self) -> Seq<DrawCall<P>> {
        flatten_runs(self.runs())
    }

    /// The calls submitted since the last clear, in the order of submission.
    pub closed spec fn submitted(&self) -> Seq<DrawCall<P>> {
        self.submitted@
    }

    /// The table of textures.
    pub closed spec fn table(&self) -> ResourceTable<T> {
        self.images
    }

    /// The runs are chained, and their calls are the submitted calls sorted
    /// by depth, later calls after earlier ones of equal depth.
    pub open spec fn wf(&self) -> bool {
        &&& self.table().wf()
        &&& chained(self.runs())
        &&& self.instances() == depth_sort(self.submitted())
    }

    /// An empty drawer whose texture handles range over every `u32`.
    pub fn new() -> (r: Self)
        ensures
            r.wf(),
            r.runs() == Seq::<DrawUnit<P>>::empty(),
            r.submitted() == Seq::<DrawCall<P>>::empty(),
            r.table().entries() == Seq::<T>::empty(),
            r.table().domain_size() == FULL_HANDLE_DOMAIN,
    {
        let r = Drawer { data: Vec::new(), images: ResourceTable::new(), submitted: Ghost(Seq::empty()) };
        proof {
            assert(flatten_runs(r.data@) == Seq::<DrawCall<P>>::empty());
        }
        r
    }

    /// An empty drawer whose texture handles are drawn from `0 .. domain`.
    pub fn with_handle_domain(domain: u32) -> (r: Self)
        ensures
            r.wf(),
            r.runs() == Seq::<DrawUnit<P>>::empty(),
            r.submitted() == Seq::<DrawCall<P>>::empty(),
            r.table().entries() == Seq::<T>::empty(),
            r.table().domain_size() == domain,
    {
        let r = Drawer { data: Vec::new(), images: ResourceTable::with_domain(domain), submitted: Ghost(Seq::empty()) };
        proof {
            assert(flatten_runs(r.data@) == Seq::<DrawCall<P>>::empty());
        }
        r
    }

    /// Registers a texture under the smallest unused handle.
    pub fn add_image(&mut self, image: T) -> (r: Result<ImageKey, DrawError>)
        requires
            old(self).wf(),
        ensures
            final(self).wf(),
            final(self).runs() == old(self).runs(),
            final(self).submitted() == old(self).submitted(),
            final(self).table().domain_size() == old(self).table().domain_size(),
            old(self).table().entries().len() < old(self).table().domain_size() <==> r is Ok,
            r matches Ok(k) ==> {
                &&& k.0 == old(self).table().entries().len()
                &&& !old(self).table().in_use(k.0)
                &&& forall|h: u32| h < k.0 ==> old(self).table().in_use(h)
                &&& final(self).table().entries() == old(self).table().entries().push(image)
            },
            r matches Err(e) ==> {
                &&& e == DrawError::ResourceExhausted
                &&& final(self).table() == old(self).table()
            },
    {
        self.images.register(image)
    }

    /// The texture registered under `key`.
    pub fn resolve(&self, key: ImageKey) -> (r: Result<&T, DrawError>)
        ensures
            self.table().in_use(key.0) <==> r is Ok,
            r matches Ok(t) ==> *t == self.table().entries()[key.0 as int],
            r matches Err(e) ==> e == DrawError::InvalidHandle,
    {
        self.images.resolve(key)
    }

    /// Drops every run, ready for the next frame; the textures stay.
    pub fn clear(&mut self)
        requires
            old(self).wf(),
        ensures
            final(self).wf(),
            final(self).runs() == Seq::<DrawUnit<P>>::empty(),
            final(self).submitted() == Seq::<DrawCall<P>>::empty(),
            final(self).table() == old(self).table(),
    {
        self.data.clear();
        self.submitted = Ghost(Seq::empty());
        proof {
            assert(flatten_runs(self.data@) == Seq::<DrawCall<P>>::empty());
        }
    }

    /// The submissions that render the frame, one per run in paint order.
    /// Nothing is changed, so a frame may be rendered more than once.
    pub fn draw(&self) -> (r: Vec<Submission<P>>)
        requires
            self.wf(),
        ensures
            r@.len() == self.runs().len(),
            forall|i: int| 0 <= i < r@.len() ==> submits(#[trigger] r@[i], self.runs()[i]),
    {
        let mut r: Vec<Submission<P>> = Vec::new();
        let mut i: usize = 0;
        while i < self.data.len()
            invariant
                i <= self.data@.len(),
                chained(self.data@),
                r@.len() == i,
                forall|j: int| 0 <= j < i ==> submits(#[trigger] r@[j], self.data@[j]),
            decreases self.data@.len() - i,
        {
            let unit = &self.data[i];
            if unit.len() == 1 {
                r.push(Submission::Single { image_key: unit.image_key(), param: unit.get(0).param });
            } else {
                r.push(Submission::Batch { image_key: unit.image_key(), params: unit.params() });
            }
            i = i + 1;
        }
        r
    }

    /// Texture, bounds and size of each run, in paint order.
    pub fn stat(&self) -> (r: Vec<RunStat>)
        requires
            self.wf(),
        ensures
            r@.len() == self.runs().len(),
            forall|i: int| 0 <= i < r@.len() ==> {
                &&& (#[trigger] r@[i]).image_key == self.runs()[i].texture()
                &&& r@[i].min.key == self.runs()[i].min_key()
                &&& r@[i].max.key == self.runs()[i].max_key()
                &&& r@[i].len == self.runs()[i].items().len()
            },
    {
        let mut r: Vec<RunStat> = Vec::new();
        let mut i: usize = 0;
        while i < self.data.len()
            invariant
                i <= self.data@.len(),
                chained(self.data@),
                r@.len() == i,
                forall|j: int| 0 <= j < i ==> {
                    &&& (#[trigger] r@[j]).image_key == self.data@[j].texture()
                    &&& r@[j].min.key == self.data@[j].min_key()
                    &&& r@[j].max.key == self.data@[j].max_key()
                    &&& r@[j].len == self.data@[j].items().len()
                },
            decreases self.data@.len() - i,
        {
            let unit = &self.data[i];
            let (min, max) = unit.bounds();
            r.push(RunStat { image_key: unit.image_key(), min, max, len: unit.len() });
            i = i + 1;
        }
        r
    }

    /// Number of runs.
    pub fn run_count(&self) -> (r: usize)
        ensures
            r == self.runs().len(),
    {
        self.data.len()
    }

    /// Every held call, run after run.
    pub fn flattened(&self) -> (r: Vec<DrawCall<P>>)
        ensures
            r@ == self.instances(),
    {
        let mut r: Vec<DrawCall<P>> = Vec::new();
        let mut i: usize = 0;
        while i < self.data.len()
            invariant
                i <= self.data@.len(),
                r@ == flatten_runs(self.data@.subrange(0, i as int)),
            decreases self.data@.len() - i,
        {
            let unit = &self.data[i];
            let ghost before = r@;
            let mut j: usize = 0;
            while j < unit.len()
                invariant
                    j <= unit.items().len(),
                    r@ == before + unit.items().subrange(0, j as int),
                decreases unit.items().len() - j,
            {
                r.push(unit.get(j));
                j = j + 1;
                assert(r@ =~= before + unit.items().subrange(0, j as int));
            }
            proof {
                let rs = self.data@;
                assert(rs.subrange(0, i + 1).drop_last() == rs.subrange(0, i as int));
                assert(unit.items().subrange(0, j as int) == unit.items());
            }
            i = i + 1;
        }
        assert(self.data@.subrange(0, i as int) == self.data@);
        r
    }

    /// Index of the first run that reaches above `z`; every run before it
    /// lies at or below `z`.
    fn first_above(&self, z: u32) -> (k: usize)
        requires
            self.wf(),
        ensures
            k <= self.runs().len(),
            forall|j: int| 0 <= j < k ==> #[trigger] self.runs()[j].max_key() <= z,
            k < self.runs().len() ==> self.runs()[k as int].max_key() > z,
    {
        let mut k: usize = 0;
        while k < self.data.len() && self.data[k].bounds().1.key <= z
            invariant
                k <= self.data@.len(),
                chained(self.data@),
                forall|j: int| 0 <= j < k ==> #[trigger] self.data@[j].max_key() <= z,
            decreases self.data@.len() - k,
        {
            k = k + 1;
        }
        k
    }

    /// Run `k` is the first that reaches above `z`: the runs before it lie at
    /// or below `z`, the runs after it start above `z`.
    pub open spec fn parts_at(&self, k: int, z: u32) -> bool {
        &&& 0 <= k <= self.runs().len()
        &&& forall|j: int| 0 <= j < k ==> #[trigger] self.runs()[j].max_key() <= z
        &&& forall|j: int| k < j < self.runs().len() ==> #[trigger] self.runs()[j].min_key() > z
        &&& k < self.runs().len() ==> self.runs()[k].max_key() > z
    }

    /// What each placement step leaves: runs still chained, holding the
    /// former calls with `c` at its insertion point.
    pub open spec fn placed(&self, prev: &Self, c: DrawCall<P>) -> bool {
        &&& chained(self.runs())
        &&& self.instances() == prev.instances().insert(insertion_point(prev.instances(), c.depth.key), c)
        &&& self.table() == prev.table()
        &&& self.submitted() == prev.submitted()
    }

    /// Run `k` spans `depth` and has the call's texture: the call joins it.
    fn join_within(&mut self, k: usize, image_key: ImageKey, param: P, depth: Depth)
        requires
            chained(old(self).runs()),
            old(self).parts_at(k as int, depth.key),
            k < old(self).runs().len(),
            old(self).runs()[k as int].min_key() <= depth.key,
            old(self).runs()[k as int].texture() == image_key,
        ensures
            final(self).placed(old(self), DrawCall { image_key, param, depth }),
    {
        let ghost rs = self.data@;
        let ghost c = DrawCall { image_key, param, depth };
        let ghost r = rs[k as int];
        proof {
            r.lemma_bounds();
            lemma_insertion_point(r.items(), depth.key);
        }
        self.data[k].insert(depth, param);
        proof {
            let r2 = self.data@[k as int];
            assert(r2.items().last() == r.items().last());
            assert(r2.items()[0] == r.items()[0]);
            if k > 0 {
                assert(linked(rs[k - 1], rs[k - 1 + 1]));
            }
            if k + 1 < rs.len() {
                assert(linked(rs[k as int], rs[k + 1]));
            }
            assert(self.data@ == rs.update(k as int, r2));
            lemma_replace_run(rs, k as int, r2, c, insertion_point(r.items(), depth.key));
        }
    }

    /// Run `k` spans `depth` and has another texture: it is split there and
    /// the call stands in a run of its own between the halves.
    #[verifier::rlimit(40)]
    fn split_within(&mut self, k: usize, image_key: ImageKey, param: P, depth: Depth)
        requires
            chained(old(self).runs()),
            old(self).parts_at(k as int, depth.key),
            k < old(self).runs().len(),
            old(self).runs()[k as int].min_key() <= depth.key,
            old(self).runs()[k as int].texture() != image_key,
        ensures
            final(self).placed(old(self), DrawCall { image_key, param, depth }),
    {
        let ghost rs = self.data@;
        let ghost c = DrawCall { image_key, param, depth };
        let ghost z = depth.key;
        let ghost r = rs[k as int];
        proof {
            r.lemma_bounds();
            lemma_insertion_point(r.items(), z);
            lemma_flatten_single(r);
            assert(rs.subrange(k as int, k + 1) == seq![r]);
        }
        let n = self.data.len();
        proof {
            assert(k < n);
        }
        let latter = self.data[k].split_off(depth);
        self.data.insert(k + 1, latter);
        self.data.insert(k + 1, DrawUnit::new_singleton(image_key, param, depth));
        proof {
            let mid = seq![self.data@[k as int], self.data@[k + 1], self.data@[k + 2]];
            let p = insertion_point(r.items(), z);
            assert(self.data@ == rs.subrange(0, k as int) + mid + rs.subrange(k + 1, rs.len() as int));
            lemma_three_runs(mid);
            assert(r.items().subrange(0, p) + seq![c] + r.items().subrange(p, r.items().len() as int) =~= r.items().insert(p, c));
            assert(mid[0].items()[0] == r.items()[0]);
            assert(mid[2].items().last() == r.items().last());
            assert(mid.last() == mid[2]);
            if k > 0 {
                assert(linked(rs[k - 1], rs[k - 1 + 1]));
            }
            if k + 1 < rs.len() {
                assert(linked(rs[k as int], rs[k + 1]));
            }
            lemma_splice(rs, k as int, k + 1, mid, c, p);
        }
    }

    /// No run spans `depth`, and run `k - 1`, just below it, has the call's
    /// texture: the call ends that run.
    fn extend_below(&mut self, k: usize, image_key: ImageKey, param: P, depth: Depth)
        requires
            chained(old(self).runs()),
            old(self).parts_at(k as int, depth.key),
            0 < k,
            k < old(self).runs().len() ==> old(self).runs()[k as int].min_key() > depth.key,
            old(self).runs()[k - 1].texture() == image_key,
        ensures
            final(self).placed(old(self), DrawCall { image_key, param, depth }),
    {
        let ghost rs = self.data@;
        let ghost c = DrawCall { image_key, param, depth };
        let ghost r = rs[k - 1];
        proof {
            r.lemma_bounds();
            lemma_insertion_point(r.items(), depth.key);
            if k < rs.len() {
                assert(linked(rs[k - 1], rs[k - 1 + 1]));
            }
        }
        self.data[k - 1].insert(depth, param);
        proof {
            let r2 = self.data@[k - 1];
            assert(r2.items()[0] == r.items()[0]);
            if k > 1 {
                assert(linked(rs[k - 2], rs[k - 2 + 1]));
            }
            assert(self.data@ == rs.update(k - 1, r2));
            lemma_replace_run(rs, k - 1, r2, c, r.items().len() as int);
        }
    }

    /// No run spans `depth`, and run `k`, just above it, has the call's
    /// texture while the run below does not: the call starts run `k`.
    fn extend_above(&mut self, k: usize, image_key: ImageKey, param: P, depth: Depth)
        requires
            chained(old(self).runs()),
            old(self).parts_at(k as int, depth.key),
            k < old(self).runs().len(),
            old(self).runs()[k as int].min_key() > depth.key,
            old(self).runs()[k as int].texture() == image_key,
            k > 0 ==> old(self).runs()[k - 1].texture() != image_key,
        ensures
            final(self).placed(old(self), DrawCall { image_key, param, depth }),
    {
        let ghost rs = self.data@;
        let ghost c = DrawCall { image_key, param, depth };
        let ghost r = rs[k as int];
        proof {
            r.lemma_bounds();
            lemma_insertion_point(r.items(), depth.key);
        }
        self.data[k].insert(depth, param);
        proof {
            let r2 = self.data@[k as int];
            assert(r2.items().last() == r.items().last());
            if k + 1 < rs.len() {
                assert(linked(rs[k as int], rs[k + 1]));
            }
            assert(self.data@ == rs.update(k as int, r2));
            lemma_replace_run(rs, k as int, r2, c, 0);
        }
    }

    /// No run spans `depth` and neither neighbour has the call's texture: the
    /// call becomes a run of its own at `k`.
    #[verifier::rlimit(40)]
    fn insert_single(&mut self, k: usize, image_key: ImageKey, param: P, depth: Depth)
        requires
            chained(old(self).runs()),
            old(self).parts_at(k as int, depth.key),
            k < old(self).runs().len() ==> old(self).runs()[k as int].min_key() > depth.key,
            k < old(self).runs().len() ==> old(self).runs()[k as int].texture() != image_key,
            k > 0 ==> old(self).runs()[k - 1].texture() != image_key,
        ensures
            final(self).placed(old(self), DrawCall { image_key, param, depth }),
    {
        let ghost rs = self.data@;
        let ghost c = DrawCall { image_key, param, depth };
        let ghost z = depth.key;
        let single = DrawUnit::new_singleton(image_key, param, depth);
        self.data.insert(k, single);
        proof {
            single.lemma_bounds();
            if k > 0 {
                rs[k - 1].lemma_bounds();
            }
            if k < rs.len() {
                rs[k as int].lemma_bounds();
            }
            lemma_flatten_single(single);
            assert(rs.subrange(k as int, k as int) == Seq::<DrawUnit<P>>::empty());
            assert(flatten_runs(Seq::<DrawUnit<P>>::empty()) == Seq::<DrawCall<P>>::empty());
            assert(Seq::<DrawCall<P>>::empty().insert(0, c) == seq![c]);
            assert(self.data@ == rs.subrange(0, k as int) + seq![single] + rs.subrange(k as int, rs.len() as int));
            lemma_splice(rs, k as int, k as int, seq![single], c, 0);
        }
    }

    /// Submits a draw call. It is placed after every held call whose depth is
    /// at most `depth`: into a run of its texture where one borders that
    /// place, else in a new run of its own, splitting a run of another
    /// texture that spans the place.
    pub fn add(&mut self, image_key: ImageKey, param: P, depth: Depth)
        requires
            old(self).wf(),
        ensures
            final(self).wf(),
            final(self).table() == old(self).table(),
            final(self).submitted() == old(self).submitted().push(DrawCall { image_key, param, depth }),
            final(self).instances() == old(self).instances().insert(
                insertion_point(old(self).instances(), depth.key),
                DrawCall { image_key, param, depth },
            ),
    {
        let ghost c = DrawCall { image_key, param, depth };
        let z = depth.key;
        let n = self.data.len();
        let k = self.first_above(z);
        proof {
            let rs = self.data@;
            assert forall|j: int| k < j < rs.len() implies #[trigger] rs[j].min_key() > z by {
                lemma_min_after(rs, k as int, j);
            }
        }
        if k < n && self.data[k].order(depth) == Placement::Within {
            if self.data[k].image_key() == image_key {
                self.join_within(k, image_key, param, depth);
            } else {
                self.split_within(k, image_key, param, depth);
            }
        } else if k > 0 && self.data[k - 1].image_key() == image_key {
            self.extend_below(k, image_key, param, depth);
        } else if k < n && self.data[k].image_key() == image_key {
            self.extend_above(k, image_key, param, depth);
        } else {
            self.insert_single(k, image_key, param, depth);
        }
        proof {
            let old_sub = self.submitted@;
            assert(old_sub.push(c).drop_last() == old_sub);
        }
        self.submitted = Ghost(self.submitted@.push(DrawCall { image_key, param, depth }));
    }
}

/// In a chained sequence, a run after run `k` begins at or above where run
/// `k` ends.
proof fn lemma_min_after<P: Copy>(rs: Seq<DrawUnit<P>>, k: int, j: int)
    requires
        chained(rs),
        0 <= k < j < rs.len(),
    ensures
        rs[k].max_key() <= rs[j].min_key(),
    decreases j - k,
{
    assert(linked(rs[j - 1], rs[j - 1 + 1]));
    if k < j - 1 {
        lemma_min_after(rs, k, j - 1);
    }
    rs[j - 1].lemma_bounds();
}

/// The calls of three runs, in order.
proof fn lemma_three_runs<P: Copy>(mid: Seq<DrawUnit<P>>)
    requires
        mid.len() == 3,
    ensures
        flatten_runs(mid) == mid[0].items() + mid[1].items() + mid[2].items(),
{
    lemma_flatten_single(mid[0]);
    lemma_flatten_single(mid[1]);
    lemma_flatten_single(mid[2]);
    lemma_flatten_concat(seq![mid[0]], seq![mid[1]]);
    lemma_flatten_concat(seq![mid[0]] + seq![mid[1]], seq![mid[2]]);
    assert(mid == seq![mid[0]] + seq![mid[1]] + seq![mid[2]]);
}

} // verus!
