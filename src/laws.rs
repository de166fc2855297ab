//! What holds of a drawer after any sequence of submissions.
use vstd::prelude::*;

use crate::chain::{
    chained, depth_sort, flatten_runs, lemma_flatten_concat, lemma_flatten_nonempty, lemma_flatten_single, linked,
};
use crate::drawer::Drawer;
use crate::resources::ImageKey;
use crate::run::{depth_sorted, insertion_point, lemma_insert_sorted, lemma_insertion_point, DrawCall, DrawUnit};

verus! {

/// Number of maximal groups of equal neighbouring textures in `s`.
pub open spec fn texture_groups(s: Seq<ImageKey>) -> nat
    decreases s.len(),
{
    if s.len() == 0 {
        0
    } else if s.len() == 1 {
        1
    } else if s[s.len() - 2] == s.last() {
        texture_groups(s.drop_last())
    } else {
        texture_groups(s.drop_last()) + 1
    }
}

/// The textures of a sequence of calls.
pub open spec fn textures_of<P>(s: Seq<DrawCall<P>>) -> Seq<ImageKey> {
    s.map_values(|c: DrawCall<P>| c.image_key)
}

/// Runs partition the depth axis: each run's bounds are in order, and no
/// run begins below the depth where the run before it ends.
pub proof fn lemma_partition<T, P: Copy>(d: &Drawer<T, P>)
    requires
        d.wf(),
    ensures
        forall|i: int| 0 <= i < d.runs().len() ==> (#[trigger] d.runs()[i]).min_key() <= d.runs()[i].max_key(),
        forall|i: int| 0 <= i < d.runs().len() - 1 ==> (#[trigger] d.runs()[i]).max_key() <= d.runs()[i + 1].min_key(),
{
    let rs = d.runs();
    assert forall|i: int| 0 <= i < rs.len() implies (#[trigger] rs[i]).min_key() <= rs[i].max_key() by {
        rs[i].lemma_bounds();
    }
    assert forall|i: int| 0 <= i < rs.len() - 1 implies (#[trigger] rs[i]).max_key() <= rs[i + 1].min_key() by {
        assert(linked(rs[i], rs[i + 1]));
    }
}

/// Where no two held calls share a depth, the runs' bounds are strictly
/// increasing: each run ends strictly below the depth where the next begins.
pub proof fn lemma_partition_strict<T, P: Copy>(d: &Drawer<T, P>)
    requires
        d.wf(),
        forall|a: int, b: int|
            0 <= a < b < d.instances().len() ==> #[trigger] d.instances()[a].depth.key != #[trigger] d.instances()[b].depth.key,
    ensures
        forall|i: int| 0 <= i < d.runs().len() - 1 ==> (#[trigger] d.runs()[i]).max_key() < d.runs()[i + 1].min_key(),
{
    let rs = d.runs();
    assert forall|i: int| 0 <= i < rs.len() - 1 implies (#[trigger] rs[i]).max_key() < rs[i + 1].min_key() by {
        assert(linked(rs[i], rs[i + 1]));
        rs[i].lemma_bounds();
        rs[i + 1].lemma_bounds();
        let pre = rs.subrange(0, i);
        let post = rs.subrange(i + 2, rs.len() as int);
        assert(rs == pre + seq![rs[i]] + seq![rs[i + 1]] + post);
        lemma_flatten_concat(pre, seq![rs[i]]);
        lemma_flatten_concat(pre + seq![rs[i]], seq![rs[i + 1]]);
        lemma_flatten_concat(pre + seq![rs[i]] + seq![rs[i + 1]], post);
        lemma_flatten_single(rs[i]);
        lemma_flatten_single(rs[i + 1]);
        let f = d.instances();
        let fp = flatten_runs(pre);
        let a = rs[i].items();
        let b = rs[i + 1].items();
        assert(f == fp + a + b + flatten_runs(post));
        let p = fp.len() + a.len() - 1;
        assert(f[p] == a.last());
        assert(f[p + 1] == b[0]);
        assert(f[p].depth.key != f[p + 1].depth.key);
    }
}

/// A drawer to which nothing was submitted since it was made or cleared
/// holds no run, so rendering it issues nothing.
pub proof fn lemma_nothing_submitted<T, P: Copy>(d: &Drawer<T, P>)
    requires
        d.wf(),
        d.submitted().len() == 0,
    ensures
        d.runs().len() == 0,
        d.instances().len() == 0,
{
    lemma_depth_sort(d.submitted());
    if d.runs().len() > 0 {
        d.runs()[0].lemma_bounds();
        lemma_flatten_nonempty(d.runs());
    }
}

/// Sorting by depth, as calls are placed, keeps every call and gives a
/// sorted sequence.
pub proof fn lemma_depth_sort<P>(s: Seq<DrawCall<P>>)
    ensures
        depth_sorted(depth_sort(s)),
        depth_sort(s).to_multiset() == s.to_multiset(),
        depth_sort(s).len() == s.len(),
    decreases s.len(),
{
    if s.len() == 0 {
        assert(s =~= depth_sort(s));
    } else {
        let init = s.drop_last();
        lemma_depth_sort(init);
        let t = depth_sort(init);
        lemma_insertion_point(t, s.last().depth.key);
        lemma_insert_sorted(t, s.last());
        vstd::seq_lib::to_multiset_insert(t, insertion_point(t, s.last().depth.key), s.last());
        assert(s == init.push(s.last()));
        vstd::seq_lib::to_multiset_build(init, s.last());
    }
}

/// Flattening the runs gives every submitted call sorted by depth alone,
/// exactly as a stable sort of the submissions by depth would: texture
/// grouping never reorders depth.
pub proof fn lemma_depth_order<T, P: Copy>(d: &Drawer<T, P>)
    requires
        d.wf(),
    ensures
        depth_sorted(d.instances()),
        d.instances() == depth_sort(d.submitted()),
        d.instances().to_multiset() == d.submitted().to_multiset(),
{
    lemma_depth_sort(d.submitted());
}

/// No call is lost: the runs hold as many calls as were submitted, and each
/// submitted call, payload and depth included, is among them.
pub proof fn lemma_no_data_loss<T, P: Copy>(d: &Drawer<T, P>)
    requires
        d.wf(),
    ensures
        d.instances().len() == d.submitted().len(),
        forall|i: int| 0 <= i < d.submitted().len() ==> d.instances().contains(#[trigger] d.submitted()[i]),
{
    lemma_depth_sort(d.submitted());
    assert forall|i: int| 0 <= i < d.submitted().len() implies d.instances().contains(#[trigger] d.submitted()[i]) by {
        let c = d.submitted()[i];
        vstd::seq_lib::to_multiset_contains(d.submitted(), c);
        vstd::seq_lib::to_multiset_contains(d.instances(), c);
        assert(d.submitted().contains(c));
    }
}

/// Appending a non-empty block of one texture adds one group, unless the
/// block continues the last group.
proof fn lemma_groups_block(a: Seq<ImageKey>, b: Seq<ImageKey>, t: ImageKey)
    requires
        b.len() > 0,
        forall|i: int| 0 <= i < b.len() ==> b[i] == t,
    ensures
        texture_groups(a + b) == texture_groups(a) + (if a.len() > 0 && a.last() == t { 0nat } else { 1nat }),
    decreases b.len(),
{
    if b.len() == 1 {
        assert((a + b).drop_last() == a);
    } else {
        lemma_groups_block(a, b.drop_last(), t);
        assert((a + b).drop_last() == a + b.drop_last());
    }
}

proof fn lemma_runs_are_groups<P: Copy>(rs: Seq<DrawUnit<P>>)
    requires
        chained(rs),
    ensures
        texture_groups(textures_of(flatten_runs(rs))) == rs.len(),
        rs.len() > 0 ==> flatten_runs(rs).len() > 0 && flatten_runs(rs).last().image_key == rs.last().texture(),
    decreases rs.len(),
{
    if rs.len() > 0 {
        let init = rs.drop_last();
        let last = rs.last();
        assert(init == rs.subrange(0, rs.len() - 1));
        crate::chain::lemma_chained_subrange(rs, 0, rs.len() - 1);
        lemma_runs_are_groups(init);
        last.lemma_bounds();
        last.lemma_textures();
        let fi = flatten_runs(init);
        let b = textures_of(last.items());
        assert(textures_of(flatten_runs(rs)) =~= textures_of(fi) + b);
        if init.len() > 0 {
            assert(linked(rs[rs.len() - 2], rs[rs.len() - 2 + 1]));
            assert(textures_of(fi).last() == init.last().texture());
        }
        lemma_groups_block(textures_of(fi), b, last.texture());
    }
}

/// Runs are as few as can be: their number is the number of maximal groups
/// of same-texture neighbours among the calls in depth order.
pub proof fn lemma_batch_minimal<T, P: Copy>(d: &Drawer<T, P>)
    requires
        d.wf(),
    ensures
        d.runs().len() == texture_groups(textures_of(d.instances())),
{
    lemma_runs_are_groups(d.runs());
}

} // verus!
