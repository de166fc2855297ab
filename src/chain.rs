//! Sequences of runs: their flattening into one sequence of calls, and the
//! conditions under which that flattening is sorted by depth.
use vstd::prelude::*;

use crate::run::{depth_sorted, insertion_point, lemma_insertion_point, DrawCall, DrawUnit};

verus! {

/// The calls of every run, run after run.
pub open spec fn flatten_runs<P: Copy>(rs: Seq<DrawUnit<P>>) -> Seq<DrawCall<P>>
    decreases rs.len(),
{
    if rs.len() == 0 {
        Seq::empty()
    } else {
        flatten_runs(rs.drop_last()) + rs.last().items()
    }
}

/// Run `a` may stand right before run `b`: it ends at or below the depth
/// where `b` begins, and the two differ in texture.
pub open spec fn linked<P: Copy>(a: DrawUnit<P>, b: DrawUnit<P>) -> bool {
    &&& a.max_key() <= b.min_key()
    &&& a.texture() != b.texture()
}

/// Every run is well formed, and each is linked to the next.
pub open spec fn chained<P: Copy>(rs: Seq<DrawUnit<P>>) -> bool {
    &&& forall|i: int| 0 <= i < rs.len() ==> (#[trigger] rs[i]).wf()
    &&& forall|i: int| 0 <= i < rs.len() - 1 ==> #[trigger] linked(rs[i], rs[i + 1])
}

/// The sequence `s` sorted by depth, each call placed after every earlier
/// call of equal or lower depth: a stable sort by depth alone.
pub open spec fn depth_sort<P>(s: Seq<DrawCall<P>>) -> Seq<DrawCall<P>>
    decreases s.len(),
{
    if s.len() == 0 {
        Seq::empty()
    } else {
        let t = depth_sort(s.drop_last());
        t.insert(insertion_point(t, s.last().depth.key), s.last())
    }
}

pub proof fn lemma_flatten_concat<P: Copy>(a: Seq<DrawUnit<P>>, b: Seq<DrawUnit<P>>)
    ensures
        flatten_runs(a + b) == flatten_runs(a) + flatten_runs(b),
    decreases b.len(),
{
    if b.len() == 0 {
        assert(a + b == a);
        assert(flatten_runs(a) + flatten_runs(b) == flatten_runs(a));
    } else {
        lemma_flatten_concat(a, b.drop_last());
        assert((a + b).drop_last() == a + b.drop_last());
        assert((a + b).last() == b.last());
        assert(flatten_runs(a + b) == flatten_runs(a + b.drop_last()) + b.last().items());
        assert(flatten_runs(a) + flatten_runs(b) == flatten_runs(a) + flatten_runs(b.drop_last()) + b.last().items());
    }
}

pub proof fn lemma_flatten_single<P: Copy>(r: DrawUnit<P>)
    ensures
        flatten_runs(seq![r]) == r.items(),
{
    assert(seq![r].drop_last() == Seq::<DrawUnit<P>>::empty());
    assert(flatten_runs(Seq::<DrawUnit<P>>::empty()) == Seq::<DrawCall<P>>::empty());
    assert(Seq::<DrawCall<P>>::empty() + r.items() == r.items());
}

/// Parts of a chained sequence are chained.
pub proof fn lemma_chained_subrange<P: Copy>(rs: Seq<DrawUnit<P>>, lo: int, hi: int)
    requires
        chained(rs),
        0 <= lo <= hi <= rs.len(),
    ensures
        chained(rs.subrange(lo, hi)),
{
    let s = rs.subrange(lo, hi);
    assert forall|i: int| 0 <= i < s.len() - 1 implies #[trigger] linked(s[i], s[i + 1]) by {
        assert(s[i] == rs[lo + i] && s[i + 1] == rs[lo + i + 1]);
        assert(linked(rs[lo + i], rs[lo + i + 1]));
    }
}

/// Two chained sequences that meet properly make a chained sequence.
pub proof fn lemma_chained_concat<P: Copy>(a: Seq<DrawUnit<P>>, b: Seq<DrawUnit<P>>)
    requires
        chained(a),
        chained(b),
        a.len() > 0 && b.len() > 0 ==> linked(a.last(), b[0]),
    ensures
        chained(a + b),
{
    let s = a + b;
    assert forall|i: int| 0 <= i < s.len() implies (#[trigger] s[i]).wf() by {
        if i < a.len() {
            assert(s[i] == a[i]);
        } else {
            assert(s[i] == b[i - a.len()]);
        }
    }
    assert forall|i: int| 0 <= i < s.len() - 1 implies #[trigger] linked(s[i], s[i + 1]) by {
        if i < a.len() - 1 {
            assert(s[i] == a[i] && s[i + 1] == a[i + 1]);
            assert(linked(a[i], a[i + 1]));
        } else if i == a.len() - 1 {
            assert(s[i] == a.last() && s[i + 1] == b[0]);
        } else {
            let k = i - a.len();
            assert(s[i] == b[k] && s[i + 1] == b[k + 1]);
            assert(linked(b[k], b[k + 1]));
        }
    }
}

/// The calls of a chained sequence are sorted, and lie between the least
/// depth of its first run and the greatest depth of its last.
pub proof fn lemma_flatten_sorted<P: Copy>(rs: Seq<DrawUnit<P>>)
    requires
        chained(rs),
    ensures
        depth_sorted(flatten_runs(rs)),
        rs.len() > 0 ==> forall|i: int| 0 <= i < flatten_runs(rs).len() ==>
            rs[0].min_key() <= (#[trigger] flatten_runs(rs)[i]).depth.key <= rs.last().max_key(),
    decreases rs.len(),
{
    if rs.len() > 0 {
        let init = rs.drop_last();
        let last = rs.last();
        lemma_chained_subrange(rs, 0, rs.len() - 1);
        assert(init == rs.subrange(0, rs.len() - 1));
        lemma_flatten_sorted(init);
        let f = flatten_runs(rs);
        let fi = flatten_runs(init);
        assert(f == fi + last.items());
        assert(last.wf());
        reveal(DrawUnit::wf);
        assert forall|j: int| 0 <= j < last.items().len() implies last.min_key() <= (#[trigger] last.items()[j]).depth.key
            <= last.max_key() by {
            assert(last.items()[0].depth.key <= last.items()[j].depth.key);
            assert(last.items()[j].depth.key <= last.items()[last.items().len() - 1].depth.key);
        }
        if init.len() > 0 {
            assert(init.last() == rs[rs.len() - 2]);
            assert(init[0] == rs[0]);
            assert(linked(rs[rs.len() - 2], rs[rs.len() - 2 + 1]));
        }
        assert forall|i: int, j: int| 0 <= i <= j < f.len() implies #[trigger] f[i].depth.key <= #[trigger] f[j].depth.key by {
            if j < fi.len() {
                assert(f[i] == fi[i] && f[j] == fi[j]);
            } else if i >= fi.len() {
                assert(f[i] == last.items()[i - fi.len()] && f[j] == last.items()[j - fi.len()]);
            } else {
                assert(f[i] == fi[i] && f[j] == last.items()[j - fi.len()]);
            }
        }
        assert forall|i: int| 0 <= i < f.len() implies rs[0].min_key() <= (#[trigger] f[i]).depth.key <= rs.last().max_key() by {
            if i < fi.len() {
                assert(f[i] == fi[i]);
                if init.len() > 0 {
                    assert(rs[0].min_key() <= rs[0].max_key()) by {
                        assert(rs[0].wf());
                        reveal(DrawUnit::wf);
                        assert(rs[0].items()[0].depth.key <= rs[0].items()[rs[0].items().len() - 1].depth.key);
                    }
                }
            } else {
                assert(f[i] == last.items()[i - fi.len()]);
                if init.len() > 0 {
                    assert(init[0].min_key() <= fi[0].depth.key) by {
                        assert(init[0].wf());
                        reveal(DrawUnit::wf);
                        assert(init[0].items().len() > 0);
                        lemma_flatten_nonempty(init);
                    }
                }
            }
        }
    }
}

pub proof fn lemma_flatten_nonempty<P: Copy>(rs: Seq<DrawUnit<P>>)
    requires
        rs.len() > 0,
        rs[0].items().len() > 0,
    ensures
        flatten_runs(rs).len() > 0,
{
    lemma_flatten_concat(seq![rs[0]], rs.subrange(1, rs.len() as int));
    assert(seq![rs[0]] + rs.subrange(1, rs.len() as int) == rs);
    lemma_flatten_single(rs[0]);
}

/// In a sorted sequence, a position that parts the calls at most `z` from
/// those above it is the insertion point of `z`.
pub proof fn lemma_insertion_point_unique<P>(s: Seq<DrawCall<P>>, z: u32, p: int)
    requires
        depth_sorted(s),
        0 <= p <= s.len(),
        forall|i: int| 0 <= i < p ==> #[trigger] s[i].depth.key <= z,
        forall|i: int| p <= i < s.len() ==> #[trigger] s[i].depth.key > z,
    ensures
        insertion_point(s, z) == p,
{
    lemma_insertion_point(s, z);
    let q = insertion_point(s, z);
    if q < p {
        assert(s[q].depth.key <= z);
    }
    if q > p {
        assert(s[p].depth.key > z);
    }
}

/// Replacing the runs `a .. b` of a chained sequence by runs `mid` whose
/// calls are those of the replaced runs with `c` inserted at `q` keeps the
/// sequence chained, and inserts `c` at its insertion point in the whole,
/// provided every call before the place is at most `c`'s depth and every
/// call after it is above.
pub proof fn lemma_splice<P: Copy>(
    rs: Seq<DrawUnit<P>>,
    a: int,
    b: int,
    mid: Seq<DrawUnit<P>>,
    c: DrawCall<P>,
    q: int,
)
    requires
        chained(rs),
        chained(mid),
        0 <= a <= b <= rs.len(),
        mid.len() > 0,
        a > 0 ==> linked(rs[a - 1], mid[0]),
        b < rs.len() ==> linked(mid.last(), rs[b]),
        forall|j: int| 0 <= j < a ==> #[trigger] rs[j].max_key() <= c.depth.key,
        forall|j: int| b <= j < rs.len() ==> #[trigger] rs[j].min_key() > c.depth.key,
        0 <= q <= flatten_runs(rs.subrange(a, b)).len(),
        forall|i: int| 0 <= i < q ==> #[trigger] flatten_runs(rs.subrange(a, b))[i].depth.key <= c.depth.key,
        forall|i: int|
            q <= i < flatten_runs(rs.subrange(a, b)).len() ==> #[trigger] flatten_runs(rs.subrange(a, b))[i].depth.key
                > c.depth.key,
        flatten_runs(mid) == flatten_runs(rs.subrange(a, b)).insert(q, c),
    ensures
        chained(rs.subrange(0, a) + mid + rs.subrange(b, rs.len() as int)),
        flatten_runs(rs.subrange(0, a) + mid + rs.subrange(b, rs.len() as int)) == flatten_runs(rs).insert(
            insertion_point(flatten_runs(rs), c.depth.key),
            c,
        ),
{
    let z = c.depth.key;
    let pre = rs.subrange(0, a);
    let md = rs.subrange(a, b);
    let post = rs.subrange(b, rs.len() as int);
    assert(rs == pre + md + post);
    lemma_chained_subrange(rs, 0, a);
    lemma_chained_subrange(rs, b, rs.len() as int);
    if a > 0 {
        assert(pre.last() == rs[a - 1]);
    }
    lemma_chained_concat(pre, mid);
    assert((pre + mid).last() == mid.last());
    if post.len() > 0 {
        assert(post[0] == rs[b]);
    }
    lemma_chained_concat(pre + mid, post);
    lemma_flatten_concat(pre, md);
    lemma_flatten_concat(pre + md, post);
    lemma_flatten_concat(pre, mid);
    lemma_flatten_concat(pre + mid, post);
    let fp = flatten_runs(pre);
    let fm = flatten_runs(md);
    let fo = flatten_runs(post);
    let f = flatten_runs(rs);
    assert(f == fp + fm + fo);
    assert(fp + fm.insert(q, c) + fo =~= f.insert(fp.len() + q, c));
    lemma_flatten_sorted(rs);
    lemma_flatten_sorted(pre);
    lemma_flatten_sorted(post);
    assert forall|i: int| 0 <= i < fp.len() + q implies #[trigger] f[i].depth.key <= z by {
        if i < fp.len() {
            assert(f[i] == fp[i]);
            assert(fp[i].depth.key <= pre.last().max_key());
        } else {
            assert(f[i] == fm[i - fp.len()]);
        }
    }
    assert forall|i: int| fp.len() + q <= i < f.len() implies #[trigger] f[i].depth.key > z by {
        if i < fp.len() + fm.len() {
            assert(f[i] == fm[i - fp.len()]);
        } else {
            assert(f[i] == fo[i - fp.len() - fm.len()]);
            assert(post[0] == rs[b]);
            assert(post[0].min_key() <= fo[i - fp.len() - fm.len()].depth.key);
        }
    }
    lemma_insertion_point_unique(f, z, fp.len() + q);
}

/// Replacing run `k` by a run of the same texture whose calls are run `k`'s
/// with `c` inserted at `q`, where the bounds still meet the neighbours,
/// inserts `c` at its insertion point in the whole.
pub proof fn lemma_replace_run<P: Copy>(rs: Seq<DrawUnit<P>>, k: int, r2: DrawUnit<P>, c: DrawCall<P>, q: int)
    requires
        chained(rs),
        0 <= k < rs.len(),
        r2.wf(),
        r2.texture() == rs[k].texture(),
        0 <= q <= rs[k].items().len(),
        r2.items() == rs[k].items().insert(q, c),
        k > 0 ==> rs[k - 1].max_key() <= r2.min_key(),
        k + 1 < rs.len() ==> r2.max_key() <= rs[k + 1].min_key(),
        forall|j: int| 0 <= j < k ==> #[trigger] rs[j].max_key() <= c.depth.key,
        forall|j: int| k < j < rs.len() ==> #[trigger] rs[j].min_key() > c.depth.key,
        forall|i: int| 0 <= i < q ==> #[trigger] rs[k].items()[i].depth.key <= c.depth.key,
        forall|i: int| q <= i < rs[k].items().len() ==> #[trigger] rs[k].items()[i].depth.key > c.depth.key,
    ensures
        chained(rs.update(k, r2)),
        flatten_runs(rs.update(k, r2)) == flatten_runs(rs).insert(insertion_point(flatten_runs(rs), c.depth.key), c),
{
    let r = rs[k];
    lemma_flatten_single(r);
    lemma_flatten_single(r2);
    assert(rs.subrange(k, k + 1) == seq![r]);
    assert(rs.update(k, r2) == rs.subrange(0, k) + seq![r2] + rs.subrange(k + 1, rs.len() as int));
    if k > 0 {
        assert(linked(rs[k - 1], rs[k - 1 + 1]));
    }
    if k + 1 < rs.len() {
        assert(linked(rs[k], rs[k + 1]));
    }
    lemma_splice(rs, k, k + 1, seq![r2], c, q);
}

} // verus!
