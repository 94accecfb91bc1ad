use vstd::prelude::*;
use crate::trajectories_pruning::TrajectoryView;

verus! {

/// Number of trajectories of `vs` that are not excluded and hold `p`.
pub open spec fn live_count(vs: Seq<TrajectoryView>, p: usize) -> nat
    decreases vs.len(),
{
    if vs.len() == 0 {
        0
    } else {
        live_count(vs.drop_last(), p) + if !vs.last().excluded && vs.last().points.contains(p) {
            1nat
        } else {
            0nat
        }
    }
}

/// A prefix of a list counts no more holders than the list, and a list no
/// more than its length.
pub proof fn lemma_live_count_prefix(vs: Seq<TrajectoryView>, m: int, p: usize)
    requires
        0 <= m <= vs.len(),
    ensures
        live_count(vs.take(m), p) <= live_count(vs, p),
        live_count(vs, p) <= vs.len(),
    decreases vs.len(),
{
    if vs.len() > 0 {
        lemma_live_count_prefix(vs.drop_last(), if m == vs.len() { m - 1 } else { m }, p);
        if m < vs.len() {
            assert(vs.take(m) =~= vs.drop_last().take(m));
        } else {
            assert(vs.take(m) =~= vs);
        }
    } else {
        assert(vs.take(m) =~= vs);
    }
}

/// Extending a prefix by one entry adds that entry's contribution.
pub proof fn lemma_live_count_step(vs: Seq<TrajectoryView>, m: int, p: usize)
    requires
        0 <= m < vs.len(),
    ensures
        live_count(vs.take(m + 1), p) == live_count(vs.take(m), p) + if !vs[m].excluded && vs[m].points.contains(p) {
            1nat
        } else {
            0nat
        },
{
    assert(vs.take(m + 1).drop_last() =~= vs.take(m));
}

/// Excluding a live trajectory takes one off the count of each of its points.
pub proof fn lemma_live_count_exclude(vs: Seq<TrajectoryView>, k: int, p: usize)
    requires
        0 <= k < vs.len(),
        !vs[k].excluded,
    ensures
        live_count(vs.update(k, TrajectoryView { excluded: true, ..vs[k] }), p) + (if vs[k].points.contains(p) {
            1nat
        } else {
            0nat
        }) == live_count(vs, p),
    decreases vs.len(),
{
    let t = TrajectoryView { excluded: true, ..vs[k] };
    let vs2 = vs.update(k, t);
    if k == vs.len() - 1 {
        assert(vs2.drop_last() =~= vs.drop_last());
    } else {
        lemma_live_count_exclude(vs.drop_last(), k, p);
        assert(vs2.drop_last() =~= vs.drop_last().update(k, t));
    }
}

/// Point membership in a prefix grows by one point at each step.
pub proof fn lemma_take_push_contains(s: Seq<usize>, j: int, q: usize)
    requires
        0 <= j < s.len(),
    ensures
        s.take(j + 1).contains(q) == (s.take(j).contains(q) || s[j] == q),
{
    let t = s.take(j);
    assert(s.take(j + 1) =~= t.push(s[j]));
    if t.push(s[j]).contains(q) && s[j] != q {
        let m = choose|m: int| 0 <= m < t.push(s[j]).len() && t.push(s[j])[m] == q;
        assert(t[m] == q);
    }
    if t.contains(q) {
        let m = choose|m: int| 0 <= m < t.len() && t[m] == q;
        assert(t.push(s[j])[m] == q);
    }
    if s[j] == q {
        assert(t.push(s[j])[j] == q);
    }
}

/// Number of points of `pts` whose count, `extra[p]` plus the live
/// trajectories of `vs` that hold `p`, is exactly one.
pub open spec fn single_count(pts: Seq<usize>, extra: Seq<int>, vs: Seq<TrajectoryView>) -> nat
    decreases pts.len(),
{
    if pts.len() == 0 {
        0
    } else {
        single_count(pts.drop_last(), extra, vs) + if extra[pts.last() as int] + live_count(vs, pts.last()) == 1 {
            1nat
        } else {
            0nat
        }
    }
}

/// The list as one pass over it sees it at index `k`: entries before `k`
/// already updated, the others as they were.
pub open spec fn pass_state(o: Seq<TrajectoryView>, f: Seq<TrajectoryView>, k: int) -> Seq<TrajectoryView> {
    f.take(k) + o.skip(k)
}

/// Number of trajectories of `vs` that are not excluded.
pub open spec fn live_total(vs: Seq<TrajectoryView>) -> nat
    decreases vs.len(),
{
    if vs.len() == 0 {
        0
    } else {
        live_total(vs.drop_last()) + if vs.last().excluded {
            0nat
        } else {
            1nat
        }
    }
}

/// Excluding more trajectories never raises the number of live ones, and
/// excluding one more lowers it.
pub proof fn lemma_live_total_monotone(a: Seq<TrajectoryView>, b: Seq<TrajectoryView>)
    requires
        a.len() == b.len(),
        forall|k: int| 0 <= k < a.len() ==> a[k].excluded ==> b[k].excluded,
    ensures
        live_total(b) <= live_total(a),
        (exists|k: int| 0 <= k < a.len() && !a[k].excluded && b[k].excluded) ==> live_total(b) < live_total(a),
    decreases a.len(),
{
    if a.len() > 0 {
        lemma_live_total_monotone(a.drop_last(), b.drop_last());
        if exists|k: int| 0 <= k < a.len() && !a[k].excluded && b[k].excluded {
            let k = choose|k: int| 0 <= k < a.len() && !a[k].excluded && b[k].excluded;
            if k < a.len() - 1 {
                assert(!a.drop_last()[k].excluded && b.drop_last()[k].excluded);
            }
        }
    }
}

/// Number of live trajectories, over both lists, that hold `p`.
pub open spec fn holders(red: Seq<TrajectoryView>, black: Seq<TrajectoryView>, p: usize) -> nat {
    live_count(red, p) + live_count(black, p)
}

/// Number of points of `pts` that exactly one live trajectory of either
/// list holds.
pub open spec fn private_points(pts: Seq<usize>, red: Seq<TrajectoryView>, black: Seq<TrajectoryView>) -> nat
    decreases pts.len(),
{
    if pts.len() == 0 {
        0
    } else {
        private_points(pts.drop_last(), red, black) + if holders(red, black, pts.last()) == 1 {
            1nat
        } else {
            0nat
        }
    }
}

/// A trajectory is unnecessary when more than one of its points belongs to
/// no other live trajectory.
pub open spec fn unnecessary(t: TrajectoryView, red: Seq<TrajectoryView>, black: Seq<TrajectoryView>) -> bool {
    private_points(t.points, red, black) > 1
}

/// The live count of each position below `n`.
pub open spec fn counts_of(vs: Seq<TrajectoryView>, n: nat) -> Seq<int> {
    Seq::new(n, |p: int| live_count(vs, p as usize) as int)
}

/// Counting singles with the other list's counts as `extra` is counting
/// private points over both lists.
pub proof fn lemma_single_count_private(
    pts: Seq<usize>,
    extra: Seq<int>,
    vs: Seq<TrajectoryView>,
    red: Seq<TrajectoryView>,
    black: Seq<TrajectoryView>,
)
    requires
        forall|i: int| 0 <= i < pts.len() ==> extra[pts[i] as int] + live_count(vs, pts[i]) == holders(red, black, pts[i]),
    ensures
        single_count(pts, extra, vs) == private_points(pts, red, black),
    decreases pts.len(),
{
    if pts.len() > 0 {
        let d = pts.drop_last();
        assert forall|i: int| 0 <= i < d.len() implies extra[d[i] as int] + live_count(vs, d[i]) == holders(red, black, d[i]) by {
            assert(d[i] == pts[i]);
        }
        lemma_single_count_private(d, extra, vs, red, black);
        assert(pts.last() == pts[pts.len() - 1]);
    }
}

/// Points of the live trajectories of `vs`, in order, repeats kept.
pub open spec fn live_points(vs: Seq<TrajectoryView>) -> Seq<usize>
    decreases vs.len(),
{
    if vs.len() == 0 {
        Seq::empty()
    } else if vs.last().excluded {
        live_points(vs.drop_last())
    } else {
        live_points(vs.drop_last()) + vs.last().points
    }
}

/// `acc` followed by the points of `s` that are not yet there, each once, in
/// order of first occurrence.
pub open spec fn extend_distinct(acc: Seq<usize>, s: Seq<usize>) -> Seq<usize>
    decreases s.len(),
{
    if s.len() == 0 {
        acc
    } else {
        let r = extend_distinct(acc, s.drop_last());
        if r.contains(s.last()) {
            r
        } else {
            r.push(s.last())
        }
    }
}

pub proof fn lemma_extend_distinct(acc: Seq<usize>, s: Seq<usize>)
    requires
        acc.no_duplicates(),
    ensures
        extend_distinct(acc, s).no_duplicates(),
        forall|p: usize| extend_distinct(acc, s).contains(p) <==> (acc.contains(p) || s.contains(p)),
    decreases s.len(),
{
    if s.len() > 0 {
        let d = s.drop_last();
        lemma_extend_distinct(acc, d);
        let r = extend_distinct(acc, d);
        assert forall|p: usize| extend_distinct(acc, s).contains(p) <==> (acc.contains(p) || s.contains(p)) by {
            if d.contains(p) {
                let i = choose|i: int| 0 <= i < d.len() && d[i] == p;
                assert(s[i] == p);
            }
            if s.contains(p) && p != s.last() {
                let i = choose|i: int| 0 <= i < s.len() && s[i] == p;
                assert(d[i] == p);
            }
            if !r.contains(s.last()) {
                if r.push(s.last()).contains(p) && p != s.last() {
                    let i = choose|i: int| 0 <= i < r.push(s.last()).len() && r.push(s.last())[i] == p;
                    assert(r[i] == p);
                }
                if r.contains(p) {
                    let i = choose|i: int| 0 <= i < r.len() && r[i] == p;
                    assert(r.push(s.last())[i] == p);
                }
                assert(r.push(s.last())[r.len() as int] == s.last());
            }
        }
    }
}

/// A point is among the live points exactly when a live trajectory holds it.
pub proof fn lemma_live_points_contains(vs: Seq<TrajectoryView>, p: usize)
    ensures
        live_points(vs).contains(p) <==> exists|m: int| 0 <= m < vs.len() && !vs[m].excluded && (#[trigger] vs[m]).points.contains(p),
    decreases vs.len(),
{
    if vs.len() > 0 {
        let d = vs.drop_last();
        lemma_live_points_contains(d, p);
        let a = live_points(d);
        if exists|m: int| 0 <= m < d.len() && !d[m].excluded && (#[trigger] d[m]).points.contains(p) {
            let m = choose|m: int| 0 <= m < d.len() && !d[m].excluded && (#[trigger] d[m]).points.contains(p);
            assert(vs[m] == d[m]);
        }
        if exists|m: int| 0 <= m < vs.len() && !vs[m].excluded && (#[trigger] vs[m]).points.contains(p) {
            let m = choose|m: int| 0 <= m < vs.len() && !vs[m].excluded && (#[trigger] vs[m]).points.contains(p);
            if m < d.len() {
                assert(d[m] == vs[m]);
            }
        }
        if !vs.last().excluded {
            let b = vs.last().points;
            if (a + b).contains(p) {
                let i = choose|i: int| 0 <= i < (a + b).len() && (a + b)[i] == p;
                if i < a.len() {
                    assert(a[i] == p);
                } else {
                    assert(b[i - a.len()] == p);
                }
            }
            if a.contains(p) {
                let i = choose|i: int| 0 <= i < a.len() && a[i] == p;
                assert((a + b)[i] == p);
            }
            if b.contains(p) {
                let i = choose|i: int| 0 <= i < b.len() && b[i] == p;
                assert((a + b)[i + a.len()] == p);
            }
        }
    }
}

/// The last `c` moves of `s`.
pub open spec fn recent(s: Seq<usize>, c: int) -> Seq<usize> {
    s.skip(s.len() - c)
}

pub proof fn lemma_recent_push(s: Seq<usize>, c: int, x: usize)
    requires
        1 <= c,
        c - 1 <= s.len(),
        recent(s, c - 1).no_duplicates(),
        !s.contains(x),
    ensures
        recent(s.push(x), c) == recent(s, c - 1).push(x),
        recent(s.push(x), c).no_duplicates(),
{
    let r = recent(s, c - 1);
    assert(recent(s.push(x), c) =~= r.push(x));
    assert forall|i: int| 0 <= i < r.len() implies r[i] != x by {
        assert(r[i] == s[s.len() - (c - 1) + i]);
    }
    assert forall|i: int, j: int| 0 <= i < j < r.push(x).len() implies r.push(x)[i] != r.push(x)[j] by {
        if j == r.len() {
            assert(r[i] != x);
        }
    }
}

/// The red list after one pass of the unnecessary-trajectory rule over its
/// first `k` entries: each live entry with more than one private point,
/// counted as the pass reaches it, is excluded.
pub open spec fn red_pass(red: Seq<TrajectoryView>, black: Seq<TrajectoryView>, k: nat) -> Seq<TrajectoryView>
    decreases k,
{
    if k == 0 || k > red.len() {
        red
    } else {
        let p = red_pass(red, black, (k - 1) as nat);
        let t = red[k - 1];
        if !t.excluded && private_points(t.points, p, black) > 1 {
            p.update(k - 1, TrajectoryView { excluded: true, ..t })
        } else {
            p
        }
    }
}

/// `red_pass` for the black list.
pub open spec fn black_pass(red: Seq<TrajectoryView>, black: Seq<TrajectoryView>, k: nat) -> Seq<TrajectoryView>
    decreases k,
{
    if k == 0 || k > black.len() {
        black
    } else {
        let p = black_pass(red, black, (k - 1) as nat);
        let t = black[k - 1];
        if !t.excluded && private_points(t.points, red, p) > 1 {
            p.update(k - 1, TrajectoryView { excluded: true, ..t })
        } else {
            p
        }
    }
}

/// Passes over the red list, and over the black list when the red one is
/// left unchanged, until neither changes, for at most `fuel` changing passes.
pub open spec fn exclusion_rounds(red: Seq<TrajectoryView>, black: Seq<TrajectoryView>, fuel: nat) -> (Seq<TrajectoryView>, Seq<TrajectoryView>)
    decreases fuel,
{
    if fuel == 0 {
        (red, black)
    } else {
        let r2 = red_pass(red, black, red.len());
        if r2 != red {
            exclusion_rounds(r2, black, (fuel - 1) as nat)
        } else {
            let b2 = black_pass(red, black, black.len());
            if b2 != black {
                exclusion_rounds(red, b2, (fuel - 1) as nat)
            } else {
                (red, black)
            }
        }
    }
}

pub proof fn lemma_live_total_len(vs: Seq<TrajectoryView>)
    ensures
        live_total(vs) <= vs.len(),
    decreases vs.len(),
{
    if vs.len() > 0 {
        lemma_live_total_len(vs.drop_last());
    }
}

} // verus!
