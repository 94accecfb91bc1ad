use vstd::prelude::*;
use crate::hash_lemmas::{fresh_points, lemma_fresh_points, lemma_shared_single, lemma_xor_assoc, lemma_xor_hash_concat, lemma_xor_hash_split, shared_points, union_points};
use crate::board::{allowed_at, hashes_of, length_of, same_position, Board};
use crate::discovery::{build_trajectories, found};
use crate::live_counts::{
    counts_of, extend_distinct, holders, lemma_extend_distinct, lemma_live_count_exclude,
    lemma_live_count_prefix, lemma_live_count_step, lemma_live_points_contains, lemma_live_total_monotone,
    lemma_single_count_private, lemma_take_push_contains, live_count, live_points, live_total, pass_state,
    single_count, unnecessary, red_pass, black_pass, exclusion_rounds, lemma_live_total_len, private_points,
};
use crate::player::Player;
use crate::zobrist::{xor_hash, Zobrist};

verus! {

/// What a trajectory holds: its points, their combined hash, and whether it
/// has been excluded.
pub struct TrajectoryView {
    pub points: Seq<usize>,
    pub hash: u64,
    pub excluded: bool,
}

impl TrajectoryView {
    /// Distinct points, each a position below `n` with a key in `table`,
    /// and a hash that is the XOR of their keys.
    pub open spec fn wf(self, table: Seq<u64>, n: nat) -> bool {
        &&& self.points.no_duplicates()
        &&& forall|i: int| 0 <= i < self.points.len() ==> (self.points[i] as nat) < n && (self.points[i] as int) < table.len()
        &&& self.hash == xor_hash(table, self.points)
    }
}

/// A forcing move sequence of one player.
pub struct Trajectory {
    points: Vec<usize>,
    hash: u64,
    excluded: bool,
}

impl View for Trajectory {
    type V = TrajectoryView;

    closed spec fn view(&self) -> TrajectoryView {
        TrajectoryView { points: self.points@, hash: self.hash, excluded: self.excluded }
    }
}

impl Trajectory {
    pub fn new(points: Vec<usize>, hash: u64) -> (r: Trajectory)
        ensures
            r@ == (TrajectoryView { points: points@, hash, excluded: false }),
    {
        Trajectory { points, hash, excluded: false }
    }

    pub fn points(&self) -> (r: &Vec<usize>)
        ensures
            r@ == self@.points,
    {
        &self.points
    }

    pub fn hash(&self) -> (r: u64)
        ensures
            r == self@.hash,
    {
        self.hash
    }

    pub fn excluded(&self) -> (r: bool)
        ensures
            r == self@.excluded,
    {
        self.excluded
    }

    pub fn len(&self) -> (r: usize)
        ensures
            r == self@.points.len(),
    {
        self.points.len()
    }

    pub fn exclude(&mut self)
        ensures
            final(self)@ == (TrajectoryView { excluded: true, ..old(self)@ }),
    {
        self.excluded = true;
    }
}

/// Every entry of the scratch array is zero.
pub open spec fn all_zero(board: Seq<u32>) -> bool {
    forall|i: int| 0 <= i < board.len() ==> board[i] == 0
}

/// Hash of the union of the point sets of two trajectories, computed from
/// their hashes: the XOR of both hashes cancels the shared points, so each
/// shared point's key is put back once. `empty_board` serves as a marker
/// array and is left as it was.
pub fn intersection_hash(
    trajectory1: &Trajectory,
    trajectory2: &Trajectory,
    zobrist: &Zobrist,
    empty_board: &mut Vec<u32>,
) -> (r: u64)
    requires
        trajectory1@.wf(zobrist@, old(empty_board)@.len() as nat),
        trajectory2@.wf(zobrist@, old(empty_board)@.len() as nat),
        all_zero(old(empty_board)@),
    ensures
        r == xor_hash(zobrist@, union_points(trajectory1@.points, trajectory2@.points)),
        final(empty_board)@ == old(empty_board)@,
{
    let ghost table = zobrist@;
    let ghost p1 = trajectory1@.points;
    let ghost p2 = trajectory2@.points;
    let ghost n: nat = empty_board@.len();
    assert(n == empty_board.len());
    let mut result = trajectory1.hash() ^ trajectory2.hash();
    let points1 = trajectory1.points();
    let points2 = trajectory2.points();
    let mut i: usize = 0;
    while i < points1.len()
        invariant
            i <= p1.len(),
            points1@ == p1,
            p1 == trajectory1@.points,
            empty_board@.len() == n,
            trajectory1@.wf(table, n as nat),
            forall|q: usize| (q as int) < n ==> #[trigger] empty_board@[q as int] == (if p1.take(i as int).contains(q) { 1u32 } else { 0u32 }),
        decreases p1.len() - i,
    {
        let pos = points1[i];
        assert((p1[i as int] as nat) < n);
        let ghost prev = empty_board@;
        empty_board[pos] = 1;
        proof {
            let t = p1.take(i as int);
            assert(p1.take(i + 1) =~= t.push(pos));
            assert forall|q: usize| (q as int) < n implies empty_board@[q as int] == (if p1.take(i + 1).contains(q) { 1u32 } else { 0u32 }) by {
                if q == pos {
                    assert(t.push(pos)[i as int] == pos);
                } else {
                    assert(empty_board@[q as int] == prev[q as int]);
                    if t.push(pos).contains(q) {
                        let m = choose|m: int| 0 <= m < t.push(pos).len() && t.push(pos)[m] == q;
                        assert(t[m] == q);
                    }
                    if t.contains(q) {
                        let m = choose|m: int| 0 <= m < t.len() && t[m] == q;
                        assert(t.push(pos)[m] == q);
                    }
                }
            }
        }
        i = i + 1;
    }
    assert(p1.take(p1.len() as int) =~= p1);
    proof {
        assert(p2.take(0) =~= Seq::<usize>::empty());
        lemma_xor_assoc(xor_hash(table, p1) ^ xor_hash(table, p2), 0, 0);
    }
    let mut j: usize = 0;
    while j < points2.len()
        invariant
            j <= p2.len(),
            points2@ == p2,
            p2 == trajectory2@.points,
            empty_board@.len() == n,
            trajectory2@.wf(table, n as nat),
            table == zobrist@,
            forall|q: usize| (q as int) < n ==> #[trigger] empty_board@[q as int] == (if p1.contains(q) { 1u32 } else { 0u32 }),
            result == (xor_hash(table, p1) ^ xor_hash(table, p2)) ^ xor_hash(table, shared_points(p1, p2.take(j as int))),
        decreases p2.len() - j,
    {
        let pos = points2[j];
        assert((p2[j as int] as nat) < n);
        assert(p2.take(j + 1).drop_last() =~= p2.take(j as int));
        if empty_board[pos] != 0 {
            let h = zobrist.get_hash(pos);
            proof {
                lemma_xor_assoc(xor_hash(table, p1) ^ xor_hash(table, p2), xor_hash(table, shared_points(p1, p2.take(j as int))), h);
                assert(shared_points(p1, p2.take(j + 1)).drop_last() =~= shared_points(p1, p2.take(j as int)));
            }
            result = result ^ h;
        }
        j = j + 1;
    }
    assert(p2.take(p2.len() as int) =~= p2);
    let mut k: usize = 0;
    while k < points1.len()
        invariant
            k <= p1.len(),
            points1@ == p1,
            p1 == trajectory1@.points,
            empty_board@.len() == n,
            trajectory1@.wf(table, n as nat),
            forall|q: usize| (q as int) < n ==> #[trigger] empty_board@[q as int] == (if p1.contains(q) && !p1.take(k as int).contains(q) { 1u32 } else { 0u32 }),
        decreases p1.len() - k,
    {
        let pos = points1[k];
        assert((p1[k as int] as nat) < n);
        let ghost prev = empty_board@;
        empty_board[pos] = 0;
        proof {
            let t = p1.take(k as int);
            assert(p1.take(k + 1) =~= t.push(pos));
            assert forall|q: usize| (q as int) < n implies empty_board@[q as int] == (if p1.contains(q) && !p1.take(k + 1).contains(q) { 1u32 } else { 0u32 }) by {
                if q == pos {
                    assert(t.push(pos)[k as int] == pos);
                    assert(p1.take(k + 1).contains(pos));
                    assert(empty_board@[q as int] == 0);
                } else {
                    assert(empty_board@[q as int] == prev[q as int]);
                    if t.push(pos).contains(q) {
                        let m = choose|m: int| 0 <= m < t.push(pos).len() && t.push(pos)[m] == q;
                        assert(t[m] == q);
                    }
                    if t.contains(q) {
                        let m = choose|m: int| 0 <= m < t.len() && t[m] == q;
                        assert(t.push(pos)[m] == q);
                    }
                }
            }
        }
        k = k + 1;
    }
    assert(p1.take(p1.len() as int) =~= p1);
    proof {
        assert forall|q: int| 0 <= q < n implies empty_board@[q] == old(empty_board)@[q] by {
            let u = q as usize;
            assert(u as int == q);
            assert(empty_board@[u as int] == 0u32);
        }
        assert(empty_board@ =~= old(empty_board)@);
        let hs = xor_hash(table, shared_points(p1, p2));
        let hf = xor_hash(table, fresh_points(p1, p2));
        let h1 = xor_hash(table, p1);
        lemma_xor_hash_split(table, p1, p2);
        assert((h1 ^ (hs ^ hf)) ^ hs == h1 ^ hf) by (bit_vector);
        lemma_xor_hash_concat(table, p1, fresh_points(p1, p2));
    }
    result
}

/// Every trajectory of `ts` is well formed.
pub open spec fn all_wf(ts: Seq<Trajectory>, table: Seq<u64>, n: nat) -> bool {
    forall|m: int| 0 <= m < ts.len() ==> (#[trigger] ts[m])@.wf(table, n)
}

/// Same points and hash; only the exclusion flag may differ.
pub open spec fn same_body(a: TrajectoryView, b: TrajectoryView) -> bool {
    a.points == b.points && a.hash == b.hash
}

/// Trajectories `i < j`, both strictly shorter than `k`, whose union has the
/// hash of `k`.
pub open spec fn composite_pair(ts: Seq<Trajectory>, table: Seq<u64>, k: int, i: int, j: int) -> bool {
    &&& 0 <= i < j < ts.len()
    &&& ts[k]@.points.len() > ts[i]@.points.len()
    &&& ts[k]@.points.len() > ts[j]@.points.len()
    &&& ts[k]@.hash == xor_hash(table, union_points(ts[i]@.points, ts[j]@.points))
}

/// Trajectory `k` has the hash of the union of two strictly shorter ones.
pub open spec fn composite(ts: Seq<Trajectory>, table: Seq<u64>, k: int) -> bool {
    exists|i: int, j: int| #[trigger] composite_pair(ts, table, k, i, j)
}

/// `composite`, with the pairs limited to those that come before `(i, j)`.
pub open spec fn composite_before(ts: Seq<Trajectory>, table: Seq<u64>, k: int, i: int, j: int) -> bool {
    exists|i2: int, j2: int| #[trigger] composite_pair(ts, table, k, i2, j2) && (i2 < i || (i2 == i && j2 < j))
}

/// Marks as excluded each trajectory whose point set is, by hash, the union
/// of the point sets of two strictly shorter trajectories of the same list.
pub fn exclude_composite_trajectories(
    trajectories: &mut Vec<Trajectory>,
    zobrist: &Zobrist,
    empty_board: &mut Vec<u32>,
)
    requires
        all_wf(old(trajectories)@, zobrist@, old(empty_board)@.len() as nat),
        all_zero(old(empty_board)@),
    ensures
        final(trajectories)@.len() == old(trajectories)@.len(),
        forall|k: int| 0 <= k < old(trajectories)@.len() ==> (#[trigger] final(trajectories)@[k])@ == (TrajectoryView {
            excluded: old(trajectories)@[k]@.excluded || composite(old(trajectories)@, zobrist@, k),
            ..old(trajectories)@[k]@
        }),
        final(empty_board)@ == old(empty_board)@,
{
    let ghost ts0 = trajectories@;
    let ghost table = zobrist@;
    let ghost board0 = empty_board@;
    let ghost n: nat = empty_board@.len();
    let len = trajectories.len();
    let mut k: usize = 0;
    while k < len
        invariant
            k <= len,
            len == ts0.len(),
            trajectories@.len() == len,
            empty_board@ == board0,
            all_zero(board0),
            n == board0.len(),
            table == zobrist@,
            all_wf(ts0, table, n),
            forall|m: int| 0 <= m < len ==> same_body((#[trigger] trajectories@[m])@, ts0[m]@),
            forall|m: int| 0 <= m < len ==> (#[trigger] trajectories@[m])@.excluded == (ts0[m]@.excluded || (m < k && composite(ts0, table, m))),
        decreases len - k,
    {
        let mut i: usize = 0;
        while i + 1 < len
            invariant
                k < len,
                i < len || i == 0,
                len == ts0.len(),
                trajectories@.len() == len,
                empty_board@ == board0,
                all_zero(board0),
                n == board0.len(),
                table == zobrist@,
                all_wf(ts0, table, n),
                forall|m: int| 0 <= m < len ==> same_body((#[trigger] trajectories@[m])@, ts0[m]@),
                forall|m: int| 0 <= m < len && m != k ==> (#[trigger] trajectories@[m])@.excluded == (ts0[m]@.excluded || (m < k && composite(ts0, table, m))),
                trajectories@[k as int]@.excluded == (ts0[k as int]@.excluded || composite_before(ts0, table, k as int, i as int, i + 1)),
            decreases len - i,
        {
            if trajectories[k].len() > trajectories[i].len() {
                let mut j: usize = i + 1;
                while j < len
                    invariant
                        k < len,
                        i < j <= len,
                        len == ts0.len(),
                        trajectories@.len() == len,
                        empty_board@ == board0,
                        all_zero(board0),
                        n == board0.len(),
                        table == zobrist@,
                        all_wf(ts0, table, n),
                        ts0[k as int]@.points.len() > ts0[i as int]@.points.len(),
                        forall|m: int| 0 <= m < len ==> same_body((#[trigger] trajectories@[m])@, ts0[m]@),
                        forall|m: int| 0 <= m < len && m != k ==> (#[trigger] trajectories@[m])@.excluded == (ts0[m]@.excluded || (m < k && composite(ts0, table, m))),
                        trajectories@[k as int]@.excluded == (ts0[k as int]@.excluded || composite_before(ts0, table, k as int, i as int, j as int)),
                    decreases len - j,
                {
                    proof {
                        assert(ts0[i as int]@.wf(table, n));
                        assert(ts0[j as int]@.wf(table, n));
                        assert(same_body(trajectories@[i as int]@, ts0[i as int]@));
                        assert(same_body(trajectories@[j as int]@, ts0[j as int]@));
                        assert(same_body(trajectories@[k as int]@, ts0[k as int]@));
                    }
                    let hit = trajectories[k].len() > trajectories[j].len()
                        && trajectories[k].hash() == intersection_hash(&trajectories[i], &trajectories[j], zobrist, empty_board);
                    proof {
                        if hit {
                            assert(composite_pair(ts0, table, k as int, i as int, j as int));
                        } else {
                            assert(!composite_pair(ts0, table, k as int, i as int, j as int));
                        }
                        assert(composite_before(ts0, table, k as int, i as int, j + 1) == (composite_before(ts0, table, k as int, i as int, j as int) || composite_pair(ts0, table, k as int, i as int, j as int))) by {
                            if composite_before(ts0, table, k as int, i as int, j + 1) {
                                let (i2, j2) = choose|i2: int, j2: int| #[trigger] composite_pair(ts0, table, k as int, i2, j2) && (i2 < i || (i2 == i && j2 < j + 1));
                                if !(i2 == i && j2 == j) {
                                    assert(composite_pair(ts0, table, k as int, i2, j2) && (i2 < i || (i2 == i && j2 < j)));
                                }
                            }
                        }
                    }
                    if hit {
                        trajectories[k].exclude();
                    }
                    j = j + 1;
                }
                proof {
                    assert(composite_before(ts0, table, k as int, i + 1, i + 2) == composite_before(ts0, table, k as int, i as int, len as int)) by {
                        if composite_before(ts0, table, k as int, i + 1, i + 2) {
                            let (i2, j2) = choose|i2: int, j2: int| #[trigger] composite_pair(ts0, table, k as int, i2, j2) && (i2 < i + 1 || (i2 == i + 1 && j2 < i + 2));
                            assert(composite_pair(ts0, table, k as int, i2, j2) && (i2 < i || (i2 == i && j2 < len)));
                        }
                        if composite_before(ts0, table, k as int, i as int, len as int) {
                            let (i2, j2) = choose|i2: int, j2: int| #[trigger] composite_pair(ts0, table, k as int, i2, j2) && (i2 < i || (i2 == i && j2 < len));
                            assert(composite_pair(ts0, table, k as int, i2, j2) && (i2 < i + 1 || (i2 == i + 1 && j2 < i + 2)));
                        }
                    }
                }
            } else {
                proof {
                    assert(composite_before(ts0, table, k as int, i + 1, i + 2) == composite_before(ts0, table, k as int, i as int, i + 1)) by {
                        if composite_before(ts0, table, k as int, i + 1, i + 2) {
                            let (i2, j2) = choose|i2: int, j2: int| #[trigger] composite_pair(ts0, table, k as int, i2, j2) && (i2 < i + 1 || (i2 == i + 1 && j2 < i + 2));
                            assert(same_body(trajectories@[i as int]@, ts0[i as int]@));
                            assert(same_body(trajectories@[k as int]@, ts0[k as int]@));
                            assert(i2 != i);
                            assert(composite_pair(ts0, table, k as int, i2, j2) && (i2 < i || (i2 == i && j2 < i + 1)));
                        }
                        if composite_before(ts0, table, k as int, i as int, i + 1) {
                            let (i2, j2) = choose|i2: int, j2: int| #[trigger] composite_pair(ts0, table, k as int, i2, j2) && (i2 < i || (i2 == i && j2 < i + 1));
                            assert(composite_pair(ts0, table, k as int, i2, j2) && (i2 < i + 1 || (i2 == i + 1 && j2 < i + 2)));
                        }
                    }
                }
            }
            i = i + 1;
        }
        proof {
            let ib: int = i as int;
            assert(composite_before(ts0, table, k as int, ib, ib + 1) == composite(ts0, table, k as int)) by {
                if composite(ts0, table, k as int) {
                    let (i2, j2) = choose|i2: int, j2: int| #[trigger] composite_pair(ts0, table, k as int, i2, j2);
                    assert(composite_pair(ts0, table, k as int, i2, j2) && (i2 < ib || (i2 == ib && j2 < ib + 1)));
                }
            }
        }
        k = k + 1;
    }
    proof {
        assert forall|m: int| 0 <= m < ts0.len() implies (#[trigger] trajectories@[m])@ == (TrajectoryView {
            excluded: ts0[m]@.excluded || composite(ts0, table, m),
            ..ts0[m]@
        }) by {
            assert(same_body(trajectories@[m]@, ts0[m]@));
        }
    }
}

/// The views of a list of trajectories.
pub open spec fn views(ts: Seq<Trajectory>) -> Seq<TrajectoryView> {
    ts.map_values(|t: Trajectory| t@)
}

/// Every trajectory has distinct points, each below `n`.
pub open spec fn points_below(vs: Seq<TrajectoryView>, n: nat) -> bool {
    forall|m: int| 0 <= m < vs.len() ==> {
        &&& (#[trigger] vs[m]).points.no_duplicates()
        &&& forall|i: int| 0 <= i < vs[m].points.len() ==> (vs[m].points[i] as nat) < n
    }
}

/// Adds to each position the number of live trajectories that hold it.
fn project(trajectories: &Vec<Trajectory>, empty_board: &mut Vec<u32>)
    requires
        points_below(views(trajectories@), old(empty_board)@.len() as nat),
        forall|p: usize| (p as int) < old(empty_board)@.len() ==> old(empty_board)@[p as int] + live_count(views(trajectories@), p) <= u32::MAX,
    ensures
        final(empty_board)@.len() == old(empty_board)@.len(),
        forall|p: usize| (p as int) < old(empty_board)@.len() ==> #[trigger] final(empty_board)@[p as int] == old(empty_board)@[p as int] + live_count(views(trajectories@), p),
{
    let ghost vs = views(trajectories@);
    let ghost b0 = empty_board@;
    let ghost n: nat = empty_board@.len();
    let mut m: usize = 0;
    while m < trajectories.len()
        invariant
            m <= vs.len(),
            vs == views(trajectories@),
            points_below(vs, n),
            b0.len() == n,
            empty_board@.len() == n,
            forall|p: usize| (p as int) < n ==> b0[p as int] + live_count(vs, p) <= u32::MAX,
            forall|p: usize| (p as int) < n ==> #[trigger] empty_board@[p as int] == b0[p as int] + live_count(vs.take(m as int), p),
        decreases vs.len() - m,
    {
        let trajectory = &trajectories[m];
        assert(trajectory@ == vs[m as int]);
        if !trajectory.excluded() {
            let points = trajectory.points();
            let ghost pts = points@;
            let mut j: usize = 0;
            while j < points.len()
                invariant
                    m < vs.len(),
                    j <= pts.len(),
                    pts == points@,
                    pts == vs[m as int].points,
                    !vs[m as int].excluded,
                    points_below(vs, n),
                    b0.len() == n,
                    empty_board@.len() == n,
                    forall|p: usize| (p as int) < n ==> b0[p as int] + live_count(vs, p) <= u32::MAX,
                    forall|p: usize| (p as int) < n ==> #[trigger] empty_board@[p as int] == b0[p as int] + live_count(vs.take(m as int), p) + (if pts.take(j as int).contains(p) { 1nat } else { 0nat }),
                decreases pts.len() - j,
            {
                let pos = points[j];
                let ghost prev = empty_board@;
                proof {
                    assert(vs[m as int].points.no_duplicates());
                    assert((pts[j as int] as nat) < n);
                    lemma_take_push_contains(pts, j as int, pos);
                    assert(!pts.take(j as int).contains(pos)) by {
                        if pts.take(j as int).contains(pos) {
                            let u = choose|u: int| 0 <= u < j && pts.take(j as int)[u] == pos;
                            assert(pts[u] == pts[j as int]);
                        }
                    }
                    assert(pts.contains(pos)) by {
                        assert(pts[j as int] == pos);
                    }
                    lemma_live_count_step(vs, m as int, pos);
                    lemma_live_count_prefix(vs, m + 1, pos);
                    assert(prev[pos as int] == b0[pos as int] + live_count(vs.take(m as int), pos));
                }
                empty_board[pos] = empty_board[pos] + 1;
                proof {
                    assert forall|p: usize| (p as int) < n implies #[trigger] empty_board@[p as int] == b0[p as int] + live_count(vs.take(m as int), p) + (if pts.take(j + 1).contains(p) { 1nat } else { 0nat }) by {
                        lemma_take_push_contains(pts, j as int, p);
                        if p != pos {
                            assert(empty_board@[p as int] == prev[p as int]);
                        }
                    }
                }
                j = j + 1;
            }
            proof {
                assert(pts.take(pts.len() as int) =~= pts);
                assert forall|p: usize| (p as int) < n implies #[trigger] empty_board@[p as int] == b0[p as int] + live_count(vs.take(m + 1), p) by {
                    lemma_live_count_step(vs, m as int, p);
                }
            }
        } else {
            proof {
                assert forall|p: usize| (p as int) < n implies #[trigger] empty_board@[p as int] == b0[p as int] + live_count(vs.take(m + 1), p) by {
                    lemma_live_count_step(vs, m as int, p);
                }
            }
        }
        m = m + 1;
    }
    proof {
        assert(vs.take(vs.len() as int) =~= vs);
    }
}

/// Takes from each position the number of live trajectories that hold it.
fn deproject(trajectories: &Vec<Trajectory>, empty_board: &mut Vec<u32>)
    requires
        points_below(views(trajectories@), old(empty_board)@.len() as nat),
        forall|p: usize| (p as int) < old(empty_board)@.len() ==> old(empty_board)@[p as int] >= live_count(views(trajectories@), p),
    ensures
        final(empty_board)@.len() == old(empty_board)@.len(),
        forall|p: usize| (p as int) < old(empty_board)@.len() ==> #[trigger] final(empty_board)@[p as int] == old(empty_board)@[p as int] - live_count(views(trajectories@), p),
{
    let ghost vs = views(trajectories@);
    let ghost b0 = empty_board@;
    let ghost n: nat = empty_board@.len();
    let mut m: usize = 0;
    while m < trajectories.len()
        invariant
            m <= vs.len(),
            vs == views(trajectories@),
            points_below(vs, n),
            b0.len() == n,
            empty_board@.len() == n,
            forall|p: usize| (p as int) < n ==> b0[p as int] >= live_count(vs, p),
            forall|p: usize| (p as int) < n ==> #[trigger] empty_board@[p as int] == b0[p as int] - live_count(vs.take(m as int), p),
        decreases vs.len() - m,
    {
        let trajectory = &trajectories[m];
        assert(trajectory@ == vs[m as int]);
        if !trajectory.excluded() {
            let points = trajectory.points();
            let ghost pts = points@;
            let mut j: usize = 0;
            while j < points.len()
                invariant
                    m < vs.len(),
                    j <= pts.len(),
                    pts == points@,
                    pts == vs[m as int].points,
                    !vs[m as int].excluded,
                    points_below(vs, n),
                    b0.len() == n,
                    empty_board@.len() == n,
                    forall|p: usize| (p as int) < n ==> b0[p as int] >= live_count(vs, p),
                    forall|p: usize| (p as int) < n ==> #[trigger] empty_board@[p as int] == b0[p as int] - live_count(vs.take(m as int), p) - (if pts.take(j as int).contains(p) { 1nat } else { 0nat }),
                decreases pts.len() - j,
            {
                let pos = points[j];
                let ghost prev = empty_board@;
                proof {
                    assert(vs[m as int].points.no_duplicates());
                    assert((pts[j as int] as nat) < n);
                    lemma_take_push_contains(pts, j as int, pos);
                    assert(!pts.take(j as int).contains(pos)) by {
                        if pts.take(j as int).contains(pos) {
                            let u = choose|u: int| 0 <= u < j && pts.take(j as int)[u] == pos;
                            assert(pts[u] == pts[j as int]);
                        }
                    }
                    assert(pts.contains(pos)) by {
                        assert(pts[j as int] == pos);
                    }
                    lemma_live_count_step(vs, m as int, pos);
                    lemma_live_count_prefix(vs, m + 1, pos);
                    assert(prev[pos as int] == b0[pos as int] - live_count(vs.take(m as int), pos));
                }
                empty_board[pos] = empty_board[pos] - 1;
                proof {
                    assert forall|p: usize| (p as int) < n implies #[trigger] empty_board@[p as int] == b0[p as int] - live_count(vs.take(m as int), p) - (if pts.take(j + 1).contains(p) { 1nat } else { 0nat }) by {
                        lemma_take_push_contains(pts, j as int, p);
                        if p != pos {
                            assert(empty_board@[p as int] == prev[p as int]);
                        }
                    }
                }
                j = j + 1;
            }
            proof {
                assert(pts.take(pts.len() as int) =~= pts);
                assert forall|p: usize| (p as int) < n implies #[trigger] empty_board@[p as int] == b0[p as int] - live_count(vs.take(m + 1), p) by {
                    lemma_live_count_step(vs, m as int, p);
                }
            }
        } else {
            proof {
                assert forall|p: usize| (p as int) < n implies #[trigger] empty_board@[p as int] == b0[p as int] - live_count(vs.take(m + 1), p) by {
                    lemma_live_count_step(vs, m as int, p);
                }
            }
        }
        m = m + 1;
    }
    proof {
        assert(vs.take(vs.len() as int) =~= vs);
    }
}

/// One pass of the unnecessary-trajectory rule: in order, each live
/// trajectory with more than one point whose count is exactly one is
/// excluded, and its points' counts are lowered at once. `extra` holds what
/// the counts owe to trajectories outside this list.
fn exclude_unnecessary_trajectories(
    trajectories: &mut Vec<Trajectory>,
    empty_board: &mut Vec<u32>,
    Ghost(extra): Ghost<Seq<int>>,
) -> (r: bool)
    requires
        points_below(views(old(trajectories)@), old(empty_board)@.len() as nat),
        extra.len() == old(empty_board)@.len(),
        forall|i: int| 0 <= i < extra.len() ==> extra[i] >= 0,
        forall|p: usize| (p as int) < old(empty_board)@.len() ==> #[trigger] old(empty_board)@[p as int] == extra[p as int] + live_count(views(old(trajectories)@), p),
    ensures
        final(trajectories)@.len() == old(trajectories)@.len(),
        final(empty_board)@.len() == old(empty_board)@.len(),
        forall|k: int| 0 <= k < old(trajectories)@.len() ==> same_body(#[trigger] final(trajectories)@[k]@, old(trajectories)@[k]@),
        forall|k: int| 0 <= k < old(trajectories)@.len() ==> (#[trigger] final(trajectories)@[k])@.excluded == (old(trajectories)@[k]@.excluded
            || single_count(old(trajectories)@[k]@.points, extra, pass_state(views(old(trajectories)@), views(final(trajectories)@), k)) > 1),
        forall|p: usize| (p as int) < old(empty_board)@.len() ==> #[trigger] final(empty_board)@[p as int] == extra[p as int] + live_count(views(final(trajectories)@), p),
        !r ==> views(final(trajectories)@) == views(old(trajectories)@),
        r ==> exists|k: int| 0 <= k < old(trajectories)@.len() && !old(trajectories)@[k]@.excluded && final(trajectories)@[k]@.excluded,
{
    let ghost vs0 = views(trajectories@);
    let ghost n: nat = empty_board@.len();
    let mut need_exclude = false;
    let len = trajectories.len();
    let mut k: usize = 0;
    while k < len
        invariant
            k <= len,
            len == vs0.len(),
            trajectories@.len() == len,
            empty_board@.len() == n,
            extra.len() == n,
            forall|i: int| 0 <= i < extra.len() ==> extra[i] >= 0,
            points_below(vs0, n),
            forall|m: int| 0 <= m < len ==> same_body(#[trigger] views(trajectories@)[m], vs0[m]),
            forall|m: int| k <= m < len ==> #[trigger] views(trajectories@)[m] == vs0[m],
            forall|m: int| 0 <= m < k ==> (#[trigger] views(trajectories@)[m]).excluded == (vs0[m].excluded
                || single_count(vs0[m].points, extra, pass_state(vs0, views(trajectories@), m)) > 1),
            forall|p: usize| (p as int) < n ==> #[trigger] empty_board@[p as int] == extra[p as int] + live_count(views(trajectories@), p),
            !need_exclude ==> views(trajectories@) == vs0,
            need_exclude ==> exists|m: int| 0 <= m < len && !vs0[m].excluded && views(trajectories@)[m].excluded,
        decreases len - k,
    {
        let ghost cur = views(trajectories@);
        proof {
            assert(cur =~= pass_state(vs0, cur, k as int));
        }
        if !trajectories[k].excluded() {
            let points = trajectories[k].points();
            let ghost pts = points@;
            assert(pts == vs0[k as int].points);
            let mut single: usize = 0;
            let mut j: usize = 0;
            while j < points.len()
                invariant
                    j <= pts.len(),
                    pts == points@,
                    pts == vs0[k as int].points,
                    k < len,
                    len == vs0.len(),
                    points_below(vs0, n),
                    empty_board@.len() == n,
                    single <= j,
                    single == single_count(pts.take(j as int), extra, cur),
                    forall|p: usize| (p as int) < n ==> #[trigger] empty_board@[p as int] == extra[p as int] + live_count(cur, p),
                decreases pts.len() - j,
            {
                let pos = points[j];
                assert((pts[j as int] as nat) < n);
                assert(pts.take(j + 1).drop_last() =~= pts.take(j as int));
                if empty_board[pos] == 1 {
                    single = single + 1;
                }
                j = j + 1;
            }
            assert(pts.take(pts.len() as int) =~= pts);
            if single > 1 {
                let mut j: usize = 0;
                while j < points.len()
                    invariant
                        j <= pts.len(),
                        pts == points@,
                        pts == vs0[k as int].points,
                        pts == cur[k as int].points,
                        !cur[k as int].excluded,
                        k < len,
                        len == vs0.len(),
                        cur.len() == len,
                        extra.len() == n,
                        forall|i: int| 0 <= i < extra.len() ==> extra[i] >= 0,
                        points_below(vs0, n),
                        empty_board@.len() == n,
                        forall|p: usize| (p as int) < n ==> #[trigger] empty_board@[p as int] == extra[p as int] + live_count(cur, p) - (if pts.take(j as int).contains(p) { 1int } else { 0int }),
                    decreases pts.len() - j,
                {
                    let pos = points[j];
                    let ghost prev = empty_board@;
                    proof {
                        assert(vs0[k as int].points.no_duplicates());
                        assert((pts[j as int] as nat) < n);
                        lemma_take_push_contains(pts, j as int, pos);
                        assert(!pts.take(j as int).contains(pos)) by {
                            if pts.take(j as int).contains(pos) {
                                let u = choose|u: int| 0 <= u < j && pts.take(j as int)[u] == pos;
                                assert(pts[u] == pts[j as int]);
                            }
                        }
                        assert(pts.contains(pos)) by {
                            assert(pts[j as int] == pos);
                        }
                        lemma_live_count_exclude(cur, k as int, pos);
                        assert(prev[pos as int] == extra[pos as int] + live_count(cur, pos));
                    }
                    empty_board[pos] = empty_board[pos] - 1;
                    proof {
                        assert forall|p: usize| (p as int) < n implies #[trigger] empty_board@[p as int] == extra[p as int] + live_count(cur, p) - (if pts.take(j + 1).contains(p) { 1int } else { 0int }) by {
                            lemma_take_push_contains(pts, j as int, p);
                            if p != pos {
                                assert(empty_board@[p as int] == prev[p as int]);
                            }
                        }
                    }
                    j = j + 1;
                }
                trajectories[k].exclude();
                need_exclude = true;
                proof {
                    let t = TrajectoryView { excluded: true, ..cur[k as int] };
                    assert(views(trajectories@) =~= cur.update(k as int, t));
                    assert forall|p: usize| (p as int) < n implies #[trigger] empty_board@[p as int] == extra[p as int] + live_count(views(trajectories@), p) by {
                        lemma_live_count_exclude(cur, k as int, p);
                    }
                    assert forall|m: int| 0 <= m < k + 1 implies pass_state(vs0, views(trajectories@), m) == #[trigger] pass_state(vs0, cur, m) by {
                        assert(views(trajectories@).take(m) =~= cur.take(m));
                    }
                    assert(!vs0[k as int].excluded && views(trajectories@)[k as int].excluded);
                }
            } else {
                proof {
                    assert forall|m: int| 0 <= m < k + 1 implies pass_state(vs0, views(trajectories@), m) == #[trigger] pass_state(vs0, cur, m) by {
                    }
                }
            }
        } else {
            proof {
                assert forall|m: int| 0 <= m < k + 1 implies pass_state(vs0, views(trajectories@), m) == #[trigger] pass_state(vs0, cur, m) by {
                }
            }
        }
        k = k + 1;
    }
    proof {
        assert forall|m: int| 0 <= m < len implies same_body(#[trigger] trajectories@[m]@, vs0[m]) && trajectories@[m]@.excluded == (vs0[m].excluded
            || single_count(vs0[m].points, extra, pass_state(vs0, views(trajectories@), m)) > 1) by {
            assert(views(trajectories@)[m] == trajectories@[m]@);
        }
    }
    need_exclude
}

pub proof fn lemma_all_wf_points_below(ts: Seq<Trajectory>, table: Seq<u64>, n: nat)
    requires
        all_wf(ts, table, n),
    ensures
        points_below(views(ts), n),
{
    assert forall|m: int| 0 <= m < views(ts).len() implies {
        &&& (#[trigger] views(ts)[m]).points.no_duplicates()
        &&& forall|i: int| 0 <= i < views(ts)[m].points.len() ==> (views(ts)[m].points[i] as nat) < n
    } by {
        assert(views(ts)[m] == ts[m]@);
        assert(ts[m]@.wf(table, n));
    }
}

/// A pass over a list where no live trajectory is unnecessary leaves each
/// prefix of it unchanged.
proof fn lemma_quiet_pass(o: Seq<TrajectoryView>, f: Seq<TrajectoryView>, extra: Seq<int>, k: int)
    requires
        0 <= k <= o.len(),
        o.len() == f.len(),
        forall|m: int| 0 <= m < o.len() ==> same_body(#[trigger] f[m], o[m]),
        forall|m: int| 0 <= m < o.len() ==> (#[trigger] f[m]).excluded == (o[m].excluded || single_count(o[m].points, extra, pass_state(o, f, m)) > 1),
        forall|m: int| 0 <= m < o.len() && !(#[trigger] o[m]).excluded ==> single_count(o[m].points, extra, o) <= 1,
    ensures
        f.take(k) == o.take(k),
    decreases k,
{
    if k > 0 {
        let j = k - 1;
        lemma_quiet_pass(o, f, extra, j);
        assert(pass_state(o, f, j) =~= o) by {
            assert(o.take(j) + o.skip(j) =~= o);
        }
        assert(same_body(f[j], o[j]));
        assert(f[j] == o[j]);
        assert(f.take(k) =~= f.take(j).push(f[j]));
        assert(o.take(k) =~= o.take(j).push(o[j]));
    } else {
        assert(f.take(0) =~= o.take(0));
    }
}

/// A pass over the red list, as `exclude_unnecessary_trajectories` states
/// it with the black counts as `extra`, is `red_pass`.
proof fn lemma_pass_is_red_pass(o: Seq<TrajectoryView>, f: Seq<TrajectoryView>, other: Seq<TrajectoryView>, n: nat, k: int)
    requires
        0 <= k <= o.len(),
        o.len() == f.len(),
        points_below(o, n),
        forall|m: int| 0 <= m < o.len() ==> same_body(#[trigger] f[m], o[m]),
        forall|m: int| 0 <= m < o.len() ==> (#[trigger] f[m]).excluded == (o[m].excluded || single_count(o[m].points, counts_of(other, n), pass_state(o, f, m)) > 1),
    ensures
        red_pass(o, other, k as nat) == pass_state(o, f, k),
    decreases k,
{
    if k == 0 {
        assert(pass_state(o, f, 0) =~= o);
    } else {
        let j = k - 1;
        lemma_pass_is_red_pass(o, f, other, n, j);
        let p = pass_state(o, f, j);
        let t = o[j];
        assert(t.points.no_duplicates());
        lemma_single_count_private(t.points, counts_of(other, n), p, p, other);
        assert(same_body(f[j], o[j]));
        if !t.excluded && private_points(t.points, p, other) > 1 {
            assert(f[j] == TrajectoryView { excluded: true, ..t });
            assert(pass_state(o, f, k) =~= p.update(j, TrajectoryView { excluded: true, ..t }));
        } else {
            assert(f[j] == t);
            assert(pass_state(o, f, k) =~= p);
        }
    }
}

/// `lemma_pass_is_red_pass` for the black list.
proof fn lemma_pass_is_black_pass(red: Seq<TrajectoryView>, o: Seq<TrajectoryView>, f: Seq<TrajectoryView>, n: nat, k: int)
    requires
        0 <= k <= o.len(),
        o.len() == f.len(),
        points_below(o, n),
        forall|m: int| 0 <= m < o.len() ==> same_body(#[trigger] f[m], o[m]),
        forall|m: int| 0 <= m < o.len() ==> (#[trigger] f[m]).excluded == (o[m].excluded || single_count(o[m].points, counts_of(red, n), pass_state(o, f, m)) > 1),
    ensures
        black_pass(red, o, k as nat) == pass_state(o, f, k),
    decreases k,
{
    if k == 0 {
        assert(pass_state(o, f, 0) =~= o);
    } else {
        let j = k - 1;
        lemma_pass_is_black_pass(red, o, f, n, j);
        let p = pass_state(o, f, j);
        let t = o[j];
        assert(t.points.no_duplicates());
        lemma_single_count_private(t.points, counts_of(red, n), p, red, p);
        assert(same_body(f[j], o[j]));
        if !t.excluded && private_points(t.points, red, p) > 1 {
            assert(f[j] == TrajectoryView { excluded: true, ..t });
            assert(pass_state(o, f, k) =~= p.update(j, TrajectoryView { excluded: true, ..t }));
        } else {
            assert(f[j] == t);
            assert(pass_state(o, f, k) =~= p);
        }
    }
}

/// Each list with its composite trajectories marked excluded.
pub open spec fn composite_marks(vs: Seq<TrajectoryView>, table: Seq<u64>) -> Seq<TrajectoryView> {
    Seq::new(vs.len(), |k: int| TrajectoryView { excluded: vs[k].excluded || composite_v(vs, table, k), ..vs[k] })
}

/// The lists after both exclusion rules: composite marks, then, where the
/// counts fit the 32-bit scratch array, unnecessary-trajectory passes to the
/// fixpoint.
pub open spec fn prune_spec(red: Seq<TrajectoryView>, black: Seq<TrajectoryView>, table: Seq<u64>) -> (Seq<TrajectoryView>, Seq<TrajectoryView>) {
    let rc = composite_marks(red, table);
    let bc = composite_marks(black, table);
    if red.len() + black.len() <= u32::MAX {
        exclusion_rounds(rc, bc, (red.len() + black.len() + 1) as nat)
    } else {
        (rc, bc)
    }
}

/// Excludes composite trajectories in each list, then unnecessary ones over
/// both lists until none is left. The scratch array must be all zero and is
/// left so.
pub fn exclude_trajectories(
    red_trajectories: &mut Vec<Trajectory>,
    black_trajectories: &mut Vec<Trajectory>,
    zobrist: &Zobrist,
    empty_board: &mut Vec<u32>,
)
    requires
        all_wf(old(red_trajectories)@, zobrist@, old(empty_board)@.len() as nat),
        all_wf(old(black_trajectories)@, zobrist@, old(empty_board)@.len() as nat),
        all_zero(old(empty_board)@),
        old(red_trajectories)@.len() + old(black_trajectories)@.len() <= u32::MAX,
    ensures
        final(red_trajectories)@.len() == old(red_trajectories)@.len(),
        final(black_trajectories)@.len() == old(black_trajectories)@.len(),
        forall|k: int| 0 <= k < old(red_trajectories)@.len() ==> same_body(#[trigger] final(red_trajectories)@[k]@, old(red_trajectories)@[k]@),
        forall|k: int| 0 <= k < old(black_trajectories)@.len() ==> same_body(#[trigger] final(black_trajectories)@[k]@, old(black_trajectories)@[k]@),
        forall|k: int| 0 <= k < old(red_trajectories)@.len() && (old(red_trajectories)@[k]@.excluded || composite(old(red_trajectories)@, zobrist@, k))
            ==> (#[trigger] final(red_trajectories)@[k])@.excluded,
        forall|k: int| 0 <= k < old(black_trajectories)@.len() && (old(black_trajectories)@[k]@.excluded || composite(old(black_trajectories)@, zobrist@, k))
            ==> (#[trigger] final(black_trajectories)@[k])@.excluded,
        forall|k: int| 0 <= k < old(red_trajectories)@.len() && !(#[trigger] final(red_trajectories)@[k])@.excluded
            ==> !unnecessary(final(red_trajectories)@[k]@, views(final(red_trajectories)@), views(final(black_trajectories)@)),
        forall|k: int| 0 <= k < old(black_trajectories)@.len() && !(#[trigger] final(black_trajectories)@[k])@.excluded
            ==> !unnecessary(final(black_trajectories)@[k]@, views(final(red_trajectories)@), views(final(black_trajectories)@)),
        (forall|k: int| 0 <= k < old(red_trajectories)@.len() ==> !composite(old(red_trajectories)@, zobrist@, k))
            && (forall|k: int| 0 <= k < old(black_trajectories)@.len() ==> !composite(old(black_trajectories)@, zobrist@, k))
            && settled(PruningView { red: views(old(red_trajectories)@), black: views(old(black_trajectories)@) })
            ==> views(final(red_trajectories)@) == views(old(red_trajectories)@) && views(final(black_trajectories)@) == views(old(black_trajectories)@),
        (views(final(red_trajectories)@), views(final(black_trajectories)@)) == exclusion_rounds(
            composite_marks(views(old(red_trajectories)@), zobrist@),
            composite_marks(views(old(black_trajectories)@), zobrist@),
            (old(red_trajectories)@.len() + old(black_trajectories)@.len() + 1) as nat,
        ),
        final(empty_board)@ == old(empty_board)@,
{
    let ghost n: nat = empty_board@.len();
    let ghost quiet = (forall|k: int| 0 <= k < old(red_trajectories)@.len() ==> !composite(old(red_trajectories)@, zobrist@, k))
        && (forall|k: int| 0 <= k < old(black_trajectories)@.len() ==> !composite(old(black_trajectories)@, zobrist@, k))
        && settled(PruningView { red: views(old(red_trajectories)@), black: views(old(black_trajectories)@) });
    let ghost board0 = empty_board@;
    let ghost table = zobrist@;
    exclude_composite_trajectories(red_trajectories, zobrist, empty_board);
    exclude_composite_trajectories(black_trajectories, zobrist, empty_board);
    let ghost red_cv = red_trajectories@;
    let ghost black_cv = black_trajectories@;
    let ghost red_c = views(red_trajectories@);
    let ghost black_c = views(black_trajectories@);
    let ghost nr = red_c.len();
    let ghost nb = black_c.len();
    proof {
        assert(red_c =~= composite_marks(views(old(red_trajectories)@), table)) by {
            assert forall|k: int| 0 <= k < nr implies red_c[k] == composite_marks(views(old(red_trajectories)@), table)[k] by {
                assert(red_c[k] == red_cv[k]@);
                lemma_composite_views(old(red_trajectories)@, views(old(red_trajectories)@), table, k);
            }
        }
        assert(black_c =~= composite_marks(views(old(black_trajectories)@), table)) by {
            assert forall|k: int| 0 <= k < nb implies black_c[k] == composite_marks(views(old(black_trajectories)@), table)[k] by {
                assert(black_c[k] == black_cv[k]@);
                lemma_composite_views(old(black_trajectories)@, views(old(black_trajectories)@), table, k);
            }
        }
        lemma_live_total_len(red_c);
        lemma_live_total_len(black_c);
        if quiet {
            assert(red_c =~= views(old(red_trajectories)@)) by {
                assert forall|m: int| 0 <= m < nr implies red_c[m] == views(old(red_trajectories)@)[m] by {
                    assert(red_c[m] == red_cv[m]@);
                }
            }
            assert(black_c =~= views(old(black_trajectories)@)) by {
                assert forall|m: int| 0 <= m < nb implies black_c[m] == views(old(black_trajectories)@)[m] by {
                    assert(black_c[m] == black_cv[m]@);
                }
            }
        }
        assert(all_wf(red_trajectories@, table, n)) by {
            assert forall|m: int| 0 <= m < nr implies (#[trigger] red_trajectories@[m])@.wf(table, n) by {
                assert(old(red_trajectories)@[m]@.wf(table, n));
            }
        }
        assert(all_wf(black_trajectories@, table, n)) by {
            assert forall|m: int| 0 <= m < nb implies (#[trigger] black_trajectories@[m])@.wf(table, n) by {
                assert(old(black_trajectories)@[m]@.wf(table, n));
            }
        }
        lemma_all_wf_points_below(red_trajectories@, table, n);
        lemma_all_wf_points_below(black_trajectories@, table, n);
        assert forall|p: usize| (p as int) < n implies empty_board@[p as int] + live_count(red_c, p) <= u32::MAX by {
            lemma_live_count_prefix(red_c, 0, p);
        }
    }
    project(red_trajectories, empty_board);
    proof {
        assert forall|p: usize| (p as int) < n implies empty_board@[p as int] + live_count(black_c, p) <= u32::MAX by {
            lemma_live_count_prefix(red_c, 0, p);
            lemma_live_count_prefix(black_c, 0, p);
        }
    }
    project(black_trajectories, empty_board);
    let ghost goal = exclusion_rounds(red_c, black_c, (nr + nb + 1) as nat);
    let ghost mut fuel: nat = (nr + nb + 1) as nat;
    let mut go = true;
    while go
        invariant
            go ==> exclusion_rounds(views(red_trajectories@), views(black_trajectories@), fuel) == goal,
            go ==> fuel >= live_total(views(red_trajectories@)) + live_total(views(black_trajectories@)) + 1,
            !go ==> (views(red_trajectories@), views(black_trajectories@)) == goal,
            red_trajectories@.len() == nr,
            black_trajectories@.len() == nb,
            red_c.len() == nr,
            black_c.len() == nb,
            empty_board@.len() == n,
            points_below(red_c, n),
            points_below(black_c, n),
            forall|m: int| 0 <= m < nr ==> same_body(#[trigger] views(red_trajectories@)[m], red_c[m]),
            forall|m: int| 0 <= m < nb ==> same_body(#[trigger] views(black_trajectories@)[m], black_c[m]),
            forall|m: int| 0 <= m < nr && red_c[m].excluded ==> (#[trigger] views(red_trajectories@)[m]).excluded,
            forall|m: int| 0 <= m < nb && black_c[m].excluded ==> (#[trigger] views(black_trajectories@)[m]).excluded,
            forall|p: usize| (p as int) < n ==> #[trigger] empty_board@[p as int] == holders(views(red_trajectories@), views(black_trajectories@), p),
            !go ==> forall|m: int| 0 <= m < nr && !(#[trigger] views(red_trajectories@)[m]).excluded
                ==> !unnecessary(views(red_trajectories@)[m], views(red_trajectories@), views(black_trajectories@)),
            quiet ==> views(red_trajectories@) == red_c && views(black_trajectories@) == black_c,
            quiet ==> red_c == views(old(red_trajectories)@) && black_c == views(old(black_trajectories)@),
            quiet ==> settled(PruningView { red: red_c, black: black_c }),
            !go ==> forall|m: int| 0 <= m < nb && !(#[trigger] views(black_trajectories@)[m]).excluded
                ==> !unnecessary(views(black_trajectories@)[m], views(red_trajectories@), views(black_trajectories@)),
        decreases live_total(views(red_trajectories@)) + live_total(views(black_trajectories@)) + if go { 1int } else { 0int },
    {
        let ghost rv0 = red_trajectories@;
        let ghost r0 = views(red_trajectories@);
        let ghost b0 = views(black_trajectories@);
        proof {
            assert(points_below(r0, n)) by {
                assert forall|m: int| 0 <= m < r0.len() implies (#[trigger] r0[m]).points == red_c[m].points by {}
            }
        }
        let a = exclude_unnecessary_trajectories(red_trajectories, empty_board, Ghost(counts_of(b0, n)));
        let ghost r1 = views(red_trajectories@);
        proof {
            assert forall|m: int| 0 <= m < nr implies r0[m].excluded ==> (#[trigger] r1[m]).excluded by {
                assert(r1[m] == red_trajectories@[m]@);
            }
            lemma_live_total_monotone(r0, r1);
            if a {
                let k = choose|k: int| 0 <= k < nr && !rv0[k]@.excluded && red_trajectories@[k]@.excluded;
                assert(r0[k] == rv0[k]@);
                assert(r1[k] == red_trajectories@[k]@);
            }
            assert forall|m: int| 0 <= m < nr implies same_body(#[trigger] r1[m], red_c[m]) && (red_c[m].excluded ==> r1[m].excluded) by {
                assert(r1[m] == red_trajectories@[m]@);
                assert(r0[m] == rv0[m]@);
            }
            if quiet {
                let extra = counts_of(b0, n);
                assert forall|m: int| 0 <= m < nr && !(#[trigger] r0[m]).excluded implies single_count(r0[m].points, extra, r0) <= 1 by {
                    let v = PruningView { red: red_c, black: black_c };
                    assert(settled(v));
                    assert(!v.red[m].excluded);
                    assert(!unnecessary(v.red[m], v.red, v.black));
                    assert(r0[m].points == red_c[m].points);
                    lemma_single_count_private(r0[m].points, extra, r0, r0, b0);
                }
                assert forall|m: int| 0 <= m < nr implies same_body(#[trigger] r1[m], r0[m]) && r1[m].excluded == (r0[m].excluded || single_count(r0[m].points, extra, pass_state(r0, r1, m)) > 1) by {
                    assert(r1[m] == red_trajectories@[m]@);
                    assert(r0[m] == rv0[m]@);
                }
                lemma_quiet_pass(r0, r1, extra, nr as int);
                assert(r1 =~= r1.take(nr as int));
                assert(r0 =~= r0.take(nr as int));
                if a {
                    let k = choose|k: int| 0 <= k < nr && !rv0[k]@.excluded && red_trajectories@[k]@.excluded;
                    assert(r0[k] == rv0[k]@);
                    assert(r1[k] == red_trajectories@[k]@);
                }
            }
        }
        proof {
            assert forall|m: int| 0 <= m < nr implies same_body(#[trigger] r1[m], r0[m]) && r1[m].excluded == (r0[m].excluded || single_count(r0[m].points, counts_of(b0, n), pass_state(r0, r1, m)) > 1) by {
                assert(r1[m] == red_trajectories@[m]@);
                assert(r0[m] == rv0[m]@);
            }
            lemma_pass_is_red_pass(r0, r1, b0, n, nr as int);
            assert(pass_state(r0, r1, nr as int) =~= r1);
            if a {
                let k = choose|k: int| 0 <= k < nr && !rv0[k]@.excluded && red_trajectories@[k]@.excluded;
                assert(r0[k] == rv0[k]@);
                assert(r1[k] == red_trajectories@[k]@);
                assert(r1 != r0);
                fuel = (fuel - 1) as nat;
            } else {
                assert(r1 == r0);
            }
        }
        if !a {
            proof {
                assert(points_below(b0, n)) by {
                    assert forall|m: int| 0 <= m < b0.len() implies (#[trigger] b0[m]).points == black_c[m].points by {}
                }
            }
            let ghost bv0 = black_trajectories@;
            let b = exclude_unnecessary_trajectories(black_trajectories, empty_board, Ghost(counts_of(r1, n)));
            let ghost b1 = views(black_trajectories@);
            proof {
                assert forall|m: int| 0 <= m < nb implies b0[m].excluded ==> (#[trigger] b1[m]).excluded by {
                    assert(b1[m] == black_trajectories@[m]@);
                }
                lemma_live_total_monotone(b0, b1);
                if b {
                    let k = choose|k: int| 0 <= k < nb && !bv0[k]@.excluded && black_trajectories@[k]@.excluded;
                    assert(b0[k] == bv0[k]@);
                    assert(b1[k] == black_trajectories@[k]@);
                }
                assert forall|m: int| 0 <= m < nb implies same_body(#[trigger] b1[m], black_c[m]) && (black_c[m].excluded ==> b1[m].excluded) by {
                    assert(b1[m] == black_trajectories@[m]@);
                    assert(b0[m] == bv0[m]@);
                }
                if quiet {
                    let extra = counts_of(r1, n);
                    assert forall|m: int| 0 <= m < nb && !(#[trigger] b0[m]).excluded implies single_count(b0[m].points, extra, b0) <= 1 by {
                        assert(r1 == red_c);
                        let v = PruningView { red: red_c, black: black_c };
                        assert(settled(v));
                        assert(!v.black[m].excluded);
                        assert(!unnecessary(v.black[m], v.red, v.black));
                        assert(b0[m].points == black_c[m].points);
                        lemma_single_count_private(b0[m].points, extra, b0, r1, b0);
                    }
                    assert forall|m: int| 0 <= m < nb implies same_body(#[trigger] b1[m], b0[m]) && b1[m].excluded == (b0[m].excluded || single_count(b0[m].points, extra, pass_state(b0, b1, m)) > 1) by {
                        assert(b1[m] == black_trajectories@[m]@);
                        assert(b0[m] == bv0[m]@);
                    }
                    lemma_quiet_pass(b0, b1, extra, nb as int);
                    assert(b1 =~= b1.take(nb as int));
                    assert(b0 =~= b0.take(nb as int));
                    if b {
                        let k = choose|k: int| 0 <= k < nb && !bv0[k]@.excluded && black_trajectories@[k]@.excluded;
                        assert(b0[k] == bv0[k]@);
                        assert(b1[k] == black_trajectories@[k]@);
                    }
                }
            }
            proof {
                assert forall|m: int| 0 <= m < nb implies same_body(#[trigger] b1[m], b0[m]) && b1[m].excluded == (b0[m].excluded || single_count(b0[m].points, counts_of(r1, n), pass_state(b0, b1, m)) > 1) by {
                    assert(b1[m] == black_trajectories@[m]@);
                    assert(b0[m] == bv0[m]@);
                }
                lemma_pass_is_black_pass(r1, b0, b1, n, nb as int);
                assert(pass_state(b0, b1, nb as int) =~= b1);
                if b {
                    let k = choose|k: int| 0 <= k < nb && !bv0[k]@.excluded && black_trajectories@[k]@.excluded;
                    assert(b0[k] == bv0[k]@);
                    assert(b1[k] == black_trajectories@[k]@);
                    assert(b1 != b0);
                    fuel = (fuel - 1) as nat;
                } else {
                    assert(b1 == b0);
                }
            }
            if !b {
                go = false;
                proof {
                    assert(r1 == r0);
                    assert(b1 == b0);
                    assert forall|m: int| 0 <= m < nr && !(#[trigger] r1[m]).excluded implies !unnecessary(r1[m], r1, b1) by {
                        assert(r1[m] == red_trajectories@[m]@);
                        assert(pass_state(r0, r1, m) =~= r0);
                        assert(r0[m].points == red_c[m].points);
                        lemma_single_count_private(r0[m].points, counts_of(b0, n), r0, r1, b1);
                    }
                    assert forall|m: int| 0 <= m < nb && !(#[trigger] b1[m]).excluded implies !unnecessary(b1[m], r1, b1) by {
                        assert(b1[m] == black_trajectories@[m]@);
                        assert(pass_state(b0, b1, m) =~= b0);
                        assert(b0[m].points == black_c[m].points);
                        lemma_single_count_private(b0[m].points, counts_of(r1, n), b0, r1, b1);
                    }
                }
            }
        }
    }
    proof {
        assert forall|p: usize| (p as int) < n implies empty_board@[p as int] >= live_count(views(red_trajectories@), p) by {}
    }
    deproject(red_trajectories, empty_board);
    deproject(black_trajectories, empty_board);
    assert(n == empty_board.len());
    proof {
        assert forall|q: int| 0 <= q < n implies empty_board@[q] == board0[q] by {
            let u = q as usize;
            assert(u as int == q);
            assert(empty_board@[u as int] == 0);
        }
        assert(empty_board@ =~= board0);
        assert forall|k: int| 0 <= k < nr implies same_body(#[trigger] red_trajectories@[k]@, old(red_trajectories)@[k]@) by {
            assert(views(red_trajectories@)[k] == red_trajectories@[k]@);
        }
        assert forall|k: int| 0 <= k < nb implies same_body(#[trigger] black_trajectories@[k]@, old(black_trajectories)@[k]@) by {
            assert(views(black_trajectories@)[k] == black_trajectories@[k]@);
        }
        if quiet {
            assert(views(red_trajectories@) == views(old(red_trajectories)@));
            assert(views(black_trajectories@) == views(old(black_trajectories)@));
        }
        assert forall|k: int| 0 <= k < nr && !(#[trigger] red_trajectories@[k])@.excluded
            implies !unnecessary(red_trajectories@[k]@, views(red_trajectories@), views(black_trajectories@)) by {
            assert(views(red_trajectories@)[k] == red_trajectories@[k]@);
        }
        assert forall|k: int| 0 <= k < nb && !(#[trigger] black_trajectories@[k])@.excluded
            implies !unnecessary(black_trajectories@[k]@, views(red_trajectories@), views(black_trajectories@)) by {
            assert(views(black_trajectories@)[k] == black_trajectories@[k]@);
        }
        assert forall|k: int| 0 <= k < nr && (old(red_trajectories)@[k]@.excluded || composite(old(red_trajectories)@, table, k))
            implies (#[trigger] red_trajectories@[k])@.excluded by {
            assert(views(red_trajectories@)[k] == red_trajectories@[k]@);
            assert(red_c[k] == red_cv[k]@);
        }
        assert forall|k: int| 0 <= k < nb && (old(black_trajectories)@[k]@.excluded || composite(old(black_trajectories)@, table, k))
            implies (#[trigger] black_trajectories@[k])@.excluded by {
            assert(views(black_trajectories@)[k] == black_trajectories@[k]@);
            assert(black_c[k] == black_cv[k]@);
        }
    }
}

/// Appends to `result` the points of the live trajectories that it lacks,
/// marking each in `empty_board`.
fn collect_moves(trajectories: &Vec<Trajectory>, result: &mut Vec<usize>, empty_board: &mut Vec<u32>)
    requires
        points_below(views(trajectories@), old(empty_board)@.len() as nat),
        forall|i: int| 0 <= i < old(result)@.len() ==> (old(result)@[i] as int) < old(empty_board)@.len(),
        forall|p: usize| (p as int) < old(empty_board)@.len() ==> #[trigger] old(empty_board)@[p as int] == (if old(result)@.contains(p) { 1u32 } else { 0u32 }),
    ensures
        final(result)@ == extend_distinct(old(result)@, live_points(views(trajectories@))),
        final(empty_board)@.len() == old(empty_board)@.len(),
        forall|i: int| 0 <= i < final(result)@.len() ==> (final(result)@[i] as int) < old(empty_board)@.len(),
        forall|p: usize| (p as int) < old(empty_board)@.len() ==> #[trigger] final(empty_board)@[p as int] == (if final(result)@.contains(p) { 1u32 } else { 0u32 }),
{
    let ghost vs = views(trajectories@);
    let ghost acc = result@;
    let ghost n: nat = empty_board@.len();
    let mut m: usize = 0;
    while m < trajectories.len()
        invariant
            m <= vs.len(),
            vs == views(trajectories@),
            points_below(vs, n),
            empty_board@.len() == n,
            result@ == extend_distinct(acc, live_points(vs.take(m as int))),
            forall|i: int| 0 <= i < result@.len() ==> (result@[i] as int) < n,
            forall|p: usize| (p as int) < n ==> #[trigger] empty_board@[p as int] == (if result@.contains(p) { 1u32 } else { 0u32 }),
        decreases vs.len() - m,
    {
        let trajectory = &trajectories[m];
        assert(trajectory@ == vs[m as int]);
        assert(vs.take(m + 1).drop_last() =~= vs.take(m as int));
        if !trajectory.excluded() {
            let points = trajectory.points();
            let ghost pts = points@;
            let ghost base = live_points(vs.take(m as int));
            let mut j: usize = 0;
            while j < points.len()
                invariant
                    m < vs.len(),
                    j <= pts.len(),
                    pts == points@,
                    pts == vs[m as int].points,
                    points_below(vs, n),
                    empty_board@.len() == n,
                    result@ == extend_distinct(acc, base + pts.take(j as int)),
                    forall|i: int| 0 <= i < result@.len() ==> (result@[i] as int) < n,
                    forall|p: usize| (p as int) < n ==> #[trigger] empty_board@[p as int] == (if result@.contains(p) { 1u32 } else { 0u32 }),
                decreases pts.len() - j,
            {
                let pos = points[j];
                assert((pts[j as int] as nat) < n);
                assert((base + pts.take(j + 1)).drop_last() =~= base + pts.take(j as int));
                assert((base + pts.take(j + 1)).last() == pos);
                let ghost prev = empty_board@;
                let ghost prev_r = result@;
                if empty_board[pos] == 0 {
                    empty_board[pos] = 1;
                    result.push(pos);
                    proof {
                        assert forall|p: usize| (p as int) < n implies #[trigger] empty_board@[p as int] == (if result@.contains(p) { 1u32 } else { 0u32 }) by {
                            if p == pos {
                                assert(result@[prev_r.len() as int] == pos);
                            } else {
                                assert(empty_board@[p as int] == prev[p as int]);
                                if result@.contains(p) {
                                    let i = choose|i: int| 0 <= i < result@.len() && result@[i] == p;
                                    assert(prev_r[i] == p);
                                }
                                if prev_r.contains(p) {
                                    let i = choose|i: int| 0 <= i < prev_r.len() && prev_r[i] == p;
                                    assert(result@[i] == p);
                                }
                            }
                        }
                    }
                }
                j = j + 1;
            }
            assert(pts.take(pts.len() as int) =~= pts);
        }
        m = m + 1;
    }
    assert(vs.take(vs.len() as int) =~= vs);
}

/// The trajectories of both players.
pub struct PruningView {
    pub red: Seq<TrajectoryView>,
    pub black: Seq<TrajectoryView>,
}

/// Move pruning state of one board position: the forcing lines found for
/// each player.
pub struct TrajectoriesPruning {
    red_trajectories: Vec<Trajectory>,
    black_trajectories: Vec<Trajectory>,
}

impl View for TrajectoriesPruning {
    type V = PruningView;

    closed spec fn view(&self) -> PruningView {
        PruningView { red: views(self.red_trajectories@), black: views(self.black_trajectories@) }
    }
}

/// The candidate moves: each point of a live trajectory, red ones first, in
/// order of first occurrence.
pub open spec fn candidate_moves(v: PruningView) -> Seq<usize> {
    extend_distinct(extend_distinct(Seq::empty(), live_points(v.red)), live_points(v.black))
}

impl TrajectoriesPruning {
    /// The pruned candidate move list. The scratch array must be all zero;
    /// it is left so.
    pub fn calculate_moves(&self, empty_board: &mut Vec<u32>) -> (r: Vec<usize>)
        requires
            points_below(self@.red, old(empty_board)@.len() as nat),
            points_below(self@.black, old(empty_board)@.len() as nat),
            all_zero(old(empty_board)@),
        ensures
            r@ == candidate_moves(self@),
            final(empty_board)@ == old(empty_board)@,
    {
        let ghost n: nat = empty_board@.len();
        let ghost board0 = empty_board@;
        assert(n == empty_board.len());
        let mut result: Vec<usize> = Vec::new();
        proof {
            assert forall|p: usize| (p as int) < n implies #[trigger] empty_board@[p as int] == (if result@.contains(p) { 1u32 } else { 0u32 }) by {}
        }
        collect_moves(&self.red_trajectories, &mut result, empty_board);
        collect_moves(&self.black_trajectories, &mut result, empty_board);
        let ghost res = result@;
        proof {
            lemma_extend_distinct(Seq::empty(), live_points(self@.red));
            lemma_extend_distinct(extend_distinct(Seq::empty(), live_points(self@.red)), live_points(self@.black));
        }
        let mut i: usize = 0;
        while i < result.len()
            invariant
                i <= res.len(),
                result@ == res,
                res.no_duplicates(),
                empty_board@.len() == n,
                forall|k: int| 0 <= k < res.len() ==> (res[k] as int) < n,
                forall|p: usize| (p as int) < n ==> #[trigger] empty_board@[p as int] == (if res.contains(p) && !res.take(i as int).contains(p) { 1u32 } else { 0u32 }),
            decreases res.len() - i,
        {
            let pos = result[i];
            let ghost prev = empty_board@;
            empty_board[pos] = 0;
            proof {
                assert forall|p: usize| (p as int) < n implies #[trigger] empty_board@[p as int] == (if res.contains(p) && !res.take(i + 1).contains(p) { 1u32 } else { 0u32 }) by {
                    lemma_take_push_contains(res, i as int, p);
                    if p != pos {
                        assert(empty_board@[p as int] == prev[p as int]);
                    }
                }
            }
            i = i + 1;
        }
        proof {
            assert(res.take(res.len() as int) =~= res);
            assert forall|q: int| 0 <= q < n implies empty_board@[q] == board0[q] by {
                let u = q as usize;
                assert(u as int == q);
                assert(empty_board@[u as int] == 0);
            }
            assert(empty_board@ =~= board0);
        }
        result
    }
}

/// Every trajectory of `vs` is well formed.
pub open spec fn views_wf(vs: Seq<TrajectoryView>, table: Seq<u64>, n: nat) -> bool {
    forall|m: int| 0 <= m < vs.len() ==> (#[trigger] vs[m]).wf(table, n)
}

/// No two trajectories of `vs` share a hash.
pub open spec fn hashes_distinct(vs: Seq<TrajectoryView>) -> bool {
    forall|i: int, j: int| 0 <= i < j < vs.len() ==> (#[trigger] vs[i]).hash != (#[trigger] vs[j]).hash
}

/// A list as discovery leaves it: well formed, hashes distinct, none excluded.
pub open spec fn discovered(vs: Seq<TrajectoryView>, table: Seq<u64>, n: nat) -> bool {
    &&& views_wf(vs, table, n)
    &&& hashes_distinct(vs)
    &&& forall|m: int| 0 <= m < vs.len() ==> !(#[trigger] vs[m]).excluded
}

/// Well-formedness of a list is that of its views.
pub proof fn lemma_all_wf_views(ts: Seq<Trajectory>, table: Seq<u64>, n: nat)
    ensures
        all_wf(ts, table, n) == views_wf(views(ts), table, n),
{
    if all_wf(ts, table, n) {
        assert forall|m: int| 0 <= m < views(ts).len() implies (#[trigger] views(ts)[m]).wf(table, n) by {
            assert(views(ts)[m] == ts[m]@);
        }
    }
    if views_wf(views(ts), table, n) {
        assert forall|m: int| 0 <= m < ts.len() implies (#[trigger] ts[m])@.wf(table, n) by {
            assert(views(ts)[m] == ts[m]@);
        }
    }
}

/// `composite_pair` over views.
pub open spec fn composite_pair_v(vs: Seq<TrajectoryView>, table: Seq<u64>, k: int, i: int, j: int) -> bool {
    &&& 0 <= i < j < vs.len()
    &&& vs[k].points.len() > vs[i].points.len()
    &&& vs[k].points.len() > vs[j].points.len()
    &&& vs[k].hash == xor_hash(table, union_points(vs[i].points, vs[j].points))
}

/// Trajectory `k` of `vs` has the hash of the union of two strictly shorter
/// trajectories of `vs`.
pub open spec fn composite_v(vs: Seq<TrajectoryView>, table: Seq<u64>, k: int) -> bool {
    exists|i: int, j: int| #[trigger] composite_pair_v(vs, table, k, i, j)
}

/// `composite` depends on points and hashes alone.
pub proof fn lemma_composite_views(ts: Seq<Trajectory>, vs: Seq<TrajectoryView>, table: Seq<u64>, k: int)
    requires
        0 <= k < ts.len(),
        vs.len() == ts.len(),
        forall|m: int| 0 <= m < ts.len() ==> same_body(#[trigger] vs[m], ts[m]@),
    ensures
        composite_v(vs, table, k) == composite(ts, table, k),
{
    assert(same_body(vs[k], ts[k]@));
    if composite(ts, table, k) {
        let (i, j) = choose|i: int, j: int| #[trigger] composite_pair(ts, table, k, i, j);
        assert(same_body(vs[i], ts[i]@) && same_body(vs[j], ts[j]@));
        assert(composite_pair_v(vs, table, k, i, j));
    }
    if composite_v(vs, table, k) {
        let (i, j) = choose|i: int, j: int| #[trigger] composite_pair_v(vs, table, k, i, j);
        assert(same_body(vs[i], ts[i]@) && same_body(vs[j], ts[j]@));
        assert(composite_pair(ts, table, k, i, j));
    }
}

/// No live trajectory of `v` depends on more than one point of its own.
pub open spec fn settled(v: PruningView) -> bool {
    &&& forall|k: int| 0 <= k < v.red.len() && !(#[trigger] v.red[k]).excluded ==> !unnecessary(v.red[k], v.red, v.black)
    &&& forall|k: int| 0 <= k < v.black.len() && !(#[trigger] v.black[k]).excluded ==> !unnecessary(v.black[k], v.red, v.black)
}

/// What every pruning state satisfies: well-formed trajectories, every
/// composite one excluded, and, where the counts fit the 32-bit scratch
/// array, no live unnecessary one.
pub open spec fn pruned(v: PruningView, table: Seq<u64>, n: nat) -> bool {
    &&& views_wf(v.red, table, n)
    &&& views_wf(v.black, table, n)
    &&& forall|k: int| 0 <= k < v.red.len() && composite_v(v.red, table, k) ==> (#[trigger] v.red[k]).excluded
    &&& forall|k: int| 0 <= k < v.black.len() && composite_v(v.black, table, k) ==> (#[trigger] v.black[k]).excluded
    &&& v.red.len() + v.black.len() <= u32::MAX ==> settled(v)
}

/// The trajectories of `player` in `v`.
pub open spec fn own(v: PruningView, player: Player) -> Seq<TrajectoryView> {
    match player {
        Player::Red => v.red,
        Player::Black => v.black,
    }
}

/// Same length and same bodies, entry by entry.
pub open spec fn same_bodies(a: Seq<TrajectoryView>, b: Seq<TrajectoryView>) -> bool {
    a.len() == b.len() && forall|m: int| 0 <= m < a.len() ==> same_body(#[trigger] a[m], b[m])
}

/// Runs the exclusion rules over two freshly gathered lists and wraps them.
fn finish(
    mut red: Vec<Trajectory>,
    mut black: Vec<Trajectory>,
    zobrist: &Zobrist,
    empty_board: &mut Vec<u32>,
) -> (r: TrajectoriesPruning)
    requires
        all_wf(red@, zobrist@, old(empty_board)@.len() as nat),
        all_wf(black@, zobrist@, old(empty_board)@.len() as nat),
        forall|m: int| 0 <= m < red@.len() ==> !(#[trigger] red@[m])@.excluded,
        forall|m: int| 0 <= m < black@.len() ==> !(#[trigger] black@[m])@.excluded,
        all_zero(old(empty_board)@),
    ensures
        same_bodies(r@.red, views(red@)),
        same_bodies(r@.black, views(black@)),
        pruned(r@, zobrist@, old(empty_board)@.len() as nat),
        (r@.red, r@.black) == prune_spec(views(red@), views(black@), zobrist@),
        final(empty_board)@ == old(empty_board)@,
{
    let ghost table = zobrist@;
    let ghost n: nat = empty_board@.len();
    let ghost red0 = red@;
    let ghost black0 = black@;
    if red.len() <= u32::MAX as usize && black.len() <= u32::MAX as usize - red.len() {
        exclude_trajectories(&mut red, &mut black, zobrist, empty_board);
        proof {
            let v = PruningView { red: views(red@), black: views(black@) };
            assert forall|m: int| 0 <= m < v.red.len() implies same_body(#[trigger] v.red[m], red0[m]@) by {
                assert(v.red[m] == red@[m]@);
            }
            assert forall|m: int| 0 <= m < v.black.len() implies same_body(#[trigger] v.black[m], black0[m]@) by {
                assert(v.black[m] == black@[m]@);
            }
            assert forall|m: int| 0 <= m < v.red.len() implies (#[trigger] v.red[m]).wf(table, n) by {
                assert(red0[m]@.wf(table, n));
            }
            assert forall|m: int| 0 <= m < v.black.len() implies (#[trigger] v.black[m]).wf(table, n) by {
                assert(black0[m]@.wf(table, n));
            }
            assert forall|k: int| 0 <= k < v.red.len() && composite_v(v.red, table, k) implies (#[trigger] v.red[k]).excluded by {
                lemma_composite_views(red0, v.red, table, k);
                assert(v.red[k] == red@[k]@);
            }
            assert forall|k: int| 0 <= k < v.black.len() && composite_v(v.black, table, k) implies (#[trigger] v.black[k]).excluded by {
                lemma_composite_views(black0, v.black, table, k);
                assert(v.black[k] == black@[k]@);
            }
            assert forall|k: int| 0 <= k < v.red.len() && !(#[trigger] v.red[k]).excluded implies !unnecessary(v.red[k], v.red, v.black) by {
                assert(v.red[k] == red@[k]@);
            }
            assert forall|k: int| 0 <= k < v.black.len() && !(#[trigger] v.black[k]).excluded implies !unnecessary(v.black[k], v.red, v.black) by {
                assert(v.black[k] == black@[k]@);
            }
        }
    } else {
        exclude_composite_trajectories(&mut red, zobrist, empty_board);
        exclude_composite_trajectories(&mut black, zobrist, empty_board);
        proof {
            let v = PruningView { red: views(red@), black: views(black@) };
            assert(v.red =~= composite_marks(views(red0), table)) by {
                assert forall|k: int| 0 <= k < v.red.len() implies v.red[k] == composite_marks(views(red0), table)[k] by {
                    assert(v.red[k] == red@[k]@);
                    lemma_composite_views(red0, views(red0), table, k);
                }
            }
            assert(v.black =~= composite_marks(views(black0), table)) by {
                assert forall|k: int| 0 <= k < v.black.len() implies v.black[k] == composite_marks(views(black0), table)[k] by {
                    assert(v.black[k] == black@[k]@);
                    lemma_composite_views(black0, views(black0), table, k);
                }
            }
            assert forall|m: int| 0 <= m < v.red.len() implies same_body(#[trigger] v.red[m], red0[m]@) && v.red[m].wf(table, n) by {
                assert(v.red[m] == red@[m]@);
                assert(red0[m]@.wf(table, n));
            }
            assert forall|m: int| 0 <= m < v.black.len() implies same_body(#[trigger] v.black[m], black0[m]@) && v.black[m].wf(table, n) by {
                assert(v.black[m] == black@[m]@);
                assert(black0[m]@.wf(table, n));
            }
            assert forall|k: int| 0 <= k < v.red.len() && composite_v(v.red, table, k) implies (#[trigger] v.red[k]).excluded by {
                lemma_composite_views(red0, v.red, table, k);
                assert(v.red[k] == red@[k]@);
            }
            assert forall|k: int| 0 <= k < v.black.len() && composite_v(v.black, table, k) implies (#[trigger] v.black[k]).excluded by {
                lemma_composite_views(black0, v.black, table, k);
                assert(v.black[k] == black@[k]@);
            }
        }
    }
    TrajectoriesPruning { red_trajectories: red, black_trajectories: black }
}

/// The entries of `vs` with at most `d` points, not excluded.
pub open spec fn kept(vs: Seq<TrajectoryView>, d: int) -> Seq<TrajectoryView>
    decreases vs.len(),
{
    if vs.len() == 0 {
        Seq::empty()
    } else if vs.last().points.len() <= d {
        kept(vs.drop_last(), d).push(TrajectoryView { excluded: false, ..vs.last() })
    } else {
        kept(vs.drop_last(), d)
    }
}

/// What becomes of an opponent's trajectory `t` of the parent position once
/// `last_pos` has been played, with a depth budget of `d`: it stays if it
/// fits the budget (one point more when it holds `last_pos`) and each of its
/// points is still open or is `last_pos`; `last_pos` then leaves it, and a
/// trajectory left empty is dropped.
pub open spec fn carried_one<B: Board>(field: B, t: TrajectoryView, d: int, last_pos: usize, table: Seq<u64>) -> Option<TrajectoryView> {
    let c = t.points.contains(last_pos);
    let len = t.points.len();
    if (len <= d || (len == d + 1 && c)) && (forall|i: int| 0 <= i < len ==> allowed_at(field, #[trigger] t.points[i]) || t.points[i] == last_pos) {
        if c {
            if len == 1 {
                None
            } else {
                Some(TrajectoryView { points: fresh_points(seq![last_pos], t.points), hash: t.hash ^ table[last_pos as int], excluded: false })
            }
        } else {
            Some(TrajectoryView { points: t.points, hash: t.hash, excluded: false })
        }
    } else {
        None
    }
}

/// `carried_one` over a whole list, in order.
pub open spec fn carried<B: Board>(field: B, vs: Seq<TrajectoryView>, d: int, last_pos: usize, table: Seq<u64>) -> Seq<TrajectoryView>
    decreases vs.len(),
{
    if vs.len() == 0 {
        Seq::empty()
    } else {
        let r = carried(field, vs.drop_last(), d, last_pos, table);
        match carried_one(field, vs.last(), d, last_pos, table) {
            Some(t) => r.push(t),
            None => r,
        }
    }
}

fn copy_points(v: &Vec<usize>) -> (r: Vec<usize>)
    ensures
        r@ == v@,
{
    let mut r: Vec<usize> = Vec::new();
    let mut i: usize = 0;
    while i < v.len()
        invariant
            i <= v@.len(),
            r@ == v@.take(i as int),
        decreases v@.len() - i,
    {
        r.push(v[i]);
        assert(r@ =~= v@.take(i + 1));
        i = i + 1;
    }
    assert(v@.take(v@.len() as int) =~= v@);
    r
}

fn points_without(v: &Vec<usize>, x: usize) -> (r: Vec<usize>)
    ensures
        r@ == fresh_points(seq![x], v@),
{
    let mut r: Vec<usize> = Vec::new();
    let mut i: usize = 0;
    while i < v.len()
        invariant
            i <= v@.len(),
            r@ == fresh_points(seq![x], v@.take(i as int)),
        decreases v@.len() - i,
    {
        let p = v[i];
        assert(v@.take(i + 1).drop_last() =~= v@.take(i as int));
        assert(seq![x].contains(p) == (p == x)) by {
            if p == x {
                assert(seq![x][0] == x);
            }
        }
        if p != x {
            r.push(p);
        }
        i = i + 1;
    }
    assert(v@.take(v@.len() as int) =~= v@);
    r
}

fn contains_point(v: &Vec<usize>, x: usize) -> (r: bool)
    ensures
        r == v@.contains(x),
{
    let mut i: usize = 0;
    while i < v.len()
        invariant
            i <= v@.len(),
            forall|k: int| 0 <= k < i ==> v@[k] != x,
        decreases v@.len() - i,
    {
        if v[i] == x {
            return true;
        }
        i = i + 1;
    }
    false
}

fn all_open_or<B: Board>(field: &B, v: &Vec<usize>, x: usize) -> (r: bool)
    ensures
        r == forall|i: int| 0 <= i < v@.len() ==> allowed_at(*field, #[trigger] v@[i]) || v@[i] == x,
{
    let mut i: usize = 0;
    while i < v.len()
        invariant
            i <= v@.len(),
            forall|k: int| 0 <= k < i ==> allowed_at(*field, #[trigger] v@[k]) || v@[k] == x,
        decreases v@.len() - i,
    {
        let p = v[i];
        if !field.is_putting_allowed(p) && p != x {
            return false;
        }
        i = i + 1;
    }
    true
}

/// Copies into `dst` the trajectories of `src` with at most `d` points.
fn keep_short(src: &Vec<Trajectory>, d: u32, dst: &mut Vec<Trajectory>)
    requires
        old(dst)@.len() == 0,
    ensures
        views(final(dst)@) == kept(views(src@), d as int),
{
    let ghost vs = views(src@);
    let mut m: usize = 0;
    while m < src.len()
        invariant
            m <= vs.len(),
            vs == views(src@),
            views(dst@) == kept(vs.take(m as int), d as int),
        decreases vs.len() - m,
    {
        let t = &src[m];
        assert(t@ == vs[m as int]);
        assert(vs.take(m + 1).drop_last() =~= vs.take(m as int));
        let ghost before = views(dst@);
        if t.len() <= d as usize {
            dst.push(Trajectory::new(copy_points(t.points()), t.hash()));
            assert(views(dst@) =~= before.push(TrajectoryView { excluded: false, ..vs[m as int] }));
        }
        m = m + 1;
    }
    assert(vs.take(vs.len() as int) =~= vs);
}

/// Carries the opponent's trajectories of the parent position into `dst`.
fn carry_over<B: Board>(field: &B, src: &Vec<Trajectory>, d: u32, last_pos: usize, dst: &mut Vec<Trajectory>)
    requires
        old(dst)@.len() == 0,
        has_keys(views(src@), hashes_of(*field)),
    ensures
        views(final(dst)@) == carried(*field, views(src@), d as int, last_pos, hashes_of(*field)),
{
    let ghost vs = views(src@);
    let ghost table = hashes_of(*field);
    let zobrist = field.zobrist();
    let mut m: usize = 0;
    while m < src.len()
        invariant
            m <= vs.len(),
            vs == views(src@),
            table == hashes_of(*field),
            zobrist@ == table,
            has_keys(vs, table),
            views(dst@) == carried(*field, vs.take(m as int), d as int, last_pos, table),
        decreases vs.len() - m,
    {
        let t = &src[m];
        assert(t@ == vs[m as int]);
        assert(vs.take(m + 1).drop_last() =~= vs.take(m as int));
        assert(vs.take(m + 1).last() == vs[m as int]);
        let ghost before = views(dst@);
        let len = t.len();
        let contains = contains_point(t.points(), last_pos);
        let fits = len <= d as usize || (len - 1 == d as usize && contains);
        if fits && all_open_or(field, t.points(), last_pos) {
            if contains {
                if len != 1 {
                    proof {
                        let i = choose|i: int| 0 <= i < t@.points.len() && t@.points[i] == last_pos;
                        assert((vs[m as int].points[i] as int) < table.len());
                    }
                    let h = t.hash() ^ zobrist.get_hash(last_pos);
                    dst.push(Trajectory::new(points_without(t.points(), last_pos), h));
                    assert(views(dst@) =~= before.push(carried_one(*field, vs[m as int], d as int, last_pos, table).unwrap()));
                }
            } else {
                dst.push(Trajectory::new(copy_points(t.points()), t.hash()));
                assert(views(dst@) =~= before.push(carried_one(*field, vs[m as int], d as int, last_pos, table).unwrap()));
            }
        }
        m = m + 1;
    }
    assert(vs.take(vs.len() as int) =~= vs);
}

/// Every point of every trajectory of `vs` has a key in `table`.
pub open spec fn has_keys(vs: Seq<TrajectoryView>, table: Seq<u64>) -> bool {
    forall|m: int, i: int| 0 <= m < vs.len() && 0 <= i < vs[m].points.len() ==> (#[trigger] vs[m].points[i] as int) < table.len()
}

/// Keeping the short trajectories keeps them well formed and live.
pub proof fn lemma_kept_wf(vs: Seq<TrajectoryView>, d: int, table: Seq<u64>, n: nat)
    requires
        views_wf(vs, table, n),
    ensures
        views_wf(kept(vs, d), table, n),
        forall|m: int| 0 <= m < kept(vs, d).len() ==> !(#[trigger] kept(vs, d)[m]).excluded,
    decreases vs.len(),
{
    if vs.len() > 0 {
        let d0 = vs.drop_last();
        assert forall|m: int| 0 <= m < d0.len() implies (#[trigger] d0[m]).wf(table, n) by {
            assert(d0[m] == vs[m]);
        }
        lemma_kept_wf(d0, d, table, n);
        assert(vs[vs.len() - 1].wf(table, n));
    }
}

/// Carrying trajectories over a move keeps them well formed and live:
/// taking the played point out takes its key out of the hash.
pub proof fn lemma_carried_wf<B: Board>(field: B, vs: Seq<TrajectoryView>, d: int, x: usize, table: Seq<u64>, n: nat)
    requires
        views_wf(vs, table, n),
    ensures
        views_wf(carried(field, vs, d, x, table), table, n),
        forall|m: int| 0 <= m < carried(field, vs, d, x, table).len() ==> !(#[trigger] carried(field, vs, d, x, table)[m]).excluded,
    decreases vs.len(),
{
    if vs.len() > 0 {
        let d0 = vs.drop_last();
        assert forall|m: int| 0 <= m < d0.len() implies (#[trigger] d0[m]).wf(table, n) by {
            assert(d0[m] == vs[m]);
        }
        lemma_carried_wf(field, d0, d, x, table, n);
        let t = vs.last();
        assert(vs[vs.len() - 1].wf(table, n));
        if t.points.contains(x) && t.points.len() != 1 {
            let f = fresh_points(seq![x], t.points);
            lemma_fresh_points(seq![x], t.points);
            lemma_shared_single(x, t.points);
            crate::hash_lemmas::lemma_xor_hash_split(table, seq![x], t.points);
            let i = choose|i: int| 0 <= i < t.points.len() && t.points[i] == x;
            assert(Seq::<usize>::empty().push(x) =~= seq![x]);
            assert(seq![x].drop_last() =~= Seq::<usize>::empty());
            let k = table[x as int];
            let hf = xor_hash(table, f);
            assert(xor_hash(table, Seq::<usize>::empty()) == 0);
            assert(seq![x].last() == x);
            assert(xor_hash(table, seq![x]) == 0 ^ k);
            assert(((0 ^ k) ^ hf) ^ k == hf) by (bit_vector);
            assert forall|j: int| 0 <= j < f.len() implies (f[j] as nat) < n && (f[j] as int) < table.len() by {
                assert(f.contains(f[j]));
                assert(t.points.contains(f[j]));
                let u = choose|u: int| 0 <= u < t.points.len() && t.points[u] == f[j];
            }
        }
    }
}

/// `mine` for `player`, `theirs` for the opponent.
pub open spec fn side(player: Player, mine: Seq<TrajectoryView>, theirs: Seq<TrajectoryView>, q: Player) -> Seq<TrajectoryView> {
    if q == player {
        mine
    } else {
        theirs
    }
}

/// With no trajectories, the exclusion rules leave nothing.
pub proof fn lemma_prune_empty(table: Seq<u64>)
    ensures
        prune_spec(Seq::empty(), Seq::empty(), table) == (Seq::<TrajectoryView>::empty(), Seq::<TrajectoryView>::empty()),
{
    let e = Seq::<TrajectoryView>::empty();
    assert(composite_marks(e, table) =~= e);
    assert(red_pass(e, e, 0) == e);
    assert(black_pass(e, e, 0) == e);
}

impl TrajectoriesPruning {
    /// A state with no trajectories.
    pub fn empty() -> (r: TrajectoriesPruning)
        ensures
            r@.red.len() == 0,
            r@.black.len() == 0,
    {
        TrajectoriesPruning { red_trajectories: Vec::new(), black_trajectories: Vec::new() }
    }

    /// Discovers the forcing lines of both players on `field` and prunes
    /// them: `player` gets the larger half of `depth`, the opponent the
    /// smaller. The board and the scratch array end as they began.
    pub fn new<B: Board>(field: &mut B, player: Player, depth: u32, empty_board: &mut Vec<u32>) -> (r: TrajectoriesPruning)
        requires
            all_zero(old(empty_board)@),
            length_of(*old(field)) <= old(empty_board)@.len(),
        ensures
            same_position(*final(field), *old(field)),
            final(empty_board)@ == old(empty_board)@,
            depth == 0 ==> r@.red.len() == 0 && r@.black.len() == 0,
            same_bodies(own(r@, player), found::<B>(old(field).model(), player, (depth as int + 1) / 2)),
            same_bodies(own(r@, player.spec_next()), found::<B>(old(field).model(), player.spec_next(), depth as int / 2)),
            (r@.red, r@.black) == ({
                let mine = found::<B>(old(field).model(), player, (depth as int + 1) / 2);
                let theirs = found::<B>(old(field).model(), player.spec_next(), depth as int / 2);
                prune_spec(side(player, mine, theirs, Player::Red), side(player, mine, theirs, Player::Black), hashes_of(*old(field)))
            }),
            hashes_distinct(r@.red),
            hashes_distinct(r@.black),
            pruned(r@, hashes_of(*old(field)), old(empty_board)@.len() as nat),
    {
        if depth == 0 {
            return TrajectoriesPruning::empty();
        }
        let ghost n: nat = empty_board@.len();
        let mut cur: Vec<Trajectory> = Vec::new();
        let mut enemy: Vec<Trajectory> = Vec::new();
        assert(views(cur@) =~= Seq::<TrajectoryView>::empty());
        let ghost m0 = field.model();
        assert(depth - depth / 2 == (depth as int + 1) / 2);
        build_trajectories(field, &mut cur, player, depth - depth / 2);
        build_trajectories(field, &mut enemy, player.next(), depth / 2);
        assert(views(cur@) == found::<B>(m0, player, (depth as int + 1) / 2));
        let zobrist = field.zobrist();
        let ghost table = zobrist@;
        proof {
            assert forall|m: int| 0 <= m < views(cur@).len() implies (#[trigger] views(cur@)[m]).wf(table, n) by {
                assert(views(cur@)[m].wf(table, length_of(*field)));
            }
            assert forall|m: int| 0 <= m < views(enemy@).len() implies (#[trigger] views(enemy@)[m]).wf(table, n) by {
                assert(views(enemy@)[m].wf(table, length_of(*field)));
            }
            lemma_all_wf_views(cur@, table, n);
            lemma_all_wf_views(enemy@, table, n);
            assert forall|m: int| 0 <= m < cur@.len() implies !(#[trigger] cur@[m])@.excluded by {
                assert(views(cur@)[m] == cur@[m]@);
            }
            assert forall|m: int| 0 <= m < enemy@.len() implies !(#[trigger] enemy@[m])@.excluded by {
                assert(views(enemy@)[m] == enemy@[m]@);
            }
        }
        let ghost vc = views(cur@);
        let ghost ve = views(enemy@);
        let r = match player {
            Player::Red => finish(cur, enemy, zobrist, empty_board),
            Player::Black => finish(enemy, cur, zobrist, empty_board),
        };
        proof {
            assert forall|i: int, j: int| 0 <= i < j < r@.red.len() implies (#[trigger] r@.red[i]).hash != (#[trigger] r@.red[j]).hash by {
                assert(same_body(r@.red[i], own(PruningView { red: if player == Player::Red { vc } else { ve }, black: ve }, Player::Red)[i]));
                assert(same_body(r@.red[j], own(PruningView { red: if player == Player::Red { vc } else { ve }, black: ve }, Player::Red)[j]));
            }
            assert forall|i: int, j: int| 0 <= i < j < r@.black.len() implies (#[trigger] r@.black[i]).hash != (#[trigger] r@.black[j]).hash by {
                assert(same_body(r@.black[i], (if player == Player::Red { ve } else { vc })[i]));
                assert(same_body(r@.black[j], (if player == Player::Red { ve } else { vc })[j]));
            }
            assert forall|m: int| 0 <= m < own(r@, player).len() implies same_body(#[trigger] own(r@, player)[m], vc[m]) by {}
            assert forall|m: int| 0 <= m < own(r@, player.spec_next()).len() implies same_body(#[trigger] own(r@, player.spec_next())[m], ve[m]) by {}
        }
        r
    }
}

/// Well-formed trajectories have keys for all their points.
pub proof fn lemma_wf_has_keys(vs: Seq<TrajectoryView>, table: Seq<u64>, n: nat)
    requires
        views_wf(vs, table, n),
    ensures
        has_keys(vs, table),
{
    assert forall|m: int, i: int| 0 <= m < vs.len() && 0 <= i < vs[m].points.len() implies (#[trigger] vs[m].points[i] as int) < table.len() by {
        assert(vs[m].wf(table, n));
    }
}

/// Facts that `finish` needs of a gathered list.
proof fn lemma_gathered(ts: Seq<Trajectory>, table: Seq<u64>, n: nat)
    requires
        views_wf(views(ts), table, n),
        forall|m: int| 0 <= m < views(ts).len() ==> !(#[trigger] views(ts)[m]).excluded,
    ensures
        all_wf(ts, table, n),
        forall|m: int| 0 <= m < ts.len() ==> !(#[trigger] ts[m])@.excluded,
{
    lemma_all_wf_views(ts, table, n);
    assert forall|m: int| 0 <= m < ts.len() implies !(#[trigger] ts[m])@.excluded by {
        assert(views(ts)[m] == ts[m]@);
    }
}

impl TrajectoriesPruning {
    /// Prunes again, for a new depth, the trajectories that `exists` found on
    /// the same board position, keeping those that fit the new budget.
    pub fn new_from_exists<B: Board>(
        field: &B,
        player: Player,
        depth: u32,
        empty_board: &mut Vec<u32>,
        exists: &TrajectoriesPruning,
    ) -> (r: TrajectoriesPruning)
        requires
            all_zero(old(empty_board)@),
            views_wf(exists@.red, hashes_of(*field), old(empty_board)@.len() as nat),
            views_wf(exists@.black, hashes_of(*field), old(empty_board)@.len() as nat),
        ensures
            final(empty_board)@ == old(empty_board)@,
            depth == 0 ==> r@.red.len() == 0 && r@.black.len() == 0,
            depth > 0 ==> same_bodies(own(r@, player), kept(own(exists@, player), (depth as int + 1) / 2)),
            depth / 2 == 0 ==> own(r@, player.spec_next()).len() == 0,
            depth / 2 > 0 ==> same_bodies(own(r@, player.spec_next()), kept(own(exists@, player.spec_next()), depth as int / 2)),
            pruned(r@, hashes_of(*field), old(empty_board)@.len() as nat),
            (r@.red, r@.black) == ({
                let mine = if depth > 0 { kept(own(exists@, player), (depth as int + 1) / 2) } else { Seq::empty() };
                let theirs = if depth / 2 > 0 { kept(own(exists@, player.spec_next()), depth as int / 2) } else { Seq::empty() };
                prune_spec(side(player, mine, theirs, Player::Red), side(player, mine, theirs, Player::Black), hashes_of(*field))
            }),
    {
        if depth == 0 {
            proof {
                lemma_prune_empty(hashes_of(*field));
            }
            return TrajectoriesPruning::empty();
        }
        let ghost n: nat = empty_board@.len();
        let cur_depth = depth - depth / 2;
        let enemy_depth = depth / 2;
        let (src_cur, src_enemy) = match player {
            Player::Red => (&exists.red_trajectories, &exists.black_trajectories),
            Player::Black => (&exists.black_trajectories, &exists.red_trajectories),
        };
        assert(views(src_cur@) == own(exists@, player));
        assert(views(src_enemy@) == own(exists@, player.spec_next()));
        let mut cur: Vec<Trajectory> = Vec::new();
        let mut enemy: Vec<Trajectory> = Vec::new();
        keep_short(src_cur, cur_depth, &mut cur);
        if enemy_depth > 0 {
            keep_short(src_enemy, enemy_depth, &mut enemy);
        }
        let zobrist = field.zobrist();
        let ghost table = zobrist@;
        proof {
            lemma_kept_wf(views(src_cur@), cur_depth as int, table, n);
            lemma_gathered(cur@, table, n);
            if enemy_depth > 0 {
                lemma_kept_wf(views(src_enemy@), enemy_depth as int, table, n);
            }
            assert(views(enemy@).len() == 0 ==> views(enemy@) =~= Seq::<TrajectoryView>::empty());
            lemma_gathered(enemy@, table, n);
        }
        let ghost vc = views(cur@);
        let ghost ve = views(enemy@);
        let r = match player {
            Player::Red => finish(cur, enemy, zobrist, empty_board),
            Player::Black => finish(enemy, cur, zobrist, empty_board),
        };
        proof {
            assert forall|m: int| 0 <= m < own(r@, player).len() implies same_body(#[trigger] own(r@, player)[m], kept(own(exists@, player), (depth as int + 1) / 2)[m]) by {
                assert(same_body(own(r@, player)[m], vc[m]));
            }
            if enemy_depth > 0 {
                assert forall|m: int| 0 <= m < own(r@, player.spec_next()).len() implies same_body(#[trigger] own(r@, player.spec_next())[m], kept(own(exists@, player.spec_next()), depth as int / 2)[m]) by {
                    assert(same_body(own(r@, player.spec_next())[m], ve[m]));
                }
            }
        }
        r
    }

    /// Derives the state of the position reached by playing `last_pos` from
    /// the state `last` of the position before it: the mover's trajectories
    /// are discovered afresh, the opponent's are carried over from `last`.
    /// The board and the scratch array end as they began.
    pub fn new_from_last<B: Board>(
        field: &mut B,
        player: Player,
        depth: u32,
        empty_board: &mut Vec<u32>,
        last: &TrajectoriesPruning,
        last_pos: usize,
    ) -> (r: TrajectoriesPruning)
        requires
            all_zero(old(empty_board)@),
            length_of(*old(field)) <= old(empty_board)@.len(),
            views_wf(last@.red, hashes_of(*old(field)), old(empty_board)@.len() as nat),
            views_wf(last@.black, hashes_of(*old(field)), old(empty_board)@.len() as nat),
        ensures
            same_position(*final(field), *old(field)),
            final(empty_board)@ == old(empty_board)@,
            depth == 0 ==> r@.red.len() == 0 && r@.black.len() == 0,
            same_bodies(own(r@, player), found::<B>(old(field).model(), player, (depth as int + 1) / 2)),
            hashes_distinct(own(r@, player)),
            depth / 2 == 0 ==> own(r@, player.spec_next()).len() == 0,
            depth / 2 > 0 ==> same_bodies(
                own(r@, player.spec_next()),
                carried(*old(field), own(last@, player.spec_next()), depth as int / 2, last_pos, hashes_of(*old(field))),
            ),
            pruned(r@, hashes_of(*old(field)), old(empty_board)@.len() as nat),
            (r@.red, r@.black) == ({
                let mine = found::<B>(old(field).model(), player, (depth as int + 1) / 2);
                let theirs = if depth / 2 > 0 {
                    carried(*old(field), own(last@, player.spec_next()), depth as int / 2, last_pos, hashes_of(*old(field)))
                } else {
                    Seq::empty()
                };
                prune_spec(side(player, mine, theirs, Player::Red), side(player, mine, theirs, Player::Black), hashes_of(*old(field)))
            }),
    {
        if depth == 0 {
            proof {
                lemma_prune_empty(hashes_of(*field));
            }
            return TrajectoriesPruning::empty();
        }
        let ghost n: nat = empty_board@.len();
        let mut cur: Vec<Trajectory> = Vec::new();
        let mut enemy: Vec<Trajectory> = Vec::new();
        let enemy_depth = depth / 2;
        let src_enemy = match player {
            Player::Red => &last.black_trajectories,
            Player::Black => &last.red_trajectories,
        };
        assert(views(src_enemy@) == own(last@, player.spec_next()));
        let ghost f0 = *field;
        if enemy_depth > 0 {
            proof {
                lemma_wf_has_keys(views(src_enemy@), hashes_of(*field), n);
            }
            carry_over(field, src_enemy, enemy_depth, last_pos, &mut enemy);
        }
        assert(depth - depth / 2 == (depth as int + 1) / 2);
        build_trajectories(field, &mut cur, player, depth - depth / 2);
        let zobrist = field.zobrist();
        let ghost table = zobrist@;
        proof {
            assert forall|m: int| 0 <= m < views(cur@).len() implies (#[trigger] views(cur@)[m]).wf(table, n) by {
                assert(views(cur@)[m].wf(table, length_of(*field)));
            }
            lemma_gathered(cur@, table, n);
            if enemy_depth > 0 {
                lemma_carried_wf(f0, views(src_enemy@), enemy_depth as int, last_pos, table, n);
            }
            assert(views(enemy@).len() == 0 ==> views(enemy@) =~= Seq::<TrajectoryView>::empty());
            lemma_gathered(enemy@, table, n);
        }
        let ghost vc = views(cur@);
        let ghost ve = views(enemy@);
        let r = match player {
            Player::Red => finish(cur, enemy, zobrist, empty_board),
            Player::Black => finish(enemy, cur, zobrist, empty_board),
        };
        proof {
            assert forall|i: int, j: int| 0 <= i < j < own(r@, player).len() implies (#[trigger] own(r@, player)[i]).hash != (#[trigger] own(r@, player)[j]).hash by {
                assert(same_body(own(r@, player)[i], vc[i]));
                assert(same_body(own(r@, player)[j], vc[j]));
            }
            assert forall|m: int| 0 <= m < own(r@, player).len() implies same_body(#[trigger] own(r@, player)[m], vc[m]) by {}
            if enemy_depth > 0 {
                assert forall|m: int| 0 <= m < own(r@, player.spec_next()).len() implies same_body(#[trigger] own(r@, player.spec_next())[m], ve[m]) by {
                }
            }
        }
        r
    }
}

/// A state without trajectories offers no candidate move; with a depth of
/// zero, `new` makes such a state.
pub proof fn lemma_no_trajectories_no_moves(v: PruningView)
    requires
        v.red.len() == 0,
        v.black.len() == 0,
    ensures
        candidate_moves(v).len() == 0,
{
}

/// The candidate moves hold no position twice, and a position is among them
/// exactly when some trajectory that is not excluded holds it: a point that
/// only excluded trajectories hold is never offered.
pub proof fn lemma_candidate_moves(v: PruningView)
    ensures
        candidate_moves(v).no_duplicates(),
        forall|p: usize| candidate_moves(v).contains(p) <==> (
            (exists|m: int| 0 <= m < v.red.len() && !v.red[m].excluded && (#[trigger] v.red[m]).points.contains(p))
            || (exists|m: int| 0 <= m < v.black.len() && !v.black[m].excluded && (#[trigger] v.black[m]).points.contains(p))),
{
    let e = Seq::<usize>::empty();
    lemma_extend_distinct(e, live_points(v.red));
    lemma_extend_distinct(extend_distinct(e, live_points(v.red)), live_points(v.black));
    assert forall|p: usize| candidate_moves(v).contains(p) <==> (
        (exists|m: int| 0 <= m < v.red.len() && !v.red[m].excluded && (#[trigger] v.red[m]).points.contains(p))
        || (exists|m: int| 0 <= m < v.black.len() && !v.black[m].excluded && (#[trigger] v.black[m]).points.contains(p))) by {
        lemma_live_points_contains(v.red, p);
        lemma_live_points_contains(v.black, p);
    }
}

impl TrajectoriesPruning {
    /// The trajectories of `player`.
    pub fn trajectories(&self, player: Player) -> (r: &Vec<Trajectory>)
        ensures
            views(r@) == own(self@, player),
    {
        match player {
            Player::Red => &self.red_trajectories,
            Player::Black => &self.black_trajectories,
        }
    }
}

} // verus!
