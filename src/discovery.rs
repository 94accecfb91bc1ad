use vstd::prelude::*;
use crate::board::{hashes_of, length_of, moves_of, same_position, Board};
use crate::live_counts::{lemma_recent_push, recent};
use crate::player::Player;
use crate::trajectories_pruning::{discovered, views, Trajectory, TrajectoryView};
use crate::hash_lemmas::lemma_xor_hash_order_independent;
use crate::zobrist::xor_hash;

verus! {

/// Whether a move of `player` on `pos` may continue a line whose first
/// `cur_depth - 1` moves are the last moves of `m`: the first move must touch
/// a stone of `player`, a later one the group of the move before it.
pub open spec fn extends<B: Board>(m: B::Model, pos: usize, player: Player, cur_depth: int) -> bool {
    if cur_depth > 1 {
        B::near_group(m, pos, player, B::group(m, B::moves(m).last()))
    } else {
        B::near_point(m, pos, player)
    }
}

/// `list` with the last `cur_depth` moves of `m` recorded as a trajectory,
/// unless a trajectory of the same hash is there already.
pub open spec fn record<B: Board>(m: B::Model, list: Seq<TrajectoryView>, cur_depth: int) -> Seq<TrajectoryView> {
    let pts = recent(B::moves(m), cur_depth);
    let h = xor_hash(B::hashes(m), pts);
    if exists|k: int| 0 <= k < list.len() && (#[trigger] list[k]).hash == h {
        list
    } else {
        list.push(TrajectoryView { points: pts, hash: h, excluded: false })
    }
}

/// The search for forcing lines of `player`, from position `pos` to the
/// last one, on the board `m` whose last `cur_depth - 1` moves are the line so
/// far; `valid` tells whether each of those moves lay inside the board and
/// touched two groups of `player` when it was played. A move that is allowed,
/// outside the player's own empty base and continuing the line is played;
/// if it captures, the line is recorded (when every move of it is valid);
/// otherwise the search goes one move deeper while depth is left and the move
/// is not in the opponent's empty base.
pub open spec fn scan<B: Board>(
    m: B::Model,
    list: Seq<TrajectoryView>,
    player: Player,
    cur_depth: int,
    depth: nat,
    valid: bool,
    pos: int,
) -> Seq<TrajectoryView>
    decreases depth, (if 0 <= pos <= B::last_position(m) { B::last_position(m) + 1 - pos } else { 0 }) as nat,
{
    if pos < 0 || pos > B::last_position(m) {
        list
    } else {
        let p = pos as usize;
        let next = if B::allowed(m, p) && !B::empty_base(m, p, player) && extends::<B>(m, p, player, cur_depth) {
            let m2 = B::after_put(m, p, player);
            let ok = valid && B::bound(m2, p) && B::near_groups(m2, p, player) >= 2;
            if B::delta_score(m2, player) > 0 {
                if ok {
                    record::<B>(m2, list, cur_depth)
                } else {
                    list
                }
            } else if !B::empty_base(m, p, player.spec_next()) && depth > 0 {
                scan::<B>(m2, list, player, cur_depth + 1, (depth - 1) as nat, ok, B::first_position(m2) as int)
            } else {
                list
            }
        } else {
            list
        };
        scan::<B>(m, next, player, cur_depth, depth, valid, pos + 1)
    }
}

/// The forcing lines of `player` of at most `d` moves on the board `m`.
pub open spec fn found<B: Board>(m: B::Model, player: Player, d: int) -> Seq<TrajectoryView> {
    if d > 0 {
        scan::<B>(m, Seq::empty(), player, 1, (d - 1) as nat, true, B::first_position(m) as int)
    } else {
        Seq::empty()
    }
}

/// Records the moves from index `start` on as a trajectory, unless a
/// trajectory with the same hash is already recorded.
fn add_trajectory<B: Board>(field: &B, trajectories: &mut Vec<Trajectory>, start: usize)
    requires
        start <= moves_of(*field).len(),
        moves_of(*field).skip(start as int).no_duplicates(),
        forall|k: int| 0 <= k < moves_of(*field).skip(start as int).len() ==> (moves_of(*field).skip(start as int)[k] as nat) < length_of(*field),
        discovered(views(old(trajectories)@), hashes_of(*field), length_of(*field)),
    ensures
        views(final(trajectories)@) == record::<B>(field.model(), views(old(trajectories)@), moves_of(*field).len() - start),
        discovered(views(final(trajectories)@), hashes_of(*field), length_of(*field)),
{
    let ghost table = hashes_of(*field);
    let ghost pts = moves_of(*field).skip(start as int);
    let ghost t0 = views(trajectories@);
    proof {
        assert(pts == recent(moves_of(*field), moves_of(*field).len() - start));
    }
    let zobrist = field.zobrist();
    let len = field.moves_count();
    let mut hash: u64 = 0;
    let mut i: usize = start;
    while i < len
        invariant
            start <= i <= len,
            len == moves_of(*field).len(),
            pts == moves_of(*field).skip(start as int),
            zobrist@ == table,
            table == hashes_of(*field),
            length_of(*field) <= table.len(),
            forall|k: int| 0 <= k < pts.len() ==> (pts[k] as nat) < length_of(*field),
            hash == xor_hash(table, pts.take(i - start)),
        decreases len - i,
    {
        let pos = field.move_at(i);
        assert(pts[i - start] == pos);
        assert(pts.take(i + 1 - start).drop_last() =~= pts.take(i - start));
        hash = hash ^ zobrist.get_hash(pos);
        i = i + 1;
    }
    assert(pts.take(len - start) =~= pts);
    let mut m: usize = 0;
    while m < trajectories.len()
        invariant
            m <= trajectories@.len(),
            trajectories@ == old(trajectories)@,
            t0 == views(old(trajectories)@),
            forall|k: int| 0 <= k < m ==> (#[trigger] trajectories@[k])@.hash != hash,
            hash == xor_hash(hashes_of(*field), pts),
            pts == recent(moves_of(*field), moves_of(*field).len() - start),
            discovered(views(trajectories@), hashes_of(*field), length_of(*field)),
        decreases trajectories@.len() - m,
    {
        if trajectories[m].hash() == hash {
            assert(t0[m as int] == trajectories@[m as int]@);
            assert(t0[m as int].hash == xor_hash(hashes_of(*field), pts));
            return;
        }
        m = m + 1;
    }
    let mut points: Vec<usize> = Vec::new();
    let mut i: usize = start;
    while i < len
        invariant
            start <= i <= len,
            len == moves_of(*field).len(),
            pts == moves_of(*field).skip(start as int),
            points@ == pts.take(i - start),
        decreases len - i,
    {
        points.push(field.move_at(i));
        assert(points@ =~= pts.take(i + 1 - start));
        i = i + 1;
    }
    proof {
        assert forall|k: int| 0 <= k < t0.len() implies (#[trigger] t0[k]).hash != hash by {
            assert(t0[k] == old(trajectories)@[k]@);
        }
    }
    trajectories.push(Trajectory::new(points, hash));
    proof {
        assert(views(trajectories@) =~= t0.push(TrajectoryView { points: pts, hash, excluded: false }));
    }
}

/// Depth-bounded backtracking search for forcing lines of `player`. The
/// last `cur_depth - 1` moves on the board are the line so far; every move
/// tried is taken back before the next one, so the board ends as it began.
fn build_trajectories_rec<B: Board>(
    field: &mut B,
    trajectories: &mut Vec<Trajectory>,
    player: Player,
    cur_depth: u32,
    depth: u32,
    valid: bool,
)
    requires
        1 <= cur_depth,
        cur_depth as int + depth as int <= u32::MAX,
        cur_depth - 1 <= moves_of(*old(field)).len(),
        cur_depth - 1 <= old(field).saved().len(),
        recent(moves_of(*old(field)), cur_depth - 1).no_duplicates(),
        valid ==> forall|k: int| 0 <= k < cur_depth - 1 ==> (#[trigger] recent(moves_of(*old(field)), cur_depth - 1)[k] as nat) < length_of(*old(field)),
        discovered(views(old(trajectories)@), hashes_of(*old(field)), length_of(*old(field))),
    ensures
        same_position(*final(field), *old(field)),
        views(final(trajectories)@) == scan::<B>(
            old(field).model(),
            views(old(trajectories)@),
            player,
            cur_depth as int,
            depth as nat,
            valid,
            B::first_position(old(field).model()) as int,
        ),
        discovered(views(final(trajectories)@), hashes_of(*old(field)), length_of(*old(field))),
    decreases depth,
{
    let ghost f0 = *field;
    let ghost m0 = field.model();
    let ghost target = scan::<B>(m0, views(trajectories@), player, cur_depth as int, depth as nat, valid, B::first_position(m0) as int);
    let min = field.min_pos();
    let max = field.max_pos();
    let mut pos = min;
    let mut finished = min > max;
    while !finished
        invariant
            same_position(*field, f0),
            m0 == f0.model(),
            max == B::last_position(m0),
            min <= pos,
            1 <= cur_depth,
            cur_depth as int + depth as int <= u32::MAX,
            cur_depth - 1 <= moves_of(f0).len(),
            cur_depth - 1 <= f0.saved().len(),
            recent(moves_of(f0), cur_depth - 1).no_duplicates(),
            valid ==> forall|k: int| 0 <= k < cur_depth - 1 ==> (#[trigger] recent(moves_of(f0), cur_depth - 1)[k] as nat) < length_of(f0),
            discovered(views(trajectories@), hashes_of(f0), length_of(f0)),
            !finished ==> pos <= max,
            !finished ==> target == scan::<B>(m0, views(trajectories@), player, cur_depth as int, depth as nat, valid, pos as int),
            finished ==> target == views(trajectories@),
        decreases max - pos + if finished { 0int } else { 1int },
    {
        let ghost before = views(trajectories@);
        let near = if cur_depth > 1 {
            let last_move = field.last_move().unwrap();
            let group = field.find_dsu_set(last_move);
            field.has_near_dsu_group(pos, player, group)
        } else {
            field.has_near_points(pos, player)
        };
        assert(near == extends::<B>(m0, pos, player, cur_depth as int));
        if field.is_putting_allowed(pos) && !field.is_players_empty_base(pos, player) && near {
            let enemy_base = field.is_players_empty_base(pos, player.next());
            field.put_point(pos, player);
            let ghost m2 = field.model();
            let ok = valid && field.is_bound(pos) && field.number_near_groups(pos, player) >= 2;
            proof {
                lemma_recent_push(moves_of(f0), cur_depth as int, pos);
                if ok {
                    assert forall|k: int| 0 <= k < cur_depth implies (#[trigger] recent(moves_of(*field), cur_depth as int)[k] as nat) < length_of(f0) by {
                        if k < cur_depth - 1 {
                            assert(recent(moves_of(*field), cur_depth as int)[k] == recent(moves_of(f0), cur_depth - 1)[k]);
                        }
                    }
                }
            }
            if field.get_delta_score(player) > 0 {
                if ok {
                    let start = field.moves_count() - cur_depth as usize;
                    proof {
                        assert(moves_of(*field).skip(start as int) == recent(moves_of(*field), cur_depth as int));
                    }
                    add_trajectory(field, trajectories, start);
                }
            } else if !enemy_base && depth > 0 {
                build_trajectories_rec(field, trajectories, player, cur_depth + 1, depth - 1, ok);
            }
            assert(views(trajectories@) == (if B::delta_score(m2, player) > 0 {
                if ok { record::<B>(m2, before, cur_depth as int) } else { before }
            } else if !B::empty_base(m0, pos, player.spec_next()) && depth > 0 {
                scan::<B>(m2, before, player, cur_depth + 1, (depth - 1) as nat, ok, B::first_position(m2) as int)
            } else {
                before
            }));
            field.undo();
            proof {
                assert(f0.saved().push(m0).drop_last() =~= f0.saved());
            }
        }
        if pos == max {
            proof {
                let after = views(trajectories@);
                assert(scan::<B>(m0, after, player, cur_depth as int, depth as nat, valid, pos + 1) == after);
            }
            finished = true;
        } else {
            pos = pos + 1;
        }
    }
}

/// Discovers the forcing lines of `player` of at most `depth` moves.
pub(crate) fn build_trajectories<B: Board>(field: &mut B, trajectories: &mut Vec<Trajectory>, player: Player, depth: u32)
    requires
        old(trajectories)@.len() == 0,
    ensures
        same_position(*final(field), *old(field)),
        views(final(trajectories)@) == found::<B>(old(field).model(), player, depth as int),
        discovered(views(final(trajectories)@), hashes_of(*old(field)), length_of(*old(field))),
{
    assert(views(trajectories@) =~= Seq::<TrajectoryView>::empty());
    if depth > 0 {
        proof {
            assert(recent(moves_of(*field), 0) =~= Seq::<usize>::empty());
        }
        build_trajectories_rec(field, trajectories, player, 1, depth - 1, true);
    }
}

/// The hash of a line depends on its set of points alone, so once a line is
/// recorded, the same points found in any other order are not recorded again.
pub proof fn lemma_record_order_independent<B: Board>(
    m1: B::Model,
    m2: B::Model,
    list: Seq<TrajectoryView>,
    c1: int,
    c2: int,
)
    requires
        B::hashes(m1) == B::hashes(m2),
        recent(B::moves(m1), c1).no_duplicates(),
        recent(B::moves(m2), c2).no_duplicates(),
        recent(B::moves(m1), c1).to_set() == recent(B::moves(m2), c2).to_set(),
    ensures
        xor_hash(B::hashes(m1), recent(B::moves(m1), c1)) == xor_hash(B::hashes(m2), recent(B::moves(m2), c2)),
        record::<B>(m2, record::<B>(m1, list, c1), c2) == record::<B>(m1, list, c1),
{
    let p1 = recent(B::moves(m1), c1);
    let p2 = recent(B::moves(m2), c2);
    lemma_xor_hash_order_independent(B::hashes(m1), p1, p2);
    let h = xor_hash(B::hashes(m1), p1);
    let l1 = record::<B>(m1, list, c1);
    if exists|k: int| 0 <= k < list.len() && (#[trigger] list[k]).hash == h {
        let k = choose|k: int| 0 <= k < list.len() && (#[trigger] list[k]).hash == h;
        assert(l1[k].hash == h);
    } else {
        assert(l1[list.len() as int].hash == h);
    }
}

} // verus!
